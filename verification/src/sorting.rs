//! The order of strings by their characters, and the stable sort of a list of strings.
use vstd::prelude::*;

verus! {

/// `a` comes before `b`: at the first place where they differ `a` has the smaller
/// character, or `a` ends there and `b` goes on.
pub open spec fn str_lt(a: Seq<char>, b: Seq<char>) -> bool
    decreases a.len(),
{
    if b.len() == 0 {
        false
    } else if a.len() == 0 {
        true
    } else if a[0] != b[0] {
        (a[0] as int) < (b[0] as int)
    } else {
        str_lt(a.drop_first(), b.drop_first())
    }
}

/// No string comes before itself.
pub proof fn lemma_lt_irreflexive(a: Seq<char>)
    ensures
        !str_lt(a, a),
    decreases a.len(),
{
    if a.len() > 0 {
        lemma_lt_irreflexive(a.drop_first());
    }
}

/// Of two different strings one comes before the other.
pub proof fn lemma_lt_total(a: Seq<char>, b: Seq<char>)
    ensures
        a == b || str_lt(a, b) || str_lt(b, a),
    decreases a.len(),
{
    if a.len() > 0 && b.len() > 0 {
        if a[0] == b[0] {
            lemma_lt_total(a.drop_first(), b.drop_first());
            if a.drop_first() == b.drop_first() {
                assert(a =~= seq![a[0]] + a.drop_first());
                assert(b =~= seq![b[0]] + b.drop_first());
            }
        }
    } else if a.len() == 0 && b.len() == 0 {
        assert(a =~= b);
    }
}

/// What comes before a string comes before all that the string comes before.
pub proof fn lemma_lt_transitive(a: Seq<char>, b: Seq<char>, c: Seq<char>)
    requires
        str_lt(a, b),
        str_lt(b, c),
    ensures
        str_lt(a, c),
    decreases a.len(),
{
    if a.len() > 0 && a[0] == b[0] && b[0] == c[0] {
        lemma_lt_transitive(a.drop_first(), b.drop_first(), c.drop_first());
    }
}

/// Whether `a` comes before `b`.
pub fn less(a: &Vec<char>, b: &Vec<char>) -> (r: bool)
    ensures
        r == str_lt(a@, b@),
{
    let mut i: usize = 0;
    proof {
        assert(a@.skip(0) =~= a@);
        assert(b@.skip(0) =~= b@);
    }
    while i < a.len() && i < b.len()
        invariant
            i <= a@.len(),
            i <= b@.len(),
            str_lt(a@, b@) == str_lt(a@.skip(i as int), b@.skip(i as int)),
        decreases a@.len() - i,
    {
        let x = a[i];
        let y = b[i];
        proof {
            let sa = a@.skip(i as int);
            let sb = b@.skip(i as int);
            assert(sa[0] == x && sb[0] == y);
            assert(sa.drop_first() =~= a@.skip(i + 1));
            assert(sb.drop_first() =~= b@.skip(i + 1));
        }
        if x != y {
            return x < y;
        }
        i += 1;
    }
    i < b.len()
}

/// The characters of each string of `keys`.
pub open spec fn key_views(keys: Seq<Vec<char>>) -> Seq<Seq<char>> {
    keys.map_values(|k: Vec<char>| k@)
}

/// Index `i` is to stand before index `j`: its string comes first, or they have the
/// same string and `i` is the smaller index.
pub open spec fn stands_before(keys: Seq<Seq<char>>, i: int, j: int) -> bool {
    str_lt(keys[i], keys[j]) || (keys[i] == keys[j] && i < j)
}

/// `r` lists the indices of `keys`, each once, in the order of their strings; indices
/// with the same string are in ascending order.
pub open spec fn is_order(keys: Seq<Seq<char>>, r: Seq<usize>) -> bool {
    &&& r.len() == keys.len()
    &&& forall|i: int| 0 <= i < r.len() ==> (#[trigger] r[i]) < keys.len()
    &&& forall|i: int, j: int|
        0 <= i < j < r.len() ==> stands_before(keys, (#[trigger] r[i]) as int, (#[trigger] r[j]) as int)
    &&& forall|x: usize| x < keys.len() ==> r.contains(x)
}

/// The list `sorted` with `x` put in behind the last index whose string does not come
/// after that of `x`.
pub open spec fn put_in(keys: Seq<Seq<char>>, sorted: Seq<usize>, x: usize) -> Seq<usize>
    decreases sorted.len(),
{
    if sorted.len() == 0 {
        seq![x]
    } else if str_lt(keys[x as int], keys[sorted.last() as int]) {
        put_in(keys, sorted.drop_last(), x).push(sorted.last())
    } else {
        sorted.push(x)
    }
}

/// The first `n` indices of `keys` in the order of their strings.
pub open spec fn order_of(keys: Seq<Seq<char>>, n: nat) -> Seq<usize>
    decreases n,
{
    if n == 0 {
        Seq::<usize>::empty()
    } else {
        put_in(keys, order_of(keys, (n - 1) as nat), (n - 1) as usize)
    }
}

/// The strings `strs` in order.
pub open spec fn sorted(strs: Seq<Seq<char>>) -> Seq<Seq<char>> {
    order_of(strs, strs.len()).map_values(|x: usize| strs[x as int])
}

/// The indices below `n`, each once, in the order of their strings with ties in
/// ascending order.
pub open spec fn is_order_below(keys: Seq<Seq<char>>, r: Seq<usize>, n: nat) -> bool {
    &&& r.len() == n
    &&& forall|i: int| 0 <= i < r.len() ==> (#[trigger] r[i]) < n
    &&& forall|i: int, j: int|
        0 <= i < j < r.len() ==> stands_before(keys, (#[trigger] r[i]) as int, (#[trigger] r[j]) as int)
    &&& forall|x: usize| x < n ==> r.contains(x)
}

/// Putting the next index into an ordered list leaves an ordered list.
pub proof fn lemma_put_in(keys: Seq<Seq<char>>, s: Seq<usize>, x: usize, bound: nat)
    requires
        x < keys.len(),
        bound <= x,
        forall|i: int| 0 <= i < s.len() ==> (#[trigger] s[i]) < bound,
        forall|i: int, j: int|
            0 <= i < j < s.len() ==> stands_before(keys, (#[trigger] s[i]) as int, (#[trigger] s[j]) as int),
    ensures
        put_in(keys, s, x).len() == s.len() + 1,
        forall|i: int|
            0 <= i < put_in(keys, s, x).len() ==> (#[trigger] put_in(keys, s, x)[i]) == x || s.contains(
                put_in(keys, s, x)[i],
            ),
        put_in(keys, s, x).contains(x),
        forall|y: usize| s.contains(y) ==> put_in(keys, s, x).contains(y),
        forall|i: int, j: int|
            0 <= i < j < put_in(keys, s, x).len() ==> stands_before(
                keys,
                (#[trigger] put_in(keys, s, x)[i]) as int,
                (#[trigger] put_in(keys, s, x)[j]) as int,
            ),
    decreases s.len(),
{
    let r = put_in(keys, s, x);
    if s.len() == 0 {
        assert(r[0] == x);
    } else if str_lt(keys[x as int], keys[s.last() as int]) {
        let t = s.drop_last();
        let q = put_in(keys, t, x);
        assert forall|i: int, j: int| 0 <= i < j < t.len() implies stands_before(
            keys,
            (#[trigger] t[i]) as int,
            (#[trigger] t[j]) as int,
        ) by {
            assert(t[i] == s[i] && t[j] == s[j]);
        }
        assert forall|i: int| 0 <= i < t.len() implies (#[trigger] t[i]) < bound by {
            assert(t[i] == s[i]);
        }
        lemma_put_in(keys, t, x, bound);
        let last = s.last();
        assert(r == q.push(last));
        assert forall|i: int| 0 <= i < r.len() implies (#[trigger] r[i]) == x || s.contains(r[i]) by {
            if i < q.len() {
                assert(r[i] == q[i]);
                if q[i] != x {
                    let k = choose|k: int| 0 <= k < t.len() && t[k] == q[i];
                    assert(s[k] == q[i]);
                }
            } else {
                assert(s[s.len() - 1] == last);
            }
        }
        assert(r.contains(x)) by {
            let k = choose|k: int| 0 <= k < q.len() && q[k] == x;
            assert(r[k] == x);
        }
        assert forall|y: usize| s.contains(y) implies r.contains(y) by {
            let k = choose|k: int| 0 <= k < s.len() && s[k] == y;
            if k < t.len() {
                assert(t[k] == y);
                assert(t.contains(y));
                assert(q.contains(y));
                let m = choose|m: int| 0 <= m < q.len() && q[m] == y;
                assert(r[m] == y);
            } else {
                assert(r[q.len() as int] == y);
            }
        }
        assert forall|i: int, j: int| 0 <= i < j < r.len() implies stands_before(
            keys,
            (#[trigger] r[i]) as int,
            (#[trigger] r[j]) as int,
        ) by {
            if j < q.len() {
                assert(r[i] == q[i] && r[j] == q[j]);
            } else {
                assert(r[j] == last);
                assert(r[i] == q[i]);
                if q[i] == x {
                } else {
                    let k = choose|k: int| 0 <= k < t.len() && t[k] == q[i];
                    assert(s[k] == q[i]);
                    assert(stands_before(keys, s[k] as int, s[s.len() - 1] as int));
                }
            }
        }
    } else {
        assert(r == s.push(x));
        assert(r[s.len() as int] == x);
        assert forall|i: int| 0 <= i < r.len() implies (#[trigger] r[i]) == x || s.contains(r[i]) by {
            if i < s.len() {
                assert(r[i] == s[i]);
            }
        }
        assert forall|y: usize| s.contains(y) implies r.contains(y) by {
            let k = choose|k: int| 0 <= k < s.len() && s[k] == y;
            assert(r[k] == y);
        }
        assert forall|i: int, j: int| 0 <= i < j < r.len() implies stands_before(
            keys,
            (#[trigger] r[i]) as int,
            (#[trigger] r[j]) as int,
        ) by {
            assert(r[i] == s[i]);
            if j < s.len() {
                assert(r[j] == s[j]);
            } else {
                let last = s.last();
                let a = keys[s[i] as int];
                let b = keys[last as int];
                let c = keys[x as int];
                // a is not after b, and b is not after c
                if i < s.len() - 1 {
                    assert(stands_before(keys, s[i] as int, s[s.len() - 1] as int));
                }
                lemma_lt_total(b, c);
                lemma_lt_total(a, c);
                if str_lt(c, a) {
                    if a == b {
                    } else {
                        assert(str_lt(a, b));
                        lemma_lt_transitive(c, a, b);
                    }
                }
            }
        }
    }
}

/// The ordered list of the first `n` indices holds each of them once, in the order of
/// their strings, and indices with the same string in ascending order.
pub proof fn lemma_order_of(keys: Seq<Seq<char>>, n: nat)
    requires
        n <= keys.len(),
        n <= usize::MAX,
    ensures
        is_order_below(keys, order_of(keys, n), n),
    decreases n,
{
    if n > 0 {
        let s = order_of(keys, (n - 1) as nat);
        let x = (n - 1) as usize;
        lemma_order_of(keys, (n - 1) as nat);
        lemma_put_in(keys, s, x, (n - 1) as nat);
        let r = put_in(keys, s, x);
        assert forall|i: int| 0 <= i < r.len() implies (#[trigger] r[i]) < n by {
            if r[i] != x {
                let k = choose|k: int| 0 <= k < s.len() && s[k] == r[i];
            }
        }
        assert forall|y: usize| y < n implies r.contains(y) by {
            if y != x {
                assert(s.contains(y));
            }
        }
    }
}

/// The stable sort lists every index once, in the order of the strings, and indices
/// with the same string in ascending order.
pub proof fn lemma_sorted_order(keys: Seq<Seq<char>>)
    requires
        keys.len() <= usize::MAX,
    ensures
        is_order(keys, order_of(keys, keys.len())),
{
    lemma_order_of(keys, keys.len());
}

/// Where `x` goes into `s`: behind position `p - 1`, when the strings from `p` on come
/// after that of `x` and the one before `p` does not.
pub proof fn lemma_put_in_at(keys: Seq<Seq<char>>, s: Seq<usize>, x: usize, p: int)
    requires
        0 <= p <= s.len(),
        forall|j: int| p <= j < s.len() ==> str_lt(keys[x as int], keys[(#[trigger] s[j]) as int]),
        p > 0 ==> !str_lt(keys[x as int], keys[s[p - 1] as int]),
    ensures
        put_in(keys, s, x) == s.insert(p, x),
    decreases s.len() - p,
{
    if p == s.len() {
        assert(s.insert(p, x) =~= s.push(x));
    } else {
        let t = s.drop_last();
        assert forall|j: int| p <= j < t.len() implies str_lt(
            keys[x as int],
            keys[(#[trigger] t[j]) as int],
        ) by {
            assert(t[j] == s[j]);
        }
        if p > 0 {
            assert(t[p - 1] == s[p - 1]);
        }
        assert(str_lt(keys[x as int], keys[s[s.len() - 1] as int]));
        lemma_put_in_at(keys, t, x, p);
        assert(s.insert(p, x) =~= t.insert(p, x).push(s.last()));
    }
}

/// The indices of `keys` in the order of their strings; indices with the same string
/// stay in ascending order.
pub fn order(keys: &Vec<Vec<char>>) -> (r: Vec<usize>)
    ensures
        r@ == order_of(key_views(keys@), keys@.len()),
        is_order(key_views(keys@), r@),
{
    let ghost all = key_views(keys@);
    let mut r: Vec<usize> = Vec::new();
    let mut n: usize = 0;
    while n < keys.len()
        invariant
            n <= keys@.len(),
            all == key_views(keys@),
            r@ == order_of(all, n as nat),
        decreases keys@.len() - n,
    {
        proof {
            lemma_order_of(all, n as nat);
        }
        let mut p: usize = r.len();
        while p > 0 && less(&keys[n], &keys[r[p - 1]])
            invariant
                p <= r@.len(),
                n < keys@.len(),
                all == key_views(keys@),
                is_order_below(all, r@, n as nat),
                forall|j: int| p <= j < r@.len() ==> str_lt(all[n as int], all[(#[trigger] r@[j]) as int]),
            decreases p,
        {
            p -= 1;
        }
        proof {
            lemma_put_in_at(all, r@, n, p as int);
        }
        r.insert(p, n);
        n += 1;
    }
    proof {
        lemma_sorted_order(all);
    }
    r
}

/// The numbers of `v`, which holds none twice, in ascending order.
pub fn sort_numbers(v: &Vec<usize>) -> (r: Vec<usize>)
    requires
        v@.no_duplicates(),
    ensures
        forall|i: int, j: int| 0 <= i < j < r@.len() ==> r@[i] < r@[j],
        forall|x: usize| r@.contains(x) <==> v@.contains(x),
{
    let mut r: Vec<usize> = Vec::new();
    let mut n: usize = 0;
    while n < v.len()
        invariant
            n <= v@.len(),
            v@.no_duplicates(),
            forall|i: int, j: int| 0 <= i < j < r@.len() ==> r@[i] < r@[j],
            forall|x: usize| r@.contains(x) <==> v@.take(n as int).contains(x),
        decreases v@.len() - n,
    {
        let x = v[n];
        let mut p: usize = r.len();
        while p > 0 && x < r[p - 1]
            invariant
                p <= r@.len(),
                forall|j: int| p <= j < r@.len() ==> x < r@[j],
            decreases p,
        {
            p -= 1;
        }
        let ghost before = r@;
        proof {
            assert(!before.contains(x)) by {
                if before.contains(x) {
                    let k = choose|k: int| 0 <= k < n && v@.take(n as int)[k] == x;
                    assert(v@[k] == v@[n as int]);
                }
            }
            if p > 0 {
                assert(before.contains(before[p - 1]));
            }
        }
        r.insert(p, x);
        proof {
            let done = v@.take(n as int);
            let next = v@.take(n + 1);
            assert(next =~= done.push(x));
            assert forall|y: usize| r@.contains(y) <==> next.contains(y) by {
                if r@.contains(y) {
                    let k = choose|k: int| 0 <= k < r@.len() && r@[k] == y;
                    if k < p {
                        assert(before[k] == y);
                        assert(before.contains(y));
                    } else if k > p {
                        assert(before[k - 1] == y);
                        assert(before.contains(y));
                    }
                    if y != x {
                        let t = choose|t: int| 0 <= t < done.len() && done[t] == y;
                        assert(next[t] == y);
                    } else {
                        assert(next[n as int] == x);
                    }
                }
                if next.contains(y) {
                    let t = choose|t: int| 0 <= t < next.len() && next[t] == y;
                    if t < n {
                        assert(done[t] == y);
                        assert(before.contains(y));
                        let k = choose|k: int| 0 <= k < before.len() && before[k] == y;
                        if k < p {
                            assert(r@[k] == y);
                        } else {
                            assert(r@[k + 1] == y);
                        }
                    } else {
                        assert(r@[p as int] == y);
                    }
                }
            }
            assert forall|i: int, j: int| 0 <= i < j < r@.len() implies r@[i] < r@[j] by {
                if j < p {
                    assert(r@[i] == before[i] && r@[j] == before[j]);
                } else if j == p {
                    assert(r@[i] == before[i]);
                    if p > 0 {
                        assert(before[i] <= before[p - 1]);
                        assert(before[p - 1] != x);
                    }
                } else if i == p {
                    assert(r@[j] == before[j - 1]);
                } else if i < p {
                    assert(r@[i] == before[i] && r@[j] == before[j - 1]);
                } else {
                    assert(r@[i] == before[i - 1] && r@[j] == before[j - 1]);
                }
            }
        }
        n += 1;
    }
    proof {
        assert(v@.take(n as int) =~= v@);
    }
    r
}

} // verus!
