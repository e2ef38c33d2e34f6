//! Text renderings of a closure, in an order that does not depend on how ids were
//! given out.
use vstd::prelude::*;
use vstd::string::*;
use crate::moduleref::ModuleRef;
use crate::sorting::{
    is_order, key_views, lemma_lt_irreflexive, order, order_of, sort_numbers, sorted,
    stands_before,
};
use crate::splice::{ascending, lemma_is_ascending_of};
use crate::text::{from_chars, join, to_chars};
use crate::transitive_closure::{numbers_of, TransitiveClosure};

verus! {

/// The hexadecimal digit for `d`, in lower case.
pub open spec fn digit(d: nat) -> char {
    "0123456789abcdef"@[d as int]
}

/// `n` in hexadecimal, without leading zeros.
pub open spec fn hex_of(n: nat) -> Seq<char>
    decreases n,
{
    if n < 16 {
        seq![digit(n)]
    } else {
        hex_of(n / 16).push(digit(n % 16))
    }
}

/// `h` with zeros in front to make at least four characters.
pub open spec fn padded(h: Seq<char>) -> Seq<char>
    decreases 4 - h.len(),
{
    if h.len() >= 4 {
        h
    } else {
        padded(seq!['0'] + h)
    }
}

/// `prefix` and `n` in hexadecimal with at least four digits.
pub open spec fn label(prefix: char, n: nat) -> Seq<char> {
    seq![prefix] + padded(hex_of(n))
}

/// A place of `x` in `order`.
pub open spec fn place(order: Seq<usize>, x: usize) -> int {
    choose|i: int| 0 <= i < order.len() && order[i] == x
}

/// In a list without repetitions a number has one place.
pub proof fn lemma_place(keys: Seq<Seq<char>>, order: Seq<usize>, i: int)
    requires
        is_order(keys, order),
        0 <= i < order.len(),
    ensures
        place(order, order[i]) == i,
{
    let k = place(order, order[i]);
    assert(0 <= k < order.len() && order[k] == order[i]);
    lemma_lt_irreflexive(keys[order[i] as int]);
    if k < i {
        assert(stands_before(keys, order[k] as int, order[i] as int));
    } else if i < k {
        assert(stands_before(keys, order[i] as int, order[k] as int));
    }
}

/// The label for `n` behind `prefix`.
pub fn label_chars(prefix: char, n: usize) -> (v: Vec<char>)
    ensures
        v@ == label(prefix, n as nat),
{
    let digits = to_chars("0123456789abcdef");
    proof {
        reveal_strlit("0123456789abcdef");
    }
    let mut v: Vec<char> = Vec::new();
    v.push(digits[n % 16]);
    let mut rest: usize = n / 16;
    proof {
        assert(v@ =~= seq![digit((n % 16) as nat)]);
        if n >= 16 {
            assert(hex_of(n as nat) =~= hex_of(rest as nat) + v@);
        }
    }
    while rest > 0
        invariant
            digits@ == "0123456789abcdef"@,
            digits@.len() == 16,
            hex_of(n as nat) == if rest > 0 {
                hex_of(rest as nat) + v@
            } else {
                v@
            },
        decreases rest,
    {
        let ghost before = v@;
        v.insert(0, digits[rest % 16]);
        proof {
            assert(v@ =~= seq![digit((rest % 16) as nat)] + before);
            if rest >= 16 {
                assert(hex_of(rest as nat) + before =~= hex_of((rest / 16) as nat) + v@);
            } else {
                assert(hex_of(rest as nat) + before =~= v@);
            }
        }
        rest = rest / 16;
    }
    while v.len() < 4
        invariant
            padded(hex_of(n as nat)) == padded(v@),
        decreases 4 - v@.len(),
    {
        let ghost before = v@;
        v.insert(0, '0');
        proof {
            assert(v@ =~= seq!['0'] + before);
        }
    }
    let ghost body = v@;
    v.insert(0, prefix);
    proof {
        assert(v@ =~= seq![prefix] + body);
    }
    v
}

/// Appends `piece` to `out`.
pub fn extend(out: &mut Vec<char>, piece: &Vec<char>)
    ensures
        final(out)@ == old(out)@ + piece@,
{
    let mut i: usize = 0;
    proof {
        assert(out@ =~= old(out)@ + piece@.take(0));
    }
    while i < piece.len()
        invariant
            i <= piece@.len(),
            out@ == old(out)@ + piece@.take(i as int),
        decreases piece@.len() - i,
    {
        out.push(piece[i]);
        proof {
            assert(out@ =~= old(out)@ + piece@.take(i + 1));
        }
        i += 1;
    }
    proof {
        assert(piece@.take(i as int) =~= piece@);
    }
}

/// Appends the characters of `s` to `out`.
pub fn extend_str(out: &mut Vec<char>, s: &str)
    ensures
        final(out)@ == old(out)@ + s@,
{
    let piece = to_chars(s);
    extend(out, &piece);
}

/// The strings `parts` in order, with a comma between neighbours.
pub fn sorted_join(parts: &Vec<Vec<char>>) -> (r: Vec<char>)
    ensures
        r@ == join(sorted(key_views(parts@)), ','),
{
    let by_text = order(parts);
    let ghost all = sorted(key_views(parts@));
    let mut r: Vec<char> = Vec::new();
    let mut i: usize = 0;
    proof {
        assert(all.take(0).len() == 0);
    }
    while i < by_text.len()
        invariant
            i <= by_text@.len(),
            by_text@ == order_of(key_views(parts@), parts@.len()),
            is_order(key_views(parts@), by_text@),
            all == sorted(key_views(parts@)),
            all.len() == by_text@.len(),
            r@ == join(all.take(i as int), ','),
        decreases by_text@.len() - i,
    {
        proof {
            assert(all.take(i + 1).drop_last() =~= all.take(i as int));
            assert(all.take(i + 1).last() == parts@[by_text@[i as int] as int]@);
            if i > 0 {
                assert(all.take(i + 1).len() >= 2);
            } else {
                assert(all.take(1)[0] == all.take(1).last());
            }
        }
        if i > 0 {
            r.push(',');
        }
        let ghost before = r@;
        extend(&mut r, &parts[by_text[i]]);
        proof {
            if i > 0 {
                assert(r@ =~= join(all.take(i as int), ',') + seq![','] + all.take(i + 1).last());
            } else {
                assert(r@ =~= all.take(1)[0]);
            }
        }
        i += 1;
    }
    proof {
        assert(all.take(i as int) =~= all);
    }
    r
}

/// For each number its place in `by_text`.
fn places(by_text: &Vec<usize>, Ghost(keys): Ghost<Seq<Seq<char>>>) -> (at: Vec<usize>)
    requires
        is_order(keys, by_text@),
    ensures
        at@.len() == by_text@.len(),
        forall|x: usize| x < at@.len() ==> (#[trigger] at@[x as int]) == place(by_text@, x),
{
    let n = by_text.len();
    let mut at: Vec<usize> = Vec::new();
    let mut i: usize = 0;
    while i < n
        invariant
            i <= n,
            at@.len() == i,
        decreases n - i,
    {
        at.push(0);
        i += 1;
    }
    let mut i: usize = 0;
    while i < n
        invariant
            i <= n,
            n == by_text@.len(),
            at@.len() == n,
            is_order(keys, by_text@),
            forall|j: int| 0 <= j < i ==> at@[(#[trigger] by_text@[j]) as int] == j,
        decreases n - i,
    {
        let ghost before = at@;
        let x = by_text[i];
        at[x] = i;
        proof {
            assert forall|j: int| 0 <= j < i + 1 implies at@[(#[trigger] by_text@[j]) as int]
                == j by {
                if j < i {
                    lemma_place(keys, by_text@, j);
                    lemma_place(keys, by_text@, i as int);
                    assert(by_text@[j] != x);
                    assert(before[by_text@[j] as int] == j);
                }
            }
        }
        i += 1;
    }
    proof {
        assert forall|x: usize| x < at@.len() implies (#[trigger] at@[x as int]) == place(
            by_text@,
            x,
        ) by {
            assert(by_text@.contains(x));
            let j = choose|j: int| 0 <= j < by_text@.len() && by_text@[j] == x;
            lemma_place(keys, by_text@, j);
        }
    }
    at
}

/// The labels of the modules `ms`, each numbered by its place in `order`.
pub open spec fn labels_of_modules(ms: Seq<ModuleRef>, order: Seq<usize>) -> Seq<Seq<char>> {
    ms.map_values(|v: ModuleRef| label('V', place(order, v as usize) as nat))
}

/// The places in `order` of the components `cs`.
pub open spec fn places_of(cs: Seq<usize>, order: Seq<usize>) -> Seq<usize> {
    cs.map_values(|x: usize| place(order, x) as usize)
}

/// The labels of the components with the numbers `ranks`.
pub open spec fn labels_of_components(ranks: Seq<usize>) -> Seq<Seq<char>> {
    ranks.map_values(|r: usize| label('C', r as nat))
}

/// The labels of the components `cs`, by their places in `order`, in ascending order
/// of the places and with a comma between neighbours.
pub open spec fn reached_text(cs: Seq<usize>, order: Seq<usize>) -> Seq<char> {
    join(labels_of_components(ascending(numbers_of(places_of(cs, order)))), ',')
}

fn module_labels(ms: &Vec<ModuleRef>, at: &Vec<usize>, Ghost(by_text): Ghost<Seq<usize>>) -> (r: Vec<
    Vec<char>,
>)
    requires
        forall|i: int| 0 <= i < ms@.len() ==> (#[trigger] ms@[i] as int) < at@.len(),
        forall|x: usize| x < at@.len() ==> (#[trigger] at@[x as int]) == place(by_text, x),
    ensures
        key_views(r@) == labels_of_modules(ms@, by_text),
{
    let mut r: Vec<Vec<char>> = Vec::new();
    let mut i: usize = 0;
    while i < ms.len()
        invariant
            i <= ms@.len(),
            r@.len() == i,
            forall|i: int| 0 <= i < ms@.len() ==> (#[trigger] ms@[i] as int) < at@.len(),
            forall|x: usize| x < at@.len() ==> (#[trigger] at@[x as int]) == place(by_text, x),
            forall|j: int|
                0 <= j < i ==> (#[trigger] r@[j])@ == label(
                    'V',
                    place(by_text, ms@[j] as usize) as nat,
                ),
        decreases ms@.len() - i,
    {
        let v = ms[i] as usize;
        r.push(label_chars('V', at[v]));
        i += 1;
    }
    proof {
        assert(key_views(r@) =~= labels_of_modules(ms@, by_text));
    }
    r
}

/// The labels of the components `cs`, by their places, in ascending order of the
/// places and with a comma between neighbours.
fn reached_chars(
    cs: &Vec<usize>,
    at: &Vec<usize>,
    Ghost(keys): Ghost<Seq<Seq<char>>>,
    Ghost(by_text): Ghost<Seq<usize>>,
) -> (r: Vec<char>)
    requires
        is_order(keys, by_text),
        at@.len() == by_text.len(),
        cs@.no_duplicates(),
        forall|i: int| 0 <= i < cs@.len() ==> (#[trigger] cs@[i]) < at@.len(),
        forall|x: usize| x < at@.len() ==> (#[trigger] at@[x as int]) == place(by_text, x),
    ensures
        r@ == reached_text(cs@, by_text),
{
    let mut ranks: Vec<usize> = Vec::new();
    let mut i: usize = 0;
    while i < cs.len()
        invariant
            i <= cs@.len(),
            ranks@.len() == i,
            forall|i: int| 0 <= i < cs@.len() ==> (#[trigger] cs@[i]) < at@.len(),
            forall|x: usize| x < at@.len() ==> (#[trigger] at@[x as int]) == place(by_text, x),
            forall|j: int| 0 <= j < i ==> (#[trigger] ranks@[j]) == place(by_text, cs@[j]),
        decreases cs@.len() - i,
    {
        ranks.push(at[cs[i]]);
        i += 1;
    }
    proof {
        assert(ranks@ =~= places_of(cs@, by_text));
        assert forall|a: int, b: int| 0 <= a < ranks@.len() && 0 <= b < ranks@.len() && a
            != b implies ranks@[a] != ranks@[b] by {
            assert(by_text.contains(cs@[a]) && by_text.contains(cs@[b]));
            let ka = choose|k: int| 0 <= k < by_text.len() && by_text[k] == cs@[a];
            let kb = choose|k: int| 0 <= k < by_text.len() && by_text[k] == cs@[b];
            lemma_place(keys, by_text, ka);
            lemma_place(keys, by_text, kb);
        }
    }
    let in_order = sort_numbers(&ranks);
    proof {
        assert forall|x: usize| in_order@.contains(x) <==> numbers_of(ranks@).contains(x) by {}
        lemma_is_ascending_of(in_order@, numbers_of(ranks@));
    }
    let ghost labels = labels_of_components(in_order@);
    let mut r: Vec<char> = Vec::new();
    let mut i: usize = 0;
    proof {
        assert(labels.take(0).len() == 0);
    }
    while i < in_order.len()
        invariant
            i <= in_order@.len(),
            labels == labels_of_components(in_order@),
            r@ == join(labels.take(i as int), ','),
        decreases in_order@.len() - i,
    {
        proof {
            assert(labels.take(i + 1).drop_last() =~= labels.take(i as int));
            assert(labels.take(i + 1).last() == label('C', in_order@[i as int] as nat));
            if i == 0 {
                assert(labels.take(1)[0] == labels.take(1).last());
            }
        }
        if i > 0 {
            r.push(',');
        }
        let number = label_chars('C', in_order[i]);
        extend(&mut r, &number);
        proof {
            if i > 0 {
                assert(r@ =~= join(labels.take(i as int), ',') + seq![','] + labels.take(i + 1).last());
            } else {
                assert(r@ =~= labels.take(1)[0]);
            }
        }
        i += 1;
    }
    proof {
        assert(labels.take(i as int) =~= labels);
    }
    r
}

impl TransitiveClosure {
    /// What names module `r`: its import path if it is global, else its file.
    pub open spec fn display(&self, r: int) -> Seq<char> {
        match self.entries()[r].pkg {
            None => self.entries()[r].py,
            Some(_) => self.entries()[r].fs,
        }
    }

    /// What names each module.
    pub open spec fn displays(&self) -> Seq<Seq<char>> {
        Seq::new(self.entries().len(), |r: int| self.display(r))
    }

    /// The modules in the order of what names them.
    pub open spec fn vertex_order(&self) -> Seq<usize> {
        order_of(self.displays(), self.entries().len())
    }

    /// The lines for the first `k` modules in that order: `V`, the number of the line,
    /// and what names the module.
    pub open spec fn vertex_lines(&self, k: nat) -> Seq<char>
        decreases k,
    {
        if k == 0 {
            Seq::<char>::empty()
        } else {
            self.vertex_lines((k - 1) as nat) + label('V', (k - 1) as nat) + " : "@ + self.display(
                self.vertex_order()[k - 1] as int,
            ) + "\n"@
        }
    }

    /// The members of component `c`, as the labels of their lines, in order.
    pub open spec fn component_text(&self, c: int) -> Seq<char> {
        join(sorted(labels_of_modules(self.members()[c], self.vertex_order())), ',')
    }

    /// The members of each component.
    pub open spec fn component_texts(&self) -> Seq<Seq<char>> {
        Seq::new(self.members().len(), |c: int| self.component_text(c))
    }

    /// The components in the order of their members.
    pub open spec fn component_order(&self) -> Seq<usize> {
        order_of(self.component_texts(), self.members().len())
    }

    /// The lines for the first `k` components in that order: `C`, the number of the
    /// line, the members, and the labels of the components reached, in the order of
    /// their numbers.
    pub open spec fn component_lines(&self, k: nat) -> Seq<char>
        decreases k,
    {
        if k == 0 {
            Seq::<char>::empty()
        } else {
            let c = self.component_order()[k - 1] as int;
            self.component_lines((k - 1) as nat) + label('C', (k - 1) as nat) + " ("@
                + self.component_text(c) + ") -> "@ + reached_text(
                ascending(self.successors()[c]),
                self.component_order(),
            ) + "\n"@
        }
    }

    /// The short rendering: a line for every module, then a line for every component.
    pub open spec fn small_text(&self) -> Seq<char> {
        self.vertex_lines(self.entries().len()) + self.component_lines(self.members().len())
    }

    /// What names each module.
    fn display_chars(&self) -> (r: Vec<Vec<char>>)
        requires
            self.wf(),
        ensures
            key_views(r@) == self.displays(),
    {
        let cache = self.module_refs();
        let n = cache.max_value();
        let mut r: Vec<Vec<char>> = Vec::new();
        let mut i: ModuleRef = 0;
        while i < n
            invariant
                i <= n,
                n == self.entries().len(),
                *cache == self.cache(),
                r@.len() == i,
                forall|j: int| 0 <= j < i ==> (#[trigger] r@[j])@ == self.display(j),
            decreases n - i,
        {
            let rv = cache.get(i);
            let text = match &rv.pkg {
                None => to_chars(rv.py.as_str()),
                Some(_) => to_chars(rv.fs.as_str()),
            };
            r.push(text);
            i += 1;
        }
        proof {
            assert(key_views(r@) =~= self.displays());
        }
        r
    }

    /// The members of each component, as the labels of their lines.
    fn component_chars(&self, at: &Vec<usize>) -> (r: Vec<Vec<char>>)
        requires
            self.wf(),
            at@.len() == self.entries().len(),
            forall|x: usize| x < at@.len() ==> (#[trigger] at@[x as int]) == place(
                self.vertex_order(),
                x,
            ),
        ensures
            key_views(r@) == self.component_texts(),
    {
        let m = self.component_count();
        let mut r: Vec<Vec<char>> = Vec::new();
        let mut c: usize = 0;
        while c < m
            invariant
                c <= m,
                m == self.members().len(),
                self.wf(),
                at@.len() == self.entries().len(),
                forall|x: usize| x < at@.len() ==> (#[trigger] at@[x as int]) == place(
                    self.vertex_order(),
                    x,
                ),
                r@.len() == c,
                forall|j: int| 0 <= j < c ==> (#[trigger] r@[j])@ == self.component_text(j),
            decreases m - c,
        {
            let ms = self.members_of(c);
            proof {
                assert forall|i: int| 0 <= i < ms@.len() implies (#[trigger] ms@[i] as int)
                    < at@.len() by {
                    assert((self.members()[c as int][i] as int) < self.entries().len());
                }
            }
            let labels = module_labels(ms, at, Ghost(self.vertex_order()));
            r.push(sorted_join(&labels));
            c += 1;
        }
        proof {
            assert(key_views(r@) =~= self.component_texts());
        }
        r
    }

    /// The short rendering of the closure: for every module a line `V` and number with
    /// what names it, the modules in the order of what names them; then for every
    /// component a line `C` and number with its members and the components it reaches,
    /// the components in the order of their members.
    pub fn to_small_text(&self) -> (r: String)
        requires
            self.wf(),
        ensures
            r@ == self.small_text(),
    {
        let names = self.display_chars();
        let by_name = order(&names);
        let at = places(&by_name, Ghost(self.displays()));
        let n = by_name.len();
        let mut out: Vec<char> = Vec::new();
        let mut i: usize = 0;
        while i < n
            invariant
                i <= n,
                n == self.entries().len(),
                key_views(names@) == self.displays(),
                names@.len() == n,
                by_name@ == self.vertex_order(),
                is_order(self.displays(), by_name@),
                out@ == self.vertex_lines(i as nat),
            decreases n - i,
        {
            let ghost before = out@;
            let number = label_chars('V', i);
            extend(&mut out, &number);
            extend_str(&mut out, " : ");
            let ghost v = by_name@[i as int] as int;
            proof {
                assert(key_views(names@)[v] == names@[v]@);
            }
            extend(&mut out, &names[by_name[i]]);
            extend_str(&mut out, "\n");
            i += 1;
        }
        let texts = self.component_chars(&at);
        let by_members = order(&texts);
        let rank = places(&by_members, Ghost(self.component_texts()));
        let m = by_members.len();
        let ghost top = out@;
        let mut i: usize = 0;
        proof {
            assert(out@ =~= top + self.component_lines(0));
        }
        while i < m
            invariant
                i <= m,
                m == self.members().len(),
                self.wf(),
                key_views(texts@) == self.component_texts(),
                texts@.len() == m,
                by_members@ == self.component_order(),
                is_order(self.component_texts(), by_members@),
                rank@.len() == m,
                forall|x: usize| x < rank@.len() ==> (#[trigger] rank@[x as int]) == place(
                    self.component_order(),
                    x,
                ),
                out@ == top + self.component_lines(i as nat),
            decreases m - i,
        {
            let c = by_members[i];
            let reached = self.successors_of(c);
            proof {
                lemma_is_ascending_of(reached@, self.successors()[c as int]);
                assert forall|k: int| 0 <= k < reached@.len() implies (#[trigger] reached@[k])
                    < rank@.len() by {
                    assert(reached@.contains(reached@[k]));
                    assert(self.successors()[c as int].contains(reached@[k]));
                }
                assert(key_views(texts@)[c as int] == texts@[c as int]@);
            }
            let line = reached_chars(
                &reached,
                &rank,
                Ghost(self.component_texts()),
                Ghost(self.component_order()),
            );
            let ghost before = out@;
            let number = label_chars('C', i);
            extend(&mut out, &number);
            extend_str(&mut out, " (");
            extend(&mut out, &texts[c]);
            extend_str(&mut out, ") -> ");
            extend(&mut out, &line);
            extend_str(&mut out, "\n");
            proof {
                assert(out@ =~= top + self.component_lines((i + 1) as nat));
            }
            i += 1;
        }
        from_chars(&out, 0, out.len())
    }

    /// The import paths of the modules `ms`.
    pub open spec fn names_of_modules(&self, ms: Seq<ModuleRef>) -> Seq<Seq<char>> {
        ms.map_values(|v: ModuleRef| self.entries()[v as int].py)
    }

    /// The import paths of the members of the components `cs`, component by component.
    pub open spec fn names_reached(&self, cs: Seq<usize>) -> Seq<Seq<char>>
        decreases cs.len(),
    {
        if cs.len() == 0 {
            Seq::<Seq<char>>::empty()
        } else {
            self.names_reached(cs.drop_last()) + self.names_of_modules(
                self.members()[cs.last() as int],
            )
        }
    }

    /// What the long rendering says of the first `k` components: for each the import
    /// paths of its members, in order, and those of the modules it reaches, in order.
    pub open spec fn text_lines(&self, k: nat) -> Seq<char>
        decreases k,
    {
        if k == 0 {
            Seq::<char>::empty()
        } else {
            self.text_lines((k - 1) as nat) + join(
                sorted(self.names_of_modules(self.members()[k - 1])),
                ',',
            ) + " : "@ + join(
                sorted(self.names_reached(ascending(self.successors()[k - 1]))),
                ',',
            )
        }
    }

    /// Appends the import paths of the modules `ms` to `out`.
    fn module_names(&self, ms: &Vec<ModuleRef>, out: &mut Vec<Vec<char>>)
        requires
            self.wf(),
            forall|i: int| 0 <= i < ms@.len() ==> (#[trigger] ms@[i] as int) < self.entries().len(),
        ensures
            key_views(final(out)@) == key_views(old(out)@) + self.names_of_modules(ms@),
    {
        let cache = self.module_refs();
        let ghost start = key_views(out@);
        let mut i: usize = 0;
        proof {
            assert(key_views(out@) =~= start + self.names_of_modules(ms@).take(0));
        }
        while i < ms.len()
            invariant
                i <= ms@.len(),
                *cache == self.cache(),
                forall|i: int|
                    0 <= i < ms@.len() ==> (#[trigger] ms@[i] as int) < self.entries().len(),
                key_views(out@) == start + self.names_of_modules(ms@).take(i as int),
            decreases ms@.len() - i,
        {
            let ghost before = out@;
            out.push(to_chars(cache.py_for_ref(ms[i])));
            proof {
                assert(key_views(out@) =~= key_views(before).push(self.entries()[ms@[i as int] as int].py));
                assert(key_views(out@) =~= start + self.names_of_modules(ms@).take(i + 1));
            }
            i += 1;
        }
        proof {
            assert(self.names_of_modules(ms@).take(i as int) =~= self.names_of_modules(ms@));
        }
    }

    /// The long rendering of the closure: for every component, in the order of their
    /// numbers, the import paths of its members and of the modules it reaches.
    pub fn to_text(&self) -> (r: String)
        requires
            self.wf(),
        ensures
            r@ == self.text_lines(self.members().len()),
    {
        let m = self.component_count();
        let mut out: Vec<char> = Vec::new();
        let mut c: usize = 0;
        while c < m
            invariant
                c <= m,
                m == self.members().len(),
                self.wf(),
                out@ == self.text_lines(c as nat),
            decreases m - c,
        {
            let ms = self.members_of(c);
            proof {
                assert forall|i: int| 0 <= i < ms@.len() implies (#[trigger] ms@[i] as int)
                    < self.entries().len() by {
                    assert((self.members()[c as int][i] as int) < self.entries().len());
                }
            }
            let mut nodes: Vec<Vec<char>> = Vec::new();
            self.module_names(ms, &mut nodes);
            let reached = self.successors_of(c);
            proof {
                lemma_is_ascending_of(reached@, self.successors()[c as int]);
                assert(key_views(nodes@) =~= self.names_of_modules(ms@));
            }
            let mut succ: Vec<Vec<char>> = Vec::new();
            let mut k: usize = 0;
            proof {
                assert(reached@.take(0).len() == 0);
                assert(key_views(succ@) =~= self.names_reached(reached@.take(0)));
            }
            while k < reached.len()
                invariant
                    k <= reached@.len(),
                    self.wf(),
                    c < self.members().len(),
                    forall|x: usize| reached@.contains(x) <==> self.successors()[c as int].contains(x),
                    key_views(succ@) == self.names_reached(reached@.take(k as int)),
                decreases reached@.len() - k,
            {
                let x = reached[k];
                proof {
                    assert(reached@.contains(x));
                    assert(self.successors()[c as int].contains(x));
                    assert(reached@.take(k + 1).drop_last() =~= reached@.take(k as int));
                    assert(reached@.take(k + 1).last() == x);
                }
                let xs = self.members_of(x);
                proof {
                    assert forall|i: int| 0 <= i < xs@.len() implies (#[trigger] xs@[i] as int)
                        < self.entries().len() by {
                        assert((self.members()[x as int][i] as int) < self.entries().len());
                    }
                }
                self.module_names(xs, &mut succ);
                k += 1;
            }
            proof {
                assert(reached@.take(k as int) =~= reached@);
            }
            let left = sorted_join(&nodes);
            let right = sorted_join(&succ);
            extend(&mut out, &left);
            extend_str(&mut out, " : ");
            extend(&mut out, &right);
            proof {
                assert(out@ =~= self.text_lines((c + 1) as nat));
            }
            c += 1;
        }
        from_chars(&out, 0, out.len())
    }
}

} // verus!
