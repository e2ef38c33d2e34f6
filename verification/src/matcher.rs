//! A prefix tree over tokenised identifiers.
//!
//! A string is cut into tokens at a separator chosen by the caller, and the tree
//! remembers token paths, not strings: a path inserted as `a.b` with `.` is found
//! again as `a/b` with `/`.
use vstd::prelude::*;
use vstd::string::*;
use crate::text::{
    join, lemma_join_split, lemma_join_take_is_prefix, lemma_split_nonempty, push_char, split,
    tokenize, views,
};

verus! {

pub struct MatcherNode {
    is_leaf: bool,
    children: Vec<(String, MatcherNode)>,
}

/// `p` is an initial segment of `q` (possibly all of it).
pub open spec fn is_path_prefix(p: Seq<Seq<char>>, q: Seq<Seq<char>>) -> bool {
    p.len() <= q.len() && q.take(p.len() as int) == p
}

/// The greatest `m` with `1 <= m <= k` such that the first `m` tokens are an inserted
/// path, or 0 when there is none.
pub open spec fn longest_match(paths: Set<Seq<Seq<char>>>, tokens: Seq<Seq<char>>, k: nat) -> nat
    decreases k,
{
    if k == 0 {
        0
    } else if paths.contains(tokens.take(k as int)) {
        k
    } else {
        longest_match(paths, tokens, (k - 1) as nat)
    }
}

/// `name` appended to `prefix`, after a separator unless `prefix` is empty.
pub open spec fn extend_with(prefix: Seq<char>, sep: char, name: Seq<char>) -> Seq<char> {
    if prefix.len() == 0 {
        name
    } else {
        prefix + seq![sep] + name
    }
}

/// `prefix` extended by each token of `path` in turn.
pub open spec fn render(prefix: Seq<char>, sep: char, path: Seq<Seq<char>>) -> Seq<char>
    decreases path.len(),
{
    if path.len() == 0 {
        prefix
    } else {
        render(extend_with(prefix, sep, path[0]), sep, path.drop_first())
    }
}

/// The ways to continue `tokens` by at least one more token to an inserted path.
pub open spec fn suffixes_of(paths: Set<Seq<Seq<char>>>, tokens: Seq<Seq<char>>) -> Set<
    Seq<Seq<char>>,
> {
    Set::new(|q: Seq<Seq<char>>| q.len() > 0 && paths.contains(tokens + q))
}

/// `out` is `before` followed by one rendering of each path of `wanted`, each path once,
/// in some order.
pub open spec fn appended_renderings(
    before: Seq<String>,
    out: Seq<String>,
    prefix: Seq<char>,
    sep: char,
    wanted: Set<Seq<Seq<char>>>,
) -> bool {
    exists|order: Seq<Seq<Seq<char>>>| #[trigger]
        lists_renderings(before, out, prefix, sep, wanted, order)
}

/// As `appended_renderings`, with the order given.
pub open spec fn lists_renderings(
    before: Seq<String>,
    out: Seq<String>,
    prefix: Seq<char>,
    sep: char,
    wanted: Set<Seq<Seq<char>>>,
    order: Seq<Seq<Seq<char>>>,
) -> bool {
    &&& order.no_duplicates()
    &&& forall|q: Seq<Seq<char>>| order.contains(q) <==> wanted.contains(q)
    &&& out.len() == before.len() + order.len()
    &&& forall|i: int| 0 <= i < before.len() ==> out[i] == before[i]
    &&& forall|i: int|
        0 <= i < order.len() ==> (#[trigger] out[before.len() + i])@ == render(
            prefix,
            sep,
            order[i],
        )
}

impl MatcherNode {
    /// The token paths that have been inserted.
    pub closed spec fn paths(self) -> Set<Seq<Seq<char>>>
        decreases self,
    {
        Set::new(
            |p: Seq<Seq<char>>|
                (p.len() == 0 && self.is_leaf) || (p.len() > 0 && exists|i: int|
                    0 <= i < self.children@.len() && (#[trigger] self.children@[i]).0@ == p[0]
                        && self.children@[i].1.paths().contains(p.drop_first())),
        )
    }

    /// Sibling tokens are distinct, and every subtree holds an inserted path.
    pub closed spec fn wf(self) -> bool
        decreases self,
    {
        &&& forall|i: int, j: int|
            0 <= i < j < self.children@.len() ==> (#[trigger] self.children@[i]).0@ != (
            #[trigger] self.children@[j]).0@
        &&& forall|i: int|
            0 <= i < self.children@.len() ==> (#[trigger] self.children@[i]).1.wf()
                && self.children@[i].1.live()
    }

    spec fn live(self) -> bool {
        exists|q: Seq<Seq<char>>| self.paths().contains(q)
    }

    /// The number of distinct first tokens below this node.
    pub closed spec fn fanout(self) -> nat {
        self.children@.len()
    }

    /// Some initial segment of `tokens` is an inserted path.
    pub open spec fn matches_tokens(self, tokens: Seq<Seq<char>>) -> bool {
        exists|k: int| 0 <= k <= tokens.len() && self.paths().contains(#[trigger] tokens.take(k))
    }

    /// Some inserted path continues `tokens`, and neither `tokens` nor any of its
    /// initial segments of at least one token is an inserted path.
    pub open spec fn strict_prefix_tokens(self, tokens: Seq<Seq<char>>) -> bool {
        &&& forall|k: int|
            1 <= k <= tokens.len() ==> !self.paths().contains(#[trigger] tokens.take(k))
        &&& exists|q: Seq<Seq<char>>| #[trigger]
            self.paths().contains(q) && is_path_prefix(tokens, q)
    }

    /// The longest inserted path that `value` starts with, token by token, joined again
    /// with `sep`; empty when there is none.
    pub open spec fn longest_prefix_of(self, value: Seq<char>, sep: char) -> Seq<char> {
        let tokens = split(value, sep);
        join(tokens.take(longest_match(self.paths(), tokens, tokens.len()) as int), sep)
    }

    proof fn lemma_child_paths(self, j: int, q: Seq<Seq<char>>)
        requires
            self.wf(),
            0 <= j < self.children@.len(),
        ensures
            self.children@[j].1.paths().contains(q) <==> self.paths().contains(
                seq![self.children@[j].0@] + q,
            ),
    {
        let p = seq![self.children@[j].0@] + q;
        assert(p.drop_first() =~= q);
        assert(p[0] == self.children@[j].0@);
        if self.paths().contains(p) {
            let i = choose|i: int|
                0 <= i < self.children@.len() && (#[trigger] self.children@[i]).0@ == p[0]
                    && self.children@[i].1.paths().contains(p.drop_first());
            if i < j {
                assert(self.children@[i].0@ != self.children@[j].0@);
            } else if j < i {
                assert(self.children@[j].0@ != self.children@[i].0@);
            }
            assert(i == j);
            assert(self.children@[j].1.paths().contains(q));
        }
        if self.children@[j].1.paths().contains(q) {
            assert(self.children@[j].1.paths().contains(p.drop_first()));
            assert(self.paths().contains(p));
        }
    }

    proof fn lemma_no_child(self, p: Seq<Seq<char>>)
        requires
            p.len() > 0,
            forall|j: int| 0 <= j < self.children@.len() ==> self.children@[j].0@ != p[0],
        ensures
            !self.paths().contains(p),
    {
    }

    pub fn new() -> (r: MatcherNode)
        ensures
            r.wf(),
            r.paths() == Set::<Seq<Seq<char>>>::empty(),
            r.fanout() == 0,
    {
        let r = MatcherNode { is_leaf: false, children: Vec::new() };
        assert(r.paths() =~= Set::<Seq<Seq<char>>>::empty());
        r
    }

    /// The number of distinct first tokens below the root.
    pub fn child_count(&self) -> (n: usize)
        ensures
            n == self.fanout(),
    {
        self.children.len()
    }

    fn find_child(&self, token: &String) -> (r: Option<usize>)
        ensures
            match r {
                Some(j) => j < self.children@.len() && self.children@[j as int].0@ == token@,
                None => forall|j: int|
                    0 <= j < self.children@.len() ==> self.children@[j].0@ != token@,
            },
    {
        let mut j: usize = 0;
        while j < self.children.len()
            invariant
                j <= self.children@.len(),
                forall|m: int| 0 <= m < j ==> self.children@[m].0@ != token@,
            decreases self.children@.len() - j,
        {
            if self.children[j].0 == *token {
                return Some(j);
            }
            j += 1;
        }
        None
    }

    proof fn lemma_leaf_is_empty_path(self)
        ensures
            self.is_leaf <==> self.paths().contains(Seq::<Seq<char>>::empty()),
    {
    }

    /// The node reached from the root along `tokens`, if the tree has one.
    fn walk(&self, tokens: &Vec<String>) -> (r: Option<&MatcherNode>)
        requires
            self.wf(),
        ensures
            match r {
                Some(n) => {
                    &&& n.wf()
                    &&& tokens@.len() > 0 ==> n.live()
                    &&& forall|q: Seq<Seq<char>>|
                        n.paths().contains(q) <==> self.paths().contains(views(tokens@) + q)
                },
                None => forall|p: Seq<Seq<char>>|
                    self.paths().contains(p) ==> !is_path_prefix(views(tokens@), p),
            },
    {
        let ghost toks = views(tokens@);
        let mut n: &MatcherNode = self;
        let mut i: usize = 0;
        proof {
            assert forall|q: Seq<Seq<char>>|
                n.paths().contains(q) <==> self.paths().contains(toks.take(0) + q) by {
                assert(toks.take(0) + q =~= q);
            }
        }
        while i < tokens.len()
            invariant
                i <= tokens@.len(),
                toks == views(tokens@),
                n.wf(),
                i > 0 ==> n.live(),
                forall|q: Seq<Seq<char>>|
                    n.paths().contains(q) <==> self.paths().contains(toks.take(i as int) + q),
            decreases tokens@.len() - i,
        {
            match n.find_child(&tokens[i]) {
                None => {
                    proof {
                        assert forall|p: Seq<Seq<char>>| self.paths().contains(p) implies !is_path_prefix(
                            toks,
                            p,
                        ) by {
                            if is_path_prefix(toks, p) {
                                let q = p.skip(i as int);
                                assert(p.take(toks.len() as int).take(i as int) =~= p.take(i as int));
                                assert(p =~= toks.take(i as int) + q);
                                assert(q[0] == toks[i as int]);
                                n.lemma_no_child(q);
                            }
                        }
                    }
                    return None;
                },
                Some(j) => {
                    proof {
                        let child = n.children@[j as int].1;
                        assert forall|q: Seq<Seq<char>>|
                            child.paths().contains(q) <==> self.paths().contains(
                                toks.take(i + 1) + q,
                            ) by {
                            n.lemma_child_paths(j as int, q);
                            assert(toks.take(i + 1) + q =~= toks.take(i as int) + (seq![
                                toks[i as int],
                            ] + q));
                        }
                    }
                    n = &n.children[j].1;
                    i += 1;
                },
            }
        }
        proof {
            assert(toks.take(i as int) =~= toks);
        }
        Some(n)
    }

    /// Marks the path `tokens[i..]` below this node, creating the nodes it lacks.
    fn add_path(&mut self, tokens: &Vec<String>, i: usize)
        requires
            old(self).wf(),
            i <= tokens@.len(),
        ensures
            final(self).wf(),
            final(self).paths() == old(self).paths().insert(views(tokens@).skip(i as int)),
            i < tokens@.len() ==> final(self).is_leaf == old(self).is_leaf,
        decreases tokens@.len() - i,
    {
        let ghost toks = views(tokens@);
        let ghost path = toks.skip(i as int);
        if i == tokens.len() {
            self.is_leaf = true;
            proof {
                assert(path =~= Seq::<Seq<char>>::empty());
                assert(self.children@ == old(self).children@);
                assert forall|p: Seq<Seq<char>>| self.paths().contains(p) <==> old(
                    self,
                ).paths().insert(path).contains(p) by {
                    if p.len() > 0 {
                        if self.paths().contains(p) {
                            let a = choose|a: int|
                                0 <= a < self.children@.len() && (#[trigger] self.children@[a]).0@
                                    == p[0] && self.children@[a].1.paths().contains(p.drop_first());
                            assert(old(self).children@[a] == self.children@[a]);
                        }
                        if old(self).paths().contains(p) {
                            let a = choose|a: int|
                                0 <= a < old(self).children@.len() && (#[trigger] old(
                                    self,
                                ).children@[a]).0@ == p[0] && old(
                                    self,
                                ).children@[a].1.paths().contains(p.drop_first());
                            assert(old(self).children@[a] == self.children@[a]);
                        }
                    } else {
                        assert(p =~= path);
                    }
                }
                assert(self.paths() =~= old(self).paths().insert(path));
            }
        } else {
            let found = self.find_child(&tokens[i]);
            let j: usize = match found {
                Some(j) => j,
                None => {
                    self.children.push((tokens[i].clone(), MatcherNode::new()));
                    self.children.len() - 1
                },
            };
            let ghost before = self.children@;
            let ghost rest = toks.skip(i + 1);
            assert(path =~= seq![toks[i as int]] + rest);
            assert(path.drop_first() =~= rest);
            let child = &mut self.children[j];
            child.1.add_path(tokens, i + 1);
            proof {
                let after = self.children@;
                assert(after.len() == before.len());
                assert(after[j as int].0@ == toks[i as int]);
                assert(after[j as int].1.paths().contains(rest));
                assert forall|a: int, b: int| 0 <= a < b < after.len() implies (#[trigger] after[a]).0@
                    != (#[trigger] after[b]).0@ by {
                    assert(after[a].0@ == before[a].0@);
                    assert(after[b].0@ == before[b].0@);
                    if found is None {
                        if b < old(self).children@.len() {
                            assert(before[a] == old(self).children@[a]);
                            assert(before[b] == old(self).children@[b]);
                        } else {
                            assert(before[a] == old(self).children@[a]);
                        }
                    }
                }
                assert forall|a: int| 0 <= a < after.len() implies (#[trigger] after[a]).1.wf()
                    && after[a].1.live() by {
                    if a != j {
                        assert(after[a] == before[a]);
                        assert(before[a] == old(self).children@[a]);
                    }
                }
                assert forall|p: Seq<Seq<char>>| self.paths().contains(p) <==> old(
                    self,
                ).paths().insert(path).contains(p) by {
                    if p.len() > 0 {
                        if self.paths().contains(p) {
                            let a = choose|a: int|
                                0 <= a < after.len() && (#[trigger] after[a]).0@ == p[0]
                                    && after[a].1.paths().contains(p.drop_first());
                            if a == j {
                                if p.drop_first() == rest {
                                    assert(p =~= path);
                                } else {
                                    assert(before[j as int].1.paths().contains(p.drop_first()));
                                    assert(found is Some);
                                    assert(before[j as int] == old(self).children@[j as int]);
                                }
                            } else {
                                assert(after[a] == before[a]);
                                assert(before[a] == old(self).children@[a]);
                            }
                        }
                        if old(self).paths().contains(p) {
                            let a = choose|a: int|
                                0 <= a < old(self).children@.len() && (#[trigger] old(
                                    self,
                                ).children@[a]).0@ == p[0] && old(
                                    self,
                                ).children@[a].1.paths().contains(p.drop_first());
                            assert(before[a] == old(self).children@[a]);
                            assert(after[a].0@ == p[0]);
                            assert(after[a].1.paths().contains(p.drop_first()));
                        }
                        if p == path {
                            assert(after[j as int].0@ == p[0]);
                        }
                    }
                }
                assert(self.paths() =~= old(self).paths().insert(path));
            }
        }
    }

    /// Inserts `val`, cut at `sep`. Inserting a path again changes nothing.
    pub fn add(&mut self, val: &str, sep: char)
        requires
            old(self).wf(),
        ensures
            final(self).wf(),
            final(self).paths() == old(self).paths().insert(split(val@, sep)),
    {
        let tokens = tokenize(val, sep);
        proof {
            assert(views(tokens@).skip(0) =~= views(tokens@));
        }
        self.add_path(&tokens, 0);
    }

    /// Whether `value` is an inserted path or continues one at a token boundary.
    pub fn matches(&self, value: &str, sep: char) -> (r: bool)
        requires
            self.wf(),
        ensures
            r == self.matches_tokens(split(value@, sep)),
    {
        let tokens = tokenize(value, sep);
        let ghost toks = views(tokens@);
        let mut n: &MatcherNode = self;
        let mut i: usize = 0;
        proof {
            assert forall|q: Seq<Seq<char>>|
                n.paths().contains(q) <==> self.paths().contains(toks.take(0) + q) by {
                assert(toks.take(0) + q =~= q);
            }
        }
        while i < tokens.len()
            invariant
                i <= tokens@.len(),
                toks == views(tokens@),
                toks == split(value@, sep),
                n.wf(),
                forall|q: Seq<Seq<char>>|
                    n.paths().contains(q) <==> self.paths().contains(toks.take(i as int) + q),
                forall|k: int| 0 <= k < i ==> !self.paths().contains(#[trigger] toks.take(k)),
            decreases tokens@.len() - i,
        {
            proof {
                n.lemma_leaf_is_empty_path();
                assert(toks.take(i as int) + Seq::<Seq<char>>::empty() =~= toks.take(i as int));
            }
            if n.is_leaf {
                return true;
            }
            match n.find_child(&tokens[i]) {
                None => {
                    proof {
                        assert forall|k: int| 0 <= k <= toks.len() implies !self.paths().contains(
                            #[trigger] toks.take(k),
                        ) by {
                            if k > i {
                                let q = toks.subrange(i as int, k);
                                assert(toks.take(k) =~= toks.take(i as int) + q);
                                assert(q[0] == toks[i as int]);
                                n.lemma_no_child(q);
                            }
                        }
                    }
                    return false;
                },
                Some(j) => {
                    proof {
                        let child = n.children@[j as int].1;
                        assert forall|q: Seq<Seq<char>>|
                            child.paths().contains(q) <==> self.paths().contains(
                                toks.take(i + 1) + q,
                            ) by {
                            n.lemma_child_paths(j as int, q);
                            assert(toks.take(i + 1) + q =~= toks.take(i as int) + (seq![
                                toks[i as int],
                            ] + q));
                        }
                    }
                    n = &n.children[j].1;
                    i += 1;
                },
            }
        }
        proof {
            n.lemma_leaf_is_empty_path();
            assert(toks.take(i as int) + Seq::<Seq<char>>::empty() =~= toks.take(i as int));
        }
        n.is_leaf
    }

    /// Whether `value` names an inner node below which nothing on the way is inserted:
    /// the start of something inserted, with neither `value` nor anything that `value`
    /// continues inserted itself.
    pub fn strict_prefix(&self, value: &str, sep: char) -> (r: bool)
        requires
            self.wf(),
        ensures
            r == self.strict_prefix_tokens(split(value@, sep)),
    {
        let tokens = tokenize(value, sep);
        let ghost toks = views(tokens@);
        let mut n: &MatcherNode = self;
        let mut i: usize = 0;
        proof {
            lemma_split_nonempty(value@, sep);
            assert forall|q: Seq<Seq<char>>|
                n.paths().contains(q) <==> self.paths().contains(toks.take(0) + q) by {
                assert(toks.take(0) + q =~= q);
            }
        }
        while i < tokens.len()
            invariant
                i <= tokens@.len(),
                toks == views(tokens@),
                n.wf(),
                i > 0 ==> n.live(),
                forall|q: Seq<Seq<char>>|
                    n.paths().contains(q) <==> self.paths().contains(toks.take(i as int) + q),
                forall|k: int| 1 <= k <= i ==> !self.paths().contains(#[trigger] toks.take(k)),
                toks == split(value@, sep),
            decreases tokens@.len() - i,
        {
            match n.find_child(&tokens[i]) {
                None => {
                    proof {
                        assert forall|p: Seq<Seq<char>>| self.paths().contains(p) implies !is_path_prefix(
                            toks,
                            p,
                        ) by {
                            if is_path_prefix(toks, p) {
                                let q = p.skip(i as int);
                                assert(p.take(toks.len() as int).take(i as int) =~= p.take(i as int));
                                assert(p =~= toks.take(i as int) + q);
                                assert(q[0] == toks[i as int]);
                                n.lemma_no_child(q);
                            }
                        }
                    }
                    return false;
                },
                Some(j) => {
                    proof {
                        let child = n.children@[j as int].1;
                        assert forall|q: Seq<Seq<char>>|
                            child.paths().contains(q) <==> self.paths().contains(
                                toks.take(i + 1) + q,
                            ) by {
                            n.lemma_child_paths(j as int, q);
                            assert(toks.take(i + 1) + q =~= toks.take(i as int) + (seq![
                                toks[i as int],
                            ] + q));
                        }
                        child.lemma_leaf_is_empty_path();
                        assert(toks.take(i + 1) + Seq::<Seq<char>>::empty() =~= toks.take(i + 1));
                    }
                    n = &n.children[j].1;
                    i += 1;
                    if n.is_leaf {
                        assert(self.paths().contains(toks.take(i as int)));
                        return false;
                    }
                },
            }
        }
        proof {
            assert(toks.take(i as int) =~= toks);
            let q = choose|q: Seq<Seq<char>>| n.paths().contains(q);
            assert(self.paths().contains(toks + q));
            assert((toks + q).take(toks.len() as int) =~= toks);
            assert(is_path_prefix(toks, toks + q));
        }
        true
    }

    proof fn lemma_longest_match_stops(
        paths: Set<Seq<Seq<char>>>,
        tokens: Seq<Seq<char>>,
        i: nat,
        k: nat,
    )
        requires
            i <= k <= tokens.len(),
            forall|m: int| i < m <= k ==> !paths.contains(#[trigger] tokens.take(m)),
        ensures
            longest_match(paths, tokens, k) == longest_match(paths, tokens, i),
        decreases k - i,
    {
        if i < k {
            Self::lemma_longest_match_stops(paths, tokens, i, (k - 1) as nat);
        }
    }

    /// How many leading tokens make up the longest inserted path.
    fn longest_match_count(&self, tokens: &Vec<String>) -> (best: usize)
        requires
            self.wf(),
        ensures
            best == longest_match(self.paths(), views(tokens@), tokens@.len()),
            best <= tokens@.len(),
    {
        let ghost toks = views(tokens@);
        let mut n: &MatcherNode = self;
        let mut i: usize = 0;
        let mut best: usize = 0;
        proof {
            assert forall|q: Seq<Seq<char>>|
                n.paths().contains(q) <==> self.paths().contains(toks.take(0) + q) by {
                assert(toks.take(0) + q =~= q);
            }
        }
        while i < tokens.len()
            invariant
                i <= tokens@.len(),
                best <= i,
                toks == views(tokens@),
                n.wf(),
                forall|q: Seq<Seq<char>>|
                    n.paths().contains(q) <==> self.paths().contains(toks.take(i as int) + q),
                best == longest_match(self.paths(), toks, i as nat),
            decreases tokens@.len() - i,
        {
            match n.find_child(&tokens[i]) {
                None => {
                    proof {
                        assert forall|m: int| i < m <= toks.len() implies !self.paths().contains(
                            #[trigger] toks.take(m),
                        ) by {
                            let q = toks.subrange(i as int, m);
                            assert(toks.take(m) =~= toks.take(i as int) + q);
                            assert(q[0] == toks[i as int]);
                            n.lemma_no_child(q);
                        }
                        Self::lemma_longest_match_stops(self.paths(), toks, i as nat, toks.len());
                    }
                    return best;
                },
                Some(j) => {
                    proof {
                        let child = n.children@[j as int].1;
                        assert forall|q: Seq<Seq<char>>|
                            child.paths().contains(q) <==> self.paths().contains(
                                toks.take(i + 1) + q,
                            ) by {
                            n.lemma_child_paths(j as int, q);
                            assert(toks.take(i + 1) + q =~= toks.take(i as int) + (seq![
                                toks[i as int],
                            ] + q));
                        }
                        child.lemma_leaf_is_empty_path();
                        assert(toks.take(i + 1) + Seq::<Seq<char>>::empty() =~= toks.take(i + 1));
                    }
                    n = &n.children[j].1;
                    i += 1;
                    if n.is_leaf {
                        best = i;
                    }
                },
            }
        }
        best
    }

    /// The longest inserted path that `value` starts with at a token boundary, as a
    /// slice of `value`; empty when there is none.
    pub fn longest_prefix<'a>(&self, value: &'a str, sep: char) -> (r: &'a str)
        requires
            self.wf(),
        ensures
            r@ == self.longest_prefix_of(value@, sep),
            r@.len() <= value@.len(),
            r@ == value@.take(r@.len() as int),
    {
        let tokens = tokenize(value, sep);
        let ghost toks = views(tokens@);
        let best = self.longest_match_count(&tokens);
        let total = value.unicode_len();
        let mut n: usize = 0;
        let mut i: usize = 0;
        proof {
            assert(join(toks.take(0), sep) =~= Seq::<char>::empty());
        }
        while i < best
            invariant
                i <= best <= tokens@.len(),
                toks == views(tokens@),
                toks == split(value@, sep),
                total == value@.len(),
                n == join(toks.take(i as int), sep).len(),
            decreases best - i,
        {
            let l = tokens[i].as_str().unicode_len();
            proof {
                lemma_join_take_is_prefix(value@, sep, i + 1);
                let t = toks.take(i + 1);
                assert(t.drop_last() =~= toks.take(i as int));
                assert(t.last() == toks[i as int]);
            }
            if i == 0 {
                n = l;
            } else {
                n = n + 1 + l;
            }
            i += 1;
        }
        proof {
            lemma_join_take_is_prefix(value@, sep, best as int);
        }
        value.substring_char(0, n)
    }

    /// The length in bytes of `longest_prefix(value, sep)`.
    pub fn longest_prefix_len(&self, value: &str, sep: char) -> (n: usize)
        requires
            self.wf(),
        ensures
            n == vstd::utf8::encode_utf8(self.longest_prefix_of(value@, sep)).len() as usize,
    {
        self.longest_prefix(value, sep).len()
    }

    /// A tree holding each of `values`, cut at `sep`.
    pub fn from(values: Vec<&str>, sep: char) -> (tree: MatcherNode)
        ensures
            tree.wf(),
            forall|p: Seq<Seq<char>>|
                tree.paths().contains(p) <==> exists|i: int|
                    0 <= i < values@.len() && p == split(#[trigger] values@[i]@, sep),
    {
        let mut tree = Self::new();
        let mut k: usize = 0;
        while k < values.len()
            invariant
                k <= values@.len(),
                tree.wf(),
                forall|p: Seq<Seq<char>>|
                    tree.paths().contains(p) <==> exists|i: int|
                        0 <= i < k && p == split(#[trigger] values@[i]@, sep),
            decreases values@.len() - k,
        {
            let ghost before = tree.paths();
            tree.add(values[k], sep);
            proof {
                assert forall|p: Seq<Seq<char>>|
                    tree.paths().contains(p) <==> exists|i: int|
                        0 <= i < k + 1 && p == split(#[trigger] values@[i]@, sep) by {
                    if before.contains(p) {
                        let i = choose|i: int|
                            0 <= i < k && p == split(#[trigger] values@[i]@, sep);
                        assert(0 <= i < k + 1 && p == split(values@[i]@, sep));
                    }
                    if p == split(values@[k as int]@, sep) {
                        assert(0 <= k < k + 1 && p == split(values@[k as int]@, sep));
                    }
                }
            }
            k += 1;
        }
        tree
    }

    /// `q` is an inserted path below this node that starts with the token of one of the
    /// first `j` children.
    spec fn covered(self, j: int, q: Seq<Seq<char>>) -> bool {
        &&& q.len() > 0
        &&& self.paths().contains(q)
        &&& exists|m: int| 0 <= m < j && (#[trigger] self.children@[m]).0@ == q[0]
    }

    /// What the `j`-th child adds to an enumeration of the paths below this node.
    spec fn block(self, j: int, sub: Seq<Seq<Seq<char>>>) -> Seq<Seq<Seq<char>>> {
        let t = self.children@[j].0@;
        let own = if self.children@[j].1.is_leaf {
            seq![seq![t]]
        } else {
            Seq::<Seq<Seq<char>>>::empty()
        };
        own + sub.map_values(|q: Seq<Seq<char>>| seq![t] + q)
    }

    proof fn lemma_block(self, j: int, mid: Seq<Seq<Seq<char>>>, sub: Seq<Seq<Seq<char>>>)
        requires
            self.wf(),
            0 <= j < self.children@.len(),
            mid.no_duplicates(),
            forall|q: Seq<Seq<char>>| mid.contains(q) <==> self.covered(j, q),
            sub.no_duplicates(),
            forall|q: Seq<Seq<char>>|
                sub.contains(q) <==> suffixes_of(
                    self.children@[j].1.paths(),
                    Seq::<Seq<char>>::empty(),
                ).contains(q),
        ensures
            (mid + self.block(j, sub)).no_duplicates(),
            forall|q: Seq<Seq<char>>|
                (mid + self.block(j, sub)).contains(q) <==> self.covered(j + 1, q),
    {
        let t = self.children@[j].0@;
        let child = self.children@[j].1;
        let blk = self.block(j, sub);
        let r = mid + blk;
        let own: nat = if child.is_leaf {
            1
        } else {
            0
        };
        let empty = Seq::<Seq<char>>::empty();
        child.lemma_leaf_is_empty_path();
        self.lemma_child_paths(j, empty);
        assert(seq![t] + empty =~= seq![t]);
        // every entry of the block starts with `t`, lies below the child, and is inserted
        assert forall|i: int| 0 <= i < blk.len() implies (#[trigger] blk[i]).len() > 0 && blk[i][0]
            == t && self.paths().contains(blk[i]) && (i < own ==> blk[i] == seq![t]) && (i >= own
            ==> blk[i] == seq![t] + sub[i - own] && sub[i - own].len() > 0) by {
            if i >= own {
                let q = sub[i - own];
                assert(sub.contains(q));
                assert(empty + q =~= q);
                self.lemma_child_paths(j, q);
            }
        }
        assert forall|a: int, b: int| 0 <= a < b < r.len() implies r[a] != r[b] by {
            if b < mid.len() {
            } else if a < mid.len() {
                assert(mid.contains(r[a]));
                let m = choose|m: int| 0 <= m < j && (#[trigger] self.children@[m]).0@ == r[a][0];
                assert(self.children@[m].0@ != self.children@[j].0@);
                assert(blk[b - mid.len()][0] == t);
            } else {
                let x = a - mid.len();
                let y = b - mid.len();
                assert(r[a] == blk[x] && r[b] == blk[y]);
                if x < own {
                    assert(blk[y].len() > 1);
                } else {
                    assert(sub[x - own] != sub[y - own]);
                    assert((seq![t] + sub[x - own]).drop_first() =~= sub[x - own]);
                    assert((seq![t] + sub[y - own]).drop_first() =~= sub[y - own]);
                }
            }
        }
        assert forall|q: Seq<Seq<char>>| r.contains(q) <==> self.covered(j + 1, q) by {
            if r.contains(q) {
                let i = choose|i: int| 0 <= i < r.len() && r[i] == q;
                if i < mid.len() {
                    assert(mid.contains(q));
                    let m = choose|m: int| 0 <= m < j && (#[trigger] self.children@[m]).0@ == q[0];
                    assert(0 <= m < j + 1);
                } else {
                    assert(q == blk[i - mid.len()]);
                    assert(0 <= j < j + 1 && self.children@[j].0@ == q[0]);
                }
            }
            if self.covered(j + 1, q) {
                let m = choose|m: int| 0 <= m < j + 1 && (#[trigger] self.children@[m]).0@ == q[0];
                if m < j {
                    assert(self.covered(j, q));
                    assert(mid.contains(q));
                    let i = choose|i: int| 0 <= i < mid.len() && mid[i] == q;
                    assert(r[i] == q);
                } else {
                    let rest = q.drop_first();
                    assert(q =~= seq![t] + rest);
                    self.lemma_child_paths(j, rest);
                    if rest.len() == 0 {
                        assert(rest =~= empty);
                        assert(blk[0] == q);
                        assert(r[mid.len() as int] == q);
                    } else {
                        assert(empty + rest =~= rest);
                        assert(sub.contains(rest));
                        let i = choose|i: int| 0 <= i < sub.len() && sub[i] == rest;
                        assert(blk[own + i] == q);
                        assert(r[mid.len() + own + i] == q);
                    }
                }
            }
        }
    }

    /// Appends to `res` the rendering, from `prefix`, of every inserted path below this
    /// node but the empty one.
    fn all_suffixes_into(&self, prefix: &str, sep: char, res: &mut Vec<String>) -> (order: Ghost<
        Seq<Seq<Seq<char>>>,
    >)
        requires
            self.wf(),
        ensures
            lists_renderings(
                old(res)@,
                final(res)@,
                prefix@,
                sep,
                suffixes_of(self.paths(), Seq::<Seq<char>>::empty()),
                order@,
            ),
        decreases self,
    {
        let ghost start = res@;
        let ghost mut order: Seq<Seq<Seq<char>>> = Seq::empty();
        let mut j: usize = 0;
        while j < self.children.len()
            invariant
                j <= self.children@.len(),
                self.wf(),
                order.no_duplicates(),
                forall|q: Seq<Seq<char>>| order.contains(q) <==> self.covered(j as int, q),
                res@.len() == start.len() + order.len(),
                forall|i: int| 0 <= i < start.len() ==> res@[i] == start[i],
                forall|i: int|
                    0 <= i < order.len() ==> (#[trigger] res@[start.len() + i])@ == render(
                        prefix@,
                        sep,
                        order[i],
                    ),
            decreases self.children@.len() - j,
        {
            let name = &self.children[j].0;
            let child = &self.children[j].1;
            let ghost t = name@;
            let mut cp = prefix.to_owned();
            if !prefix.is_empty() {
                push_char(&mut cp, sep);
            }
            cp.append(name.as_str());
            assert(cp@ =~= extend_with(prefix@, sep, t));
            let ghost mid = order;
            let ghost mid_res = res@;
            if child.is_leaf {
                res.push(cp.clone());
            }
            let ghost own_res = res@;
            let sub = child.all_suffixes_into(cp.as_str(), sep, res);
            proof {
                let blk = self.block(j as int, sub@);
                self.lemma_block(j as int, mid, sub@);
                order = mid + blk;
                let own: nat = if child.is_leaf {
                    1
                } else {
                    0
                };
                assert(own_res.len() == mid_res.len() + own);
                assert forall|i: int| 0 <= i < order.len() implies (#[trigger] res@[start.len()
                    + i])@ == render(prefix@, sep, order[i]) by {
                    if i < mid.len() {
                        assert(res@[start.len() + i] == own_res[start.len() + i]);
                        assert(own_res[start.len() + i] == mid_res[start.len() + i]);
                    } else {
                        let x = i - mid.len();
                        assert(order[i] == blk[x]);
                        assert(blk[x][0] == t);
                        if x < own {
                            assert(res@[start.len() + i] == own_res[mid_res.len() as int]);
                            assert(blk[x] == seq![t]);
                            assert(blk[x].drop_first() =~= Seq::<Seq<char>>::empty());
                            assert(render(prefix@, sep, blk[x]) == render(
                                cp@,
                                sep,
                                blk[x].drop_first(),
                            ));
                        } else {
                            let y = x - own;
                            assert(start.len() + i == own_res.len() + y);
                            assert(blk[x] == seq![t] + sub@[y]);
                            assert(blk[x].drop_first() =~= sub@[y]);
                            assert(render(prefix@, sep, blk[x]) == render(cp@, sep, sub@[y]));
                        }
                    }
                }
                assert forall|i: int| 0 <= i < start.len() implies res@[i] == start[i] by {
                    assert(res@[i] == own_res[i]);
                    assert(own_res[i] == mid_res[i]);
                }
            }
            j += 1;
        }
        proof {
            assert forall|q: Seq<Seq<char>>| order.contains(q) <==> suffixes_of(
                self.paths(),
                Seq::<Seq<char>>::empty(),
            ).contains(q) by {
                assert(Seq::<Seq<char>>::empty() + q =~= q);
                if q.len() > 0 && self.paths().contains(q) {
                    let m = choose|m: int|
                        0 <= m < self.children@.len() && (#[trigger] self.children@[m]).0@ == q[0]
                            && self.children@[m].1.paths().contains(q.drop_first());
                    assert(self.covered(j as int, q));
                }
            }
        }
        Ghost(order)
    }

    /// Appends to `res`, for every inserted path that continues `value` by at least one
    /// token, `value` followed by those further tokens, each after a `sep`.
    ///
    /// Where `value` is empty no separator precedes the first further token.
    pub fn all_suffixes_of_into(&self, value: &str, sep: char, res: &mut Vec<String>)
        requires
            self.wf(),
        ensures
            appended_renderings(
                old(res)@,
                final(res)@,
                value@,
                sep,
                suffixes_of(self.paths(), split(value@, sep)),
            ),
    {
        let tokens = tokenize(value, sep);
        let ghost toks = views(tokens@);
        let ghost wanted = suffixes_of(self.paths(), toks);
        match self.walk(&tokens) {
            None => {
                proof {
                    let order = Seq::<Seq<Seq<char>>>::empty();
                    assert forall|q: Seq<Seq<char>>| !wanted.contains(q) by {
                        assert((toks + q).take(toks.len() as int) =~= toks);
                    }
                    assert(lists_renderings(old(res)@, res@, value@, sep, wanted, order));
                }
            },
            Some(n) => {
                let order = n.all_suffixes_into(value, sep, res);
                proof {
                    assert forall|q: Seq<Seq<char>>| order@.contains(q) <==> wanted.contains(q) by {
                        assert(Seq::<Seq<char>>::empty() + q =~= q);
                    }
                    assert(lists_renderings(old(res)@, res@, value@, sep, wanted, order@));
                }
            },
        }
    }

    /// An inserted string is matched, is no strict prefix, and is its own longest prefix.
    pub proof fn lemma_inserted_is_found(self, s: Seq<char>, sep: char)
        requires
            self.paths().contains(split(s, sep)),
        ensures
            self.matches_tokens(split(s, sep)),
            !self.strict_prefix_tokens(split(s, sep)),
            self.longest_prefix_of(s, sep) == s,
    {
        let tokens = split(s, sep);
        lemma_split_nonempty(s, sep);
        lemma_join_split(s, sep);
        assert(tokens.take(tokens.len() as int) =~= tokens);
    }
}

impl Default for MatcherNode {
    fn default() -> (r: Self)
        ensures
            r.wf(),
            r.paths() == Set::<Seq<Seq<char>>>::empty(),
    {
        Self::new()
    }
}

} // verus!
