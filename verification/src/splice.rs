//! Extra dependencies spliced into a finished closure, at leaf components only.
//!
//! A rule names a trigger module and the modules that whatever depends on the trigger
//! depends on as well. Only components that nothing depends on receive the extra
//! dependencies, which keeps every successor set closed without a second traversal.
use vstd::prelude::*;
use vstd::string::*;
use crate::edges::{
    edge_set, edges_contains, edges_insert, edges_is_empty, edges_new, edges_to_vec, EDGE_CAPACITY,
};
use crate::moduleref::{py_index, py_known, Entry, ModuleRef};
use crate::text::{last_index_of, lemma_last_index_of, rfind_char, str_eq, views};
use crate::transitive_closure::{
    edge_sets, lemma_numbers_of_take, numbers_of, reach_inv, Reach, TransitiveClosure,
};

verus! {

/// One rule that holds whatever the package: a trigger and its extra dependencies.
pub type UnifiedRule = (String, Vec<String>);

/// One rule that varies by package: a trigger and, for each package, its extra
/// dependencies. Where a package has several rows the last one counts.
pub type PackageRule = (String, Vec<(String, Vec<String>)>);

/// The module that `dep` stands for: the one with that import path in the global
/// namespace, or else the one that the nearest enclosing import path stands for.
pub open spec fn nearest_known(entries: Seq<Entry>, dep: Seq<char>) -> Option<int>
    decreases dep.len(),
{
    if py_known(entries, dep, None) {
        Some(py_index(entries, dep, None))
    } else {
        match last_index_of(dep, '.') {
            Some(k) => if 0 <= k < dep.len() {
                nearest_known(entries, dep.take(k))
            } else {
                None
            },
            None => None,
        }
    }
}

/// The components that the rule with dependencies `deps` adds below `trigger`: the
/// component of each dependency, and what that component reaches and the trigger does
/// not.
pub open spec fn extra_components(
    r: Reach,
    comp: Seq<usize>,
    entries: Seq<Entry>,
    trigger: usize,
    deps: Seq<Seq<char>>,
) -> Set<usize> {
    Set::new(
        |x: usize|
            exists|i: int|
                0 <= i < deps.len() && nearest_known(entries, #[trigger] deps[i]) is Some && {
                    let c = comp[nearest_known(entries, deps[i])->0];
                    x == c || (r.succ[c as int].contains(x) && !r.succ[trigger as int].contains(x))
                },
    )
}

/// `leaf` comes to reach `extra`, but for `trigger` and itself.
pub open spec fn splice_one(r: Reach, trigger: usize, leaf: usize, extra: Set<usize>) -> Reach {
    let added = extra.remove(trigger).remove(leaf);
    Reach {
        succ: r.succ.update(leaf as int, r.succ[leaf as int].union(added)),
        anc: Seq::new(
            r.anc.len(),
            |e: int|
                if added.contains(e as usize) {
                    r.anc[e].insert(leaf)
                } else {
                    r.anc[e]
                },
        ),
    }
}

/// Nothing is in `s`.
pub open spec fn is_empty_set(s: Set<usize>) -> bool {
    forall|x: usize| !s.contains(x)
}

/// The components `us` are taken in turn; each that is not the trigger, that nothing
/// reaches by then, and for which `extra_for` has dependencies, receives them.
pub open spec fn splice_leaves(
    r: Reach,
    trigger: usize,
    us: Seq<usize>,
    extra_for: spec_fn(usize) -> Option<Set<usize>>,
) -> Reach
    decreases us.len(),
{
    if us.len() == 0 {
        r
    } else {
        let r1 = splice_leaves(r, trigger, us.drop_last(), extra_for);
        let u = us.last();
        if u != trigger && is_empty_set(r1.anc[u as int]) && extra_for(u) is Some {
            splice_one(r1, trigger, u, extra_for(u)->0)
        } else {
            r1
        }
    }
}

/// `v` is strictly ascending.
pub open spec fn is_ascending(v: Seq<usize>) -> bool {
    forall|i: int, j: int| 0 <= i < j < v.len() ==> v[i] < v[j]
}

/// The numbers of `s` in ascending order.
pub open spec fn ascending(s: Set<usize>) -> Seq<usize> {
    choose|v: Seq<usize>| is_ascending(v) && forall|x: usize| v.contains(x) <==> s.contains(x)
}

/// Two ascending sequences of the same numbers are the same sequence.
pub proof fn lemma_ascending_unique(a: Seq<usize>, b: Seq<usize>)
    requires
        is_ascending(a),
        is_ascending(b),
        forall|x: usize| a.contains(x) <==> b.contains(x),
    ensures
        a == b,
    decreases a.len(),
{
    if a.len() == 0 {
        if b.len() > 0 {
            assert(b.contains(b[0]));
        }
        assert(a =~= b);
    } else {
        let la = a.last();
        assert(a.contains(la));
        assert(b.contains(la));
        let jb = choose|j: int| 0 <= j < b.len() && b[j] == la;
        let lb = b.last();
        assert(b.contains(lb));
        assert(a.contains(lb));
        let ja = choose|j: int| 0 <= j < a.len() && a[j] == lb;
        if ja < a.len() - 1 {
            assert(a[ja] < a[a.len() - 1]);
        }
        if jb < b.len() - 1 {
            assert(b[jb] < b[b.len() - 1]);
        }
        assert(la == lb);
        let a0 = a.drop_last();
        let b0 = b.drop_last();
        assert forall|x: usize| a0.contains(x) <==> b0.contains(x) by {
            if a0.contains(x) {
                let i = choose|i: int| 0 <= i < a0.len() && a0[i] == x;
                assert(a[i] == x && a[i] < a[a.len() - 1]);
                assert(a.contains(x));
                let j = choose|j: int| 0 <= j < b.len() && b[j] == x;
                assert(b0[j] == x);
            }
            if b0.contains(x) {
                let i = choose|i: int| 0 <= i < b0.len() && b0[i] == x;
                assert(b[i] == x && b[i] < b[b.len() - 1]);
                assert(b.contains(x));
                let j = choose|j: int| 0 <= j < a.len() && a[j] == x;
                assert(a0[j] == x);
            }
        }
        lemma_ascending_unique(a0, b0);
        assert(a =~= a0.push(la));
        assert(b =~= b0.push(lb));
    }
}

/// A vector that lists a set in ascending order is the ascending sequence of the set.
pub proof fn lemma_is_ascending_of(v: Seq<usize>, s: Set<usize>)
    requires
        is_ascending(v),
        forall|x: usize| v.contains(x) <==> s.contains(x),
    ensures
        v == ascending(s),
{
    let w = ascending(s);
    assert(is_ascending(w) && forall|x: usize| w.contains(x) <==> s.contains(x));
    lemma_ascending_unique(v, w);
}

/// Splicing at one leaf keeps the sets in range and transposed.
pub proof fn lemma_splice_one_inv(r: Reach, n: nat, trigger: usize, leaf: usize, extra: Set<usize>)
    requires
        reach_inv(r, n),
        leaf < n,
        forall|x: usize| extra.contains(x) ==> x < n,
    ensures
        reach_inv(splice_one(r, trigger, leaf, extra), n),
{
    let r2 = splice_one(r, trigger, leaf, extra);
    let added = extra.remove(trigger).remove(leaf);
    assert forall|a: usize, b: usize| a < n && b < n implies (#[trigger] r2.anc[a as int].contains(
        b,
    ) <==> #[trigger] r2.succ[b as int].contains(a)) by {
        assert(r.anc[a as int].contains(b) <==> r.succ[b as int].contains(a));
    }
}

/// The last row of `rows` for package `pkg`.
pub open spec fn last_row_for(rows: Seq<Seq<char>>, pkg: Seq<char>) -> Option<int>
    decreases rows.len(),
{
    if rows.len() == 0 {
        None
    } else if rows.last() == pkg {
        Some(rows.len() - 1)
    } else {
        last_row_for(rows.drop_last(), pkg)
    }
}

pub proof fn lemma_last_row_for(rows: Seq<Seq<char>>, pkg: Seq<char>)
    ensures
        match last_row_for(rows, pkg) {
            Some(k) => 0 <= k < rows.len() && rows[k] == pkg,
            None => true,
        },
    decreases rows.len(),
{
    if rows.len() > 0 && rows.last() != pkg {
        lemma_last_row_for(rows.drop_last(), pkg);
    }
}

/// What does not change when dependencies are spliced in: the modules, the component
/// of each, and the members of each component.
pub struct Modules {
    pub entries: Seq<Entry>,
    pub comp: Seq<usize>,
    pub members: Seq<Seq<ModuleRef>>,
}

/// Every leaf receives `extra`.
pub open spec fn same_for_all(extra: Set<usize>) -> spec_fn(usize) -> Option<Set<usize>> {
    |u: usize| Some(extra)
}

/// The import paths of the rows.
pub open spec fn row_keys(rows: Seq<(Seq<char>, Set<usize>)>) -> Seq<Seq<char>> {
    rows.map_values(|r: (Seq<char>, Set<usize>)| r.0)
}

/// What the leaf `u` receives by the package that owns its first member: the
/// dependencies of the last row for that package, if there is one.
pub open spec fn package_deps(m: Modules, rows: Seq<(Seq<char>, Set<usize>)>, u: usize) -> Option<
    Set<usize>,
> {
    if u < m.members.len() && m.members[u as int].len() > 0 {
        match m.entries[m.members[u as int][0] as int].pkg {
            Some(p) => match last_row_for(row_keys(rows), p) {
                Some(j) => Some(rows[j].1),
                None => None,
            },
            None => None,
        }
    } else {
        None
    }
}

/// Every leaf receives what its package has in `rows`.
pub open spec fn by_package(m: Modules, rows: Seq<(Seq<char>, Set<usize>)>) -> spec_fn(
    usize,
) -> Option<Set<usize>> {
    |u: usize| package_deps(m, rows, u)
}

/// The rule `(name, deps)` applied: nothing where `name` is no import path of the
/// global namespace; else the leaves among what reaches its component receive what
/// `deps` stand for.
pub open spec fn unified_step(m: Modules, r: Reach, name: Seq<char>, deps: Seq<Seq<char>>) -> Reach {
    if py_known(m.entries, name, None) {
        let c = m.comp[py_index(m.entries, name, None)];
        splice_leaves(
            r,
            c,
            ascending(r.anc[c as int]),
            same_for_all(extra_components(r, m.comp, m.entries, c, deps)),
        )
    } else {
        r
    }
}

/// The rules applied one after the other.
pub open spec fn after_unified(m: Modules, r: Reach, rules: Seq<(Seq<char>, Seq<Seq<char>>)>) -> Reach
    decreases rules.len(),
{
    if rules.len() == 0 {
        r
    } else {
        unified_step(m, after_unified(m, r, rules.drop_last()), rules.last().0, rules.last().1)
    }
}

/// The rows of a rule with what their dependencies stand for below component `c`.
pub open spec fn converted_rows(
    m: Modules,
    r: Reach,
    c: usize,
    rows: Seq<(Seq<char>, Seq<Seq<char>>)>,
) -> Seq<(Seq<char>, Set<usize>)> {
    rows.map_values(
        |row: (Seq<char>, Seq<Seq<char>>)|
            (row.0, extra_components(r, m.comp, m.entries, c, row.1)),
    )
}

/// The rule `(name, rows)` applied: as `unified_step`, but each leaf receives what the
/// rows have for its package.
pub open spec fn package_step(
    m: Modules,
    r: Reach,
    name: Seq<char>,
    rows: Seq<(Seq<char>, Seq<Seq<char>>)>,
) -> Reach {
    if py_known(m.entries, name, None) {
        let c = m.comp[py_index(m.entries, name, None)];
        splice_leaves(
            r,
            c,
            ascending(r.anc[c as int]),
            by_package(m, converted_rows(m, r, c, rows)),
        )
    } else {
        r
    }
}

/// The rules applied one after the other.
pub open spec fn after_per_package(
    m: Modules,
    r: Reach,
    rules: Seq<(Seq<char>, Seq<(Seq<char>, Seq<Seq<char>>)>)>,
) -> Reach
    decreases rules.len(),
{
    if rules.len() == 0 {
        r
    } else {
        package_step(m, after_per_package(m, r, rules.drop_last()), rules.last().0, rules.last().1)
    }
}

/// The rules as mathematical values.
pub open spec fn unified_view(rules: Seq<(String, Vec<String>)>) -> Seq<(Seq<char>, Seq<Seq<char>>)> {
    rules.map_values(|r: (String, Vec<String>)| (r.0@, views(r.1@)))
}

/// The rules as mathematical values.
pub open spec fn per_package_view(rules: Seq<(String, Vec<(String, Vec<String>)>)>) -> Seq<
    (Seq<char>, Seq<(Seq<char>, Seq<Seq<char>>)>),
> {
    rules.map_values(|r: (String, Vec<(String, Vec<String>)>)| (r.0@, unified_view(r.1@)))
}

/// What the rows hold, as sets.
pub open spec fn rows_as_sets(rows: Seq<(String, Vec<usize>)>) -> Seq<(Seq<char>, Set<usize>)> {
    rows.map_values(|r: (String, Vec<usize>)| (r.0@, numbers_of(r.1@)))
}

impl TransitiveClosure {
    /// The module that `dep` or its nearest enclosing import path stands for.
    fn first_valid_dep(&self, dep: &str) -> (r: Option<ModuleRef>)
        requires
            self.wf(),
        ensures
            match r {
                Some(m) => nearest_known(self.entries(), dep@) == Some(m as int) && (m as int)
                    < self.entries().len(),
                None => nearest_known(self.entries(), dep@) is None,
            },
    {
        let mut actual: &str = dep;
        proof {
            self.lemma_fields();
        }
        loop
            invariant
                self.wf(),
                self.cache() == self.module_refs,
                nearest_known(self.entries(), actual@) == nearest_known(self.entries(), dep@),
            decreases actual@.len(),
        {
            if let Some(r) = self.module_refs.ref_for_py(actual, None) {
                return Some(r);
            }
            match rfind_char(actual, '.') {
                None => {
                    return None;
                },
                Some(k) => {
                    proof {
                        lemma_last_index_of(actual@, '.');
                        assert(actual@.take(k as int) =~= actual@.subrange(0, k as int));
                    }
                    actual = actual.substring_char(0, k);
                },
            }
        }
    }

    /// The components that a rule with dependencies `deps` adds below `trigger`, in
    /// ascending order.
    fn convert_deps(&self, trigger: usize, deps: &Vec<String>) -> (out: Vec<usize>)
        requires
            self.wf(),
            trigger < self.members().len(),
        ensures
            is_ascending(out@),
            numbers_of(out@) == extra_components(
                self.reach(),
                self.component_of(),
                self.entries(),
                trigger,
                views(deps@),
            ),
            forall|k: int| 0 <= k < out@.len() ==> out@[k] < self.members().len(),
    {
        let ghost all = views(deps@);
        let ghost r = self.reach();
        let ghost comp = self.component_of();
        let ghost entries = self.entries();
        let mut extra = edges_new();
        let mut i: usize = 0;
        proof {
            self.lemma_fields();
        }
        assert(edge_set(extra) =~= extra_components(r, comp, entries, trigger, all.take(0)));
        while i < deps.len()
            invariant
                i <= deps@.len(),
                self.wf(),
                self.component_of() == self.mod_to_condensed@,
                self.successors() == edge_sets(self.successor@),
                trigger < self.members().len(),
                all == views(deps@),
                r == self.reach(),
                comp == self.component_of(),
                entries == self.entries(),
                edge_set(extra) == extra_components(r, comp, entries, trigger, all.take(i as int)),
            decreases deps@.len() - i,
        {
            let ghost before = edge_set(extra);
            let ghost done = all.take(i as int);
            let ghost next = all.take(i + 1);
            assert(all[i as int] == deps@[i as int]@);
            let found = self.first_valid_dep(deps[i].as_str());
            let ghost own: Set<usize> = match found {
                Some(m) => Set::new(
                    |x: usize|
                        x == comp[m as int] || (r.succ[comp[m as int] as int].contains(x)
                            && !r.succ[trigger as int].contains(x)),
                ),
                None => Set::empty(),
            };
            if let Some(m) = found {
                let cref = self.mod_to_condensed[m as usize];
                edges_insert(&mut extra, cref);
                let reached = edges_to_vec(&self.successor[cref]);
                let ghost base = edge_set(extra);
                let mut k: usize = 0;
                while k < reached.len()
                    invariant
                        k <= reached@.len(),
                        self.wf(),
                        self.successors() == edge_sets(self.successor@),
                        trigger < self.members().len(),
                        r == self.reach(),
                        forall|t: int| 0 <= t < reached@.len() ==> reached@[t] < EDGE_CAPACITY,
                        forall|x: usize|
                            #[trigger] edge_set(extra).contains(x) <==> base.contains(x) || (
                            numbers_of(reached@.take(k as int)).contains(x)
                                && !r.succ[trigger as int].contains(x)),
                    decreases reached@.len() - k,
                {
                    let x = reached[k];
                    assert(r.succ[trigger as int] == edge_set(self.successor@[trigger as int]));
                    proof {
                        lemma_numbers_of_take(reached@, k as int);
                    }
                    if !edges_contains(&self.successor[trigger], x) {
                        edges_insert(&mut extra, x);
                    }
                    k += 1;
                }
                proof {
                    assert(reached@.take(reached@.len() as int) =~= reached@);
                    assert(r.succ[cref as int] == edge_set(self.successor@[cref as int]));
                    assert(numbers_of(reached@) =~= r.succ[cref as int]);
                    assert(cref == comp[m as int]);
                    assert(base == before.insert(cref));
                    assert forall|x: usize| edge_set(extra).contains(x) <==> before.union(
                        own,
                    ).contains(x) by {
                        assert(numbers_of(reached@).contains(x) <==> r.succ[cref as int].contains(
                            x,
                        ));
                    }
                    assert(edge_set(extra) =~= before.union(own));
                }
            }
            proof {
                assert(edge_set(extra) =~= before.union(own));
                let target = extra_components(r, comp, entries, trigger, next);
                assert forall|x: usize| target.contains(x) <==> before.contains(x) || own.contains(
                    x,
                ) by {
                    if target.contains(x) {
                        let j = choose|j: int|
                            0 <= j < next.len() && nearest_known(entries, #[trigger] next[j])
                                is Some && {
                                let c = comp[nearest_known(entries, next[j])->0];
                                x == c || (r.succ[c as int].contains(x)
                                    && !r.succ[trigger as int].contains(x))
                            };
                        if j < i {
                            assert(done[j] == next[j]);
                        }
                    }
                    if before.contains(x) {
                        let j = choose|j: int|
                            0 <= j < done.len() && nearest_known(entries, #[trigger] done[j])
                                is Some && {
                                let c = comp[nearest_known(entries, done[j])->0];
                                x == c || (r.succ[c as int].contains(x)
                                    && !r.succ[trigger as int].contains(x))
                            };
                        assert(next[j] == done[j]);
                    }
                    if own.contains(x) {
                        assert(next[i as int] == all[i as int]);
                    }
                }
                assert(edge_set(extra) =~= target);
            }
            i += 1;
        }
        let out = edges_to_vec(&extra);
        proof {
            assert(all.take(deps@.len() as int) =~= all);
            assert(numbers_of(out@) =~= edge_set(extra));
            assert forall|k: int| 0 <= k < out@.len() implies out@[k] < self.members().len() by {
                let x = out@[k];
                assert(out@.contains(x));
                let j = choose|j: int|
                    0 <= j < all.len() && nearest_known(entries, #[trigger] all[j]) is Some && {
                        let c = comp[nearest_known(entries, all[j])->0];
                        x == c || (r.succ[c as int].contains(x) && !r.succ[trigger as int].contains(
                            x,
                        ))
                    };
                let m = nearest_known(entries, all[j])->0;
                lemma_nearest_known_in_range(entries, all[j]);
                assert(comp[m] < self.members().len());
            }
        }
        out
    }

    /// All but what components reach is as in `before`.
    pub open spec fn same_modules(&self, before: &TransitiveClosure) -> bool {
        &&& self.cache() == before.cache()
        &&& self.component_of() == before.component_of()
        &&& self.members() == before.members()
        &&& self.unresolved_imports() == before.unresolved_imports()
    }

    /// Gives the component `leaf` the extra dependencies `extra`.
    fn splice_at(&mut self, trigger: usize, leaf: usize, extra: &Vec<usize>)
        requires
            old(self).wf(),
            leaf < old(self).members().len(),
            forall|k: int| 0 <= k < extra@.len() ==> extra@[k] < old(self).members().len(),
        ensures
            final(self).wf(),
            final(self).same_modules(old(self)),
            final(self).reach() == splice_one(old(self).reach(), trigger, leaf, numbers_of(extra@)),
    {
        let ghost r0 = self.reach();
        let ghost n = self.members().len();
        proof {
            self.lemma_fields();
            let w = splice_one(r0, trigger, leaf, numbers_of(extra@.take(0)));
            assert(leaf < r0.succ.len());
            assert forall|c: int| 0 <= c < n implies #[trigger] w.succ[c] =~= r0.succ[c] by {}
            assert forall|c: int| 0 <= c < n implies #[trigger] w.anc[c] =~= r0.anc[c] by {}
            assert(w.succ =~= r0.succ);
            assert(w.anc =~= r0.anc);
        }
        let mut k: usize = 0;
        while k < extra.len()
            invariant
                k <= extra@.len(),
                n <= EDGE_CAPACITY,
                leaf < n,
                forall|j: int| 0 <= j < extra@.len() ==> extra@[j] < n,
                self.successor@.len() == n,
                self.ancestor@.len() == n,
                r0.succ.len() == n,
                r0.anc.len() == n,
                self.module_refs == old(self).module_refs,
                self.mod_to_condensed == old(self).mod_to_condensed,
                self.condensed_to_mod == old(self).condensed_to_mod,
                self.unresolved == old(self).unresolved,
                (Reach { succ: edge_sets(self.successor@), anc: edge_sets(self.ancestor@) })
                    == splice_one(r0, trigger, leaf, numbers_of(extra@.take(k as int))),
            decreases extra@.len() - k,
        {
            let e = extra[k];
            let ghost s0 = edge_sets(self.successor@);
            let ghost a0 = edge_sets(self.ancestor@);
            if e != trigger && e != leaf {
                edges_insert(&mut self.successor[leaf], e);
                edges_insert(&mut self.ancestor[e], leaf);
            }
            proof {
                lemma_numbers_of_take(extra@, k as int);
                let s1 = edge_sets(self.successor@);
                let a1 = edge_sets(self.ancestor@);
                let want = splice_one(r0, trigger, leaf, numbers_of(extra@.take(k + 1)));
                assert(s1.len() == n && a1.len() == n);
                assert forall|c: int| 0 <= c < n implies #[trigger] s1[c] =~= want.succ[c] by {
                    if e != trigger && e != leaf {
                        if c == leaf {
                            assert(s1[c] == s0[c].insert(e));
                        } else {
                            assert(s1[c] == s0[c]);
                        }
                    } else {
                        assert(s1[c] == s0[c]);
                    }
                }
                assert forall|c: int| 0 <= c < n implies #[trigger] a1[c] =~= want.anc[c] by {
                    if e != trigger && e != leaf {
                        if c == e {
                            assert(a1[c] == a0[c].insert(leaf));
                        } else {
                            assert(a1[c] == a0[c]);
                        }
                    } else {
                        assert(a1[c] == a0[c]);
                    }
                }
                assert(s1 =~= want.succ);
                assert(a1 =~= want.anc);
            }
            k += 1;
        }
        proof {
            assert(extra@.take(extra@.len() as int) =~= extra@);
            self.lemma_fields();
            old(self).lemma_fields();
            assert forall|x: usize| numbers_of(extra@).contains(x) implies x < n by {
                let j = choose|j: int| 0 <= j < extra@.len() && extra@[j] == x;
            }
            lemma_splice_one_inv(r0, n, trigger, leaf, numbers_of(extra@));
        }
    }

    /// The modules, the component of each, and the members of each component.
    pub open spec fn modules(&self) -> Modules {
        Modules {
            entries: self.entries(),
            comp: self.component_of(),
            members: self.members(),
        }
    }

    /// Gives `extra` to each leaf among the components that reach `trigger`.
    fn apply_unified_trigger(&mut self, trigger: usize, extra: &Vec<usize>)
        requires
            old(self).wf(),
            trigger < old(self).members().len(),
            forall|k: int| 0 <= k < extra@.len() ==> extra@[k] < old(self).members().len(),
        ensures
            final(self).wf(),
            final(self).same_modules(old(self)),
            final(self).reach() == splice_leaves(
                old(self).reach(),
                trigger,
                ascending(old(self).reach().anc[trigger as int]),
                same_for_all(numbers_of(extra@)),
            ),
    {
        let ghost r0 = self.reach();
        let ghost n = self.members().len();
        let ghost f = same_for_all(numbers_of(extra@));
        proof {
            self.lemma_fields();
        }
        let us = edges_to_vec(&self.ancestor[trigger]);
        proof {
            assert(r0.anc[trigger as int] == edge_set(self.ancestor@[trigger as int]));
            lemma_is_ascending_of(us@, r0.anc[trigger as int]);
            assert forall|k: int| 0 <= k < us@.len() implies us@[k] < n by {
                assert(us@.contains(us@[k]));
            }
        }
        let mut i: usize = 0;
        while i < us.len()
            invariant
                i <= us@.len(),
                self.wf(),
                self.same_modules(old(self)),
                n == old(self).members().len(),
                trigger < n,
                f == same_for_all(numbers_of(extra@)),
                forall|k: int| 0 <= k < us@.len() ==> us@[k] < n,
                forall|k: int| 0 <= k < extra@.len() ==> extra@[k] < n,
                self.reach() == splice_leaves(r0, trigger, us@.take(i as int), f),
            decreases us@.len() - i,
        {
            let triggered = us[i];
            proof {
                self.lemma_fields();
                assert(us@.take(i + 1).drop_last() =~= us@.take(i as int));
                assert(self.reach().anc[triggered as int] == edge_set(
                    self.ancestor@[triggered as int],
                ));
            }
            if triggered != trigger && edges_is_empty(&self.ancestor[triggered]) {
                self.splice_at(trigger, triggered, extra);
            }
            i += 1;
        }
        proof {
            assert(us@.take(us@.len() as int) =~= us@);
        }
    }

    /// The last row of `rows` for package `pkg`.
    fn find_row(rows: &Vec<(String, Vec<usize>)>, pkg: &str) -> (r: Option<usize>)
        ensures
            match r {
                Some(j) => last_row_for(row_keys(rows_as_sets(rows@)), pkg@) == Some(j as int) && j
                    < rows@.len(),
                None => last_row_for(row_keys(rows_as_sets(rows@)), pkg@) is None,
            },
    {
        let ghost keys = row_keys(rows_as_sets(rows@));
        let mut j: usize = rows.len();
        proof {
            assert(keys.take(j as int) =~= keys);
        }
        while j > 0
            invariant
                j <= rows@.len(),
                keys == row_keys(rows_as_sets(rows@)),
                last_row_for(keys, pkg@) == last_row_for(keys.take(j as int), pkg@),
            decreases j,
        {
            proof {
                assert(keys.take(j as int).drop_last() =~= keys.take(j - 1));
                assert(keys.take(j as int).last() == rows@[j - 1].0@);
            }
            if str_eq(rows[j - 1].0.as_str(), pkg) {
                return Some(j - 1);
            }
            j -= 1;
        }
        None
    }

    /// Gives each leaf among the components that reach `trigger` what `rows` has for
    /// the package of its first member.
    fn apply_package_varying_trigger(&mut self, trigger: usize, rows: &Vec<(String, Vec<usize>)>)
        requires
            old(self).wf(),
            trigger < old(self).members().len(),
            forall|j: int, k: int|
                0 <= j < rows@.len() && 0 <= k < rows@[j].1@.len() ==> (#[trigger] rows@[j].1@[k])
                    < old(self).members().len(),
        ensures
            final(self).wf(),
            final(self).same_modules(old(self)),
            final(self).reach() == splice_leaves(
                old(self).reach(),
                trigger,
                ascending(old(self).reach().anc[trigger as int]),
                by_package(old(self).modules(), rows_as_sets(rows@)),
            ),
    {
        let ghost r0 = self.reach();
        let ghost n = self.members().len();
        let ghost m = self.modules();
        let ghost f = by_package(m, rows_as_sets(rows@));
        proof {
            self.lemma_fields();
        }
        let us = edges_to_vec(&self.ancestor[trigger]);
        proof {
            assert(r0.anc[trigger as int] == edge_set(self.ancestor@[trigger as int]));
            lemma_is_ascending_of(us@, r0.anc[trigger as int]);
            assert forall|k: int| 0 <= k < us@.len() implies us@[k] < n by {
                assert(us@.contains(us@[k]));
            }
        }
        let mut i: usize = 0;
        while i < us.len()
            invariant
                i <= us@.len(),
                self.wf(),
                self.same_modules(old(self)),
                m == old(self).modules(),
                n == old(self).members().len(),
                trigger < n,
                f == by_package(m, rows_as_sets(rows@)),
                forall|k: int| 0 <= k < us@.len() ==> us@[k] < n,
                forall|j: int, k: int|
                    0 <= j < rows@.len() && 0 <= k < rows@[j].1@.len() ==> (
                    #[trigger] rows@[j].1@[k]) < n,
                self.reach() == splice_leaves(r0, trigger, us@.take(i as int), f),
            decreases us@.len() - i,
        {
            let triggered = us[i];
            proof {
                self.lemma_fields();
                assert(us@.take(i + 1).drop_last() =~= us@.take(i as int));
                assert(self.reach().anc[triggered as int] == edge_set(
                    self.ancestor@[triggered as int],
                ));
                assert(m.members[triggered as int] == self.condensed_to_mod@[triggered as int]@);
            }
            if triggered != trigger && edges_is_empty(&self.ancestor[triggered]) {
                let v = self.condensed_to_mod[triggered][0];
                assert(m.members[triggered as int][0] == v);
                let found: Option<usize> = match &self.module_refs.get(v).pkg {
                    Some(pkg) => Self::find_row(rows, pkg.as_str()),
                    None => None,
                };
                if let Some(j) = found {
                    proof {
                        assert(rows_as_sets(rows@)[j as int].1 == numbers_of(rows@[j as int].1@));
                        assert forall|k: int| 0 <= k < rows@[j as int].1@.len() implies rows@[j as int].1@[k]
                            < n by {}
                    }
                    self.splice_at(trigger, triggered, &rows[j].1);
                }
            }
            i += 1;
        }
        proof {
            assert(us@.take(us@.len() as int) =~= us@);
        }
    }

    /// Applies the rules in `unified`, then those in `per_package`, each to the state
    /// that the rules before it have left.
    pub fn apply_dynamic_edges_at_leaves(
        &mut self,
        unified: &Vec<(String, Vec<String>)>,
        per_package: &Vec<(String, Vec<(String, Vec<String>)>)>,
    )
        requires
            old(self).wf(),
        ensures
            final(self).wf(),
            final(self).same_modules(old(self)),
            final(self).reach() == after_per_package(
                old(self).modules(),
                after_unified(old(self).modules(), old(self).reach(), unified_view(unified@)),
                per_package_view(per_package@),
            ),
    {
        let ghost m = self.modules();
        let ghost r0 = self.reach();
        let ghost urules = unified_view(unified@);
        let ghost prules = per_package_view(per_package@);
        let mut i: usize = 0;
        while i < unified.len()
            invariant
                i <= unified@.len(),
                self.wf(),
                self.same_modules(old(self)),
                m == old(self).modules(),
                urules == unified_view(unified@),
                self.reach() == after_unified(m, r0, urules.take(i as int)),
            decreases unified@.len() - i,
        {
            proof {
                self.lemma_fields();
                assert(urules.take(i + 1).drop_last() =~= urules.take(i as int));
                assert(urules.take(i + 1).last() == (unified@[i as int].0@, views(unified@[i as int].1@)));
            }
            if let Some(mod_ref) = self.module_refs.ref_for_py(unified[i].0.as_str(), None) {
                let c = self.mod_to_condensed[mod_ref as usize];
                let cd = self.convert_deps(c, &unified[i].1);
                self.apply_unified_trigger(c, &cd);
            }
            i += 1;
        }
        let ghost r1 = self.reach();
        proof {
            assert(urules.take(unified@.len() as int) =~= urules);
        }
        let mut i: usize = 0;
        while i < per_package.len()
            invariant
                i <= per_package@.len(),
                self.wf(),
                self.same_modules(old(self)),
                m == old(self).modules(),
                prules == per_package_view(per_package@),
                self.reach() == after_per_package(m, r1, prules.take(i as int)),
            decreases per_package@.len() - i,
        {
            let ghost ri = self.reach();
            proof {
                self.lemma_fields();
                assert(prules.take(i + 1).drop_last() =~= prules.take(i as int));
                assert(prules.take(i + 1).last() == (
                    per_package@[i as int].0@,
                    unified_view(per_package@[i as int].1@),
                ));
            }
            if let Some(mod_ref) = self.module_refs.ref_for_py(per_package[i].0.as_str(), None) {
                let c = self.mod_to_condensed[mod_ref as usize];
                let rows = &per_package[i].1;
                let ghost want = converted_rows(m, ri, c, unified_view(rows@));
                let mut d: Vec<(String, Vec<usize>)> = Vec::new();
                let mut j: usize = 0;
                while j < rows.len()
                    invariant
                        j <= rows@.len(),
                        self.wf(),
                        self.modules() == m,
                        self.reach() == ri,
                        c < self.members().len(),
                        want == converted_rows(m, ri, c, unified_view(rows@)),
                        d@.len() == j,
                        rows_as_sets(d@) == want.take(j as int),
                        forall|a: int, k: int|
                            0 <= a < d@.len() && 0 <= k < d@[a].1@.len() ==> (#[trigger] d@[a].1@[k])
                                < self.members().len(),
                    decreases rows@.len() - j,
                {
                    let cd = self.convert_deps(c, &rows[j].1);
                    let ghost before = d@;
                    d.push((rows[j].0.clone(), cd));
                    proof {
                        assert(unified_view(rows@)[j as int] == (rows@[j as int].0@, views(rows@[j as int].1@)));
                        assert(rows_as_sets(d@) =~= want.take(j + 1));
                        assert forall|a: int, k: int|
                            0 <= a < d@.len() && 0 <= k < d@[a].1@.len() implies (
                        #[trigger] d@[a].1@[k]) < self.members().len() by {
                            if a < j {
                                assert(d@[a] == before[a]);
                            }
                        }
                    }
                    j += 1;
                }
                proof {
                    assert(want.take(rows@.len() as int) =~= want);
                }
                self.apply_package_varying_trigger(c, &d);
            }
            i += 1;
        }
        proof {
            assert(prules.take(per_package@.len() as int) =~= prules);
        }
    }
}

/// Applies the rules in `unified`, then those in `per_package`, to `tc`.
pub fn apply_dynamic_edges_at_leaves(
    tc: &mut TransitiveClosure,
    unified: &Vec<(String, Vec<String>)>,
    per_package: &Vec<(String, Vec<(String, Vec<String>)>)>,
)
    requires
        old(tc).wf(),
    ensures
        final(tc).wf(),
        final(tc).same_modules(old(tc)),
        final(tc).reach() == after_per_package(
            old(tc).modules(),
            after_unified(old(tc).modules(), old(tc).reach(), unified_view(unified@)),
            per_package_view(per_package@),
        ),
{
    tc.apply_dynamic_edges_at_leaves(unified, per_package);
}

/// What `nearest_known` finds is an index of `entries`.
pub proof fn lemma_nearest_known_in_range(entries: Seq<Entry>, dep: Seq<char>)
    ensures
        nearest_known(entries, dep) is Some ==> 0 <= nearest_known(entries, dep)->0 < entries.len(),
    decreases dep.len(),
{
    if py_known(entries, dep, None) {
        let i = py_index(entries, dep, None);
        assert(0 <= i < entries.len());
    } else {
        match last_index_of(dep, '.') {
            Some(k) => {
                if 0 <= k < dep.len() {
                    lemma_nearest_known_in_range(entries, dep.take(k));
                }
            },
            None => {},
        }
    }
}

} // verus!
