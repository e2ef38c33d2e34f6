//! The import graph condensed into strongly connected components, with the components
//! that each one reaches and those that reach it.
use vstd::prelude::*;
use vstd::string::*;
use crate::edge_table::{edges_inv, has_edge, EdgeTable};
use crate::edges::{edge_set, edges_insert, edges_new, edges_to_vec, CondensedEdges, EDGE_CAPACITY};
use crate::moduleref::{fs_index, fs_known, py_index, py_known, Entry, ModuleRef, ModuleRefCache};
use crate::reach::{
    are_renamings, leads_to, lemma_leads_on, lemma_leads_or_linked, lemma_leads_within,
    lemma_renaming_keeps_walks, lemma_walk_of, linked,
};
use crate::soundness::{lemma_above_none, lemma_sound_at_start, lemma_sound_in_the_end};
use crate::stack_tc::{lemma_position, stack_tc, CondensedRef, StackTC, UNASSIGNED, UNVISITED};
use crate::string_set::{lists_set, StringSet};
use crate::unresolved::{rows_below, Unresolved};

verus! {

pub struct TransitiveClosure {
    pub(crate) module_refs: ModuleRefCache,
    pub(crate) mod_to_condensed: Vec<CondensedRef>,
    pub(crate) condensed_to_mod: Vec<Vec<ModuleRef>>,
    pub(crate) successor: Vec<CondensedEdges>,
    pub(crate) ancestor: Vec<CondensedEdges>,
    pub(crate) unresolved: Unresolved,
}

/// The sets that a vector of bitsets holds.
pub open spec fn edge_sets(v: Seq<CondensedEdges>) -> Seq<Set<usize>> {
    v.map_values(|e: CondensedEdges| edge_set(e))
}

/// The member lists of the components.
pub open spec fn member_lists(v: Seq<Vec<ModuleRef>>) -> Seq<Seq<ModuleRef>> {
    v.map_values(|m: Vec<ModuleRef>| m@)
}

/// What each component reaches and what reaches it.
pub struct Reach {
    pub succ: Seq<Set<usize>>,
    pub anc: Seq<Set<usize>>,
}

/// Every module has one component and is a member of it, and no component is empty.
pub open spec fn partition_inv(n: nat, comp: Seq<CondensedRef>, members: Seq<Seq<ModuleRef>>) -> bool {
    &&& comp.len() == n
    &&& forall|m: int| 0 <= m < n ==> (#[trigger] comp[m]) < members.len()
    &&& forall|c: int, i: int|
        0 <= c < members.len() && 0 <= i < members[c].len() ==> (#[trigger] members[c][i] as int)
            < n && comp[members[c][i] as int] == c
    &&& forall|c: int| 0 <= c < members.len() ==> (#[trigger] members[c]).no_duplicates()
    &&& forall|c: int| 0 <= c < members.len() ==> (#[trigger] members[c]).len() > 0
    &&& forall|m: int| 0 <= m < n ==> members[(#[trigger] comp[m]) as int].contains(m as ModuleRef)
}

/// The sets name components below `n`, and `anc` is the transpose of `succ`.
pub open spec fn reach_inv(r: Reach, n: nat) -> bool {
    &&& r.succ.len() == n
    &&& r.anc.len() == n
    &&& n <= EDGE_CAPACITY
    &&& forall|c: int, x: usize| 0 <= c < n && #[trigger] r.succ[c].contains(x) ==> x < n
    &&& forall|c: int, x: usize| 0 <= c < n && #[trigger] r.anc[c].contains(x) ==> x < n
    &&& is_transpose(r.succ, r.anc)
}

/// `b` is in `anc[a]` exactly when `a` is in `succ[b]`.
pub open spec fn is_transpose(succ: Seq<Set<usize>>, anc: Seq<Set<usize>>) -> bool {
    &&& succ.len() == anc.len()
    &&& forall|a: usize, b: usize|
        a < succ.len() && b < succ.len() ==> (#[trigger] anc[a as int].contains(b)
            <==> #[trigger] succ[b as int].contains(a))
}

/// What is reported of a module.
#[derive(Clone, Copy, Debug)]
pub enum Label {
    /// Its file, which may be empty.
    File,
    /// Its import path.
    ImportPath,
    /// The package that owns it, if one does.
    Package,
}

/// What is reported of a module under `what`, if anything.
pub open spec fn label_of(e: Entry, what: Label) -> Option<Seq<char>> {
    match what {
        Label::File => Some(e.fs),
        Label::ImportPath => Some(e.py),
        Label::Package => e.pkg,
    }
}

/// Whether a module passes the package filter: any module where there is none, else
/// the modules that the given package owns.
pub open spec fn in_package(e: Entry, only: Option<Seq<char>>) -> bool {
    match only {
        None => true,
        Some(p) => e.pkg == Some(p),
    }
}

/// The numbers that occur in `v`.
pub open spec fn numbers_of(v: Seq<usize>) -> Set<usize> {
    Set::new(|c: usize| v.contains(c))
}

/// Taking one more number of `v` adds that number to the set.
pub proof fn lemma_numbers_of_take(v: Seq<usize>, k: int)
    requires
        0 <= k < v.len(),
    ensures
        numbers_of(v.take(k + 1)) == numbers_of(v.take(k)).insert(v[k]),
{
    let a = v.take(k);
    let b = v.take(k + 1);
    assert forall|x: usize| numbers_of(b).contains(x) <==> numbers_of(a).insert(v[k]).contains(
        x,
    ) by {
        if b.contains(x) {
            let j = choose|j: int| 0 <= j < b.len() && b[j] == x;
            if j < k {
                assert(a[j] == x);
            }
        }
        if a.contains(x) {
            let j = choose|j: int| 0 <= j < a.len() && a[j] == x;
            assert(b[j] == x);
        }
        if x == v[k] {
            assert(b[k] == x);
        }
    }
    assert(numbers_of(b) =~= numbers_of(a).insert(v[k]));
}

/// `p` is a walk of at least one edge in `g`.
pub open spec fn is_path(g: Seq<Seq<ModuleRef>>, p: Seq<int>) -> bool {
    p.len() >= 2 && forall|i: int| 0 <= i < p.len() - 1 ==> has_edge(g, #[trigger] p[i], p[i + 1])
}

impl TransitiveClosure {
    /// The table of modules.
    pub closed spec fn cache(&self) -> ModuleRefCache {
        self.module_refs
    }

    /// The imports that were not resolved.
    pub closed spec fn unresolved_imports(&self) -> Unresolved {
        self.unresolved
    }

    /// What the table records of each module.
    pub open spec fn entries(&self) -> Seq<Entry> {
        self.cache()@
    }

    /// The component of each module.
    pub closed spec fn component_of(&self) -> Seq<CondensedRef> {
        self.mod_to_condensed@
    }

    /// The modules of each component.
    pub closed spec fn members(&self) -> Seq<Seq<ModuleRef>> {
        member_lists(self.condensed_to_mod@)
    }

    /// The components that each component reaches.
    pub closed spec fn successors(&self) -> Seq<Set<usize>> {
        edge_sets(self.successor@)
    }

    /// The components that reach each component.
    pub closed spec fn ancestors(&self) -> Seq<Set<usize>> {
        edge_sets(self.ancestor@)
    }

    /// What each component reaches and what reaches it.
    pub open spec fn reach(&self) -> Reach {
        Reach { succ: self.successors(), anc: self.ancestors() }
    }

    /// What the spec functions above stand for, for the other files of the library.
    pub(crate) proof fn lemma_fields(&self)
        ensures
            self.cache() == self.module_refs,
            self.unresolved_imports() == self.unresolved,
            self.component_of() == self.mod_to_condensed@,
            self.members() == member_lists(self.condensed_to_mod@),
            self.successors() == edge_sets(self.successor@),
            self.ancestors() == edge_sets(self.ancestor@),
    {
    }

    pub open spec fn wf(&self) -> bool {
        &&& self.cache().wf()
        &&& partition_inv(self.entries().len(), self.component_of(), self.members())
        &&& reach_inv(self.reach(), self.members().len())
        &&& self.unresolved_imports().wf()
        &&& rows_below(self.unresolved_imports()@, self.entries().len())
    }

    /// Every edge of `g` leads from a module to a module whose component the
    /// component of the first reaches.
    pub open spec fn covers(&self, g: Seq<Seq<ModuleRef>>) -> bool {
        forall|a: int, b: int| #[trigger]
            has_edge(g, a, b) ==> self.successors()[self.component_of()[a] as int].contains(
                self.component_of()[b],
            )
    }

    /// Whatever a component reaches, it reaches what that reaches.
    pub open spec fn is_closed(&self) -> bool {
        forall|c: int, x: usize, y: usize|
            0 <= c < self.successors().len() && x < self.successors().len()
                && #[trigger] self.successors()[c].contains(x)
                && #[trigger] self.successors()[x as int].contains(y)
                ==> self.successors()[c].contains(y)
    }

    /// A component reaches only itself and components with a smaller number, and itself
    /// exactly when it has more than one member.
    pub open spec fn is_layered(&self) -> bool {
        &&& forall|c: int, x: usize|
            0 <= c < self.successors().len() && #[trigger] self.successors()[c].contains(x)
                ==> x <= c
        &&& forall|c: int|
            0 <= c < self.successors().len() ==> (self.successors()[c].contains(c as usize)
                <==> (#[trigger] self.members()[c]).len() > 1)
    }

    /// The component of module `a` reaches that of module `b`.
    pub open spec fn reaches(&self, a: int, b: int) -> bool {
        self.successors()[self.component_of()[a] as int].contains(self.component_of()[b])
    }

    /// Where edges lead from one module to another, over any number of modules in
    /// between, the component of the first reaches that of the last.
    pub proof fn lemma_path_is_covered(&self, g: Seq<Seq<ModuleRef>>, p: Seq<int>)
        requires
            self.wf(),
            edges_inv(g),
            g.len() == self.entries().len(),
            self.covers(g),
            self.is_closed(),
            is_path(g, p),
        ensures
            self.reaches(p[0], p.last()),
        decreases p.len(),
    {
        let last = p.len() - 1;
        assert(has_edge(g, p[last - 1], p[last]));
        let e = choose|e: int| 0 <= e < g[p[last - 1]].len() && #[trigger] g[p[last - 1]][e] == p[last];
        assert((g[p[last - 1]][e] as int) < g.len());
        if p.len() > 2 {
            let q = p.drop_last();
            assert forall|i: int| 0 <= i < q.len() - 1 implies has_edge(g, #[trigger] q[i], q[i + 1]) by {
                assert(has_edge(g, p[i], p[i + 1]));
            }
            self.lemma_path_is_covered(g, q);
            assert(has_edge(g, p[0], p[1]));
            assert(self.successors()[self.component_of()[p[0]] as int].contains(
                self.component_of()[q.last()],
            ));
            assert(self.successors()[self.component_of()[q.last()] as int].contains(
                self.component_of()[p.last()],
            ));
        }
    }

    /// Modules of one component lead to each other in `g`, and a module leads to the
    /// modules of every component that its own reaches.
    pub open spec fn is_sound(&self, g: Seq<Seq<ModuleRef>>) -> bool {
        forall|a: int, b: int|
            0 <= a < g.len() && 0 <= b < g.len() && (self.component_of()[a]
                == self.component_of()[b] || self.reaches(a, b)) ==> #[trigger] leads_to(g, a, b)
    }

    /// The components are the strongly connected components of `g`, and the sets are
    /// its transitive closure: two modules have one component exactly when each leads
    /// to the other, and the component of a module reaches that of another exactly
    /// when a walk of at least one edge goes from the first to the second.
    pub open spec fn condenses(&self, g: Seq<Seq<ModuleRef>>) -> bool {
        &&& forall|a: int, b: int|
            0 <= a < g.len() && 0 <= b < g.len() ==> (self.component_of()[a]
                == self.component_of()[b] <==> #[trigger] leads_to(g, a, b) && leads_to(g, b, a))
        &&& forall|a: int, b: int|
            0 <= a < g.len() && 0 <= b < g.len() ==> (self.reaches(a, b) <==> #[trigger] linked(
                g,
                a,
                b,
            ))
    }

    /// Where one module leads to another, the component of the first reaches that of
    /// the second.
    pub proof fn lemma_walk_is_covered(&self, g: Seq<Seq<ModuleRef>>, a: int, b: int)
        requires
            self.wf(),
            edges_inv(g),
            g.len() == self.entries().len(),
            self.covers(g),
            self.is_closed(),
            leads_to(g, a, b),
            a != b,
        ensures
            self.reaches(a, b),
    {
        let p = lemma_walk_of(g, a, b);
        assert(is_path(g, p));
        self.lemma_path_is_covered(g, p);
    }

    /// A closure that covers the edges of `g`, is closed and layered, and reaches
    /// nothing but what the modules lead to, is the condensation of `g` and its
    /// closure.
    pub proof fn lemma_condenses(&self, g: Seq<Seq<ModuleRef>>)
        requires
            self.wf(),
            edges_inv(g),
            g.len() == self.entries().len(),
            self.covers(g),
            self.is_closed(),
            self.is_layered(),
            self.is_sound(g),
        ensures
            self.condenses(g),
    {
        let comp = self.component_of();
        assert forall|a: int, b: int| 0 <= a < g.len() && 0 <= b < g.len() implies (comp[a]
            == comp[b] <==> #[trigger] leads_to(g, a, b) && leads_to(g, b, a)) by {
            if comp[a] == comp[b] {
                assert(leads_to(g, a, b));
                assert(leads_to(g, b, a));
            }
            if leads_to(g, a, b) && leads_to(g, b, a) && a != b {
                self.lemma_walk_is_covered(g, a, b);
                self.lemma_walk_is_covered(g, b, a);
                assert(comp[a] < self.members().len() && comp[b] < self.members().len());
            }
        }
        assert forall|a: int, b: int| 0 <= a < g.len() && 0 <= b < g.len() implies (self.reaches(
            a,
            b,
        ) <==> #[trigger] linked(g, a, b)) by {
            assert(comp[a] < self.members().len() && comp[b] < self.members().len());
            if self.reaches(a, b) {
                assert(leads_to(g, a, b));
                if a != b {
                    lemma_leads_or_linked(g, a, b);
                } else {
                    let ms = self.members()[comp[a] as int];
                    assert(ms.len() > 1);
                    let m = if ms[0] == a {
                        ms[1] as int
                    } else {
                        ms[0] as int
                    };
                    assert(ms[0] != ms[1]);
                    assert(comp[ms[0] as int] == comp[a] && comp[ms[1] as int] == comp[a]);
                    assert(m != a && 0 <= m < g.len() && comp[m] == comp[a]);
                    assert(leads_to(g, a, m));
                    assert(leads_to(g, m, a));
                    lemma_leads_or_linked(g, a, m);
                    let c = choose|c: int| has_edge(g, a, c) && leads_to(g, c, m);
                    lemma_leads_on(g, c, m, a);
                }
            }
            if linked(g, a, b) {
                let c = choose|c: int| has_edge(g, a, c) && leads_to(g, c, b);
                lemma_leads_within(g, c, b);
                assert(self.reaches(a, c));
                assert(comp[c] < self.members().len());
                if c != b {
                    self.lemma_walk_is_covered(g, c, b);
                    assert(self.successors()[comp[a] as int].contains(comp[c]));
                    assert(self.successors()[comp[c] as int].contains(comp[b]));
                }
            }
        }
    }

    /// The condensation and the closure of a graph depend on the graph alone, up to the
    /// numbering of modules and components: where two graphs are renamings of each
    /// other, two modules of the one have one component exactly when the renamed modules
    /// have, and the component of one reaches that of the other exactly when it does so
    /// for the renamed modules.
    pub proof fn lemma_same_up_to_renaming(
        &self,
        g: Seq<Seq<ModuleRef>>,
        other: &TransitiveClosure,
        h: Seq<Seq<ModuleRef>>,
        to: Seq<int>,
        back: Seq<int>,
        a: int,
        b: int,
    )
        requires
            edges_inv(g),
            edges_inv(h),
            are_renamings(g, h, to, back),
            self.condenses(g),
            other.condenses(h),
            0 <= a < g.len(),
            0 <= b < g.len(),
        ensures
            self.component_of()[a] == self.component_of()[b] <==> other.component_of()[to[a]]
                == other.component_of()[to[b]],
            self.reaches(a, b) <==> other.reaches(to[a], to[b]),
    {
        lemma_renaming_keeps_walks(g, h, to, back, a, b);
        lemma_renaming_keeps_walks(g, h, to, back, b, a);
        assert(leads_to(h, to[a], to[b]) && leads_to(h, to[b], to[a]) <==> other.component_of()[to[a]]
            == other.component_of()[to[b]]);
        assert(linked(h, to[a], to[b]) <==> other.reaches(to[a], to[b]));
        assert(leads_to(g, a, b) && leads_to(g, b, a) <==> self.component_of()[a]
            == self.component_of()[b]);
        assert(linked(g, a, b) <==> self.reaches(a, b));
    }

    /// The condensation of `g` and its closure.
    pub fn from(g: &EdgeTable, refs: ModuleRefCache, unresolved: Unresolved) -> (tc:
        TransitiveClosure)
        requires
            g.wf(),
            refs.wf(),
            g@.len() == refs@.len(),
            refs@.len() <= EDGE_CAPACITY,
            unresolved.wf(),
            rows_below(unresolved@, refs@.len()),
        ensures
            tc.wf(),
            tc.cache() == refs,
            tc.unresolved_imports() == unresolved,
            tc.covers(g@),
            tc.is_closed(),
            tc.is_layered(),
            tc.condenses(g@),
            is_transpose(tc.successors(), tc.ancestors()),
    {
        let n = refs.max_value() as usize;
        let mut state = StackTC::new(n);
        proof {
            assert(state.base_inv(g@));
            assert(state.progress_ok(g@));
            assert(state.assigned_edges_ok(g@));
            assert(state.stack_edges_ok(g@));
            assert(state.inv(g@));
            lemma_sound_at_start(state, g@);
        }
        let mut v: usize = 0;
        while v < n
            invariant
                v <= n,
                n == g@.len(),
                g.wf(),
                state.inv(g@),
                state.sound(g@),
                state.vstack@.len() == 0,
                forall|u: int| 0 <= u < v ==> state.root@[u] != UNVISITED,
            decreases n - v,
        {
            if state.root[v] == UNVISITED {
                let ghost before = state;
                proof {
                    lemma_above_none(state, g@, 0, v as int);
                }
                stack_tc(&mut state, v as ModuleRef, g);
                proof {
                    assert forall|u: int| 0 <= u < v + 1 implies state.root@[u] != UNVISITED by {
                        if u < v {
                            assert(before.root@[u] != UNVISITED);
                        }
                    }
                }
            }
            v += 1;
        }
        proof {
            assert forall|m: int| 0 <= m < n implies (#[trigger] state.comp@[m]) < state.scc@.len() by {
                if state.comp@[m] == UNASSIGNED {
                    assert(state.root@[m] != UNVISITED);
                    lemma_position(state.vstack@, m as ModuleRef);
                }
            }
            crate::stack_tc::lemma_components_at_most(state.scc@, n as nat, state.max_d as nat);
        }
        let ncomp = state.scc.len();
        let mut ancestor: Vec<CondensedEdges> = Vec::new();
        let mut c: usize = 0;
        while c < ncomp
            invariant
                c <= ncomp,
                ancestor@.len() == c,
                forall|a: int, x: usize| 0 <= a < c ==> !#[trigger] edge_set(ancestor@[a]).contains(x),
            decreases ncomp - c,
        {
            ancestor.push(edges_new());
            c += 1;
        }
        let mut b: usize = 0;
        while b < ncomp
            invariant
                b <= ncomp,
                ncomp == state.succ@.len(),
                ncomp <= EDGE_CAPACITY,
                ancestor@.len() == ncomp,
                state.successors_in_range(),
                forall|a: usize, x: usize|
                    a < ncomp ==> (#[trigger] edge_set(ancestor@[a as int]).contains(x) <==> x < b
                        && edge_set(state.succ@[x as int]).contains(a)),
            decreases ncomp - b,
        {
            let targets = edges_to_vec(&state.succ[b]);
            let mut k: usize = 0;
            while k < targets.len()
                invariant
                    k <= targets@.len(),
                    b < ncomp,
                    ncomp == state.succ@.len(),
                    ncomp <= EDGE_CAPACITY,
                    ancestor@.len() == ncomp,
                    forall|x: usize| targets@.contains(x) <==> edge_set(state.succ@[b as int]).contains(x),
                    forall|x: usize| targets@.contains(x) ==> x < ncomp,
                    forall|a: usize, x: usize|
                        a < ncomp ==> (#[trigger] edge_set(ancestor@[a as int]).contains(x) <==> (x
                            < b && edge_set(state.succ@[x as int]).contains(a)) || (x == b
                            && exists|j: int| 0 <= j < k && targets@[j] == a)),
                decreases targets@.len() - k,
            {
                let a = targets[k];
                assert(targets@.contains(a));
                let ghost before = ancestor@;
                edges_insert(&mut ancestor[a], b);
                proof {
                    assert forall|a2: usize, x: usize| a2 < ncomp implies (#[trigger] edge_set(
                        ancestor@[a2 as int],
                    ).contains(x) <==> (x < b && edge_set(state.succ@[x as int]).contains(a2)) || (x
                        == b && exists|j: int| 0 <= j < k + 1 && targets@[j] == a2)) by {
                        if a2 == a {
                            assert(edge_set(ancestor@[a2 as int]) == edge_set(before[a2 as int]).insert(
                                b,
                            ));
                            if x == b {
                                assert(targets@[k as int] == a2);
                            }
                        } else {
                            assert(ancestor@[a2 as int] == before[a2 as int]);
                            if exists|j: int| 0 <= j < k + 1 && targets@[j] == a2 {
                                let j = choose|j: int| 0 <= j < k + 1 && targets@[j] == a2;
                                assert(j < k);
                            }
                        }
                    }
                }
                k += 1;
            }
            proof {
                assert forall|a: usize, x: usize| a < ncomp implies (#[trigger] edge_set(
                    ancestor@[a as int],
                ).contains(x) <==> x < b + 1 && edge_set(state.succ@[x as int]).contains(a)) by {
                    if x == b && edge_set(state.succ@[b as int]).contains(a) {
                        assert(targets@.contains(a));
                        let j = choose|j: int| 0 <= j < targets@.len() && targets@[j] == a;
                        assert(0 <= j < k && targets@[j] == a);
                    }
                    if exists|j: int| 0 <= j < k && targets@[j] == a {
                        let j = choose|j: int| 0 <= j < k && targets@[j] == a;
                        assert(targets@.contains(a));
                    }
                }
            }
            b += 1;
        }
        let tc = TransitiveClosure {
            module_refs: refs,
            mod_to_condensed: state.comp,
            condensed_to_mod: state.scc,
            successor: state.succ,
            ancestor,
            unresolved,
        };
        proof {
            let members = tc.members();
            let succ = tc.successors();
            let anc = tc.ancestors();
            assert forall|cc: int, i: int|
                0 <= cc < members.len() && 0 <= i < members[cc].len() implies (
            #[trigger] members[cc][i] as int) < n && tc.component_of()[members[cc][i] as int]
                == cc by {
                assert(members[cc][i] == state.scc@[cc]@[i]);
            }
            assert forall|cc: int| 0 <= cc < members.len() implies (
            #[trigger] members[cc]).no_duplicates() by {
                assert(state.scc@[cc]@.no_duplicates());
            }
            assert forall|cc: int| 0 <= cc < members.len() implies (#[trigger] members[cc]).len()
                > 0 by {
                assert(state.scc@[cc]@.len() > 0);
            }
            assert forall|m: int| 0 <= m < n implies members[(
            #[trigger] tc.component_of()[m]) as int].contains(m as ModuleRef) by {
                assert(state.comp@[m] != UNASSIGNED);
                assert(state.scc@[state.comp@[m] as int]@.contains(m as ModuleRef));
            }
            assert forall|cc: int, x: usize| 0 <= cc < succ.len() && #[trigger] succ[cc].contains(
                x,
            ) implies x < members.len() by {
                assert(edge_set(state.succ@[cc]).contains(x));
            }
            assert forall|cc: int, x: usize| 0 <= cc < anc.len() && #[trigger] anc[cc].contains(
                x,
            ) implies x < members.len() by {
                assert(edge_set(ancestor@[cc]).contains(x));
            }
            assert forall|a: usize, x: usize| a < succ.len() && x < succ.len() implies (
            #[trigger] anc[a as int].contains(x) <==> #[trigger] succ[x as int].contains(a)) by {
                assert(anc[a as int] == edge_set(ancestor@[a as int]));
                assert(succ[x as int] == edge_set(state.succ@[x as int]));
            }
            assert forall|a: int, b: int| #[trigger] has_edge(g@, a, b) implies succ[tc.component_of()[a] as int].contains(
                tc.component_of()[b],
            ) by {
                let e = choose|e: int| 0 <= e < g@[a].len() && #[trigger] g@[a][e] == b;
                assert(state.comp@[a] != UNASSIGNED);
                assert(state.comp@[g@[a][e] as int] != UNASSIGNED);
                assert(succ[state.comp@[a] as int] == edge_set(state.succ@[state.comp@[a] as int]));
            }
            assert forall|c: int, x: usize, y: usize|
                0 <= c < succ.len() && x < succ.len() && #[trigger] succ[c].contains(x)
                    && #[trigger] succ[x as int].contains(y) implies succ[c].contains(y) by {
                assert(edge_set(state.succ@[c]).contains(x));
                assert(edge_set(state.succ@[x as int]).contains(y));
            }
            assert forall|c: int, x: usize| 0 <= c < succ.len() && #[trigger] succ[c].contains(
                x,
            ) implies x <= c by {
                assert(edge_set(state.succ@[c]).contains(x));
            }
            assert forall|c: int| 0 <= c < succ.len() implies (succ[c].contains(c as usize)
                <==> (#[trigger] members[c]).len() > 1) by {
                assert(succ[c] == edge_set(state.succ@[c]));
                assert(members[c] == state.scc@[c]@);
            }
            assert forall|a: int, b: int|
                0 <= a < n && 0 <= b < n && (tc.component_of()[a] == tc.component_of()[b]
                    || tc.reaches(a, b)) implies #[trigger] leads_to(g@, a, b) by {
                assert(state.comp@[a] != UNASSIGNED && state.comp@[b] != UNASSIGNED);
                assert(succ[state.comp@[a] as int] == edge_set(state.succ@[state.comp@[a] as int]));
                lemma_sound_in_the_end(state, g@, a, b);
            }
            tc.lemma_condenses(g@);
        }
        tc
    }

    /// The names of the modules of the components `comps` that pass the filter.
    pub open spec fn names_in(&self, comps: Set<usize>, what: Label, only: Option<Seq<char>>) -> Set<
        Seq<char>,
    > {
        Set::new(
            |p: Seq<char>|
                exists|x: int|
                    0 <= x < self.entries().len() && comps.contains(
                        #[trigger] self.component_of()[x],
                    ) && in_package(self.entries()[x], only) && label_of(self.entries()[x], what)
                        == Some(p),
        )
    }

    /// The names of the modules `ms` that pass the filter.
    pub open spec fn names_among(
        &self,
        ms: Seq<ModuleRef>,
        what: Label,
        only: Option<Seq<char>>,
    ) -> Set<Seq<char>> {
        Set::new(
            |p: Seq<char>|
                exists|t: int|
                    0 <= t < ms.len() && in_package(self.entries()[(#[trigger] ms[t]) as int], only)
                        && label_of(self.entries()[ms[t] as int], what) == Some(p),
        )
    }

    /// The import paths of the modules that module `m` depends on.
    pub open spec fn depends_on_set(&self, m: int) -> Set<Seq<char>> {
        self.names_in(self.successors()[self.component_of()[m] as int], Label::ImportPath, None)
    }

    /// The module that `name` stands for: the one with that file, or the one with that
    /// import path in the global namespace.
    pub open spec fn resolve(&self, name: Seq<char>, by_file: bool) -> Option<int> {
        if by_file {
            if fs_known(self.entries(), name) {
                Some(fs_index(self.entries(), name))
            } else {
                None
            }
        } else {
            if py_known(self.entries(), name, None) {
                Some(py_index(self.entries(), name, None))
            } else {
                None
            }
        }
    }

    /// The components that reach the component of one of `names`. A name that stands
    /// for no module contributes nothing.
    pub open spec fn affected_components(&self, names: Seq<Seq<char>>, by_file: bool) -> Set<usize> {
        Set::new(
            |c: usize|
                exists|i: int|
                    0 <= i < names.len() && self.resolve(#[trigger] names[i], by_file) is Some
                        && self.ancestors()[self.component_of()[self.resolve(
                        names[i],
                        by_file,
                    )->0] as int].contains(c),
        )
    }

    fn passes(v: &crate::moduleref::ModuleRefVal, only: Option<&str>) -> (r: bool)
        ensures
            r == in_package(v@, crate::moduleref::opt_str_chars(only)),
    {
        match only {
            None => true,
            Some(p) => match &v.pkg {
                Some(q) => crate::text::str_eq(q.as_str(), p),
                None => false,
            },
        }
    }

    /// The names, each once, of the modules of the components `comps` that pass the
    /// filter.
    fn names_of(&self, comps: &Vec<usize>, what: Label, only: Option<&str>) -> (out: Vec<String>)
        requires
            self.wf(),
            forall|k: int| 0 <= k < comps@.len() ==> comps@[k] < self.members().len(),
        ensures
            lists_set(
                out@,
                self.names_in(numbers_of(comps@), what, crate::moduleref::opt_str_chars(only)),
            ),
    {
        let ghost onlyv = crate::moduleref::opt_str_chars(only);
        let mut out = StringSet::new();
        let mut k: usize = 0;
        assert(out@ =~= self.names_in(numbers_of(comps@.take(0)), what, onlyv));
        while k < comps.len()
            invariant
                k <= comps@.len(),
                self.wf(),
                onlyv == crate::moduleref::opt_str_chars(only),
                forall|j: int| 0 <= j < comps@.len() ==> comps@[j] < self.members().len(),
                out.wf(),
                out@ == self.names_in(numbers_of(comps@.take(k as int)), what, onlyv),
            decreases comps@.len() - k,
        {
            let c = comps[k];
            let ms = &self.condensed_to_mod[c];
            let ghost base = out@;
            let mut i: usize = 0;
            assert(out@ =~= base.union(self.names_among(ms@.take(0), what, onlyv)));
            while i < ms.len()
                invariant
                    i <= ms@.len(),
                    self.wf(),
                    c < self.members().len(),
                    ms@ == self.members()[c as int],
                    onlyv == crate::moduleref::opt_str_chars(only),
                    out.wf(),
                    out@ == base.union(self.names_among(ms@.take(i as int), what, onlyv)),
                decreases ms@.len() - i,
            {
                let m = ms[i];
                assert(self.members()[c as int][i as int] == m);
                let rv = self.module_refs.get(m);
                let ghost before = out@;
                let ghost sofar = self.names_among(ms@.take(i as int), what, onlyv);
                let ghost next = self.names_among(ms@.take(i + 1), what, onlyv);
                if Self::passes(rv, only) {
                    match what {
                        Label::File => {
                            out.insert(rv.fs.as_str());
                        },
                        Label::ImportPath => {
                            out.insert(rv.py.as_str());
                        },
                        Label::Package => {
                            if let Some(p) = &rv.pkg {
                                out.insert(p.as_str());
                            }
                        },
                    }
                }
                proof {
                    let e = self.entries()[m as int];
                    assert(rv@ == e);
                    assert forall|p: Seq<char>| next.contains(p) <==> sofar.contains(p) || (
                    in_package(e, onlyv) && label_of(e, what) == Some(p)) by {
                        if next.contains(p) {
                            let t = choose|t: int|
                                0 <= t < i + 1 && in_package(
                                    self.entries()[(#[trigger] ms@.take(i + 1)[t]) as int],
                                    onlyv,
                                ) && label_of(self.entries()[ms@.take(i + 1)[t] as int], what) == Some(p);
                            if t < i {
                                assert(ms@.take(i as int)[t] == ms@.take(i + 1)[t]);
                            }
                        }
                        if sofar.contains(p) {
                            let t = choose|t: int|
                                0 <= t < i && in_package(
                                    self.entries()[(#[trigger] ms@.take(i as int)[t]) as int],
                                    onlyv,
                                ) && label_of(self.entries()[ms@.take(i as int)[t] as int], what) == Some(p);
                            assert(ms@.take(i + 1)[t] == ms@.take(i as int)[t]);
                        }
                        if in_package(e, onlyv) && label_of(e, what) == Some(p) {
                            assert(ms@.take(i + 1)[i as int] == m);
                        }
                    }
                    assert(out@ =~= base.union(next));
                }
                i += 1;
            }
            proof {
                assert(ms@.take(ms@.len() as int) =~= ms@);
                let among = self.names_among(ms@, what, onlyv);
                let done = numbers_of(comps@.take(k as int));
                let more = numbers_of(comps@.take(k + 1));
                let target = self.names_in(more, what, onlyv);
                let tk = comps@.take(k as int);
                let tk1 = comps@.take(k + 1);
                assert forall|x: usize| more.contains(x) <==> done.contains(x) || x == c by {
                    if more.contains(x) {
                        let j = choose|j: int| 0 <= j < tk1.len() && tk1[j] == x;
                        if j < k {
                            assert(tk[j] == x);
                        }
                    }
                    if done.contains(x) {
                        let j = choose|j: int| 0 <= j < tk.len() && tk[j] == x;
                        assert(tk1[j] == x);
                    }
                    if x == c {
                        assert(tk1[k as int] == x);
                    }
                }
                assert forall|p: Seq<char>| target.contains(p) <==> base.contains(p)
                    || among.contains(p) by {
                    if target.contains(p) {
                        let x = choose|x: int|
                            0 <= x < self.entries().len() && more.contains(
                                #[trigger] self.component_of()[x],
                            ) && in_package(self.entries()[x], onlyv) && label_of(
                                self.entries()[x],
                                what,
                            ) == Some(p);
                        if self.component_of()[x] == c {
                            assert(self.members()[c as int].contains(x as ModuleRef));
                            let t = choose|t: int| 0 <= t < ms@.len() && ms@[t] == x as ModuleRef;
                            assert(in_package(self.entries()[ms@[t] as int], onlyv));
                        } else {
                            assert(done.contains(self.component_of()[x]));
                        }
                    }
                    if base.contains(p) {
                        let x = choose|x: int|
                            0 <= x < self.entries().len() && done.contains(
                                #[trigger] self.component_of()[x],
                            ) && in_package(self.entries()[x], onlyv) && label_of(
                                self.entries()[x],
                                what,
                            ) == Some(p);
                        assert(more.contains(self.component_of()[x]));
                    }
                    if among.contains(p) {
                        let t = choose|t: int|
                            0 <= t < ms@.len() && in_package(
                                self.entries()[(#[trigger] ms@[t]) as int],
                                onlyv,
                            ) && label_of(self.entries()[ms@[t] as int], what) == Some(p);
                        let x = ms@[t] as int;
                        assert(self.members()[c as int][t] == ms@[t]);
                        assert(self.component_of()[x] == c);
                        assert(more.contains(self.component_of()[x]));
                    }
                }
                assert(out@ =~= target);
            }
            k += 1;
        }
        proof {
            assert(comps@.take(comps@.len() as int) =~= comps@);
        }
        out.into_vec()
    }

    /// The import paths, each once, of the modules that module `m` depends on; `None`
    /// where `m` is no module of the graph.
    pub fn depends_on(&self, m: ModuleRef) -> (r: Option<Vec<String>>)
        requires
            self.wf(),
        ensures
            r is Some <==> (m as int) < self.entries().len(),
            r is Some ==> lists_set(r->0@, self.depends_on_set(m as int)),
    {
        if m as usize >= self.mod_to_condensed.len() {
            return None;
        }
        let c = self.mod_to_condensed[m as usize];
        let comps = edges_to_vec(&self.successor[c]);
        proof {
            assert(self.successors()[c as int] == edge_set(self.successor@[c as int]));
            assert(numbers_of(comps@) =~= self.successors()[c as int]);
            assert forall|k: int| 0 <= k < comps@.len() implies comps@[k]
                < self.members().len() by {
                assert(comps@.contains(comps@[k]));
                assert(self.successors()[c as int].contains(comps@[k]));
            }
        }
        Some(self.names_of(&comps, Label::ImportPath, None))
    }

    /// What the module with file `filepath` depends on; `None` where no module has that
    /// file.
    pub fn file_depends_on(&self, filepath: &str) -> (r: Option<Vec<String>>)
        requires
            self.wf(),
        ensures
            r is Some <==> fs_known(self.entries(), filepath@),
            r is Some ==> lists_set(
                r->0@,
                self.depends_on_set(fs_index(self.entries(), filepath@)),
            ),
    {
        match self.module_refs.ref_for_fs(filepath) {
            Some(m) => self.depends_on(m),
            None => None,
        }
    }

    /// What the module with import path `module_import_path` in namespace `pkg_base`
    /// depends on; `None` where there is no such module.
    pub fn module_depends_on(&self, module_import_path: &str, pkg_base: Option<&str>) -> (r: Option<
        Vec<String>,
    >)
        requires
            self.wf(),
        ensures
            r is Some <==> py_known(
                self.entries(),
                module_import_path@,
                crate::moduleref::opt_str_chars(pkg_base),
            ),
            r is Some ==> lists_set(
                r->0@,
                self.depends_on_set(
                    py_index(
                        self.entries(),
                        module_import_path@,
                        crate::moduleref::opt_str_chars(pkg_base),
                    ),
                ),
            ),
    {
        match self.module_refs.ref_for_py(module_import_path, pkg_base) {
            Some(m) => self.depends_on(m),
            None => None,
        }
    }

    /// The components that reach the component of one of `names`, in ascending order.
    fn affected_by(&self, names: &Vec<String>, by_file: bool) -> (comps: Vec<usize>)
        requires
            self.wf(),
        ensures
            numbers_of(comps@) == self.affected_components(crate::text::views(names@), by_file),
            forall|k: int| 0 <= k < comps@.len() ==> comps@[k] < self.members().len(),
    {
        let ghost all_names = crate::text::views(names@);
        let mut all = edges_new();
        let mut i: usize = 0;
        assert(edge_set(all) =~= self.affected_components(all_names.take(0), by_file));
        while i < names.len()
            invariant
                i <= names@.len(),
                self.wf(),
                all_names == crate::text::views(names@),
                edge_set(all) == self.affected_components(all_names.take(i as int), by_file),
            decreases names@.len() - i,
        {
            let name = names[i].as_str();
            assert(all_names[i as int] == name@);
            let found = if by_file {
                self.module_refs.ref_for_fs(name)
            } else {
                self.module_refs.ref_for_py(name, None)
            };
            let ghost before = edge_set(all);
            let ghost done = all_names.take(i as int);
            let ghost next = all_names.take(i + 1);
            match found {
                None => {
                    proof {
                        assert(self.resolve(name@, by_file) is None);
                        assert forall|c: usize| self.affected_components(next, by_file).contains(c)
                            <==> self.affected_components(done, by_file).contains(c) by {
                            if self.affected_components(next, by_file).contains(c) {
                                let j = choose|j: int|
                                    0 <= j < next.len() && self.resolve(#[trigger] next[j], by_file)
                                        is Some && self.ancestors()[self.component_of()[self.resolve(
                                        next[j],
                                        by_file,
                                    )->0] as int].contains(c);
                                assert(j < i);
                                assert(done[j] == next[j]);
                            }
                            if self.affected_components(done, by_file).contains(c) {
                                let j = choose|j: int|
                                    0 <= j < done.len() && self.resolve(#[trigger] done[j], by_file)
                                        is Some && self.ancestors()[self.component_of()[self.resolve(
                                        done[j],
                                        by_file,
                                    )->0] as int].contains(c);
                                assert(next[j] == done[j]);
                            }
                        }
                        assert(edge_set(all) =~= self.affected_components(next, by_file));
                    }
                },
                Some(m) => {
                    assert(self.resolve(name@, by_file) == Some(m as int));
                    let c = self.mod_to_condensed[m as usize];
                    let anc = edges_to_vec(&self.ancestor[c]);
                    let ghost anc_set = self.ancestors()[c as int];
                    assert(anc_set == edge_set(self.ancestor@[c as int]));
                    let mut k: usize = 0;
                    assert(edge_set(all) =~= before.union(numbers_of(anc@.take(0))));
                    while k < anc.len()
                        invariant
                            k <= anc@.len(),
                            forall|t: int| 0 <= t < anc@.len() ==> anc@[t] < EDGE_CAPACITY,
                            edge_set(all) == before.union(numbers_of(anc@.take(k as int))),
                        decreases anc@.len() - k,
                    {
                        edges_insert(&mut all, anc[k]);
                        proof {
                            lemma_numbers_of_take(anc@, k as int);
                            assert(edge_set(all) =~= before.union(numbers_of(anc@.take(k + 1))));
                        }
                        k += 1;
                    }
                    proof {
                        assert(anc@.take(anc@.len() as int) =~= anc@);
                        assert(numbers_of(anc@) =~= anc_set);
                        assert forall|x: usize| self.affected_components(next, by_file).contains(x)
                            <==> before.contains(x) || anc_set.contains(x) by {
                            if self.affected_components(next, by_file).contains(x) {
                                let j = choose|j: int|
                                    0 <= j < next.len() && self.resolve(#[trigger] next[j], by_file)
                                        is Some && self.ancestors()[self.component_of()[self.resolve(
                                        next[j],
                                        by_file,
                                    )->0] as int].contains(x);
                                if j < i {
                                    assert(done[j] == next[j]);
                                }
                            }
                            if before.contains(x) {
                                let j = choose|j: int|
                                    0 <= j < done.len() && self.resolve(#[trigger] done[j], by_file)
                                        is Some && self.ancestors()[self.component_of()[self.resolve(
                                        done[j],
                                        by_file,
                                    )->0] as int].contains(x);
                                assert(next[j] == done[j]);
                            }
                            if anc_set.contains(x) {
                                assert(next[i as int] == name@);
                            }
                        }
                        assert(edge_set(all) =~= self.affected_components(next, by_file));
                    }
                },
            }
            i += 1;
        }
        let comps = edges_to_vec(&all);
        proof {
            assert(all_names.take(names@.len() as int) =~= all_names);
            assert(numbers_of(comps@) =~= edge_set(all));
            assert forall|k: int| 0 <= k < comps@.len() implies comps@[k]
                < self.members().len() by {
                let x = comps@[k];
                assert(comps@.contains(x));
                assert(self.affected_components(all_names, by_file).contains(x));
                let j = choose|j: int|
                    0 <= j < all_names.len() && self.resolve(#[trigger] all_names[j], by_file)
                        is Some && self.ancestors()[self.component_of()[self.resolve(
                        all_names[j],
                        by_file,
                    )->0] as int].contains(x);
            }
        }
        comps
    }

    /// The import paths, each once, of the modules that depend on one of `modules`,
    /// given by their import paths in the global namespace.
    pub fn affected_by_modules(&self, modules: &Vec<String>) -> (r: Vec<String>)
        requires
            self.wf(),
        ensures
            lists_set(
                r@,
                self.names_in(
                    self.affected_components(crate::text::views(modules@), false),
                    Label::ImportPath,
                    None,
                ),
            ),
    {
        let comps = self.affected_by(modules, false);
        self.names_of(&comps, Label::ImportPath, None)
    }

    /// The files, each once, of the modules that depend on one of the modules with the
    /// files `files`.
    pub fn affected_by_files(&self, files: &Vec<String>) -> (r: Vec<String>)
        requires
            self.wf(),
        ensures
            lists_set(
                r@,
                self.names_in(
                    self.affected_components(crate::text::views(files@), true),
                    Label::File,
                    None,
                ),
            ),
    {
        let comps = self.affected_by(files, true);
        self.names_of(&comps, Label::File, None)
    }

    /// `groups` has one row for each package that owns a module of the components
    /// `comps`, with what is reported of the modules that the package owns.
    pub open spec fn groups_by_package(
        &self,
        groups: Seq<(String, Vec<String>)>,
        comps: Set<usize>,
        what: Label,
    ) -> bool {
        &&& lists_set(
            groups.map_values(|g: (String, Vec<String>)| g.0),
            self.names_in(comps, Label::Package, None),
        )
        &&& forall|i: int|
            0 <= i < groups.len() ==> lists_set(
                (#[trigger] groups[i]).1@,
                self.names_in(comps, what, Some(groups[i].0@)),
            )
    }

    fn grouped(&self, comps: &Vec<usize>, what: Label) -> (groups: Vec<(String, Vec<String>)>)
        requires
            self.wf(),
            forall|k: int| 0 <= k < comps@.len() ==> comps@[k] < self.members().len(),
        ensures
            self.groups_by_package(groups@, numbers_of(comps@), what),
    {
        let pkgs = self.names_of(comps, Label::Package, None);
        let mut groups: Vec<(String, Vec<String>)> = Vec::new();
        let mut i: usize = 0;
        while i < pkgs.len()
            invariant
                i <= pkgs@.len(),
                self.wf(),
                forall|k: int| 0 <= k < comps@.len() ==> comps@[k] < self.members().len(),
                groups@.len() == i,
                forall|j: int| 0 <= j < i ==> (#[trigger] groups@[j]).0 == pkgs@[j],
                forall|j: int|
                    0 <= j < i ==> lists_set(
                        (#[trigger] groups@[j]).1@,
                        self.names_in(numbers_of(comps@), what, Some(groups@[j].0@)),
                    ),
            decreases pkgs@.len() - i,
        {
            let names = self.names_of(comps, what, Some(pkgs[i].as_str()));
            groups.push((pkgs[i].clone(), names));
            i += 1;
        }
        proof {
            assert(groups@.map_values(|g: (String, Vec<String>)| g.0) =~= pkgs@);
        }
        groups
    }

    /// For each package, the import paths of the modules it owns that depend on one of
    /// `modules`, given by their import paths in the global namespace.
    pub fn local_affected_by_modules(&self, modules: &Vec<String>) -> (r: Vec<
        (String, Vec<String>),
    >)
        requires
            self.wf(),
        ensures
            self.groups_by_package(
                r@,
                self.affected_components(crate::text::views(modules@), false),
                Label::ImportPath,
            ),
    {
        let comps = self.affected_by(modules, false);
        self.grouped(&comps, Label::ImportPath)
    }

    /// For each package, the files of the modules it owns that depend on one of the
    /// modules with the files `files`.
    pub fn local_affected_by_files(&self, files: &Vec<String>) -> (r: Vec<(String, Vec<String>)>)
        requires
            self.wf(),
        ensures
            self.groups_by_package(
                r@,
                self.affected_components(crate::text::views(files@), true),
                Label::File,
            ),
    {
        let comps = self.affected_by(files, true);
        self.grouped(&comps, Label::File)
    }

    /// The files of the modules `ms`.
    pub open spec fn files_of(&self, ms: Seq<ModuleRef>) -> Set<Seq<char>> {
        Set::new(
            |p: Seq<char>|
                exists|t: int| 0 <= t < ms.len() && self.entries()[(#[trigger] ms[t]) as int].fs == p,
        )
    }

    /// Each unresolved import with the files, each once, of the modules that asked for
    /// it.
    pub fn unresolved(&self) -> (r: Vec<(String, Vec<String>)>)
        requires
            self.wf(),
        ensures
            r@.len() == self.unresolved_imports()@.len(),
            forall|i: int|
                0 <= i < r@.len() ==> (#[trigger] r@[i]).0@ == self.unresolved_imports()@[i].0
                    && lists_set(r@[i].1@, self.files_of(self.unresolved_imports()@[i].1)),
    {
        let mut out: Vec<(String, Vec<String>)> = Vec::new();
        let mut i: usize = 0;
        while i < self.unresolved.len()
            invariant
                i <= self.unresolved@.len(),
                self.wf(),
                out@.len() == i,
                forall|j: int|
                    0 <= j < i ==> (#[trigger] out@[j]).0@ == self.unresolved@[j].0 && lists_set(
                        out@[j].1@,
                        self.files_of(self.unresolved@[j].1),
                    ),
            decreases self.unresolved@.len() - i,
        {
            let refs = self.unresolved.referrers(i);
            let mut files = StringSet::new();
            let mut k: usize = 0;
            assert(files@ =~= self.files_of(refs@.take(0)));
            while k < refs.len()
                invariant
                    k <= refs@.len(),
                    self.wf(),
                    i < self.unresolved@.len(),
                    refs@ == self.unresolved@[i as int].1,
                    files.wf(),
                    files@ == self.files_of(refs@.take(k as int)),
                decreases refs@.len() - k,
            {
                let m = refs[k];
                assert(self.unresolved@[i as int].1[k as int] == m);
                let ghost sofar = refs@.take(k as int);
                let ghost next = refs@.take(k + 1);
                files.insert(self.module_refs.fs_for_ref(m));
                proof {
                    assert forall|p: Seq<char>| self.files_of(next).contains(p) <==> self.files_of(
                        sofar,
                    ).contains(p) || p == self.entries()[m as int].fs by {
                        if self.files_of(next).contains(p) {
                            let t = choose|t: int|
                                0 <= t < next.len() && self.entries()[(#[trigger] next[t]) as int].fs
                                    == p;
                            if t < k {
                                assert(sofar[t] == next[t]);
                            }
                        }
                        if self.files_of(sofar).contains(p) {
                            let t = choose|t: int|
                                0 <= t < sofar.len() && self.entries()[(
                                #[trigger] sofar[t]) as int].fs == p;
                            assert(next[t] == sofar[t]);
                        }
                        if p == self.entries()[m as int].fs {
                            assert(next[k as int] == m);
                        }
                    }
                    assert(files@ =~= self.files_of(next));
                }
                k += 1;
            }
            assert(refs@.take(refs@.len() as int) =~= refs@);
            out.push((self.unresolved.path(i).to_owned(), files.into_vec()));
            i += 1;
        }
        out
    }

    /// The component of module `m`, if `m` is a module of the graph.
    pub fn component(&self, m: ModuleRef) -> (c: Option<usize>)
        requires
            self.wf(),
        ensures
            match c {
                Some(c) => (m as int) < self.entries().len() && c == self.component_of()[m as int]
                    && c < self.members().len(),
                None => (m as int) >= self.entries().len(),
            },
    {
        if (m as usize) < self.mod_to_condensed.len() {
            Some(self.mod_to_condensed[m as usize])
        } else {
            None
        }
    }

    /// The members of component `c`.
    pub fn members_of(&self, c: usize) -> (ms: &Vec<ModuleRef>)
        requires
            c < self.members().len(),
        ensures
            ms@ == self.members()[c as int],
    {
        &self.condensed_to_mod[c]
    }

    /// The components that component `c` reaches, in ascending order.
    pub fn successors_of(&self, c: usize) -> (v: Vec<usize>)
        requires
            self.wf(),
            c < self.members().len(),
        ensures
            forall|i: int, j: int| 0 <= i < j < v@.len() ==> v@[i] < v@[j],
            forall|x: usize| v@.contains(x) <==> self.successors()[c as int].contains(x),
    {
        edges_to_vec(&self.successor[c])
    }

    /// The components that reach component `c`, in ascending order.
    pub fn ancestors_of(&self, c: usize) -> (v: Vec<usize>)
        requires
            self.wf(),
            c < self.members().len(),
        ensures
            forall|i: int, j: int| 0 <= i < j < v@.len() ==> v@[i] < v@[j],
            forall|x: usize| v@.contains(x) <==> self.ancestors()[c as int].contains(x),
    {
        edges_to_vec(&self.ancestor[c])
    }

    /// The number of components.
    pub fn component_count(&self) -> (n: usize)
        ensures
            n == self.members().len(),
    {
        self.condensed_to_mod.len()
    }

    /// The table of modules.
    pub fn module_refs(&self) -> (c: &ModuleRefCache)
        ensures
            *c == self.cache(),
    {
        &self.module_refs
    }
}

} // verus!
