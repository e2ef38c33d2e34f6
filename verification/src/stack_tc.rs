//! Strongly connected components and their transitive closure in one depth-first
//! traversal (the Stack_TC algorithm of E. Nuutila).
use vstd::prelude::*;
use crate::edge_table::{edges_inv, has_edge, EdgeTable};
use crate::edges::{
    edge_set, edges_contains, edges_insert, edges_new, edges_to_vec, CondensedEdges, EDGE_CAPACITY,
};
use crate::moduleref::ModuleRef;
use crate::soundness::{
    from_queue, lemma_above_frame, lemma_above_none, lemma_call_ready, lemma_from_queue,
    lemma_from_queue_lower, lemma_queue_frame, lemma_queue_none, lemma_sound_after_visit,
    lemma_sound_enter, lemma_sound_frame, lemma_sound_lower_root, lemma_sound_pop,
    lemma_sound_push,
};

verus! {

pub(crate) type CondensedRef = usize;

/// The mark of a module that the traversal has not reached.
pub(crate) const UNVISITED: ModuleRef = 0xffff_ffff;

/// The mark of a module that has no component yet.
pub(crate) const UNASSIGNED: CondensedRef = usize::MAX;

/// How many entries are still `UNVISITED`.
pub(crate) open spec fn unvisited(root: Seq<ModuleRef>) -> nat
    decreases root.len(),
{
    if root.len() == 0 {
        0
    } else {
        unvisited(root.drop_last()) + if root.last() == UNVISITED {
            1nat
        } else {
            0nat
        }
    }
}

/// The number of modules in all components together.
pub(crate) open spec fn total_members(scc: Seq<Vec<ModuleRef>>) -> nat
    decreases scc.len(),
{
    if scc.len() == 0 {
        0
    } else {
        total_members(scc.drop_last()) + scc.last()@.len()
    }
}

proof fn lemma_unvisited_bound(root: Seq<ModuleRef>)
    ensures
        unvisited(root) <= root.len(),
    decreases root.len(),
{
    if root.len() > 0 {
        lemma_unvisited_bound(root.drop_last());
    }
}

proof fn lemma_unvisited_update(root: Seq<ModuleRef>, v: int, x: ModuleRef)
    requires
        0 <= v < root.len(),
        x != UNVISITED,
    ensures
        unvisited(root.update(v, x)) + (if root[v] == UNVISITED {
            1nat
        } else {
            0nat
        }) == unvisited(root),
    decreases root.len(),
{
    let r2 = root.update(v, x);
    if v == root.len() - 1 {
        assert(r2.drop_last() =~= root.drop_last());
    } else {
        assert(r2.drop_last() =~= root.drop_last().update(v, x));
        lemma_unvisited_update(root.drop_last(), v, x);
    }
}

proof fn lemma_all_unvisited(root: Seq<ModuleRef>)
    requires
        forall|i: int| 0 <= i < root.len() ==> root[i] == UNVISITED,
    ensures
        unvisited(root) == root.len(),
    decreases root.len(),
{
    if root.len() > 0 {
        lemma_all_unvisited(root.drop_last());
    }
}

proof fn lemma_total_members_push(scc: Seq<Vec<ModuleRef>>, c: Vec<ModuleRef>)
    ensures
        total_members(scc.push(c)) == total_members(scc) + c@.len(),
{
    assert(scc.push(c).drop_last() =~= scc);
}

pub(crate) proof fn lemma_components_bound(scc: Seq<Vec<ModuleRef>>)
    requires
        forall|c: int| 0 <= c < scc.len() ==> (#[trigger] scc[c])@.len() > 0,
    ensures
        scc.len() <= total_members(scc),
    decreases scc.len(),
{
    if scc.len() > 0 {
        assert forall|c: int| 0 <= c < scc.drop_last().len() implies (#[trigger] scc.drop_last()[c])@.len()
            > 0 by {
            assert(scc.drop_last()[c] == scc[c]);
        }
        lemma_components_bound(scc.drop_last());
    }
}

/// `u` is one of `vs`.
#[verifier::opaque]
pub(crate) open spec fn on_stack(vs: Seq<ModuleRef>, u: ModuleRef) -> bool {
    exists|i: int| 0 <= i < vs.len() && vs[i] == u
}

/// A position of `u` in `vs`.
pub(crate) open spec fn position(vs: Seq<ModuleRef>, u: ModuleRef) -> int {
    choose|i: int| 0 <= i < vs.len() && vs[i] == u
}

pub(crate) proof fn lemma_position(vs: Seq<ModuleRef>, u: ModuleRef)
    requires
        on_stack(vs, u),
    ensures
        0 <= position(vs, u) < vs.len(),
        vs[position(vs, u)] == u,
{
    reveal(on_stack);
}

pub(crate) proof fn lemma_on_stack(vs: Seq<ModuleRef>, i: int)
    requires
        0 <= i < vs.len(),
    ensures
        on_stack(vs, vs[i]),
{
    reveal(on_stack);
}

/// There are no more components than modules visited.
pub(crate) proof fn lemma_components_at_most(scc: Seq<Vec<ModuleRef>>, n: nat, visited: nat)
    requires
        forall|c: int| 0 <= c < scc.len() ==> (#[trigger] scc[c])@.len() > 0,
        total_members(scc) <= visited,
        visited <= n,
    ensures
        scc.len() <= n,
{
    lemma_components_bound(scc);
}

/// Component `c` is on the stack of components at height `from` or above.
#[verifier::opaque]
pub(crate) open spec fn queued(cs: Seq<CondensedRef>, from: int, c: CondensedRef) -> bool {
    exists|k: int| 0 <= from <= k < cs.len() && cs[k] == c
}

pub(crate) proof fn lemma_queued_witness(cs: Seq<CondensedRef>, from: int, c: CondensedRef) -> (k: int)
    requires
        queued(cs, from, c),
    ensures
        0 <= from <= k < cs.len(),
        cs[k] == c,
{
    reveal(queued);
    choose|k: int| 0 <= from <= k < cs.len() && cs[k] == c
}

pub(crate) proof fn lemma_queued(cs: Seq<CondensedRef>, from: int, k: int)
    requires
        0 <= from <= k < cs.len(),
    ensures
        queued(cs, from, cs[k]),
{
    reveal(queued);
}

/// Whatever a component reaches, it reaches what that reaches.
pub(crate) open spec fn is_transitive(list: Seq<CondensedEdges>) -> bool {
    forall|c: int, x: usize, y: usize|
        0 <= c < list.len() && x < list.len() && #[trigger] edge_set(list[c]).contains(x)
            && #[trigger] edge_set(list[x as int]).contains(y) ==> edge_set(list[c]).contains(y)
}

/// A component reaches only itself and components made before it, and itself exactly
/// when it has more than one member.
pub(crate) open spec fn is_layered(list: Seq<CondensedEdges>, scc: Seq<Vec<ModuleRef>>) -> bool {
    &&& forall|c: int, x: usize|
        0 <= c < list.len() && #[trigger] edge_set(list[c]).contains(x) ==> x <= c
    &&& forall|c: int|
        0 <= c < list.len() && c < scc.len() ==> (edge_set(#[trigger] list[c]).contains(c as usize)
            <==> scc[c]@.len() > 1)
}

/// The working state of the traversal.
pub(crate) struct StackTC {
    pub(crate) max_d: usize,
    pub(crate) d: Vec<usize>,
    pub(crate) root: Vec<ModuleRef>,
    pub(crate) comp: Vec<CondensedRef>,
    pub(crate) saved_height: Vec<usize>,
    pub(crate) cstack: Vec<CondensedRef>,
    pub(crate) vstack: Vec<ModuleRef>,
    pub(crate) scc: Vec<Vec<ModuleRef>>,
    pub(crate) succ: Vec<CondensedEdges>,
    /// For each module, how many of its edges have been looked at.
    pub(crate) done: Ghost<Seq<nat>>,
    /// For each module, whether its visit has ended.
    pub(crate) closed: Ghost<Seq<bool>>,
}

impl StackTC {
    /// The part of the invariant that says which numbers are in range.
    pub(crate) open spec fn in_range(&self, n: nat) -> bool {
        &&& n <= EDGE_CAPACITY
        &&& n < UNVISITED
        &&& self.d@.len() == n
        &&& self.root@.len() == n
        &&& self.comp@.len() == n
        &&& self.saved_height@.len() == n
        &&& self.scc@.len() == self.succ@.len()
        &&& self.max_d + unvisited(self.root@) == n
        &&& total_members(self.scc@) + self.vstack@.len() == self.max_d
        &&& forall|u: int|
            0 <= u < n ==> (#[trigger] self.root@[u]) == UNVISITED || self.root@[u] < n
        &&& forall|u: int|
            0 <= u < n ==> (#[trigger] self.comp@[u]) == UNASSIGNED || (self.comp@[u]
                < self.scc@.len() && self.root@[u] != UNVISITED)
        &&& forall|u: int| 0 <= u < n ==> (#[trigger] self.d@[u]) < n
        &&& forall|i: int|
            0 <= i < self.vstack@.len() ==> (#[trigger] self.vstack@[i]) < n
                && self.root@[self.vstack@[i] as int] != UNVISITED
                && self.comp@[self.vstack@[i] as int] == UNASSIGNED
        &&& self.vstack@.no_duplicates()
        &&& forall|i: int| 0 <= i < self.cstack@.len() ==> (#[trigger] self.cstack@[i]) < self.scc@.len()
    }

    /// Components and the component of each module agree.
    pub(crate) open spec fn is_partition(&self) -> bool {
        &&& forall|c: int, i: int|
            0 <= c < self.scc@.len() && 0 <= i < self.scc@[c]@.len() ==> (
            #[trigger] self.scc@[c]@[i] as int) < self.comp@.len()
                && self.comp@[self.scc@[c]@[i] as int] == c
        &&& forall|c: int| 0 <= c < self.scc@.len() ==> (#[trigger] self.scc@[c])@.len() > 0
        &&& forall|c: int| 0 <= c < self.scc@.len() ==> (#[trigger] self.scc@[c])@.no_duplicates()
        &&& forall|u: int|
            0 <= u < self.comp@.len() && (#[trigger] self.comp@[u]) != UNASSIGNED
                ==> self.scc@[self.comp@[u] as int]@.contains(u as ModuleRef)
    }

    /// Every successor set names components that exist.
    pub(crate) open spec fn successors_in_range(&self) -> bool {
        forall|c: int, x: usize|
            0 <= c < self.succ@.len() && #[trigger] edge_set(self.succ@[c]).contains(x) ==> x
                < self.succ@.len()
    }

    /// The stack of modules holds the visited modules without a component, in the order
    /// of their visit, and the root candidate of each is on the stack and was visited no
    /// later than it.
    pub(crate) open spec fn stack_is_ordered(&self) -> bool {
        &&& forall|u: int|
            0 <= u < self.root@.len() && (#[trigger] self.root@[u]) != UNVISITED && self.comp@[u]
                == UNASSIGNED ==> on_stack(self.vstack@, u as ModuleRef) && on_stack(
                self.vstack@,
                self.root@[u],
            ) && self.d@[self.root@[u] as int] <= self.d@[u]
        &&& forall|i: int, j: int|
            0 <= i < j < self.vstack@.len() ==> self.d@[(#[trigger] self.vstack@[i]) as int]
                < self.d@[(#[trigger] self.vstack@[j]) as int]
        &&& forall|i: int|
            0 <= i < self.vstack@.len() ==> self.d@[(#[trigger] self.vstack@[i]) as int]
                < self.max_d
    }

    /// What holds of the structure alone, whatever the edges.
    pub(crate) open spec fn base_inv(&self, g: Seq<Seq<ModuleRef>>) -> bool {
        &&& edges_inv(g)
        &&& self.in_range(g.len())
        &&& self.is_partition()
        &&& self.successors_in_range()
        &&& self.stack_is_ordered()
    }

    /// Every module on the stack whose visit order lies in `(lo, hi]` has ended its
    /// visit.
    #[verifier::opaque]
    pub(crate) open spec fn closed_between(&self, lo: int, hi: int) -> bool {
        forall|j: int|
            0 <= j < self.vstack@.len() && lo < self.d@[(#[trigger] self.vstack@[j]) as int] <= hi
                ==> self.closed@[self.vstack@[j] as int]
    }

    /// What is known of an edge from a module `u` on the stack to `w` once it has been
    /// looked at: the component of `w` waits on the stack of components, or `w` is on
    /// the stack of modules, no earlier than the root candidate of `u`, with nothing
    /// still being visited between `u` and `w`.
    pub(crate) open spec fn edge_ok(&self, u: int, w: int) -> bool {
        if self.comp@[w] != UNASSIGNED {
            queued(self.cstack@, self.saved_height@[u] as int, self.comp@[w])
        } else {
            &&& self.root@[w] != UNVISITED
            &&& self.d@[self.root@[u] as int] <= self.d@[w]
            &&& self.d@[u] < self.d@[w] ==> self.closed_between(
                self.d@[u] as int,
                self.d@[w] as int,
            )
        }
    }

    /// How far each visit has come.
    pub(crate) open spec fn progress_ok(&self, g: Seq<Seq<ModuleRef>>) -> bool {
        &&& self.done@.len() == g.len()
        &&& self.closed@.len() == g.len()
        &&& forall|u: int| 0 <= u < g.len() ==> (#[trigger] self.done@[u]) <= g[u].len()
        &&& forall|u: int|
            0 <= u < g.len() && (#[trigger] self.root@[u]) == UNVISITED ==> self.done@[u] == 0
                && !self.closed@[u]
        &&& forall|u: int|
            0 <= u < g.len() && #[trigger] self.closed@[u] ==> self.done@[u] == g[u].len()
        &&& forall|u: int|
            0 <= u < g.len() && (#[trigger] self.comp@[u]) != UNASSIGNED ==> self.closed@[u]
    }

    /// The stack of components was no higher when a module lower on the stack was
    /// entered.
    pub(crate) open spec fn heights_ordered(&self) -> bool {
        &&& forall|i: int, j: int|
            0 <= i < j < self.vstack@.len() ==> self.saved_height@[(
            #[trigger] self.vstack@[i]) as int] <= self.saved_height@[(
            #[trigger] self.vstack@[j]) as int]
        &&& forall|i: int|
            0 <= i < self.vstack@.len() ==> self.saved_height@[(#[trigger] self.vstack@[i]) as int]
                <= self.cstack@.len()
    }

    /// Every edge that leaves a module with a component leads to a component that the
    /// module's component reaches.
    pub(crate) open spec fn assigned_edges_ok(&self, g: Seq<Seq<ModuleRef>>) -> bool {
        forall|u: int, e: int|
            0 <= u < g.len() && self.comp@[u] != UNASSIGNED && 0 <= e < g[u].len() ==> self.comp@[(
            #[trigger] g[u][e]) as int] != UNASSIGNED && edge_set(
                self.succ@[self.comp@[u] as int],
            ).contains(self.comp@[g[u][e] as int])
    }

    /// Every edge looked at that leaves a module on the stack is accounted for.
    pub(crate) open spec fn stack_edges_ok(&self, g: Seq<Seq<ModuleRef>>) -> bool {
        forall|u: int, e: int|
            0 <= u < g.len() && self.root@[u] != UNVISITED && self.comp@[u] == UNASSIGNED && 0 <= e
                < self.done@[u] ==> self.edge_ok(u, (#[trigger] g[u][e]) as int)
    }

    /// What holds of the components with respect to the edges.
    pub(crate) open spec fn closure_inv(&self, g: Seq<Seq<ModuleRef>>) -> bool {
        &&& self.progress_ok(g)
        &&& self.heights_ordered()
        &&& is_transitive(self.succ@)
        &&& is_layered(self.succ@, self.scc@)
        &&& self.assigned_edges_ok(g)
        &&& self.stack_edges_ok(g)
    }

    pub(crate) open spec fn inv(&self, g: Seq<Seq<ModuleRef>>) -> bool {
        &&& self.base_inv(g)
        &&& self.closure_inv(g)
    }

    /// What a visit leaves as it was: all that is recorded of the modules visited
    /// before it, the components made before it, and both stacks up to their height
    /// before it.
    pub(crate) open spec fn extends(&self, before: &StackTC) -> bool {
        &&& self.max_d >= before.max_d
        &&& forall|u: int|
            0 <= u < before.root@.len() && (#[trigger] before.root@[u]) != UNVISITED ==> {
                &&& self.root@[u] == before.root@[u]
                &&& self.saved_height@[u] == before.saved_height@[u]
                &&& self.d@[u] == before.d@[u]
                &&& self.comp@[u] == before.comp@[u]
                &&& self.done@[u] == before.done@[u]
                &&& self.closed@[u] == before.closed@[u]
            }
        &&& self.scc@.len() >= before.scc@.len()
        &&& forall|c: int|
            0 <= c < before.scc@.len() ==> (#[trigger] self.scc@[c]) == before.scc@[c]
                && self.succ@[c] == before.succ@[c]
        &&& self.vstack@.len() >= before.vstack@.len()
        &&& forall|i: int|
            0 <= i < before.vstack@.len() ==> (#[trigger] self.vstack@[i]) == before.vstack@[i]
        &&& self.cstack@.len() >= before.cstack@.len()
        &&& forall|i: int|
            0 <= i < before.cstack@.len() ==> (#[trigger] self.cstack@[i]) == before.cstack@[i]
    }

    pub(crate) proof fn lemma_extends_trans(&self, mid: &StackTC, before: &StackTC)
        requires
            self.extends(mid),
            mid.extends(before),
            mid.root@.len() == before.root@.len(),
        ensures
            self.extends(before),
    {
        assert forall|u: int|
            0 <= u < before.root@.len() && (#[trigger] before.root@[u]) != UNVISITED implies {
            &&& self.root@[u] == before.root@[u]
            &&& self.saved_height@[u] == before.saved_height@[u]
            &&& self.d@[u] == before.d@[u]
            &&& self.comp@[u] == before.comp@[u]
            &&& self.done@[u] == before.done@[u]
            &&& self.closed@[u] == before.closed@[u]
        } by {
            assert(mid.root@[u] != UNVISITED);
        }
        assert forall|c: int| 0 <= c < before.scc@.len() implies (#[trigger] self.scc@[c])
            == before.scc@[c] && self.succ@[c] == before.succ@[c] by {
            assert(mid.scc@[c] == before.scc@[c]);
        }
        assert forall|i: int| 0 <= i < before.vstack@.len() implies (#[trigger] self.vstack@[i])
            == before.vstack@[i] by {
            assert(mid.vstack@[i] == before.vstack@[i]);
        }
        assert forall|i: int| 0 <= i < before.cstack@.len() implies (#[trigger] self.cstack@[i])
            == before.cstack@[i] by {
            assert(mid.cstack@[i] == before.cstack@[i]);
        }
    }

    /// A module that is visited and has no component is at its position on the stack.
    pub(crate) proof fn lemma_stack_position(&self, g: Seq<Seq<ModuleRef>>, u: int) -> (k: int)
        requires
            self.base_inv(g),
            0 <= u < g.len(),
            self.root@[u] != UNVISITED,
            self.comp@[u] == UNASSIGNED,
        ensures
            0 <= k < self.vstack@.len(),
            self.vstack@[k] == u,
            self.d@[u] < self.max_d,
    {
        lemma_position(self.vstack@, u as ModuleRef);
        position(self.vstack@, u as ModuleRef)
    }

    /// Of two modules on the stack the one visited later is higher.
    pub(crate) proof fn lemma_stack_order(&self, g: Seq<Seq<ModuleRef>>, i: int, j: int)
        requires
            self.base_inv(g),
            0 <= i < self.vstack@.len(),
            0 <= j < self.vstack@.len(),
            self.d@[self.vstack@[i] as int] <= self.d@[self.vstack@[j] as int],
        ensures
            i <= j,
    {
        if j < i {
            assert(self.d@[self.vstack@[j] as int] < self.d@[self.vstack@[i] as int]);
        }
    }

    /// The state before any module is visited.
    pub(crate) fn new(n: usize) -> (s: StackTC)
        requires
            n <= EDGE_CAPACITY,
        ensures
            s.in_range(n as nat),
            s.is_partition(),
            s.successors_in_range(),
            s.stack_is_ordered(),
            s.heights_ordered(),
            is_transitive(s.succ@),
            is_layered(s.succ@, s.scc@),
            s.done@ == Seq::new(n as nat, |i: int| 0nat),
            s.closed@ == Seq::new(n as nat, |i: int| false),
            forall|u: int| 0 <= u < n ==> s.root@[u] == UNVISITED,
            forall|u: int| 0 <= u < n ==> s.comp@[u] == UNASSIGNED,
            s.scc@.len() == 0,
            s.vstack@.len() == 0,
            s.cstack@.len() == 0,
            s.max_d == 0,
    {
        let mut d: Vec<usize> = Vec::new();
        let mut root: Vec<ModuleRef> = Vec::new();
        let mut comp: Vec<CondensedRef> = Vec::new();
        let mut saved_height: Vec<usize> = Vec::new();
        let mut i: usize = 0;
        while i < n
            invariant
                i <= n,
                d@.len() == i,
                root@.len() == i,
                comp@.len() == i,
                saved_height@.len() == i,
                forall|u: int| 0 <= u < i ==> d@[u] == 0,
                forall|u: int| 0 <= u < i ==> root@[u] == UNVISITED,
                forall|u: int| 0 <= u < i ==> comp@[u] == UNASSIGNED,
            decreases n - i,
        {
            d.push(0);
            root.push(UNVISITED);
            comp.push(UNASSIGNED);
            saved_height.push(0);
            i += 1;
        }
        proof {
            lemma_all_unvisited(root@);
        }
        StackTC {
            max_d: 0,
            d,
            root,
            comp,
            saved_height,
            cstack: Vec::new(),
            vstack: Vec::new(),
            scc: Vec::new(),
            succ: Vec::new(),
            done: Ghost(Seq::new(n as nat, |i: int| 0nat)),
            closed: Ghost(Seq::new(n as nat, |i: int| false)),
        }
    }
}

pub(crate) proof fn lemma_queued_push(cs: Seq<CondensedRef>, from: int, c: CondensedRef, x: CondensedRef)
    requires
        queued(cs, from, c),
    ensures
        queued(cs.push(x), from, c),
{
    let k = lemma_queued_witness(cs, from, c);
    assert(cs.push(x)[k] == c);
    lemma_queued(cs.push(x), from, k);
}

/// Marks `v` as visited and puts it on the stack of modules.
fn enter(s: &mut StackTC, v: ModuleRef, Ghost(g): Ghost<Seq<Seq<ModuleRef>>>)
    requires
        old(s).inv(g),
        (v as int) < g.len(),
        old(s).root@[v as int] == UNVISITED,
    ensures
        final(s).inv(g),
        final(s).extends(old(s)),
        final(s).max_d == old(s).max_d + 1,
        final(s).vstack@ == old(s).vstack@.push(v),
        final(s).cstack@ == old(s).cstack@,
        final(s).root@ == old(s).root@.update(v as int, v),
        final(s).comp@ == old(s).comp@,
        final(s).scc@ == old(s).scc@,
        final(s).succ@ == old(s).succ@,
        final(s).done@ == old(s).done@,
        final(s).closed@ == old(s).closed@,
        final(s).saved_height@[v as int] == old(s).cstack@.len(),
        final(s).d@[v as int] == old(s).max_d,
{
    let ghost n = g.len();
    let ghost p0 = s.vstack@.len() as int;
    let h0 = s.cstack.len();
    proof {
        lemma_unvisited_update(s.root@, v as int, v);
        lemma_unvisited_bound(s.root@.update(v as int, v));
        assert forall|i: int| 0 <= i < s.vstack@.len() implies s.vstack@[i] != v by {}
    }
    s.root[v as usize] = v;
    s.saved_height[v as usize] = h0;
    s.d[v as usize] = s.max_d;
    s.max_d += 1;
    s.vstack.push(v);
    proof {
        assert forall|i: int| 0 <= i < s.vstack@.len() implies (#[trigger] s.vstack@[i]) < n
            && s.root@[s.vstack@[i] as int] != UNVISITED && s.comp@[s.vstack@[i] as int]
            == UNASSIGNED by {
            if i < p0 {
                assert(s.vstack@[i] == old(s).vstack@[i]);
            }
        }
        assert forall|i: int, j: int|
            0 <= i < s.vstack@.len() && 0 <= j < s.vstack@.len() && i != j implies s.vstack@[i]
            != s.vstack@[j] by {
            if i < p0 && j < p0 {
                assert(old(s).vstack@[i] != old(s).vstack@[j]);
            }
        }
        assert(s.in_range(n));
        assert forall|u: int|
            0 <= u < s.root@.len() && (#[trigger] s.root@[u]) != UNVISITED && s.comp@[u]
                == UNASSIGNED implies on_stack(s.vstack@, u as ModuleRef) && on_stack(
            s.vstack@,
            s.root@[u],
        ) && s.d@[s.root@[u] as int] <= s.d@[u] by {
            if u == v {
                lemma_on_stack(s.vstack@, p0);
            } else {
                assert(old(s).root@[u] != UNVISITED);
                let r = old(s).root@[u];
                lemma_position(old(s).vstack@, u as ModuleRef);
                lemma_position(old(s).vstack@, r);
                let k = position(old(s).vstack@, u as ModuleRef);
                let kr = position(old(s).vstack@, r);
                assert(s.vstack@[k] == u as ModuleRef);
                assert(s.vstack@[kr] == r);
                lemma_on_stack(s.vstack@, k);
                lemma_on_stack(s.vstack@, kr);
                assert(old(s).vstack@[kr] != v);
            }
        }
        assert forall|i: int, j: int| 0 <= i < j < s.vstack@.len() implies s.d@[(
        #[trigger] s.vstack@[i]) as int] < s.d@[(#[trigger] s.vstack@[j]) as int] by {
            assert(s.vstack@[i] == old(s).vstack@[i]);
            assert(s.d@[s.vstack@[i] as int] == old(s).d@[old(s).vstack@[i] as int]);
            if j < p0 {
                assert(s.vstack@[j] == old(s).vstack@[j]);
            }
        }
        assert forall|i: int| 0 <= i < s.vstack@.len() implies s.d@[(
        #[trigger] s.vstack@[i]) as int] < s.max_d by {
            if i < p0 {
                assert(s.vstack@[i] == old(s).vstack@[i]);
            }
        }
        assert(s.stack_is_ordered());
        assert(s.is_partition());
        assert(s.base_inv(g));
        assert(s.progress_ok(g));
        assert forall|i: int, j: int| 0 <= i < j < s.vstack@.len() implies s.saved_height@[(
        #[trigger] s.vstack@[i]) as int] <= s.saved_height@[(#[trigger] s.vstack@[j]) as int] by {
            assert(s.vstack@[i] == old(s).vstack@[i]);
            if j < p0 {
                assert(s.vstack@[j] == old(s).vstack@[j]);
            }
        }
        assert forall|i: int| 0 <= i < s.vstack@.len() implies s.saved_height@[(
        #[trigger] s.vstack@[i]) as int] <= s.cstack@.len() by {
            if i < p0 {
                assert(s.vstack@[i] == old(s).vstack@[i]);
            }
        }
        assert(s.heights_ordered());
        assert(s.assigned_edges_ok(g));
        assert forall|u: int, e: int|
            0 <= u < g.len() && s.root@[u] != UNVISITED && s.comp@[u] == UNASSIGNED && 0 <= e
                < s.done@[u] implies s.edge_ok(u, (#[trigger] g[u][e]) as int) by {
            let w = g[u][e] as int;
            assert(u != v);
            assert(old(s).root@[u] != UNVISITED);
            assert(old(s).edge_ok(u, w));
            if s.comp@[w] == UNASSIGNED {
                assert(w != v);
                let r = old(s).root@[u];
                lemma_position(old(s).vstack@, r);
                assert(old(s).vstack@[position(old(s).vstack@, r)] != v);
                let kw = old(s).lemma_stack_position(g, w);
                if s.d@[u] < s.d@[w] {
                    assert(s.closed_between(s.d@[u] as int, s.d@[w] as int)) by {
                        reveal(StackTC::closed_between);
                        assert forall|j: int|
                            0 <= j < s.vstack@.len() && s.d@[u] < s.d@[(
                            #[trigger] s.vstack@[j]) as int] <= s.d@[w] implies s.closed@[s.vstack@[j] as int] by {
                            if j < p0 {
                                assert(s.vstack@[j] == old(s).vstack@[j]);
                            }
                        }
                    }
                }
            }
        }
        assert(s.stack_edges_ok(g));
    }
}

/// Takes over the root candidate of `w` for `v` if it was visited earlier than that of
/// `v`.
fn lower_root(
    s: &mut StackTC,
    v: ModuleRef,
    w: ModuleRef,
    Ghost(g): Ghost<Seq<Seq<ModuleRef>>>,
    Ghost(p): Ghost<int>,
)
    requires
        old(s).inv(g),
        (v as int) < g.len(),
        (w as int) < g.len(),
        0 <= p < old(s).vstack@.len(),
        old(s).vstack@[p] == v,
        old(s).root@[w as int] != UNVISITED,
        old(s).comp@[w as int] == UNASSIGNED,
    ensures
        final(s).inv(g),
        final(s).max_d == old(s).max_d,
        final(s).vstack@ == old(s).vstack@,
        final(s).cstack@ == old(s).cstack@,
        final(s).comp@ == old(s).comp@,
        final(s).scc@ == old(s).scc@,
        final(s).succ@ == old(s).succ@,
        final(s).d@ == old(s).d@,
        final(s).saved_height@ == old(s).saved_height@,
        final(s).done@ == old(s).done@,
        final(s).closed@ == old(s).closed@,
        final(s).root@ == old(s).root@.update(v as int, final(s).root@[v as int]),
        final(s).root@[v as int] != UNVISITED,
        final(s).d@[final(s).root@[v as int] as int] <= old(s).d@[old(s).root@[v as int] as int],
        final(s).d@[final(s).root@[v as int] as int] <= old(s).d@[old(s).root@[w as int] as int],
        final(s).root@[v as int] == old(s).root@[v as int] || final(s).root@[v as int] == old(
            s,
        ).root@[w as int],
{
    let ghost n = g.len();
    let rw = s.root[w as usize];
    let rv = s.root[v as usize];
    proof {
        assert(s.vstack@[p] == v);
        assert(s.root@[v as int] != UNVISITED);
        assert(s.comp@[v as int] == UNASSIGNED);
    }
    if s.d[rw as usize] < s.d[rv as usize] {
        proof {
            lemma_unvisited_update(s.root@, v as int, rw);
        }
        s.root[v as usize] = rw;
        proof {
            assert(old(s).root@[v as int] != UNVISITED && old(s).comp@[v as int] == UNASSIGNED);
            assert forall|u: int|
                0 <= u < s.root@.len() && (#[trigger] s.root@[u]) != UNVISITED && s.comp@[u]
                    == UNASSIGNED implies on_stack(s.vstack@, u as ModuleRef) && on_stack(
                s.vstack@,
                s.root@[u],
            ) && s.d@[s.root@[u] as int] <= s.d@[u] by {
                if u == v {
                    assert(old(s).root@[w as int] == rw);
                } else {
                    assert(old(s).root@[u] == s.root@[u]);
                }
            }
            assert(s.in_range(n));
            assert(s.stack_is_ordered());
            assert(s.base_inv(g));
            assert(s.progress_ok(g));
            assert(s.heights_ordered());
            assert(s.assigned_edges_ok(g));
            assert forall|u: int, e: int|
                0 <= u < g.len() && s.root@[u] != UNVISITED && s.comp@[u] == UNASSIGNED && 0 <= e
                    < s.done@[u] implies s.edge_ok(u, (#[trigger] g[u][e]) as int) by {
                let x = g[u][e] as int;
                assert(old(s).root@[u] != UNVISITED);
                assert(old(s).edge_ok(u, x));
                if s.comp@[x] == UNASSIGNED {
                    assert(old(s).root@[x] != UNVISITED);
                    if s.d@[u] < s.d@[x] {
                        assert(s.closed_between(s.d@[u] as int, s.d@[x] as int)) by {
                            reveal(StackTC::closed_between);
                        }
                    }
                }
            }
            assert(s.stack_edges_ok(g));
        }
    }
}

/// Puts component `cw` on the stack of components.
fn push_component(s: &mut StackTC, cw: CondensedRef, Ghost(g): Ghost<Seq<Seq<ModuleRef>>>)
    requires
        old(s).inv(g),
        cw < old(s).scc@.len(),
    ensures
        final(s).inv(g),
        final(s).max_d == old(s).max_d,
        final(s).vstack@ == old(s).vstack@,
        final(s).cstack@ == old(s).cstack@.push(cw),
        final(s).comp@ == old(s).comp@,
        final(s).root@ == old(s).root@,
        final(s).scc@ == old(s).scc@,
        final(s).succ@ == old(s).succ@,
        final(s).d@ == old(s).d@,
        final(s).saved_height@ == old(s).saved_height@,
        final(s).done@ == old(s).done@,
        final(s).closed@ == old(s).closed@,
{
    s.cstack.push(cw);
    proof {
        assert(s.base_inv(g));
        assert(s.progress_ok(g));
        assert(s.heights_ordered());
        assert(s.assigned_edges_ok(g));
        assert forall|u: int, e: int|
            0 <= u < g.len() && s.root@[u] != UNVISITED && s.comp@[u] == UNASSIGNED && 0 <= e
                < s.done@[u] implies s.edge_ok(u, (#[trigger] g[u][e]) as int) by {
            let x = g[u][e] as int;
            assert(old(s).edge_ok(u, x));
            if s.comp@[x] != UNASSIGNED {
                lemma_queued_push(
                    old(s).cstack@,
                    old(s).saved_height@[u] as int,
                    old(s).comp@[x],
                    cw,
                );
            } else {
                if s.d@[u] < s.d@[x] {
                    assert(s.closed_between(s.d@[u] as int, s.d@[x] as int)) by {
                        reveal(StackTC::closed_between);
                    }
                }
            }
        }
        assert(s.stack_edges_ok(g));
    }
}

/// Empties the stack of components down to height `h0` into a new successor set: what
/// is taken off, and what that reaches.
fn gather_successors(
    s: &mut StackTC,
    h0: usize,
    own: bool,
    Ghost(g): Ghost<Seq<Seq<ModuleRef>>>,
) -> (succ: CondensedEdges)
    requires
        old(s).base_inv(g),
        is_transitive(old(s).succ@),
        is_layered(old(s).succ@, old(s).scc@),
        h0 <= old(s).cstack@.len(),
        old(s).scc@.len() < EDGE_CAPACITY,
    ensures
        final(s).base_inv(g),
        final(s).cstack@ == old(s).cstack@.take(h0 as int),
        final(s).max_d == old(s).max_d,
        final(s).vstack@ == old(s).vstack@,
        final(s).comp@ == old(s).comp@,
        final(s).root@ == old(s).root@,
        final(s).scc@ == old(s).scc@,
        final(s).succ@ == old(s).succ@,
        final(s).d@ == old(s).d@,
        final(s).saved_height@ == old(s).saved_height@,
        final(s).done@ == old(s).done@,
        final(s).closed@ == old(s).closed@,
        forall|x: usize| #[trigger] edge_set(succ).contains(x) ==> x <= old(s).scc@.len(),
        own == edge_set(succ).contains(old(s).scc@.len() as usize),
        forall|k: int|
            h0 <= k < old(s).cstack@.len() ==> edge_set(succ).contains(#[trigger] old(s).cstack@[k]),
        forall|z: usize, y: usize|
            #[trigger] edge_set(succ).contains(z) && z != old(s).scc@.len() && #[trigger] edge_set(
                old(s).succ@[z as int],
            ).contains(y) ==> edge_set(succ).contains(y),
        forall|x: usize|
            #[trigger] edge_set(succ).contains(x) && x != old(s).scc@.len() ==> from_queue(
                old(s).cstack@,
                old(s).succ@,
                h0 as int,
                x,
            ),
{
    let cv: CondensedRef = s.scc.len();
    let mut succ = edges_new();
    if own {
        edges_insert(&mut succ, cv);
    }
    let ghost list = s.succ@;
    let ghost cs0 = s.cstack@;
    while s.cstack.len() > h0
        invariant
            s.base_inv(g),
            is_transitive(list),
            is_layered(list, s.scc@),
            list == s.succ@,
            cs0 == old(s).cstack@,
            h0 <= s.cstack@.len() <= cs0.len(),
            s.cstack@ == cs0.take(s.cstack@.len() as int),
            s.max_d == old(s).max_d,
            s.vstack@ == old(s).vstack@,
            s.comp@ == old(s).comp@,
            s.root@ == old(s).root@,
            s.scc@ == old(s).scc@,
            s.succ@ == old(s).succ@,
            s.d@ == old(s).d@,
            s.saved_height@ == old(s).saved_height@,
            s.done@ == old(s).done@,
            s.closed@ == old(s).closed@,
            cv == s.scc@.len(),
            cv < EDGE_CAPACITY,
            forall|x: usize| #[trigger] edge_set(succ).contains(x) ==> x <= cv,
            own == edge_set(succ).contains(cv),
            forall|k: int|
                s.cstack@.len() <= k < cs0.len() ==> edge_set(succ).contains(#[trigger] cs0[k]),
            forall|z: usize, y: usize|
                #[trigger] edge_set(succ).contains(z) && z != cv && #[trigger] edge_set(
                    list[z as int],
                ).contains(y) ==> edge_set(succ).contains(y),
            forall|x: usize|
                #[trigger] edge_set(succ).contains(x) && x != cv ==> from_queue(
                    cs0,
                    list,
                    s.cstack@.len() as int,
                    x,
                ),
        decreases s.cstack@.len(),
    {
        let ghost before = s.cstack@;
        let ghost set0 = edge_set(succ);
        let x = s.cstack.pop().unwrap();
        proof {
            assert(s.cstack@ =~= cs0.take(s.cstack@.len() as int));
            assert(before[before.len() - 1] == x);
            assert(cs0[before.len() - 1] == x);
            assert(x < cv);
            assert forall|e: usize| #[trigger] set0.contains(e) && e != cv implies from_queue(
                cs0,
                list,
                s.cstack@.len() as int,
                e,
            ) by {
                lemma_from_queue_lower(cs0, list, before.len() as int, s.cstack@.len() as int, e);
            }
        }
        if !edges_contains(&succ, x) {
            edges_insert(&mut succ, x);
            let more = edges_to_vec(&s.succ[x]);
            let ghost reach = edge_set(list[x as int]);
            let mut k: usize = 0;
            proof {
                assert forall|y: usize| reach.contains(y) implies y < cv by {
                    assert(y <= x);
                }
                assert(edge_set(succ) =~= set0.insert(x).union(
                    crate::transitive_closure::numbers_of(more@.take(0)),
                ));
            }
            while k < more.len()
                invariant
                    k <= more@.len(),
                    cv < EDGE_CAPACITY,
                    forall|y: usize| more@.contains(y) <==> reach.contains(y),
                    forall|y: usize| reach.contains(y) ==> y < cv,
                    edge_set(succ) == set0.insert(x).union(
                        crate::transitive_closure::numbers_of(more@.take(k as int)),
                    ),
                decreases more@.len() - k,
            {
                assert(more@.contains(more@[k as int]));
                assert(reach.contains(more@[k as int]));
                edges_insert(&mut succ, more[k]);
                proof {
                    crate::transitive_closure::lemma_numbers_of_take(more@, k as int);
                    assert(edge_set(succ) =~= set0.insert(x).union(
                        crate::transitive_closure::numbers_of(more@.take(k + 1)),
                    ));
                }
                k += 1;
            }
            proof {
                assert(more@.take(more@.len() as int) =~= more@);
                assert(crate::transitive_closure::numbers_of(more@) =~= reach);
                assert(edge_set(succ) =~= set0.insert(x).union(reach));
                assert forall|z: usize, y: usize|
                    #[trigger] edge_set(succ).contains(z) && z != cv && #[trigger] edge_set(
                        list[z as int],
                    ).contains(y) implies edge_set(succ).contains(y) by {
                    if set0.contains(z) {
                    } else if z == x {
                    } else {
                        assert(reach.contains(z));
                        assert(edge_set(list[x as int]).contains(z));
                        assert(z < cv);
                        assert(edge_set(list[x as int]).contains(y));
                    }
                }
                assert forall|e: usize|
                    #[trigger] edge_set(succ).contains(e) && e != cv implies from_queue(
                    cs0,
                    list,
                    s.cstack@.len() as int,
                    e,
                ) by {
                    if !set0.contains(e) {
                        lemma_from_queue(cs0, list, s.cstack@.len() as int, before.len() - 1, e);
                    }
                }
            }
        }
    }
    proof {
        assert(s.cstack@ =~= old(s).cstack@.take(h0 as int));
    }
    succ
}

/// Takes the modules from position `p0` of the stack upwards off it and makes them the
/// members of a new component with successor set `succ`.
fn pop_members(
    s: &mut StackTC,
    v: ModuleRef,
    succ: CondensedEdges,
    Ghost(g): Ghost<Seq<Seq<ModuleRef>>>,
    Ghost(p0): Ghost<int>,
)
    requires
        old(s).base_inv(g),
        (v as int) < g.len(),
        0 <= p0 < old(s).vstack@.len(),
        old(s).vstack@[p0] == v,
        old(s).root@[v as int] == v,
        old(s).scc@.len() < EDGE_CAPACITY,
        forall|x: usize| #[trigger] edge_set(succ).contains(x) ==> x <= old(s).scc@.len(),
    ensures
        final(s).base_inv(g),
        final(s).max_d == old(s).max_d,
        final(s).done@ == old(s).done@,
        final(s).closed@ == old(s).closed@,
        final(s).scc@[old(s).scc@.len() as int]@.len() == old(s).vstack@.len() - p0,
        final(s).vstack@ == old(s).vstack@.take(p0),
        final(s).cstack@ == old(s).cstack@,
        final(s).root@ == old(s).root@,
        final(s).d@ == old(s).d@,
        final(s).saved_height@ == old(s).saved_height@,
        final(s).scc@.len() == old(s).scc@.len() + 1,
        final(s).succ@ == old(s).succ@.push(succ),
        forall|c: int| 0 <= c < old(s).scc@.len() ==> (#[trigger] final(s).scc@[c]) == old(s).scc@[c],
        forall|u: int|
            0 <= u < g.len() && (#[trigger] old(s).comp@[u]) != UNASSIGNED ==> final(s).comp@[u]
                == old(s).comp@[u],
        forall|i: int|
            p0 <= i < old(s).vstack@.len() ==> final(s).comp@[(#[trigger] old(s).vstack@[i]) as int]
                == old(s).scc@.len(),
        forall|u: int|
            0 <= u < g.len() && (#[trigger] final(s).comp@[u]) != old(s).comp@[u] ==> final(s).comp@[u]
                == old(s).scc@.len() && exists|i: int|
                p0 <= i < old(s).vstack@.len() && old(s).vstack@[i] == u,
{
    let ghost n = g.len();
    let cv: CondensedRef = s.scc.len();
    let mut members: Vec<ModuleRef> = Vec::new();
    let ghost before_pop = *s;
    loop
        invariant_except_break
            s.vstack@.len() > p0,
            s.vstack@.len() + members@.len() == before_pop.vstack@.len(),
        invariant
            before_pop == *old(s),
            before_pop.base_inv(g),
            s.done@ == before_pop.done@,
            s.closed@ == before_pop.closed@,
            n == g.len(),
            (v as int) < n,
            0 <= p0,
            cv == s.scc@.len(),
            cv == s.succ@.len(),
            s.scc@ == before_pop.scc@,
            s.succ@ == before_pop.succ@,
            s.cstack@ == before_pop.cstack@,
            s.max_d == before_pop.max_d,
            s.root@ == before_pop.root@,
            s.d@ == before_pop.d@,
            s.saved_height@ == before_pop.saved_height@,
            s.comp@.len() == n,
            before_pop.vstack@.len() > p0,
            before_pop.vstack@[p0] == v,
            s.vstack@.len() <= before_pop.vstack@.len(),
            forall|i: int| 0 <= i < s.vstack@.len() ==> s.vstack@[i] == before_pop.vstack@[i],
            forall|i: int|
                0 <= i < s.vstack@.len() ==> s.comp@[(#[trigger] before_pop.vstack@[i]) as int]
                    == UNASSIGNED,
            forall|i: int|
                s.vstack@.len() <= i < before_pop.vstack@.len() ==> s.comp@[(
                #[trigger] before_pop.vstack@[i]) as int] == cv,
            forall|u: int|
                0 <= u < n && (#[trigger] before_pop.comp@[u]) != UNASSIGNED ==> s.comp@[u]
                    == before_pop.comp@[u],
            forall|u: int|
                0 <= u < n && (#[trigger] s.comp@[u]) != before_pop.comp@[u] ==> s.comp@[u] == cv
                    && members@.contains(u as ModuleRef),
            forall|j: int|
                0 <= j < members@.len() ==> (#[trigger] members@[j])
                    == before_pop.vstack@[before_pop.vstack@.len() - 1 - j],
        ensures
            s.vstack@.len() == p0,
            members@.len() + p0 == before_pop.vstack@.len(),
            members@.len() > 0,
        decreases s.vstack@.len(),
    {
        let ghost top_index = s.vstack@.len() - 1;
        let ghost m0 = members@;
        let ghost comp0 = s.comp@;
        let w = s.vstack.pop().unwrap();
        assert(w == before_pop.vstack@[top_index]);
        members.push(w);
        s.comp[w as usize] = cv;
        proof {
            assert forall|i: int| 0 <= i < s.vstack@.len() implies s.comp@[(
            #[trigger] before_pop.vstack@[i]) as int] == UNASSIGNED by {
                assert(before_pop.vstack@[i] != before_pop.vstack@[top_index]);
            }
            assert forall|u: int|
                0 <= u < n && (#[trigger] s.comp@[u]) != before_pop.comp@[u] implies s.comp@[u]
                == cv && members@.contains(u as ModuleRef) by {
                if u == w {
                    assert(members@[members@.len() - 1] == w);
                } else {
                    assert(s.comp@[u] == comp0[u]);
                    assert(m0.contains(u as ModuleRef));
                    let j = choose|j: int| 0 <= j < m0.len() && m0[j] == u as ModuleRef;
                    assert(members@[j] == u as ModuleRef);
                }
            }
        }
        if w == v {
            proof {
                if top_index != p0 {
                    assert(before_pop.vstack@[top_index] != before_pop.vstack@[p0]);
                }
            }
            break ;
        }
        proof {
            if top_index == p0 {
                assert(false);
            }
        }
    }
    proof {
        lemma_total_members_push(s.scc@, members);
    }
    s.succ.push(succ);
    s.scc.push(members);
    proof {
        let scc = s.scc@;
        let vs0 = before_pop.vstack@;
        assert(s.vstack@ =~= vs0.take(p0));
        assert forall|c: int| 0 <= c < cv implies (#[trigger] scc[c]) == before_pop.scc@[c] by {}
        assert forall|c: int, i: int| 0 <= c < scc.len() && 0 <= i < scc[c]@.len() implies (
        #[trigger] scc[c]@[i] as int) < s.comp@.len() && s.comp@[scc[c]@[i] as int] == c by {
            if c < cv {
                let m = before_pop.scc@[c]@[i];
                assert(before_pop.comp@[m as int] == c);
            } else {
                assert(members@[i] == vs0[vs0.len() - 1 - i]);
            }
        }
        assert forall|c: int| 0 <= c < scc.len() implies (#[trigger] scc[c])@.no_duplicates() by {
            if c == cv {
                assert forall|a: int, b: int|
                    0 <= a < members@.len() && 0 <= b < members@.len() && a != b implies members@[a]
                    != members@[b] by {
                    assert(vs0[vs0.len() - 1 - a] != vs0[vs0.len() - 1 - b]);
                }
            } else {
                assert(scc[c] == before_pop.scc@[c]);
            }
        }
        assert forall|u: int|
            0 <= u < s.comp@.len() && (#[trigger] s.comp@[u]) != UNASSIGNED implies scc[s.comp@[u] as int]@.contains(
            u as ModuleRef,
        ) by {
            if s.comp@[u] != before_pop.comp@[u] {
                assert(scc[cv as int] == members);
            } else {
                assert(scc[s.comp@[u] as int] == before_pop.scc@[s.comp@[u] as int]);
            }
        }
        assert forall|u: int| 0 <= u < n implies (#[trigger] s.comp@[u]) == UNASSIGNED || (
        s.comp@[u] < s.scc@.len() && s.root@[u] != UNVISITED) by {
            if s.comp@[u] != before_pop.comp@[u] {
                let j = choose|j: int| 0 <= j < members@.len() && members@[j] == u as ModuleRef;
                assert(members@[j] == vs0[vs0.len() - 1 - j]);
            }
        }
        assert forall|i: int| 0 <= i < s.vstack@.len() implies (#[trigger] s.vstack@[i]) < n
            && s.root@[s.vstack@[i] as int] != UNVISITED && s.comp@[s.vstack@[i] as int]
            == UNASSIGNED by {
            assert(s.vstack@[i] == vs0[i]);
        }
        assert forall|i: int, j: int|
            0 <= i < s.vstack@.len() && 0 <= j < s.vstack@.len() && i != j implies s.vstack@[i]
            != s.vstack@[j] by {
            assert(vs0[i] != vs0[j]);
        }
        assert(s.in_range(n));
        assert(s.is_partition());
        assert(s.successors_in_range());
        assert forall|u: int|
            0 <= u < s.root@.len() && (#[trigger] s.root@[u]) != UNVISITED && s.comp@[u]
                == UNASSIGNED implies on_stack(s.vstack@, u as ModuleRef) && on_stack(
            s.vstack@,
            s.root@[u],
        ) && s.d@[s.root@[u] as int] <= s.d@[u] by {
            assert(before_pop.comp@[u] == UNASSIGNED);
            assert(before_pop.root@[u] != UNVISITED);
            let r = before_pop.root@[u];
            lemma_position(vs0, u as ModuleRef);
            lemma_position(vs0, r);
            let k = position(vs0, u as ModuleRef);
            let kr = position(vs0, r);
            if k >= p0 {
                assert(s.comp@[vs0[k] as int] == cv);
            }
            if kr >= p0 {
                if kr > k {
                    assert(before_pop.d@[vs0[k] as int] < before_pop.d@[vs0[kr] as int]);
                }
            }
            assert(s.vstack@[k] == u as ModuleRef);
            assert(s.vstack@[kr] == r);
            lemma_on_stack(s.vstack@, k);
            lemma_on_stack(s.vstack@, kr);
        }
        assert forall|i: int, j: int| 0 <= i < j < s.vstack@.len() implies s.d@[(
        #[trigger] s.vstack@[i]) as int] < s.d@[(#[trigger] s.vstack@[j]) as int] by {
            assert(s.vstack@[i] == vs0[i] && s.vstack@[j] == vs0[j]);
        }
        assert forall|i: int| 0 <= i < s.vstack@.len() implies s.d@[(
        #[trigger] s.vstack@[i]) as int] < s.max_d by {
            assert(s.vstack@[i] == vs0[i]);
        }
        assert(s.stack_is_ordered());
        assert forall|u: int|
            0 <= u < g.len() && (#[trigger] s.comp@[u]) != old(s).comp@[u] implies s.comp@[u]
            == old(s).scc@.len() && exists|i: int|
            p0 <= i < old(s).vstack@.len() && old(s).vstack@[i] == u by {
            let j = choose|j: int| 0 <= j < members@.len() && members@[j] == u as ModuleRef;
            assert(members@[j] == vs0[vs0.len() - 1 - j]);
            assert(p0 <= vs0.len() - 1 - j < vs0.len());
        }
    }
}

/// A module on the stack above the height that the stack had at `entry` was not
/// visited at `entry`.
proof fn lemma_new_on_stack(
    entry: StackTC,
    pre: StackTC,
    g: Seq<Seq<ModuleRef>>,
    i: int,
)
    requires
        entry.base_inv(g),
        pre.base_inv(g),
        pre.extends(&entry),
        entry.vstack@.len() <= i < pre.vstack@.len(),
    ensures
        entry.root@[pre.vstack@[i] as int] == UNVISITED,
{
    let u = pre.vstack@[i] as int;
    if entry.root@[u] != UNVISITED {
        assert(entry.comp@[u] == pre.comp@[u]);
        let k = entry.lemma_stack_position(g, u);
        assert(pre.vstack@[k] == entry.vstack@[k]);
        assert(pre.vstack@[k] != pre.vstack@[i]);
    }
}

/// What the making of a component out of the top of the stack leaves true of the edges
/// that leave modules with a component.
proof fn lemma_closed_assigned(
    entry: StackTC,
    pre: StackTC,
    post: StackTC,
    g: Seq<Seq<ModuleRef>>,
    v: int,
    p0: int,
    own: bool,
)
    requires
        entry.inv(g),
        pre.inv(g),
        post.base_inv(g),
        pre.extends(&entry),
        0 <= v < g.len(),
        p0 == entry.vstack@.len(),
        pre.vstack@.len() > p0,
        pre.vstack@[p0] == v,
        pre.root@[v] == v,
        entry.cstack@.len() == pre.saved_height@[v],
        forall|u: int|
            0 <= u < g.len() && entry.root@[u] == UNVISITED && (#[trigger] pre.root@[u])
                != UNVISITED ==> pre.closed@[u],
        forall|j: int|
            p0 <= j < pre.vstack@.len() ==> pre.d@[v] <= pre.d@[pre.root@[(
            #[trigger] pre.vstack@[j]) as int] as int],
        own == (pre.vstack@.len() - p0 > 1),
        post.succ@.len() == pre.succ@.len() + 1,
        forall|c: int| 0 <= c < pre.succ@.len() ==> (#[trigger] post.succ@[c]) == pre.succ@[c],
        own == edge_set(post.succ@[pre.succ@.len() as int]).contains(pre.scc@.len() as usize),
        forall|k: int|
            entry.cstack@.len() <= k < pre.cstack@.len() ==> edge_set(
                post.succ@[pre.succ@.len() as int],
            ).contains(#[trigger] pre.cstack@[k]),
        forall|u: int|
            0 <= u < g.len() && (#[trigger] pre.comp@[u]) != UNASSIGNED ==> post.comp@[u]
                == pre.comp@[u],
        forall|i: int|
            p0 <= i < pre.vstack@.len() ==> post.comp@[(#[trigger] pre.vstack@[i]) as int]
                == pre.scc@.len(),
        forall|u: int|
            0 <= u < g.len() && (#[trigger] post.comp@[u]) != pre.comp@[u] ==> post.comp@[u]
                == pre.scc@.len() && exists|i: int|
                p0 <= i < pre.vstack@.len() && pre.vstack@[i] == u,
    ensures
        post.assigned_edges_ok(g),
{
    let cv = pre.scc@.len();
    let new_set = edge_set(post.succ@[pre.succ@.len() as int]);
    assert forall|u: int, e: int|
        0 <= u < g.len() && post.comp@[u] != UNASSIGNED && 0 <= e < g[u].len() implies post.comp@[(
    #[trigger] g[u][e]) as int] != UNASSIGNED && edge_set(
        post.succ@[post.comp@[u] as int],
    ).contains(post.comp@[g[u][e] as int]) by {
        let w = g[u][e] as int;
        assert(0 <= w < g.len() && w != u);
        if pre.comp@[u] != UNASSIGNED {
            assert(pre.comp@[w] != UNASSIGNED);
            assert(post.succ@[pre.comp@[u] as int] == pre.succ@[pre.comp@[u] as int]);
        } else {
            assert(post.comp@[u] != pre.comp@[u]);
            let i = choose|i: int| p0 <= i < pre.vstack@.len() && pre.vstack@[i] == u;
            lemma_new_on_stack(entry, pre, g, i);
            assert(pre.root@[u] != UNVISITED);
            assert(pre.closed@[u]);
            assert(pre.done@[u] == g[u].len());
            assert(pre.edge_ok(u, w));
            if pre.comp@[w] != UNASSIGNED {
                let k = lemma_queued_witness(
                    pre.cstack@,
                    pre.saved_height@[u] as int,
                    pre.comp@[w],
                );
                if i > p0 {
                    assert(pre.saved_height@[pre.vstack@[p0] as int]
                        <= pre.saved_height@[pre.vstack@[i] as int]);
                }
                assert(new_set.contains(pre.cstack@[k]));
            } else {
                assert(pre.root@[w] != UNVISITED);
                let kw = pre.lemma_stack_position(g, w);
                assert(pre.d@[v] <= pre.d@[pre.root@[pre.vstack@[i] as int] as int]);
                pre.lemma_stack_order(g, p0, kw);
                assert(post.comp@[pre.vstack@[kw] as int] == cv);
                assert(i != kw);
                assert(own);
            }
        }
    }
}

/// What the making of a component out of the top of the stack leaves true of the edges
/// that leave modules still on the stack.
proof fn lemma_closed_stack(
    entry: StackTC,
    pre: StackTC,
    post: StackTC,
    g: Seq<Seq<ModuleRef>>,
    p0: int,
)
    requires
        entry.inv(g),
        pre.inv(g),
        post.base_inv(g),
        pre.extends(&entry),
        pre.scc@.len() < UNASSIGNED,
        p0 == entry.vstack@.len(),
        pre.vstack@.len() > p0,
        post.vstack@ == pre.vstack@.take(p0),
        post.cstack@ == pre.cstack@.take(entry.cstack@.len() as int),
        post.root@ == pre.root@,
        post.d@ == pre.d@,
        post.saved_height@ == pre.saved_height@,
        post.done@ == pre.done@,
        post.closed@ == pre.closed@,
        forall|u: int|
            0 <= u < g.len() && (#[trigger] pre.comp@[u]) != UNASSIGNED ==> post.comp@[u]
                == pre.comp@[u],
        forall|i: int|
            p0 <= i < pre.vstack@.len() ==> post.comp@[(#[trigger] pre.vstack@[i]) as int]
                == pre.scc@.len(),
        forall|u: int|
            0 <= u < g.len() && (#[trigger] post.comp@[u]) != pre.comp@[u] ==> post.comp@[u]
                == pre.scc@.len() && exists|i: int|
                p0 <= i < pre.vstack@.len() && pre.vstack@[i] == u,
    ensures
        post.stack_edges_ok(g),
{
    assert(post.vstack@ =~= entry.vstack@);
    assert(post.cstack@ =~= entry.cstack@);
    assert forall|u: int, e: int|
        0 <= u < g.len() && post.root@[u] != UNVISITED && post.comp@[u] == UNASSIGNED && 0 <= e
            < post.done@[u] implies post.edge_ok(u, (#[trigger] g[u][e]) as int) by {
        let w = g[u][e] as int;
        assert(0 <= w < g.len());
        assert(pre.comp@[u] == UNASSIGNED);
        let k = pre.lemma_stack_position(g, u);
        if k >= p0 {
            assert(post.comp@[pre.vstack@[k] as int] == pre.scc@.len());
        }
        assert(entry.vstack@[k] == pre.vstack@[k]);
        assert(entry.root@[u] != UNVISITED);
        assert(entry.comp@[u] == UNASSIGNED);
        assert(entry.done@[u] == post.done@[u]);
        assert(entry.edge_ok(u, w));
        if entry.comp@[w] != UNASSIGNED {
            assert(entry.root@[w] != UNVISITED);
            assert(pre.comp@[w] == entry.comp@[w]);
        } else {
            assert(entry.root@[w] != UNVISITED);
            assert(pre.comp@[w] == UNASSIGNED);
            let kw = entry.lemma_stack_position(g, w);
            assert(pre.vstack@[kw] == entry.vstack@[kw]);
            if post.comp@[w] != UNASSIGNED {
                let i = choose|i: int| p0 <= i < pre.vstack@.len() && pre.vstack@[i] == w;
                assert(pre.vstack@[kw] != pre.vstack@[i]);
            }
            let r = entry.root@[u];
            lemma_position(entry.vstack@, r);
            assert(entry.root@[entry.vstack@[position(entry.vstack@, r)] as int] != UNVISITED);
            if post.d@[u] < post.d@[w] {
                assert(post.closed_between(post.d@[u] as int, post.d@[w] as int)) by {
                    reveal(StackTC::closed_between);
                    assert forall|j: int|
                        0 <= j < post.vstack@.len() && post.d@[u] < post.d@[(
                        #[trigger] post.vstack@[j]) as int] <= post.d@[w] implies post.closed@[post.vstack@[j] as int] by {
                        assert(entry.vstack@[j] == post.vstack@[j]);
                        assert(entry.root@[entry.vstack@[j] as int] != UNVISITED);
                    }
                }
            }
        }
    }
}

/// What the making of a component out of the top of the stack leaves true.
proof fn lemma_component_closed(
    entry: StackTC,
    pre: StackTC,
    post: StackTC,
    g: Seq<Seq<ModuleRef>>,
    v: int,
    p0: int,
    own: bool,
)
    requires
        entry.inv(g),
        pre.inv(g),
        post.base_inv(g),
        pre.extends(&entry),
        0 <= v < g.len(),
        p0 == entry.vstack@.len(),
        pre.vstack@.len() > p0,
        pre.vstack@[p0] == v,
        pre.root@[v] == v,
        entry.cstack@.len() == pre.saved_height@[v],
        forall|u: int|
            0 <= u < g.len() && entry.root@[u] == UNVISITED && (#[trigger] pre.root@[u])
                != UNVISITED ==> pre.closed@[u],
        forall|j: int|
            p0 <= j < pre.vstack@.len() ==> pre.d@[v] <= pre.d@[pre.root@[(
            #[trigger] pre.vstack@[j]) as int] as int],
        own == (pre.vstack@.len() - p0 > 1),
        post.vstack@ == pre.vstack@.take(p0),
        post.cstack@ == pre.cstack@.take(entry.cstack@.len() as int),
        post.root@ == pre.root@,
        post.d@ == pre.d@,
        post.saved_height@ == pre.saved_height@,
        post.done@ == pre.done@,
        post.closed@ == pre.closed@,
        post.scc@.len() == pre.scc@.len() + 1,
        forall|c: int| 0 <= c < pre.scc@.len() ==> (#[trigger] post.scc@[c]) == pre.scc@[c],
        post.scc@[pre.scc@.len() as int]@.len() == pre.vstack@.len() - p0,
        post.succ@.len() == pre.succ@.len() + 1,
        forall|c: int| 0 <= c < pre.succ@.len() ==> (#[trigger] post.succ@[c]) == pre.succ@[c],
        forall|x: usize|
            #[trigger] edge_set(post.succ@[pre.succ@.len() as int]).contains(x) ==> x
                <= pre.scc@.len(),
        own == edge_set(post.succ@[pre.succ@.len() as int]).contains(pre.scc@.len() as usize),
        forall|k: int|
            entry.cstack@.len() <= k < pre.cstack@.len() ==> edge_set(
                post.succ@[pre.succ@.len() as int],
            ).contains(#[trigger] pre.cstack@[k]),
        forall|z: usize, y: usize|
            #[trigger] edge_set(post.succ@[pre.succ@.len() as int]).contains(z) && z
                != pre.scc@.len() && #[trigger] edge_set(pre.succ@[z as int]).contains(y)
                ==> edge_set(post.succ@[pre.succ@.len() as int]).contains(y),
        forall|u: int|
            0 <= u < g.len() && (#[trigger] pre.comp@[u]) != UNASSIGNED ==> post.comp@[u]
                == pre.comp@[u],
        forall|i: int|
            p0 <= i < pre.vstack@.len() ==> post.comp@[(#[trigger] pre.vstack@[i]) as int]
                == pre.scc@.len(),
        forall|u: int|
            0 <= u < g.len() && (#[trigger] post.comp@[u]) != pre.comp@[u] ==> post.comp@[u]
                == pre.scc@.len() && exists|i: int|
                p0 <= i < pre.vstack@.len() && pre.vstack@[i] == u,
    ensures
        post.closure_inv(g),
{
    let cv = pre.scc@.len();
    let new_set = edge_set(post.succ@[cv as int]);
    // progress
    assert forall|u: int| 0 <= u < g.len() && (#[trigger] post.comp@[u]) != UNASSIGNED implies post.closed@[u] by {
        if post.comp@[u] != pre.comp@[u] {
            let i = choose|i: int| p0 <= i < pre.vstack@.len() && pre.vstack@[i] == u;
            lemma_new_on_stack(entry, pre, g, i);
            assert(pre.root@[u] != UNVISITED);
        }
    }
    assert(post.progress_ok(g));
    // heights
    assert forall|i: int, j: int| 0 <= i < j < post.vstack@.len() implies post.saved_height@[(
    #[trigger] post.vstack@[i]) as int] <= post.saved_height@[(#[trigger] post.vstack@[j]) as int] by {
        assert(post.vstack@[i] == pre.vstack@[i] && post.vstack@[j] == pre.vstack@[j]);
    }
    assert forall|i: int| 0 <= i < post.vstack@.len() implies post.saved_height@[(
    #[trigger] post.vstack@[i]) as int] <= post.cstack@.len() by {
        assert(post.vstack@[i] == pre.vstack@[i]);
        assert(pre.saved_height@[pre.vstack@[i] as int] <= pre.saved_height@[pre.vstack@[p0] as int]);
    }
    assert(post.heights_ordered());
    // transitivity
    assert forall|c: int, x: usize, y: usize|
        0 <= c < post.succ@.len() && x < post.succ@.len() && #[trigger] edge_set(
            post.succ@[c],
        ).contains(x) && #[trigger] edge_set(post.succ@[x as int]).contains(y) implies edge_set(
        post.succ@[c],
    ).contains(y) by {
        if c < cv {
            assert(post.succ@[c] == pre.succ@[c]);
            assert(edge_set(pre.succ@[c]).contains(x));
            assert(x <= c);
            assert(post.succ@[x as int] == pre.succ@[x as int]);
        } else {
            if x != cv {
                assert(post.succ@[x as int] == pre.succ@[x as int]);
            }
        }
    }
    assert(is_transitive(post.succ@));
    // layers
    assert forall|c: int, x: usize|
        0 <= c < post.succ@.len() && #[trigger] edge_set(post.succ@[c]).contains(x) implies x
        <= c by {
        if c < cv {
            assert(post.succ@[c] == pre.succ@[c]);
        }
    }
    assert forall|c: int| 0 <= c < post.succ@.len() && c < post.scc@.len() implies (edge_set(
        #[trigger] post.succ@[c],
    ).contains(c as usize) <==> post.scc@[c]@.len() > 1) by {
        if c < cv {
            assert(post.succ@[c] == pre.succ@[c]);
            assert(post.scc@[c] == pre.scc@[c]);
        }
    }
    assert(is_layered(post.succ@, post.scc@));
    lemma_components_bound(pre.scc@);
    lemma_closed_assigned(entry, pre, post, g, v, p0, own);
    lemma_closed_stack(entry, pre, post, g, p0);
}

/// Visits `v` and all that is reachable from it and not yet visited; gives a component
/// to every module whose component is complete when the visit ends.
#[verifier::rlimit(80)]
pub(crate) fn stack_tc(s: &mut StackTC, v: ModuleRef, g: &EdgeTable)
    requires
        g.wf(),
        old(s).inv(g@),
        (v as int) < g@.len(),
        old(s).root@[v as int] == UNVISITED,
        old(s).sound(g@),
        old(s).above_lead_to(g@, 0, v as int),
    ensures
        final(s).inv(g@),
        final(s).extends(old(s)),
        final(s).sound(g@),
        final(s).above_lead_to(g@, old(s).vstack@.len() as int, v as int),
        final(s).queue_led_from(g@, old(s).cstack@.len() as int, v as int),
        final(s).comp@[v as int] == UNASSIGNED ==> final(s).root@[v as int] != v,
        final(s).max_d > old(s).max_d,
        final(s).root@[v as int] != UNVISITED,
        forall|u: int|
            0 <= u < g@.len() && old(s).root@[u] == UNVISITED && (#[trigger] final(s).root@[u])
                != UNVISITED ==> final(s).closed@[u],
        final(s).comp@[v as int] == UNASSIGNED ==> final(s).vstack@.len() > old(s).vstack@.len()
            && final(s).vstack@[old(s).vstack@.len() as int] == v && forall|j: int|
            old(s).vstack@.len() <= j < final(s).vstack@.len() ==> final(s).d@[final(s).root@[v as int] as int]
                <= final(s).d@[final(s).root@[(#[trigger] final(s).vstack@[j]) as int] as int],
        final(s).comp@[v as int] != UNASSIGNED ==> final(s).vstack@ == old(s).vstack@,
        old(s).vstack@.len() == 0 ==> final(s).vstack@.len() == 0,
    decreases g@.len() - old(s).max_d,
{
    let ghost n = g@.len();
    let ghost entry = *s;
    let ghost p0 = s.vstack@.len() as int;
    let h0 = s.cstack.len();
    enter(s, v, Ghost(g@));
    proof {
        assert(entry.done@[v as int] == 0 && !entry.closed@[v as int]);
        lemma_sound_enter(entry, *s, g@, v as int);
    }
    let edges = g.targets(v);
    let mut i: usize = 0;
    while i < edges.len()
        invariant
            i <= edges@.len(),
            edges@ == g@[v as int],
            g.wf(),
            n == g@.len(),
            (v as int) < n,
            entry == *old(s),
            entry.inv(g@),
            entry.root@[v as int] == UNVISITED,
            s.inv(g@),
            s.extends(&entry),
            s.sound(g@),
            s.above_lead_to(g@, p0, v as int),
            s.queue_led_from(g@, h0 as int, v as int),
            s.max_d > entry.max_d,
            p0 == entry.vstack@.len(),
            s.vstack@.len() > p0,
            s.vstack@[p0] == v,
            h0 == entry.cstack@.len(),
            s.saved_height@[v as int] == h0,
            s.done@[v as int] == i,
            !s.closed@[v as int],
            forall|u: int|
                0 <= u < n && u != v && entry.root@[u] == UNVISITED && (#[trigger] s.root@[u])
                    != UNVISITED ==> s.closed@[u],
            forall|j: int|
                p0 < j < s.vstack@.len() ==> s.d@[s.root@[v as int] as int] <= s.d@[s.root@[(
                #[trigger] s.vstack@[j]) as int] as int],
        decreases edges@.len() - i,
    {
        let w = edges[i];
        assert((w as int) < n && w != v);
        assert(has_edge(g@, v as int, w as int)) by {
            assert(g@[v as int][i as int] == w);
        }
        let ghost top0 = s.vstack@.len() as int;
        if s.root[w as usize] == UNVISITED {
            let ghost mid = *s;
            proof {
                lemma_call_ready(mid, g@, p0, v as int, w as int);
            }
            stack_tc(s, w, g);
            proof {
                lemma_sound_after_visit(mid, *s, g@, p0, h0 as int, v as int, w as int);
                s.lemma_extends_trans(&mid, &entry);
                assert(mid.root@[v as int] != UNVISITED);
                assert(s.vstack@[p0] == mid.vstack@[p0]);
                assert forall|u: int|
                    0 <= u < n && u != v && entry.root@[u] == UNVISITED && (#[trigger] s.root@[u])
                        != UNVISITED implies s.closed@[u] by {
                    if mid.root@[u] != UNVISITED {
                        assert(mid.closed@[u]);
                    }
                }
                assert forall|j: int| p0 < j < top0 implies s.d@[s.root@[v as int] as int]
                    <= s.d@[s.root@[(#[trigger] s.vstack@[j]) as int] as int] by {
                    assert(s.vstack@[j] == mid.vstack@[j]);
                    assert(mid.root@[mid.vstack@[j] as int] != UNVISITED);
                    let r = mid.root@[mid.vstack@[j] as int];
                    lemma_position(mid.vstack@, r);
                    assert(mid.root@[mid.vstack@[position(mid.vstack@, r)] as int] != UNVISITED);
                    let rv = mid.root@[v as int];
                    lemma_position(mid.vstack@, rv);
                    assert(mid.root@[mid.vstack@[position(mid.vstack@, rv)] as int] != UNVISITED);
                }
            }
        }
        let cw = s.comp[w as usize];
        if cw == UNASSIGNED {
            let ghost mid = *s;
            lower_root(s, v, w, Ghost(g@), Ghost(p0));
            proof {
                lemma_sound_lower_root(mid, *s, g@, v as int, w as int);
                lemma_above_frame(mid, *s, g@, p0, v as int);
                lemma_queue_frame(mid, *s, g@, h0 as int, v as int);
                assert forall|u: int|
                    0 <= u < entry.root@.len() && (#[trigger] entry.root@[u]) != UNVISITED implies {
                    &&& s.root@[u] == entry.root@[u]
                    &&& s.saved_height@[u] == entry.saved_height@[u]
                    &&& s.d@[u] == entry.d@[u]
                    &&& s.comp@[u] == entry.comp@[u]
                    &&& s.done@[u] == entry.done@[u]
                    &&& s.closed@[u] == entry.closed@[u]
                } by {
                    assert(mid.root@[u] == entry.root@[u]);
                }
                assert(s.extends(&entry));
                assert forall|j: int| p0 < j < s.vstack@.len() implies s.d@[s.root@[v as int] as int]
                    <= s.d@[s.root@[(#[trigger] s.vstack@[j]) as int] as int] by {
                    assert(s.vstack@[j] != s.vstack@[p0]);
                    assert(s.root@[s.vstack@[j] as int] == mid.root@[mid.vstack@[j] as int]);
                    if j < top0 {
                    } else {
                        assert(mid.vstack@.len() > top0);
                    }
                }
                // the edge is accounted for
                assert(s.root@[w as int] == mid.root@[w as int]);
                let kw = s.lemma_stack_position(g@, w as int);
                if s.d@[v as int] < s.d@[w as int] {
                    assert(s.closed_between(s.d@[v as int] as int, s.d@[w as int] as int)) by {
                        reveal(StackTC::closed_between);
                        assert forall|j: int|
                            0 <= j < s.vstack@.len() && s.d@[v as int] < s.d@[(
                            #[trigger] s.vstack@[j]) as int] <= s.d@[w as int] implies s.closed@[s.vstack@[j] as int] by {
                            s.lemma_stack_order(g@, p0, j);
                            lemma_new_on_stack(entry, *s, g@, j);
                        }
                    }
                }
                assert(s.edge_ok(v as int, w as int));
            }
        } else {
            let ghost mid = *s;
            push_component(s, cw, Ghost(g@));
            proof {
                lemma_sound_push(mid, *s, g@, h0 as int, v as int, w as int);
                lemma_above_frame(mid, *s, g@, p0, v as int);
                assert forall|u: int|
                    0 <= u < entry.root@.len() && (#[trigger] entry.root@[u]) != UNVISITED implies {
                    &&& s.root@[u] == entry.root@[u]
                    &&& s.saved_height@[u] == entry.saved_height@[u]
                    &&& s.d@[u] == entry.d@[u]
                    &&& s.comp@[u] == entry.comp@[u]
                    &&& s.done@[u] == entry.done@[u]
                    &&& s.closed@[u] == entry.closed@[u]
                } by {
                    assert(mid.root@[u] == entry.root@[u]);
                }
                assert forall|k: int| 0 <= k < entry.cstack@.len() implies (#[trigger] s.cstack@[k])
                    == entry.cstack@[k] by {
                    assert(mid.cstack@[k] == entry.cstack@[k]);
                }
                assert(s.extends(&entry));
                lemma_queued(s.cstack@, h0 as int, mid.cstack@.len() as int);
                assert(s.edge_ok(v as int, w as int));
            }
        }
        let ghost mid = *s;
        s.done = Ghost(s.done@.update(v as int, (i + 1) as nat));
        proof {
            lemma_sound_frame(mid, *s, g@);
            lemma_above_frame(mid, *s, g@, p0, v as int);
            lemma_queue_frame(mid, *s, g@, h0 as int, v as int);
            assert(s.base_inv(g@));
            assert(s.progress_ok(g@));
            assert(s.heights_ordered());
            assert(s.assigned_edges_ok(g@));
            assert forall|u: int, e: int|
                0 <= u < g@.len() && s.root@[u] != UNVISITED && s.comp@[u] == UNASSIGNED && 0 <= e
                    < s.done@[u] implies s.edge_ok(u, (#[trigger] g@[u][e]) as int) by {
                let x = g@[u][e] as int;
                if u == v && e == i {
                    assert(mid.edge_ok(v as int, w as int));
                } else {
                    assert(mid.edge_ok(u, x));
                }
                if s.comp@[x] == UNASSIGNED && s.d@[u] < s.d@[x] {
                    assert(s.closed_between(s.d@[u] as int, s.d@[x] as int)) by {
                        reveal(StackTC::closed_between);
                    }
                }
            }
            assert(s.stack_edges_ok(g@));
            assert(s.extends(&entry));
        }
        i += 1;
    }
    let ghost open = *s;
    s.closed = Ghost(s.closed@.update(v as int, true));
    proof {
        lemma_sound_frame(open, *s, g@);
        lemma_above_frame(open, *s, g@, p0, v as int);
        lemma_queue_frame(open, *s, g@, h0 as int, v as int);
        assert(s.base_inv(g@));
        assert(s.progress_ok(g@));
        assert(s.heights_ordered());
        assert(s.assigned_edges_ok(g@));
        assert forall|u: int, e: int|
            0 <= u < g@.len() && s.root@[u] != UNVISITED && s.comp@[u] == UNASSIGNED && 0 <= e
                < s.done@[u] implies s.edge_ok(u, (#[trigger] g@[u][e]) as int) by {
            let x = g@[u][e] as int;
            assert(open.edge_ok(u, x));
            if s.comp@[x] == UNASSIGNED && s.d@[u] < s.d@[x] {
                assert(s.closed_between(s.d@[u] as int, s.d@[x] as int)) by {
                    reveal(StackTC::closed_between);
                }
            }
        }
        assert(s.stack_edges_ok(g@));
        assert(s.extends(&entry));
    }
    if s.root[v as usize] == v {
        proof {
            lemma_components_bound(s.scc@);
        }
        let own = s.vstack[s.vstack.len() - 1] != v;
        let ghost pre = *s;
        proof {
            if pre.vstack@.len() - p0 > 1 {
                assert(pre.vstack@[pre.vstack@.len() - 1] != pre.vstack@[p0]);
            }
        }
        let succ = gather_successors(s, h0, own, Ghost(g@));
        pop_members(s, v, succ, Ghost(g@), Ghost(p0));
        proof {
            assert(s.cstack@ =~= pre.cstack@.take(entry.cstack@.len() as int));
            assert(s.succ@[pre.succ@.len() as int] == succ);
            assert(pre.d@[pre.root@[pre.vstack@[p0] as int] as int] == pre.d@[v as int]);
            lemma_component_closed(entry, pre, *s, g@, v as int, p0, own);
            lemma_sound_pop(pre, *s, g@, v as int, p0, h0 as int);
            lemma_above_none(*s, g@, p0, v as int);
            lemma_queue_none(*s, g@, h0 as int, v as int);
            assert forall|u: int|
                0 <= u < entry.root@.len() && (#[trigger] entry.root@[u]) != UNVISITED implies {
                &&& s.root@[u] == entry.root@[u]
                &&& s.saved_height@[u] == entry.saved_height@[u]
                &&& s.d@[u] == entry.d@[u]
                &&& s.comp@[u] == entry.comp@[u]
                &&& s.done@[u] == entry.done@[u]
                &&& s.closed@[u] == entry.closed@[u]
            } by {
                assert(pre.root@[u] == entry.root@[u]);
                if s.comp@[u] != pre.comp@[u] {
                    let k = choose|k: int| p0 <= k < pre.vstack@.len() && pre.vstack@[k] == u;
                    lemma_new_on_stack(entry, pre, g@, k);
                }
            }
            assert forall|c: int| 0 <= c < entry.scc@.len() implies (#[trigger] s.scc@[c])
                == entry.scc@[c] && s.succ@[c] == entry.succ@[c] by {
                assert(pre.scc@[c] == entry.scc@[c]);
            }
            assert(s.vstack@ =~= entry.vstack@);
            assert(s.cstack@ =~= entry.cstack@);
            assert(s.extends(&entry));
            assert(s.comp@[pre.vstack@[p0] as int] == pre.scc@.len());
        }
    } else {
        proof {
            if p0 == 0 {
                let r = s.root@[v as int];
                lemma_position(s.vstack@, r);
                let kr = position(s.vstack@, r);
                if kr > 0 {
                    assert(s.d@[s.vstack@[0] as int] < s.d@[s.vstack@[kr] as int]);
                }
                assert(false);
            }
        }
    }
}

} // verus!
