//! Walks in a graph of modules: which module leads to which along the edges.
use vstd::prelude::*;
use crate::edge_table::{edges_inv, has_edge};
use crate::moduleref::ModuleRef;

verus! {

/// `p` goes from module to module along edges of `g`. A walk may be one module and no
/// edge.
pub open spec fn is_walk(g: Seq<Seq<ModuleRef>>, p: Seq<int>) -> bool {
    &&& p.len() >= 1
    &&& 0 <= p[0] < g.len()
    &&& forall|i: int| 0 <= i < p.len() - 1 ==> has_edge(g, #[trigger] p[i], p[i + 1])
}

/// Some walk goes from `a` to `b`.
#[verifier::opaque]
pub open spec fn leads_to(g: Seq<Seq<ModuleRef>>, a: int, b: int) -> bool {
    exists|p: Seq<int>| is_walk(g, p) && p[0] == a && p.last() == b
}

/// Some walk of at least one edge goes from `a` to `b`.
pub open spec fn linked(g: Seq<Seq<ModuleRef>>, a: int, b: int) -> bool {
    exists|c: int| has_edge(g, a, c) && leads_to(g, c, b)
}

/// A walk from `a` to `b`, where there is one.
pub proof fn lemma_walk_of(g: Seq<Seq<ModuleRef>>, a: int, b: int) -> (p: Seq<int>)
    requires
        leads_to(g, a, b),
    ensures
        is_walk(g, p),
        p[0] == a,
        p.last() == b,
{
    reveal(leads_to);
    choose|p: Seq<int>| is_walk(g, p) && p[0] == a && p.last() == b
}

/// Where a walk goes from one module to another, the first leads to the second.
pub proof fn lemma_walk_leads(g: Seq<Seq<ModuleRef>>, p: Seq<int>)
    requires
        is_walk(g, p),
    ensures
        leads_to(g, p[0], p.last()),
{
    reveal(leads_to);
}

/// Every module leads to itself.
pub proof fn lemma_leads_to_self(g: Seq<Seq<ModuleRef>>, a: int)
    requires
        0 <= a < g.len(),
    ensures
        leads_to(g, a, a),
{
    let p = seq![a];
    assert(is_walk(g, p));
    lemma_walk_leads(g, p);
}

/// An edge leads from its source to its target.
pub proof fn lemma_edge_leads(g: Seq<Seq<ModuleRef>>, a: int, b: int)
    requires
        has_edge(g, a, b),
    ensures
        leads_to(g, a, b),
{
    let p = seq![a, b];
    assert(is_walk(g, p));
    lemma_walk_leads(g, p);
}

/// What a module leads to, leads on.
pub proof fn lemma_leads_on(g: Seq<Seq<ModuleRef>>, a: int, b: int, c: int)
    requires
        leads_to(g, a, b),
        leads_to(g, b, c),
    ensures
        leads_to(g, a, c),
{
    let p = lemma_walk_of(g, a, b);
    let q = lemma_walk_of(g, b, c);
    let r = p + q.drop_first();
    assert forall|i: int| 0 <= i < r.len() - 1 implies has_edge(g, #[trigger] r[i], r[i + 1]) by {
        if i < p.len() - 1 {
            assert(has_edge(g, p[i], p[i + 1]));
        } else {
            let k = i - (p.len() - 1);
            assert(has_edge(g, q[k], q[k + 1]));
            assert(r[i + 1] == q[k + 1]);
            if k == 0 {
                assert(r[i] == p.last());
            } else {
                assert(r[i] == q[k]);
            }
        }
    }
    assert(is_walk(g, r));
    if q.len() == 1 {
        assert(r =~= p);
    } else {
        assert(r.last() == q.last());
    }
    lemma_walk_leads(g, r);
}

/// A module leads only to modules of the graph.
pub proof fn lemma_leads_within(g: Seq<Seq<ModuleRef>>, a: int, b: int)
    requires
        edges_inv(g),
        leads_to(g, a, b),
    ensures
        0 <= a < g.len(),
        0 <= b < g.len(),
{
    let p = lemma_walk_of(g, a, b);
    if p.len() > 1 {
        let k = p.len() - 2;
        assert(has_edge(g, p[k], p[k + 1]));
        let e = choose|e: int| 0 <= e < g[p[k]].len() && #[trigger] g[p[k]][e] == p[k + 1];
        assert((g[p[k]][e] as int) < g.len());
    }
}

/// A module that leads to another one is that one, or is linked to it.
pub proof fn lemma_leads_or_linked(g: Seq<Seq<ModuleRef>>, a: int, b: int)
    requires
        edges_inv(g),
        leads_to(g, a, b),
    ensures
        a == b || linked(g, a, b),
{
    let p = lemma_walk_of(g, a, b);
    if p.len() > 1 {
        let q = p.drop_first();
        assert(has_edge(g, p[0], p[1]));
        let e = choose|e: int| 0 <= e < g[p[0]].len() && #[trigger] g[p[0]][e] == p[1];
        assert((g[p[0]][e] as int) < g.len());
        assert forall|i: int| 0 <= i < q.len() - 1 implies has_edge(g, #[trigger] q[i], q[i + 1]) by {
            assert(has_edge(g, p[i + 1], p[i + 2]));
        }
        assert(is_walk(g, q));
        lemma_walk_leads(g, q);
        assert(q.last() == b);
        assert(has_edge(g, a, q[0]) && leads_to(g, q[0], b));
    }
}

/// `to` renames the modules of `g` into those of `h` and `back` renames them back:
/// both graphs have the same number of modules, and an edge of one is an edge of the
/// other between the renamed modules.
pub open spec fn are_renamings(
    g: Seq<Seq<ModuleRef>>,
    h: Seq<Seq<ModuleRef>>,
    to: Seq<int>,
    back: Seq<int>,
) -> bool {
    &&& g.len() == h.len()
    &&& to.len() == g.len()
    &&& back.len() == g.len()
    &&& forall|a: int| 0 <= a < g.len() ==> 0 <= #[trigger] to[a] < g.len() && back[to[a]] == a
    &&& forall|x: int| 0 <= x < h.len() ==> 0 <= #[trigger] back[x] < h.len() && to[back[x]] == x
    &&& forall|a: int, b: int|
        0 <= a < g.len() && 0 <= b < g.len() ==> (has_edge(g, a, b) <==> has_edge(
            h,
            #[trigger] to[a],
            #[trigger] to[b],
        ))
}

/// Every module of a walk is a module of the graph.
pub proof fn lemma_walk_within(g: Seq<Seq<ModuleRef>>, p: Seq<int>, i: int)
    requires
        edges_inv(g),
        is_walk(g, p),
        0 <= i < p.len(),
    ensures
        0 <= p[i] < g.len(),
    decreases i,
{
    if i > 0 {
        lemma_walk_within(g, p, i - 1);
        assert(has_edge(g, p[i - 1], p[i]));
        let e = choose|e: int| 0 <= e < g[p[i - 1]].len() && #[trigger] g[p[i - 1]][e] == p[i];
        assert((g[p[i - 1]][e] as int) < g.len());
    }
}

/// Where one module leads to another, the first leads to the second after a renaming.
pub proof fn lemma_renamed_leads(
    g: Seq<Seq<ModuleRef>>,
    h: Seq<Seq<ModuleRef>>,
    to: Seq<int>,
    back: Seq<int>,
    a: int,
    b: int,
)
    requires
        edges_inv(g),
        are_renamings(g, h, to, back),
        leads_to(g, a, b),
    ensures
        leads_to(h, to[a], to[b]),
{
    let p = lemma_walk_of(g, a, b);
    let q = Seq::new(p.len(), |i: int| to[p[i]]);
    lemma_walk_within(g, p, 0);
    assert forall|i: int| 0 <= i < q.len() - 1 implies has_edge(h, #[trigger] q[i], q[i + 1]) by {
        lemma_walk_within(g, p, i);
        lemma_walk_within(g, p, i + 1);
        assert(has_edge(g, p[i], p[i + 1]));
        assert(has_edge(h, to[p[i]], to[p[i + 1]]));
    }
    assert(is_walk(h, q));
    lemma_walk_leads(h, q);
}

/// Renaming back undoes the renaming.
pub proof fn lemma_renamings_turned(
    g: Seq<Seq<ModuleRef>>,
    h: Seq<Seq<ModuleRef>>,
    to: Seq<int>,
    back: Seq<int>,
)
    requires
        are_renamings(g, h, to, back),
    ensures
        are_renamings(h, g, back, to),
{
    assert forall|x: int, y: int| 0 <= x < h.len() && 0 <= y < h.len() implies (has_edge(h, x, y)
        <==> has_edge(g, #[trigger] back[x], #[trigger] back[y])) by {
        assert(has_edge(g, back[x], back[y]) <==> has_edge(h, to[back[x]], to[back[y]]));
    }
}

/// A renaming of the modules keeps what leads to what.
pub proof fn lemma_renaming_keeps_walks(
    g: Seq<Seq<ModuleRef>>,
    h: Seq<Seq<ModuleRef>>,
    to: Seq<int>,
    back: Seq<int>,
    a: int,
    b: int,
)
    requires
        edges_inv(g),
        edges_inv(h),
        are_renamings(g, h, to, back),
        0 <= a < g.len(),
        0 <= b < g.len(),
    ensures
        leads_to(g, a, b) <==> leads_to(h, to[a], to[b]),
        linked(g, a, b) <==> linked(h, to[a], to[b]),
{
    lemma_renamings_turned(g, h, to, back);
    if leads_to(g, a, b) {
        lemma_renamed_leads(g, h, to, back, a, b);
    }
    if leads_to(h, to[a], to[b]) {
        lemma_renamed_leads(h, g, back, to, to[a], to[b]);
    }
    if linked(g, a, b) {
        let c = choose|c: int| has_edge(g, a, c) && leads_to(g, c, b);
        lemma_leads_within(g, c, b);
        lemma_renamed_leads(g, h, to, back, c, b);
        assert(has_edge(h, to[a], to[c]));
    }
    if linked(h, to[a], to[b]) {
        let x = choose|x: int| has_edge(h, to[a], x) && leads_to(h, x, to[b]);
        lemma_leads_within(h, x, to[b]);
        lemma_renamed_leads(h, g, back, to, x, to[b]);
        assert(has_edge(g, back[to[a]], back[x]));
    }
}

} // verus!
