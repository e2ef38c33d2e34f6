//! What the traversal keeps true of walks in the graph: the members of a component
//! lead to each other, and a component reaches only what its members lead to.
use vstd::prelude::*;
use crate::edge_table::has_edge;
use crate::edges::{edge_set, CondensedEdges};
use crate::moduleref::ModuleRef;
use crate::reach::{leads_to, lemma_edge_leads, lemma_leads_on, lemma_leads_to_self};
use crate::stack_tc::{lemma_position, position, CondensedRef, StackTC, UNASSIGNED, UNVISITED};

verus! {

/// Component `x` is on the stack of components `cs` at height `h` or above, or one of
/// the components there reaches it.
#[verifier::opaque]
pub(crate) open spec fn from_queue(
    cs: Seq<CondensedRef>,
    list: Seq<CondensedEdges>,
    h: int,
    x: CondensedRef,
) -> bool {
    exists|k: int|
        0 <= h <= k < cs.len() && (cs[k] == x || edge_set(list[(#[trigger] cs[k]) as int]).contains(
            x,
        ))
}

/// A place on the stack of components that shows `from_queue`.
pub(crate) proof fn lemma_from_queue_witness(
    cs: Seq<CondensedRef>,
    list: Seq<CondensedEdges>,
    h: int,
    x: CondensedRef,
) -> (k: int)
    requires
        from_queue(cs, list, h, x),
    ensures
        0 <= h <= k < cs.len(),
        cs[k] == x || edge_set(list[cs[k] as int]).contains(x),
{
    reveal(from_queue);
    choose|k: int|
        0 <= h <= k < cs.len() && (cs[k] == x || edge_set(list[(#[trigger] cs[k]) as int]).contains(
            x,
        ))
}

pub(crate) proof fn lemma_from_queue(
    cs: Seq<CondensedRef>,
    list: Seq<CondensedEdges>,
    h: int,
    k: int,
    x: CondensedRef,
)
    requires
        0 <= h <= k < cs.len(),
        cs[k] == x || edge_set(list[cs[k] as int]).contains(x),
    ensures
        from_queue(cs, list, h, x),
{
    reveal(from_queue);
}

/// What holds from a height holds from any height below it.
pub(crate) proof fn lemma_from_queue_lower(
    cs: Seq<CondensedRef>,
    list: Seq<CondensedEdges>,
    h: int,
    lower: int,
    x: CondensedRef,
)
    requires
        from_queue(cs, list, h, x),
        0 <= lower <= h,
    ensures
        from_queue(cs, list, lower, x),
{
    let k = lemma_from_queue_witness(cs, list, h, x);
    lemma_from_queue(cs, list, lower, k, x);
}

impl StackTC {
    /// The first member of component `c`.
    pub(crate) open spec fn head(&self, c: int) -> int {
        self.scc@[c]@[0] as int
    }

    /// Every member of a component leads to the first one and the first one to it; the
    /// first member of a component leads to that of each component it reaches; a
    /// module on the stack leads to its root candidate and to the modules above it.
    #[verifier::opaque]
    pub(crate) open spec fn sound(&self, g: Seq<Seq<ModuleRef>>) -> bool {
        &&& forall|u: int|
            0 <= u < g.len() && (#[trigger] self.comp@[u]) != UNASSIGNED ==> leads_to(
                g,
                u,
                self.head(self.comp@[u] as int),
            ) && leads_to(g, self.head(self.comp@[u] as int), u)
        &&& forall|c: int, x: usize|
            0 <= c < self.succ@.len() && #[trigger] edge_set(self.succ@[c]).contains(x)
                ==> leads_to(g, self.head(c), self.head(x as int))
        &&& forall|u: int|
            0 <= u < g.len() && (#[trigger] self.root@[u]) != UNVISITED && self.comp@[u]
                == UNASSIGNED ==> leads_to(g, u, self.root@[u] as int)
        &&& forall|i: int, j: int|
            0 <= i <= j < self.vstack@.len() ==> leads_to(
                g,
                (#[trigger] self.vstack@[i]) as int,
                (#[trigger] self.vstack@[j]) as int,
            )
    }

    /// Every module on the stack from position `p` upwards leads to `v`.
    #[verifier::opaque]
    pub(crate) open spec fn above_lead_to(&self, g: Seq<Seq<ModuleRef>>, p: int, v: int) -> bool {
        forall|j: int|
            0 <= p <= j < self.vstack@.len() ==> leads_to(g, (#[trigger] self.vstack@[j]) as int, v)
    }

    /// `v` leads to the first member of every component on the stack of components from
    /// height `h` upwards.
    #[verifier::opaque]
    pub(crate) open spec fn queue_led_from(&self, g: Seq<Seq<ModuleRef>>, h: int, v: int) -> bool {
        forall|k: int|
            0 <= h <= k < self.cstack@.len() ==> leads_to(
                g,
                v,
                self.head((#[trigger] self.cstack@[k]) as int),
            )
    }
}

/// Before any module is visited there is nothing to show.
pub(crate) proof fn lemma_sound_at_start(s: StackTC, g: Seq<Seq<ModuleRef>>)
    requires
        s.comp@.len() == g.len(),
        s.root@.len() == g.len(),
        forall|u: int| 0 <= u < g.len() ==> s.root@[u] == UNVISITED,
        forall|u: int| 0 <= u < g.len() ==> s.comp@[u] == UNASSIGNED,
        s.succ@.len() == 0,
        s.vstack@.len() == 0,
    ensures
        s.sound(g),
{
    reveal(StackTC::sound);
}

pub(crate) proof fn lemma_sound_frame(pre: StackTC, post: StackTC, g: Seq<Seq<ModuleRef>>)
    requires
        pre.sound(g),
        post.comp@ == pre.comp@,
        post.root@ == pre.root@,
        post.vstack@ == pre.vstack@,
        post.scc@ == pre.scc@,
        post.succ@ == pre.succ@,
    ensures
        post.sound(g),
{
    reveal(StackTC::sound);
}

pub(crate) proof fn lemma_above_frame(pre: StackTC, post: StackTC, g: Seq<Seq<ModuleRef>>, p: int, v: int)
    requires
        pre.above_lead_to(g, p, v),
        post.vstack@ == pre.vstack@,
    ensures
        post.above_lead_to(g, p, v),
{
    reveal(StackTC::above_lead_to);
}

pub(crate) proof fn lemma_queue_frame(pre: StackTC, post: StackTC, g: Seq<Seq<ModuleRef>>, h: int, v: int)
    requires
        pre.queue_led_from(g, h, v),
        post.cstack@ == pre.cstack@,
        post.scc@ == pre.scc@,
    ensures
        post.queue_led_from(g, h, v),
{
    reveal(StackTC::queue_led_from);
}

pub(crate) proof fn lemma_above_none(s: StackTC, g: Seq<Seq<ModuleRef>>, p: int, v: int)
    requires
        p >= s.vstack@.len(),
    ensures
        s.above_lead_to(g, p, v),
{
    reveal(StackTC::above_lead_to);
}

pub(crate) proof fn lemma_queue_none(s: StackTC, g: Seq<Seq<ModuleRef>>, h: int, v: int)
    requires
        h >= s.cstack@.len(),
    ensures
        s.queue_led_from(g, h, v),
{
    reveal(StackTC::queue_led_from);
}

/// Entering `v`, to which every module on the stack leads, keeps the state sound.
pub(crate) proof fn lemma_sound_enter(pre: StackTC, post: StackTC, g: Seq<Seq<ModuleRef>>, v: int)
    requires
        pre.base_inv(g),
        pre.sound(g),
        pre.above_lead_to(g, 0, v),
        0 <= v < g.len(),
        pre.root@[v] == UNVISITED,
        post.vstack@ == pre.vstack@.push(v as ModuleRef),
        post.root@ == pre.root@.update(v, v as ModuleRef),
        post.comp@ == pre.comp@,
        post.scc@ == pre.scc@,
        post.succ@ == pre.succ@,
        post.cstack@ == pre.cstack@,
    ensures
        post.sound(g),
        post.above_lead_to(g, pre.vstack@.len() as int, v),
        post.queue_led_from(g, pre.cstack@.len() as int, v),
{
    reveal(StackTC::sound);
    reveal(StackTC::above_lead_to);
    reveal(StackTC::queue_led_from);
    lemma_leads_to_self(g, v);
    let top = pre.vstack@.len() as int;
    assert(pre.comp@[v] == UNASSIGNED);
    assert forall|u: int|
        0 <= u < g.len() && (#[trigger] post.root@[u]) != UNVISITED && post.comp@[u]
            == UNASSIGNED implies leads_to(g, u, post.root@[u] as int) by {
        if u != v {
            assert(pre.root@[u] == post.root@[u]);
        }
    }
    assert forall|i: int, j: int| 0 <= i <= j < post.vstack@.len() implies leads_to(
        g,
        (#[trigger] post.vstack@[i]) as int,
        (#[trigger] post.vstack@[j]) as int,
    ) by {
        if j < top {
            assert(post.vstack@[i] == pre.vstack@[i] && post.vstack@[j] == pre.vstack@[j]);
        } else if i < top {
            assert(post.vstack@[i] == pre.vstack@[i]);
        }
    }
}

/// Along an edge from `v`, whatever leads to `v` leads to the target.
pub(crate) proof fn lemma_call_ready(s: StackTC, g: Seq<Seq<ModuleRef>>, p0: int, v: int, w: int)
    requires
        s.sound(g),
        s.above_lead_to(g, p0, v),
        0 <= p0 < s.vstack@.len(),
        s.vstack@[p0] == v,
        has_edge(g, v, w),
    ensures
        s.above_lead_to(g, 0, w),
{
    reveal(StackTC::sound);
    reveal(StackTC::above_lead_to);
    lemma_edge_leads(g, v, w);
    assert forall|j: int| 0 <= j < s.vstack@.len() implies leads_to(
        g,
        (#[trigger] s.vstack@[j]) as int,
        w,
    ) by {
        if j < p0 {
            assert(leads_to(g, s.vstack@[j] as int, s.vstack@[p0] as int));
        }
        lemma_leads_on(g, s.vstack@[j] as int, v, w);
    }
}

/// After the visit of `w`, a target of an edge from `v`: what the visit left on the
/// two stacks is tied to `v` as what was there before.
pub(crate) proof fn lemma_sound_after_visit(
    mid: StackTC,
    post: StackTC,
    g: Seq<Seq<ModuleRef>>,
    p0: int,
    h0: int,
    v: int,
    w: int,
)
    requires
        mid.base_inv(g),
        post.base_inv(g),
        post.extends(&mid),
        post.sound(g),
        0 <= p0 < mid.vstack@.len(),
        mid.vstack@[p0] == v,
        0 <= h0 <= mid.cstack@.len(),
        has_edge(g, v, w),
        0 <= w < g.len(),
        mid.above_lead_to(g, p0, v),
        mid.queue_led_from(g, h0, v),
        post.above_lead_to(g, mid.vstack@.len() as int, w),
        post.queue_led_from(g, mid.cstack@.len() as int, w),
        post.root@[w] != UNVISITED,
        post.comp@[w] == UNASSIGNED ==> post.root@[w] != w && post.vstack@.len()
            > mid.vstack@.len() && post.vstack@[mid.vstack@.len() as int] == w,
        post.comp@[w] != UNASSIGNED ==> post.vstack@ == mid.vstack@,
    ensures
        post.above_lead_to(g, p0, v),
        post.queue_led_from(g, h0, v),
{
    reveal(StackTC::sound);
    reveal(StackTC::above_lead_to);
    reveal(StackTC::queue_led_from);
    lemma_edge_leads(g, v, w);
    let top0 = mid.vstack@.len() as int;
    let c0 = mid.cstack@.len() as int;
    assert forall|k: int| h0 <= k < post.cstack@.len() implies leads_to(
        g,
        v,
        post.head((#[trigger] post.cstack@[k]) as int),
    ) by {
        if k < c0 {
            assert(post.cstack@[k] == mid.cstack@[k]);
            let c = mid.cstack@[k] as int;
            assert(post.scc@[c] == mid.scc@[c]);
        } else {
            lemma_leads_on(g, v, w, post.head(post.cstack@[k] as int));
        }
    }
    assert forall|j: int| p0 <= j < post.vstack@.len() implies leads_to(
        g,
        (#[trigger] post.vstack@[j]) as int,
        v,
    ) by {
        if j < top0 {
            assert(post.vstack@[j] == mid.vstack@[j]);
        } else {
            let u = post.vstack@[j] as int;
            assert(post.comp@[w] == UNASSIGNED);
            let r = post.root@[w];
            assert(leads_to(g, w, r as int));
            lemma_position(post.vstack@, r);
            let q = position(post.vstack@, r);
            if q >= top0 {
                if q > top0 {
                    assert(post.d@[post.vstack@[top0] as int] < post.d@[post.vstack@[q] as int]);
                }
                assert(false);
            }
            assert(post.vstack@[q] == mid.vstack@[q]);
            assert(post.vstack@[p0] == mid.vstack@[p0]);
            if q < p0 {
                assert(leads_to(g, post.vstack@[q] as int, post.vstack@[p0] as int));
            }
            assert(leads_to(g, r as int, v));
            lemma_leads_on(g, u, w, r as int);
            lemma_leads_on(g, u, r as int, v);
        }
    }
}

/// Taking over the root candidate of `w`, a target of an edge from `v`, for `v` keeps
/// the state sound.
pub(crate) proof fn lemma_sound_lower_root(
    pre: StackTC,
    post: StackTC,
    g: Seq<Seq<ModuleRef>>,
    v: int,
    w: int,
)
    requires
        pre.sound(g),
        has_edge(g, v, w),
        0 <= w < g.len(),
        pre.root@.len() == g.len(),
        pre.root@[v] != UNVISITED,
        pre.comp@[v] == UNASSIGNED,
        pre.root@[w] != UNVISITED,
        pre.comp@[w] == UNASSIGNED,
        post.root@ == pre.root@.update(v, post.root@[v]),
        post.root@[v] == pre.root@[v] || post.root@[v] == pre.root@[w],
        post.comp@ == pre.comp@,
        post.vstack@ == pre.vstack@,
        post.scc@ == pre.scc@,
        post.succ@ == pre.succ@,
    ensures
        post.sound(g),
{
    reveal(StackTC::sound);
    lemma_edge_leads(g, v, w);
    assert forall|u: int|
        0 <= u < g.len() && (#[trigger] post.root@[u]) != UNVISITED && post.comp@[u]
            == UNASSIGNED implies leads_to(g, u, post.root@[u] as int) by {
        if u == v {
            if post.root@[v] == pre.root@[v] {
                assert(leads_to(g, v, pre.root@[v] as int));
            } else {
                assert(leads_to(g, w, pre.root@[w] as int));
                lemma_leads_on(g, v, w, pre.root@[w] as int);
            }
        } else {
            assert(pre.root@[u] == post.root@[u]);
        }
    }
}

/// Putting the component of `w`, a target of an edge from `v`, on the stack of
/// components keeps `v` leading to all that is there.
pub(crate) proof fn lemma_sound_push(
    pre: StackTC,
    post: StackTC,
    g: Seq<Seq<ModuleRef>>,
    h0: int,
    v: int,
    w: int,
)
    requires
        pre.sound(g),
        pre.queue_led_from(g, h0, v),
        has_edge(g, v, w),
        0 <= w < g.len(),
        pre.comp@[w] != UNASSIGNED,
        post.cstack@ == pre.cstack@.push(pre.comp@[w]),
        post.comp@ == pre.comp@,
        post.root@ == pre.root@,
        post.vstack@ == pre.vstack@,
        post.scc@ == pre.scc@,
        post.succ@ == pre.succ@,
    ensures
        post.sound(g),
        post.queue_led_from(g, h0, v),
{
    reveal(StackTC::sound);
    reveal(StackTC::queue_led_from);
    lemma_edge_leads(g, v, w);
    assert forall|k: int| 0 <= h0 <= k < post.cstack@.len() implies leads_to(
        g,
        v,
        post.head((#[trigger] post.cstack@[k]) as int),
    ) by {
        if k < pre.cstack@.len() {
            assert(post.cstack@[k] == pre.cstack@[k]);
        } else {
            assert(leads_to(g, w, pre.head(pre.comp@[w] as int)));
            lemma_leads_on(g, v, w, pre.head(pre.comp@[w] as int));
        }
    }
}

/// Making a component of `v` and the modules above it on the stack, with the
/// components that wait on the stack of components and what those reach as its
/// successors, keeps the state sound.
pub(crate) proof fn lemma_sound_pop(
    pre: StackTC,
    post: StackTC,
    g: Seq<Seq<ModuleRef>>,
    v: int,
    p0: int,
    h0: int,
)
    requires
        pre.base_inv(g),
        post.base_inv(g),
        pre.sound(g),
        pre.above_lead_to(g, p0, v),
        pre.queue_led_from(g, h0, v),
        0 <= v < g.len(),
        0 <= p0 < pre.vstack@.len(),
        pre.vstack@[p0] == v,
        0 <= h0 <= pre.cstack@.len(),
        post.vstack@ == pre.vstack@.take(p0),
        post.root@ == pre.root@,
        post.scc@.len() == pre.scc@.len() + 1,
        forall|c: int| 0 <= c < pre.scc@.len() ==> (#[trigger] post.scc@[c]) == pre.scc@[c],
        post.succ@.len() == pre.succ@.len() + 1,
        forall|c: int| 0 <= c < pre.succ@.len() ==> (#[trigger] post.succ@[c]) == pre.succ@[c],
        forall|u: int|
            0 <= u < g.len() && (#[trigger] pre.comp@[u]) != UNASSIGNED ==> post.comp@[u]
                == pre.comp@[u],
        forall|u: int|
            0 <= u < g.len() && (#[trigger] post.comp@[u]) != pre.comp@[u] ==> post.comp@[u]
                == pre.scc@.len() && exists|i: int|
                p0 <= i < pre.vstack@.len() && pre.vstack@[i] == u,
        forall|x: usize|
            #[trigger] edge_set(post.succ@[pre.succ@.len() as int]).contains(x) ==> x
                <= pre.scc@.len(),
        forall|x: usize|
            #[trigger] edge_set(post.succ@[pre.succ@.len() as int]).contains(x) && x
                != pre.scc@.len() ==> from_queue(pre.cstack@, pre.succ@, h0, x),
    ensures
        post.sound(g),
{
    reveal(StackTC::sound);
    reveal(StackTC::above_lead_to);
    reveal(StackTC::queue_led_from);
    let cv = pre.scc@.len() as int;
    let hd = post.head(cv);
    // the first member of the new component was on the stack, at or above `v`
    assert(post.scc@[cv]@.len() > 0);
    assert(post.comp@[post.scc@[cv]@[0] as int] == cv);
    assert(0 <= hd < g.len());
    assert(pre.comp@[hd] == UNASSIGNED || pre.comp@[hd] < cv);
    assert(post.scc@.len() <= g.len()) by {
        crate::stack_tc::lemma_components_at_most(post.scc@, g.len(), post.max_d as nat);
    }
    assert(post.comp@[hd] != pre.comp@[hd]);
    let ih = choose|i: int| p0 <= i < pre.vstack@.len() && pre.vstack@[i] == hd;
    assert(leads_to(g, pre.vstack@[ih] as int, v));
    assert(leads_to(g, pre.vstack@[p0] as int, pre.vstack@[ih] as int));
    assert(leads_to(g, hd, v) && leads_to(g, v, hd));

    assert forall|u: int|
        0 <= u < g.len() && (#[trigger] post.comp@[u]) != UNASSIGNED implies leads_to(
        g,
        u,
        post.head(post.comp@[u] as int),
    ) && leads_to(g, post.head(post.comp@[u] as int), u) by {
        if post.comp@[u] != pre.comp@[u] {
            let i = choose|i: int| p0 <= i < pre.vstack@.len() && pre.vstack@[i] == u;
            assert(leads_to(g, pre.vstack@[i] as int, v));
            assert(leads_to(g, pre.vstack@[p0] as int, pre.vstack@[i] as int));
            lemma_leads_on(g, u, v, hd);
            lemma_leads_on(g, hd, v, u);
        } else {
            let c = pre.comp@[u] as int;
            assert(post.scc@[c] == pre.scc@[c]);
        }
    }
    assert forall|c: int, x: usize|
        0 <= c < post.succ@.len() && #[trigger] edge_set(post.succ@[c]).contains(x) implies leads_to(
        g,
        post.head(c),
        post.head(x as int),
    ) by {
        if c < cv {
            assert(post.succ@[c] == pre.succ@[c]);
            assert(edge_set(pre.succ@[c]).contains(x));
            assert(x < pre.succ@.len());
            assert(post.scc@[c] == pre.scc@[c]);
            assert(post.scc@[x as int] == pre.scc@[x as int]);
        } else if x == cv {
            lemma_leads_to_self(g, hd);
        } else {
            let k = lemma_from_queue_witness(pre.cstack@, pre.succ@, h0, x);
            let y = pre.cstack@[k];
            assert(y < pre.scc@.len());
            assert(leads_to(g, v, pre.head(y as int)));
            assert(post.scc@[y as int] == pre.scc@[y as int]);
            assert(x < cv);
            assert(post.scc@[x as int] == pre.scc@[x as int]);
            lemma_leads_on(g, hd, v, pre.head(y as int));
            if y != x {
                assert(edge_set(pre.succ@[y as int]).contains(x));
                assert(leads_to(g, pre.head(y as int), pre.head(x as int)));
                lemma_leads_on(g, hd, pre.head(y as int), pre.head(x as int));
            }
        }
    }
    assert forall|u: int|
        0 <= u < g.len() && (#[trigger] post.root@[u]) != UNVISITED && post.comp@[u]
            == UNASSIGNED implies leads_to(g, u, post.root@[u] as int) by {
        assert(pre.comp@[u] == UNASSIGNED);
    }
    assert forall|i: int, j: int| 0 <= i <= j < post.vstack@.len() implies leads_to(
        g,
        (#[trigger] post.vstack@[i]) as int,
        (#[trigger] post.vstack@[j]) as int,
    ) by {
        assert(post.vstack@[i] == pre.vstack@[i] && post.vstack@[j] == pre.vstack@[j]);
    }
}

/// Once every module has a component: modules of one component lead to each other,
/// and a module leads to the modules of every component that its own reaches.
pub(crate) proof fn lemma_sound_in_the_end(s: StackTC, g: Seq<Seq<ModuleRef>>, a: int, b: int)
    requires
        s.base_inv(g),
        s.sound(g),
        0 <= a < g.len(),
        0 <= b < g.len(),
        s.comp@[a] != UNASSIGNED,
        s.comp@[b] != UNASSIGNED,
        s.comp@[a] == s.comp@[b] || edge_set(s.succ@[s.comp@[a] as int]).contains(s.comp@[b]),
    ensures
        leads_to(g, a, b),
{
    reveal(StackTC::sound);
    let ha = s.head(s.comp@[a] as int);
    let hb = s.head(s.comp@[b] as int);
    assert(leads_to(g, a, ha));
    assert(leads_to(g, hb, b));
    if s.comp@[a] != s.comp@[b] {
        assert(leads_to(g, ha, hb));
        lemma_leads_on(g, a, ha, hb);
        lemma_leads_on(g, a, hb, b);
    } else {
        lemma_leads_on(g, a, ha, b);
    }
}

} // verus!
