//! The import graph under construction: for each module id the ids it imports.
//!
//! The lists are kept in a concurrent hash map, which is not verified. This file
//! states what the rest of the library assumes of it, over `edge_map`, the list that
//! the map holds under each key.
use vstd::prelude::*;
use crate::moduleref::ModuleRef;

verus! {

#[verifier::external_type_specification]
#[verifier::external_body]
#[verifier::reject_recursive_types(K)]
#[verifier::reject_recursive_types(V)]
#[verifier::reject_recursive_types(S)]
pub struct ExDashMap<K, V, S>(dashmap::DashMap<K, V, S>);

/// The map that holds the lists.
pub type Rows = dashmap::DashMap<ModuleRef, Vec<ModuleRef>>;

/// The list that `m` holds under each of its keys.
pub uninterp spec fn edge_map(m: Rows) -> Map<ModuleRef, Seq<ModuleRef>>;

/// A map without keys.
///
/// Trusted: wraps `DashMap::new`, which makes a map with a capacity of 0.
#[verifier::external_body]
fn rows_new() -> (m: Rows)
    ensures
        edge_map(m).dom() == Set::<ModuleRef>::empty(),
{
    dashmap::DashMap::new()
}

/// A copy of the list under key `v`, if there is one.
///
/// Trusted: wraps `DashMap::get`, which gives a reference to the entry of the key if
/// the map has one.
#[verifier::external_body]
fn rows_get(m: &Rows, v: ModuleRef) -> (r: Option<Vec<ModuleRef>>)
    ensures
        match r {
            Some(list) => edge_map(*m).contains_key(v) && list@ == edge_map(*m)[v],
            None => !edge_map(*m).contains_key(v),
        },
{
    match m.get(&v) {
        Some(entry) => Some(entry.value().clone()),
        None => None,
    }
}

/// Puts `list` under key `v`, in place of the list that was there if there was one.
///
/// Trusted: wraps `DashMap::insert`, which inserts the key and the value, and replaces
/// the value where the key has one.
#[verifier::external_body]
fn rows_put(m: &mut Rows, v: ModuleRef, list: Vec<ModuleRef>)
    ensures
        edge_map(*final(m)) == edge_map(*old(m)).insert(v, list@),
{
    m.insert(v, list);
}

/// Directed edges between module ids, without self-loops and without parallel edges.
pub struct EdgeTable {
    rows: Rows,
    size: usize,
}

impl View for EdgeTable {
    type V = Seq<Seq<ModuleRef>>;

    closed spec fn view(&self) -> Seq<Seq<ModuleRef>> {
        Seq::new(self.size as nat, |v: int| edge_map(self.rows)[v as ModuleRef])
    }
}

/// No list names its own index, a number twice, or a number beyond the table.
pub open spec fn edges_inv(g: Seq<Seq<ModuleRef>>) -> bool {
    &&& g.len() <= u32::MAX
    &&& forall|v: int, i: int|
        0 <= v < g.len() && 0 <= i < g[v].len() ==> (#[trigger] g[v][i] as int) < g.len()
            && g[v][i] != v
    &&& forall|v: int| 0 <= v < g.len() ==> (#[trigger] g[v]).no_duplicates()
}

/// `g` has the edge from `v` to `w`.
pub open spec fn has_edge(g: Seq<Seq<ModuleRef>>, v: int, w: int) -> bool {
    0 <= v < g.len() && exists|i: int| 0 <= i < g[v].len() && #[trigger] g[v][i] == w
}

impl EdgeTable {
    /// The keys of the map are the module ids that the table has room for.
    pub closed spec fn keys_ok(&self) -> bool {
        forall|v: ModuleRef| (v as int) < self.size <==> edge_map(self.rows).contains_key(v)
    }

    pub open spec fn wf(&self) -> bool {
        edges_inv(self@) && self.keys_ok()
    }

    /// A table without modules.
    pub fn new() -> (t: EdgeTable)
        ensures
            t.wf(),
            t@.len() == 0,
    {
        EdgeTable { rows: rows_new(), size: 0 }
    }

    /// The number of modules that the table has room for.
    pub fn len(&self) -> (n: usize)
        ensures
            n == self@.len(),
    {
        self.size
    }

    /// Makes room for the modules below `n`; those that are new import nothing.
    pub fn grow(&mut self, n: ModuleRef)
        requires
            old(self).wf(),
        ensures
            final(self).wf(),
            final(self)@.len() == if old(self)@.len() >= n {
                old(self)@.len()
            } else {
                n as nat
            },
            forall|v: int| 0 <= v < old(self)@.len() ==> final(self)@[v] == old(self)@[v],
            forall|v: int| old(self)@.len() <= v < final(self)@.len() ==> final(self)@[v].len() == 0,
    {
        while self.size < n as usize
            invariant
                self.wf(),
                self@.len() >= old(self)@.len(),
                self@.len() <= n || self@.len() == old(self)@.len(),
                forall|v: int| 0 <= v < old(self)@.len() ==> self@[v] == old(self)@[v],
                forall|v: int| old(self)@.len() <= v < self@.len() ==> self@[v].len() == 0,
            decreases n - self.size,
        {
            let ghost before = self@;
            rows_put(&mut self.rows, self.size as ModuleRef, Vec::new());
            self.size = self.size + 1;
            proof {
                assert(self@ =~= before.push(Seq::<ModuleRef>::empty()));
            }
        }
    }

    /// The modules that `v` imports.
    pub fn targets(&self, v: ModuleRef) -> (t: Vec<ModuleRef>)
        requires
            self.wf(),
            (v as int) < self@.len(),
        ensures
            t@ == self@[v as int],
    {
        match rows_get(&self.rows, v) {
            Some(list) => list,
            None => Vec::new(),
        }
    }

    /// Whether the edge from `v` to `w` is there.
    pub fn contains(&self, v: ModuleRef, w: ModuleRef) -> (r: bool)
        requires
            self.wf(),
            (v as int) < self@.len(),
        ensures
            r == has_edge(self@, v as int, w as int),
    {
        let t = self.targets(v);
        let mut i: usize = 0;
        while i < t.len()
            invariant
                i <= t@.len(),
                (v as int) < self@.len(),
                t@ == self@[v as int],
                forall|k: int| 0 <= k < i ==> t@[k] != w,
            decreases t@.len() - i,
        {
            if t[i] == w {
                assert(self@[v as int][i as int] == w);
                return true;
            }
            i += 1;
        }
        false
    }

    /// Adds the edge from `v` to `w`, unless it is a self-loop or there already.
    pub fn add_edge(&mut self, v: ModuleRef, w: ModuleRef)
        requires
            old(self).wf(),
            (v as int) < old(self)@.len(),
            (w as int) < old(self)@.len(),
        ensures
            final(self).wf(),
            final(self)@.len() == old(self)@.len(),
            forall|a: int, b: int|
                has_edge(final(self)@, a, b) <==> has_edge(old(self)@, a, b) || (a == v && b == w
                    && v != w),
            forall|u: int| 0 <= u < old(self)@.len() && u != v ==> final(self)@[u] == old(self)@[u],
    {
        if v == w || self.contains(v, w) {
            return ;
        }
        let ghost before = self@;
        let mut list = self.targets(v);
        list.push(w);
        rows_put(&mut self.rows, v, list);
        proof {
            let after = self@;
            assert(after.len() == before.len());
            assert(after[v as int] =~= before[v as int].push(w));
            assert forall|u: int| 0 <= u < before.len() && u != v implies after[u] == before[u] by {}
            assert forall|a: int, b: int|
                has_edge(after, a, b) <==> has_edge(before, a, b) || (a == v && b == w) by {
                if has_edge(after, a, b) {
                    let i = choose|i: int| 0 <= i < after[a].len() && #[trigger] after[a][i] == b;
                    if a == v && i < before[a].len() {
                        assert(before[a][i] == b);
                    }
                }
                if has_edge(before, a, b) {
                    let i = choose|i: int| 0 <= i < before[a].len() && #[trigger] before[a][i] == b;
                    assert(after[a][i] == b);
                }
                if a == v && b == w {
                    assert(after[a][before[a].len() as int] == b);
                }
            }
            assert forall|u: int, i: int|
                0 <= u < after.len() && 0 <= i < after[u].len() implies (#[trigger] after[u][i] as int)
                < after.len() && after[u][i] != u by {
                if u == v && i < before[u].len() {
                    assert(after[u][i] == before[u][i]);
                }
            }
            assert forall|u: int| 0 <= u < after.len() implies (#[trigger] after[u]).no_duplicates() by {
                if u == v {
                    assert forall|i: int, j: int|
                        0 <= i < after[u].len() && 0 <= j < after[u].len() && i != j implies after[u][i]
                        != after[u][j] by {
                        if i < before[u].len() && j < before[u].len() {
                            assert(before[u].no_duplicates());
                        } else if i < before[u].len() {
                            assert(before[u][i] != w);
                        } else {
                            assert(before[u][j] != w);
                        }
                    }
                } else {
                    assert(before[u].no_duplicates());
                }
            }
        }
    }

    /// Drops the edges that leave `v`.
    pub fn clear(&mut self, v: ModuleRef)
        requires
            old(self).wf(),
            (v as int) < old(self)@.len(),
        ensures
            final(self).wf(),
            final(self)@ == old(self)@.update(v as int, Seq::<ModuleRef>::empty()),
    {
        let ghost before = self@;
        rows_put(&mut self.rows, v, Vec::new());
        proof {
            assert(self@ =~= before.update(v as int, Seq::<ModuleRef>::empty()));
            assert forall|u: int| 0 <= u < self@.len() implies (#[trigger] self@[u]).no_duplicates() by {
                if u != v {
                    assert(before[u].no_duplicates());
                }
            }
        }
    }
}

} // verus!
