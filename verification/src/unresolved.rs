//! Imports that could not be resolved, each with the modules that asked for it.
use vstd::prelude::*;
use vstd::hash_map::StringHashMap;
use vstd::string::*;
use crate::moduleref::ModuleRef;

verus! {

pub struct Unresolved {
    index: StringHashMap<usize>,
    rows: Vec<(String, Vec<ModuleRef>)>,
}

/// What is recorded, as mathematical values: one row per import path.
pub open spec fn rows_view(rows: Seq<(String, Vec<ModuleRef>)>) -> Seq<(Seq<char>, Seq<ModuleRef>)> {
    rows.map_values(|r: (String, Vec<ModuleRef>)| (r.0@, r.1@))
}

/// No import path has two rows, and no row names a module twice.
pub open spec fn rows_inv(rows: Seq<(Seq<char>, Seq<ModuleRef>)>) -> bool {
    &&& forall|i: int, j: int|
        0 <= i < j < rows.len() ==> (#[trigger] rows[i]).0 != (#[trigger] rows[j]).0
    &&& forall|i: int| 0 <= i < rows.len() ==> (#[trigger] rows[i]).1.no_duplicates()
}

/// Whether `m` is recorded as asking for `path`.
pub open spec fn is_recorded(rows: Seq<(Seq<char>, Seq<ModuleRef>)>, path: Seq<char>, m: ModuleRef) -> bool {
    exists|i: int| 0 <= i < rows.len() && (#[trigger] rows[i]).0 == path && rows[i].1.contains(m)
}

/// Every module named is below `n`.
pub open spec fn rows_below(rows: Seq<(Seq<char>, Seq<ModuleRef>)>, n: nat) -> bool {
    forall|i: int, k: int|
        0 <= i < rows.len() && 0 <= k < rows[i].1.len() ==> (#[trigger] rows[i].1[k] as int) < n
}

/// Whether `m` is one of `v`.
pub fn holds(v: &Vec<ModuleRef>, m: ModuleRef) -> (r: bool)
    ensures
        r == v@.contains(m),
{
    let mut k: usize = 0;
    while k < v.len()
        invariant
            k <= v@.len(),
            forall|j: int| 0 <= j < k ==> v@[j] != m,
        decreases v@.len() - k,
    {
        if v[k] == m {
            return true;
        }
        k += 1;
    }
    false
}

impl View for Unresolved {
    type V = Seq<(Seq<char>, Seq<ModuleRef>)>;

    closed spec fn view(&self) -> Seq<(Seq<char>, Seq<ModuleRef>)> {
        rows_view(self.rows@)
    }
}

impl Unresolved {
    /// The index finds each row by its import path.
    pub closed spec fn indexed(&self) -> bool {
        &&& forall|k: Seq<char>| #[trigger]
            self.index@.contains_key(k) ==> (self.index@[k] as int) < self.rows@.len()
                && self.rows@[self.index@[k] as int].0@ == k
        &&& forall|i: int|
            0 <= i < self.rows@.len() ==> self.index@.contains_key((#[trigger] self.rows@[i]).0@)
                && self.index@[self.rows@[i].0@] == i
    }

    pub open spec fn wf(&self) -> bool {
        self.indexed() && rows_inv(self@)
    }

    pub fn new() -> (u: Unresolved)
        ensures
            u.wf(),
            u@.len() == 0,
    {
        let u = Unresolved { index: StringHashMap::new(), rows: Vec::new() };
        assert(u@ =~= Seq::<(Seq<char>, Seq<ModuleRef>)>::empty());
        u
    }

    /// The number of import paths recorded.
    pub fn len(&self) -> (n: usize)
        ensures
            n == self@.len(),
    {
        self.rows.len()
    }

    /// The import path of row `i`.
    pub fn path(&self, i: usize) -> (p: &str)
        requires
            i < self@.len(),
        ensures
            p@ == self@[i as int].0,
    {
        self.rows[i].0.as_str()
    }

    /// The modules of row `i`.
    pub fn referrers(&self, i: usize) -> (r: &Vec<ModuleRef>)
        requires
            i < self@.len(),
        ensures
            r@ == self@[i as int].1,
    {
        &self.rows[i].1
    }

    /// Records that module `m` asked for `path`.
    pub fn record(&mut self, path: &str, m: ModuleRef)
        requires
            old(self).wf(),
        ensures
            final(self).wf(),
            forall|p: Seq<char>, x: ModuleRef|
                is_recorded(final(self)@, p, x) <==> is_recorded(old(self)@, p, x) || (p == path@
                    && x == m),
            forall|n: nat| rows_below(old(self)@, n) && (m as int) < n ==> rows_below(final(self)@, n),
    {
        let ghost before = self@;
        let found: Option<usize> = match self.index.get(path) {
            Some(i) => Some(*i),
            None => None,
        };
        match found {
            Some(i) => {
                let present = holds(&self.rows[i].1, m);
                if !present {
                    let slot = &mut self.rows[i];
                    slot.1.push(m);
                    proof {
                        let after = self@;
                        assert(after.len() == before.len());
                        assert(after[i as int].0 == before[i as int].0);
                        assert(after[i as int].1 =~= before[i as int].1.push(m));
                        assert forall|j: int| 0 <= j < after.len() && j != i implies after[j]
                            == before[j] by {}
                        assert forall|a: int, b: int| 0 <= a < b < after.len() implies (
                        #[trigger] after[a]).0 != (#[trigger] after[b]).0 by {
                            assert(before[a].0 != before[b].0);
                        }
                        assert forall|j: int| 0 <= j < after.len() implies (
                        #[trigger] after[j]).1.no_duplicates() by {
                            assert(before[j].1.no_duplicates());
                            if j == i {
                                assert forall|a: int, b: int|
                                    0 <= a < after[j].1.len() && 0 <= b < after[j].1.len() && a
                                        != b implies after[j].1[a] != after[j].1[b] by {
                                    if a < before[j].1.len() {
                                        assert(before[j].1[a] == after[j].1[a]);
                                    }
                                    if b < before[j].1.len() {
                                        assert(before[j].1[b] == after[j].1[b]);
                                    }
                                }
                            }
                        }
                        assert forall|p: Seq<char>, x: ModuleRef|
                            is_recorded(after, p, x) <==> is_recorded(before, p, x) || (p == path@
                                && x == m) by {
                            if is_recorded(after, p, x) {
                                let j = choose|j: int|
                                    0 <= j < after.len() && (#[trigger] after[j]).0 == p
                                        && after[j].1.contains(x);
                                if j == i {
                                    let t = choose|t: int|
                                        0 <= t < after[j].1.len() && after[j].1[t] == x;
                                    if t < before[j].1.len() {
                                        assert(before[j].1[t] == x);
                                        assert(before[j].0 == p);
                                    }
                                } else {
                                    assert(before[j].0 == p && before[j].1.contains(x));
                                }
                            }
                            if is_recorded(before, p, x) {
                                let j = choose|j: int|
                                    0 <= j < before.len() && (#[trigger] before[j]).0 == p
                                        && before[j].1.contains(x);
                                let t = choose|t: int|
                                    0 <= t < before[j].1.len() && before[j].1[t] == x;
                                assert(after[j].1[t] == x);
                                assert(after[j].0 == p);
                            }
                            if p == path@ && x == m {
                                assert(after[i as int].1[before[i as int].1.len() as int] == m);
                                assert(after[i as int].0 == p);
                            }
                        }
                        assert forall|n: nat| rows_below(before, n) && (m as int) < n implies rows_below(
                            after,
                            n,
                        ) by {
                            assert forall|a: int, t: int|
                                0 <= a < after.len() && 0 <= t < after[a].1.len() implies (
                            #[trigger] after[a].1[t] as int) < n by {
                                if a != i || t < before[a].1.len() {
                                    assert(after[a].1[t] == before[a].1[t]);
                                }
                            }
                        }
                        assert forall|j: int| 0 <= j < self.rows@.len() implies self.index@.contains_key(
                            (#[trigger] self.rows@[j]).0@,
                        ) && self.index@[self.rows@[j].0@] == j by {
                            assert(self.rows@[j].0@ == old(self).rows@[j].0@);
                        }
                    }
                } else {
                    proof {
                        assert forall|p: Seq<char>, x: ModuleRef|
                            is_recorded(before, p, x) || (p == path@ && x == m) implies is_recorded(
                            before,
                            p,
                            x,
                        ) by {
                            if p == path@ && x == m {
                                assert(before[i as int].1.contains(m));
                                assert(before[i as int].0 == p);
                            }
                        }
                    }
                }
            },
            None => {
                let mut refs: Vec<ModuleRef> = Vec::new();
                refs.push(m);
                let at = self.rows.len();
                self.index.insert(path.to_owned(), at);
                self.rows.push((path.to_owned(), refs));
                proof {
                    let after = self@;
                    assert(after =~= before.push((path@, seq![m])));
                    assert forall|a: int, b: int| 0 <= a < b < after.len() implies (
                    #[trigger] after[a]).0 != (#[trigger] after[b]).0 by {
                        if b < before.len() {
                            assert(before[a].0 != before[b].0);
                        } else {
                            assert(old(self).rows@[a].0@ == before[a].0);
                        }
                    }
                    assert forall|j: int| 0 <= j < after.len() implies (
                    #[trigger] after[j]).1.no_duplicates() by {
                        if j < before.len() {
                            assert(before[j].1.no_duplicates());
                        }
                    }
                    assert forall|p: Seq<char>, x: ModuleRef|
                        is_recorded(after, p, x) <==> is_recorded(before, p, x) || (p == path@
                            && x == m) by {
                        if is_recorded(after, p, x) {
                            let j = choose|j: int|
                                0 <= j < after.len() && (#[trigger] after[j]).0 == p
                                    && after[j].1.contains(x);
                            if j < before.len() {
                                assert(before[j].0 == p && before[j].1.contains(x));
                            }
                        }
                        if is_recorded(before, p, x) {
                            let j = choose|j: int|
                                0 <= j < before.len() && (#[trigger] before[j]).0 == p
                                    && before[j].1.contains(x);
                            assert(after[j] == before[j]);
                        }
                        if p == path@ && x == m {
                            assert(after[before.len() as int].1[0] == m);
                            assert(after[before.len() as int].0 == p);
                        }
                    }
                    assert forall|n: nat| rows_below(before, n) && (m as int) < n implies rows_below(
                        after,
                        n,
                    ) by {
                        assert forall|a: int, t: int|
                            0 <= a < after.len() && 0 <= t < after[a].1.len() implies (
                        #[trigger] after[a].1[t] as int) < n by {
                            if a < before.len() {
                                assert(after[a].1[t] == before[a].1[t]);
                            }
                        }
                    }
                    assert forall|k: Seq<char>| #[trigger] self.index@.contains_key(k) implies (
                    self.index@[k] as int) < self.rows@.len() && self.rows@[self.index@[k] as int].0@
                        == k by {
                        if k != path@ {
                            assert(old(self).index@.contains_key(k));
                            assert(self.rows@[old(self).index@[k] as int] == old(self).rows@[old(self).index@[k] as int]);
                        }
                    }
                    assert forall|j: int| 0 <= j < self.rows@.len() implies self.index@.contains_key(
                        (#[trigger] self.rows@[j]).0@,
                    ) && self.index@[self.rows@[j].0@] == j by {
                        if j < before.len() {
                            assert(self.rows@[j] == old(self).rows@[j]);
                        }
                    }
                }
            },
        }
    }
}

} // verus!
