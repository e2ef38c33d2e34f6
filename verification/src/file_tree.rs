//! A listing of the directories under the source roots, taken once.
//!
//! Names are compared as they are spelled, whatever the file system does: a module is
//! found only under the exact name that the listing holds.
use vstd::prelude::*;
use vstd::hash_map::StringHashMap;
use vstd::string::*;
use crate::text::str_eq;

verus! {

/// What kind of thing a directory entry is.
#[derive(Clone, Copy, Debug, PartialEq, Eq, Structural)]
pub enum Kind {
    File,
    Dir,
    Other,
}

/// One entry of a directory.
pub struct DirEntry {
    pub name: String,
    pub kind: Kind,
}

/// One entry of a directory, as mathematical values.
pub struct EntryView {
    pub name: Seq<char>,
    pub kind: Kind,
}

impl View for DirEntry {
    type V = EntryView;

    open spec fn view(&self) -> EntryView {
        EntryView { name: self.name@, kind: self.kind }
    }
}

/// The entries of one directory.
pub open spec fn entry_views(v: Seq<DirEntry>) -> Seq<EntryView> {
    v.map_values(|e: DirEntry| e@)
}

pub struct FileTree {
    index: StringHashMap<usize>,
    dirs: Vec<(String, Vec<DirEntry>)>,
}

/// The kind of the first entry called `name`, if there is one.
pub open spec fn kind_of(entries: Seq<EntryView>, name: Seq<char>) -> Option<Kind>
    decreases entries.len(),
{
    if entries.len() == 0 {
        None
    } else {
        match kind_of(entries.drop_last(), name) {
            Some(k) => Some(k),
            None => if entries.last().name == name {
                Some(entries.last().kind)
            } else {
                None
            },
        }
    }
}

impl FileTree {
    /// The listing of each directory that has one.
    pub closed spec fn listings(&self) -> Map<Seq<char>, Seq<EntryView>> {
        Map::new(
            |d: Seq<char>| self.index@.contains_key(d),
            |d: Seq<char>| entry_views(self.dirs@[self.index@[d] as int].1@),
        )
    }

    pub closed spec fn wf(&self) -> bool {
        &&& forall|d: Seq<char>| #[trigger]
            self.index@.contains_key(d) ==> (self.index@[d] as int) < self.dirs@.len()
                && self.dirs@[self.index@[d] as int].0@ == d
        &&& forall|i: int|
            0 <= i < self.dirs@.len() ==> self.index@.contains_key((#[trigger] self.dirs@[i]).0@)
                && self.index@[self.dirs@[i].0@] == i
    }

    /// Whether directory `dir` is listed.
    pub open spec fn is_listed(&self, dir: Seq<char>) -> bool {
        self.listings().contains_key(dir)
    }

    /// Whether directory `dir` is listed with an entry called `name`.
    pub open spec fn has(&self, dir: Seq<char>, name: Seq<char>) -> bool {
        self.is_listed(dir) && kind_of(self.listings()[dir], name) is Some
    }

    /// A tree without directories.
    pub fn new() -> (t: FileTree)
        ensures
            t.wf(),
            t.listings() == Map::<Seq<char>, Seq<EntryView>>::empty(),
    {
        let t = FileTree { index: StringHashMap::new(), dirs: Vec::new() };
        assert(t.listings() =~= Map::<Seq<char>, Seq<EntryView>>::empty());
        t
    }

    /// Adds an entry to the listing of `dir`, which is listed from then on.
    pub fn add(&mut self, dir: &str, name: &str, kind: Kind)
        requires
            old(self).wf(),
        ensures
            final(self).wf(),
            final(self).listings() == old(self).listings().insert(
                dir@,
                (if old(self).is_listed(dir@) {
                    old(self).listings()[dir@]
                } else {
                    Seq::<EntryView>::empty()
                }).push(EntryView { name: name@, kind }),
            ),
    {
        let ghost before = self.listings();
        let found: Option<usize> = match self.index.get(dir) {
            Some(i) => Some(*i),
            None => None,
        };
        let at: usize = match found {
            Some(i) => i,
            None => {
                let at = self.dirs.len();
                self.index.insert(dir.to_owned(), at);
                self.dirs.push((dir.to_owned(), Vec::new()));
                at
            },
        };
        let ghost mid = self.dirs@;
        let slot = &mut self.dirs[at];
        slot.1.push(DirEntry { name: name.to_owned(), kind });
        proof {
            let after = self.dirs@;
            assert(after.len() == mid.len());
            assert(after[at as int].0 == mid[at as int].0);
            assert(after[at as int].1@ =~= mid[at as int].1@.push(
                DirEntry { name: after[at as int].1@.last().name, kind },
            ));
            assert forall|i: int| 0 <= i < after.len() && i != at implies after[i] == mid[i] by {}
            assert forall|i: int| 0 <= i < old(self).dirs@.len() implies (#[trigger] mid[i]) == old(self).dirs@[i] by {}
            assert forall|d: Seq<char>| #[trigger] self.index@.contains_key(d) implies (
            self.index@[d] as int) < self.dirs@.len() && self.dirs@[self.index@[d] as int].0@
                == d by {
                if d != dir@ {
                    assert(old(self).index@.contains_key(d));
                    assert(mid[old(self).index@[d] as int] == old(self).dirs@[old(self).index@[d] as int]);
                }
            }
            assert forall|i: int| 0 <= i < self.dirs@.len() implies self.index@.contains_key(
                (#[trigger] self.dirs@[i]).0@,
            ) && self.index@[self.dirs@[i].0@] == i by {
                if i < old(self).dirs@.len() {
                    assert(mid[i] == old(self).dirs@[i]);
                    assert(after[i].0 == mid[i].0);
                }
            }
            let want = before.insert(
                dir@,
                (if before.contains_key(dir@) {
                    before[dir@]
                } else {
                    Seq::<EntryView>::empty()
                }).push(EntryView { name: name@, kind }),
            );
            assert forall|d: Seq<char>| #[trigger] want.contains_key(d) implies self.listings()[d]
                == want[d] by {
                if d == dir@ {
                    assert(entry_views(after[at as int].1@) =~= entry_views(mid[at as int].1@).push(
                        EntryView { name: name@, kind },
                    ));
                    if found is Some {
                        assert(mid[at as int] == old(self).dirs@[at as int]);
                    } else {
                        assert(entry_views(mid[at as int].1@) =~= Seq::<EntryView>::empty());
                    }
                } else {
                    let i = old(self).index@[d] as int;
                    assert(mid[i] == old(self).dirs@[i]);
                    assert(after[i] == mid[i]);
                }
            }
            assert(self.listings() =~= want);
        }
    }

    /// The entries of `dir`, if it is listed.
    pub fn list(&self, dir: &str) -> (r: Option<&Vec<DirEntry>>)
        requires
            self.wf(),
        ensures
            match r {
                Some(v) => self.is_listed(dir@) && entry_views(v@) == self.listings()[dir@],
                None => !self.is_listed(dir@),
            },
    {
        match self.index.get(dir) {
            Some(i) => Some(&self.dirs[*i].1),
            None => None,
        }
    }

    /// The kind of the entry of `dir` called `name`, spelled exactly so.
    pub fn kind(&self, dir: &str, name: &str) -> (r: Option<Kind>)
        requires
            self.wf(),
        ensures
            r == if self.is_listed(dir@) {
                kind_of(self.listings()[dir@], name@)
            } else {
                None
            },
    {
        match self.list(dir) {
            None => None,
            Some(v) => {
                let mut found: Option<Kind> = None;
                let mut i: usize = 0;
                while i < v.len()
                    invariant
                        i <= v@.len(),
                        found == kind_of(entry_views(v@).take(i as int), name@),
                    decreases v@.len() - i,
                {
                    assert(entry_views(v@).take(i + 1).drop_last() =~= entry_views(v@).take(i as int));
                    if found.is_none() && str_eq(v[i].name.as_str(), name) {
                        found = Some(v[i].kind);
                    }
                    i += 1;
                }
                assert(entry_views(v@).take(v@.len() as int) =~= entry_views(v@));
                found
            },
        }
    }

    /// Whether `dir` has an entry called `name`, spelled exactly so.
    pub fn exists_case_sensitive(&self, dir: &str, name: &str) -> (r: bool)
        requires
            self.wf(),
        ensures
            r == self.has(dir@, name@),
    {
        self.kind(dir, name).is_some()
    }
}

} // verus!
