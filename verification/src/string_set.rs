//! A set of strings that remembers the order in which they came.
use vstd::prelude::*;
use vstd::hash_map::StringHashMap;
use vstd::string::*;

verus! {

/// `v` lists the strings of `s`, each once.
pub open spec fn lists_set(v: Seq<String>, s: Set<Seq<char>>) -> bool {
    &&& forall|i: int, j: int| 0 <= i < j < v.len() ==> (#[trigger] v[i])@ != (#[trigger] v[j])@
    &&& forall|p: Seq<char>| s.contains(p) <==> exists|i: int| 0 <= i < v.len() && (#[trigger] v[i])@ == p
}

pub struct StringSet {
    seen: StringHashMap<bool>,
    items: Vec<String>,
}

impl View for StringSet {
    type V = Set<Seq<char>>;

    closed spec fn view(&self) -> Set<Seq<char>> {
        self.seen@.dom()
    }
}

impl StringSet {
    pub closed spec fn wf(&self) -> bool {
        lists_set(self.items@, self.seen@.dom())
    }

    pub fn new() -> (s: StringSet)
        ensures
            s.wf(),
            s@ == Set::<Seq<char>>::empty(),
    {
        let s = StringSet { seen: StringHashMap::new(), items: Vec::new() };
        assert(s.seen@.dom() =~= Set::<Seq<char>>::empty());
        s
    }

    pub fn contains(&self, x: &str) -> (r: bool)
        ensures
            r == self@.contains(x@),
    {
        self.seen.contains_key(x)
    }

    pub fn insert(&mut self, x: &str)
        requires
            old(self).wf(),
        ensures
            final(self).wf(),
            final(self)@ == old(self)@.insert(x@),
    {
        if !self.seen.contains_key(x) {
            let ghost before = self.items@;
            self.seen.insert(x.to_owned(), true);
            self.items.push(x.to_owned());
            proof {
                let v = self.items@;
                assert(self.seen@.dom() =~= old(self)@.insert(x@));
                assert forall|i: int, j: int| 0 <= i < j < v.len() implies (#[trigger] v[i])@ != (
                #[trigger] v[j])@ by {
                    if j < before.len() {
                        assert(before[i]@ != before[j]@);
                    } else {
                        assert(v[i] == before[i]);
                    }
                }
                assert forall|p: Seq<char>| self.seen@.dom().contains(p) <==> exists|i: int|
                    0 <= i < v.len() && (#[trigger] v[i])@ == p by {
                    if p == x@ {
                        assert(v[before.len() as int]@ == p);
                    } else if old(self)@.contains(p) {
                        let i = choose|i: int| 0 <= i < before.len() && (#[trigger] before[i])@ == p;
                        assert(v[i]@ == p);
                    } else if exists|i: int| 0 <= i < v.len() && (#[trigger] v[i])@ == p {
                        let i = choose|i: int| 0 <= i < v.len() && (#[trigger] v[i])@ == p;
                        assert(before[i]@ == p);
                    }
                }
            }
        } else {
            assert(old(self)@.insert(x@) =~= old(self)@);
        }
    }

    /// The strings of the set, each once, in the order of their first insertion.
    pub fn into_vec(self) -> (v: Vec<String>)
        requires
            self.wf(),
        ensures
            lists_set(v@, self@),
    {
        self.items
    }
}

} // verus!
