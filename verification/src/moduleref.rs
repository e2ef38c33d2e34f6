//! Dense integer ids for modules.
//!
//! A module is a triple of file path, import path and owning package. The cache hands
//! out one id per module and finds it again by file path or by import path within its
//! package (or within the global namespace, for a module that no package owns).
use vstd::prelude::*;
use vstd::hash_map::StringHashMap;
use vstd::string::*;
use crate::text::{contains_char, str_eq};

verus! {

pub type ModuleRef = u32;

/// What the cache records of one module, as mathematical values.
pub struct Entry {
    pub fs: Seq<char>,
    pub py: Seq<char>,
    pub pkg: Option<Seq<char>>,
}

/// What the cache records of one module.
///
/// `fs` is empty for a module with no single file of its own; `pkg` is `None` for a
/// module of the global namespace.
#[derive(Debug)]
pub struct ModuleRefVal {
    pub fs: String,
    pub py: String,
    pub pkg: Option<String>,
}

impl View for ModuleRefVal {
    type V = Entry;

    open spec fn view(&self) -> Entry {
        Entry { fs: self.fs@, py: self.py@, pkg: opt_chars(self.pkg) }
    }
}

pub open spec fn opt_chars(o: Option<String>) -> Option<Seq<char>> {
    match o {
        Some(s) => Some(s@),
        None => None,
    }
}

pub open spec fn opt_str_chars(o: Option<&str>) -> Option<Seq<char>> {
    match o {
        Some(s) => Some(s@),
        None => None,
    }
}

/// Why a triple cannot be given an id.
#[derive(Debug, PartialEq, Eq, Clone, Copy)]
pub enum CacheError {
    /// The import path contains the path separator.
    SeparatorInImportPath,
    /// The file is known under another package.
    PackageMismatch,
    /// The file is known under another import path.
    ImportPathMismatch,
    /// The import path is known, in that package, with another file.
    FilePathMismatch,
    /// No id is left.
    Full,
    /// A table of entries names one module twice.
    Duplicate,
}

/// Some entry has the non-empty file path `fs`.
pub open spec fn fs_known(entries: Seq<Entry>, fs: Seq<char>) -> bool {
    fs.len() > 0 && exists|i: int| 0 <= i < entries.len() && (#[trigger] entries[i]).fs == fs
}

/// An entry with file path `fs`.
pub open spec fn fs_index(entries: Seq<Entry>, fs: Seq<char>) -> int {
    choose|i: int| 0 <= i < entries.len() && (#[trigger] entries[i]).fs == fs
}

/// Some entry has import path `py` in namespace `pkg`.
pub open spec fn py_known(entries: Seq<Entry>, py: Seq<char>, pkg: Option<Seq<char>>) -> bool {
    exists|i: int|
        0 <= i < entries.len() && (#[trigger] entries[i]).py == py && entries[i].pkg == pkg
}

/// An entry with import path `py` in namespace `pkg`.
pub open spec fn py_index(entries: Seq<Entry>, py: Seq<char>, pkg: Option<Seq<char>>) -> int {
    choose|i: int|
        0 <= i < entries.len() && (#[trigger] entries[i]).py == py && entries[i].pkg == pkg
}

/// No two entries share a non-empty file path, no two share an import path within one
/// namespace, no import path contains `sep`, and every index is a valid id.
pub open spec fn entries_inv(entries: Seq<Entry>, sep: char) -> bool {
    &&& entries.len() <= u32::MAX
    &&& forall|i: int, j: int|
        0 <= i < entries.len() && 0 <= j < entries.len() && i != j && (
        #[trigger] entries[i]).fs.len() > 0 ==> entries[i].fs != (#[trigger] entries[j]).fs
    &&& forall|i: int, j: int|
        0 <= i < entries.len() && 0 <= j < entries.len() && i != j ==> !((
        #[trigger] entries[i]).py == (#[trigger] entries[j]).py && entries[i].pkg
            == entries[j].pkg)
    &&& forall|i: int| 0 <= i < entries.len() ==> !(#[trigger] entries[i]).py.contains(sep)
}

/// The id that answers a request for `(fs, py, pkg)` without a new entry being made:
/// the entry of the file if `fs` is given and known, else the entry of the import path.
pub open spec fn existing(
    entries: Seq<Entry>,
    fs: Seq<char>,
    py: Seq<char>,
    pkg: Option<Seq<char>>,
) -> Option<int> {
    if fs_known(entries, fs) {
        Some(fs_index(entries, fs))
    } else if py_known(entries, py, pkg) {
        Some(py_index(entries, py, pkg))
    } else {
        None
    }
}

/// Why a request for `(fs, py, pkg)` is refused, if it is.
pub open spec fn conflict(
    entries: Seq<Entry>,
    sep: char,
    fs: Seq<char>,
    py: Seq<char>,
    pkg: Option<Seq<char>>,
) -> Option<CacheError> {
    if py.contains(sep) {
        Some(CacheError::SeparatorInImportPath)
    } else if fs_known(entries, fs) {
        let e = entries[fs_index(entries, fs)];
        if e.pkg != pkg {
            Some(CacheError::PackageMismatch)
        } else if e.py != py {
            Some(CacheError::ImportPathMismatch)
        } else {
            None
        }
    } else if py_known(entries, py, pkg) {
        if fs.len() > 0 && entries[py_index(entries, py, pkg)].fs.len() > 0 {
            Some(CacheError::FilePathMismatch)
        } else {
            None
        }
    } else if entries.len() >= u32::MAX {
        Some(CacheError::Full)
    } else {
        None
    }
}

/// The entries after a request for `(fs, py, pkg)` that is not refused.
pub open spec fn after_request(
    entries: Seq<Entry>,
    fs: Seq<char>,
    py: Seq<char>,
    pkg: Option<Seq<char>>,
) -> Seq<Entry> {
    if existing(entries, fs, py, pkg) is Some {
        entries
    } else {
        entries.push(Entry { fs, py, pkg })
    }
}

/// The id that a request for `(fs, py, pkg)` that is not refused returns.
pub open spec fn id_of_request(
    entries: Seq<Entry>,
    fs: Seq<char>,
    py: Seq<char>,
    pkg: Option<Seq<char>>,
) -> int {
    match existing(entries, fs, py, pkg) {
        Some(i) => i,
        None => entries.len() as int,
    }
}

pub proof fn lemma_fs_index(entries: Seq<Entry>, sep: char, i: int)
    requires
        entries_inv(entries, sep),
        0 <= i < entries.len(),
        entries[i].fs.len() > 0,
    ensures
        fs_known(entries, entries[i].fs),
        fs_index(entries, entries[i].fs) == i,
{
    let fs = entries[i].fs;
    let j = fs_index(entries, fs);
    assert(0 <= j < entries.len() && entries[j].fs == fs);
}

pub proof fn lemma_py_index(entries: Seq<Entry>, sep: char, i: int)
    requires
        entries_inv(entries, sep),
        0 <= i < entries.len(),
    ensures
        py_known(entries, entries[i].py, entries[i].pkg),
        py_index(entries, entries[i].py, entries[i].pkg) == i,
{
    let j = py_index(entries, entries[i].py, entries[i].pkg);
    assert(0 <= j < entries.len() && entries[j].py == entries[i].py && entries[j].pkg
        == entries[i].pkg);
}

/// A request that is not refused yields an entry with the requested import path and
/// namespace, keeps the entries that were there, and keeps the table consistent.
pub proof fn lemma_request(
    entries: Seq<Entry>,
    sep: char,
    fs: Seq<char>,
    py: Seq<char>,
    pkg: Option<Seq<char>>,
)
    requires
        entries_inv(entries, sep),
        conflict(entries, sep, fs, py, pkg) is None,
    ensures
        entries_inv(after_request(entries, fs, py, pkg), sep),
        0 <= id_of_request(entries, fs, py, pkg) < after_request(entries, fs, py, pkg).len(),
        after_request(entries, fs, py, pkg)[id_of_request(entries, fs, py, pkg)].py == py,
        after_request(entries, fs, py, pkg)[id_of_request(entries, fs, py, pkg)].pkg == pkg,
        fs.len() > 0 && !py_known(entries, py, pkg) ==> after_request(
            entries,
            fs,
            py,
            pkg,
        )[id_of_request(entries, fs, py, pkg)].fs == fs,
        is_prefix_of_entries(entries, after_request(entries, fs, py, pkg)),
{
    let e2 = after_request(entries, fs, py, pkg);
    if fs_known(entries, fs) {
        let i = fs_index(entries, fs);
        assert(0 <= i < entries.len() && entries[i].fs == fs);
        if py_known(entries, py, pkg) {
            let j = py_index(entries, py, pkg);
            assert(entries[j].py == py && entries[j].pkg == pkg);
        }
    } else if py_known(entries, py, pkg) {
        let j = py_index(entries, py, pkg);
        assert(0 <= j < entries.len() && entries[j].py == py && entries[j].pkg == pkg);
    } else {
        let n = entries.len() as int;
        assert(e2[n] == Entry { fs, py, pkg });
        assert forall|i: int| 0 <= i < n implies e2[i] == entries[i] by {}
        assert forall|i: int, j: int|
            0 <= i < e2.len() && 0 <= j < e2.len() && i != j && (#[trigger] e2[i]).fs.len()
                > 0 implies e2[i].fs != (#[trigger] e2[j]).fs by {
            if i < n && j < n {
                assert(entries[i].fs != entries[j].fs);
            } else if i < n {
                assert(entries[i].fs != fs);
            } else {
                assert(entries[j].fs != fs);
            }
        }
        assert forall|i: int, j: int| 0 <= i < e2.len() && 0 <= j < e2.len() && i != j implies !((
        #[trigger] e2[i]).py == (#[trigger] e2[j]).py && e2[i].pkg == e2[j].pkg) by {
            if i < n && j < n {
                assert(!(entries[i].py == entries[j].py && entries[i].pkg == entries[j].pkg));
            } else if i < n {
                assert(!(entries[i].py == py && entries[i].pkg == pkg));
            } else {
                assert(!(entries[j].py == py && entries[j].pkg == pkg));
            }
        }
        assert forall|i: int| 0 <= i < e2.len() implies !(#[trigger] e2[i]).py.contains(sep) by {
            if i < n {
                assert(!entries[i].py.contains(sep));
            }
        }
    }
}

/// `a` is an initial segment of `b`.
pub open spec fn is_prefix_of_entries(a: Seq<Entry>, b: Seq<Entry>) -> bool {
    a.len() <= b.len() && forall|i: int| 0 <= i < a.len() ==> a[i] == b[i]
}

/// Asking twice for the same triple gives the same id, and the second request changes
/// nothing.
pub proof fn lemma_request_idempotent(
    entries: Seq<Entry>,
    sep: char,
    fs: Seq<char>,
    py: Seq<char>,
    pkg: Option<Seq<char>>,
)
    requires
        entries_inv(entries, sep),
        conflict(entries, sep, fs, py, pkg) is None,
    ensures
        conflict(after_request(entries, fs, py, pkg), sep, fs, py, pkg) is None,
        after_request(after_request(entries, fs, py, pkg), fs, py, pkg) == after_request(
            entries,
            fs,
            py,
            pkg,
        ),
        id_of_request(after_request(entries, fs, py, pkg), fs, py, pkg) == id_of_request(
            entries,
            fs,
            py,
            pkg,
        ),
{
    let e2 = after_request(entries, fs, py, pkg);
    let id = id_of_request(entries, fs, py, pkg);
    lemma_request(entries, sep, fs, py, pkg);
    if existing(entries, fs, py, pkg) is None {
        let n = entries.len() as int;
        assert(e2[n] == Entry { fs, py, pkg });
        lemma_py_index(e2, sep, n);
        if fs.len() > 0 {
            lemma_fs_index(e2, sep, n);
        } else {
            assert(!fs_known(e2, fs));
        }
    }
}

/// Once `py` has an entry without a file in namespace `pkg`, a request that names a
/// file not yet known, for the same import path and namespace, returns that entry's id
/// and leaves the entry without a file.
pub proof fn lemma_file_after_namespace(
    entries: Seq<Entry>,
    sep: char,
    fs: Seq<char>,
    py: Seq<char>,
    pkg: Option<Seq<char>>,
)
    requires
        entries_inv(entries, sep),
        conflict(entries, sep, Seq::<char>::empty(), py, pkg) is None,
        !fs_known(entries, fs),
        after_request(entries, Seq::<char>::empty(), py, pkg)[id_of_request(
            entries,
            Seq::<char>::empty(),
            py,
            pkg,
        )].fs.len() == 0,
    ensures
        conflict(after_request(entries, Seq::<char>::empty(), py, pkg), sep, fs, py, pkg) is None,
        id_of_request(after_request(entries, Seq::<char>::empty(), py, pkg), fs, py, pkg)
            == id_of_request(entries, Seq::<char>::empty(), py, pkg),
        after_request(after_request(entries, Seq::<char>::empty(), py, pkg), fs, py, pkg)
            == after_request(entries, Seq::<char>::empty(), py, pkg),
{
    let none = Seq::<char>::empty();
    let e1 = after_request(entries, none, py, pkg);
    let id1 = id_of_request(entries, none, py, pkg);
    lemma_request(entries, sep, none, py, pkg);
    lemma_py_index(e1, sep, id1);
    if fs_known(e1, fs) {
        let i = fs_index(e1, fs);
        assert(0 <= i < e1.len() && e1[i].fs == fs);
        if i < entries.len() {
            assert(entries[i] == e1[i]);
            assert(fs_known(entries, fs));
        }
    }
}

/// Once a triple has an entry, a request for its import path and namespace without a
/// file returns the same id and changes nothing.
pub proof fn lemma_namespace_after_file(
    entries: Seq<Entry>,
    sep: char,
    fs: Seq<char>,
    py: Seq<char>,
    pkg: Option<Seq<char>>,
)
    requires
        entries_inv(entries, sep),
        conflict(entries, sep, fs, py, pkg) is None,
    ensures
        conflict(after_request(entries, fs, py, pkg), sep, Seq::<char>::empty(), py, pkg) is None,
        id_of_request(after_request(entries, fs, py, pkg), Seq::<char>::empty(), py, pkg)
            == id_of_request(entries, fs, py, pkg),
        after_request(after_request(entries, fs, py, pkg), Seq::<char>::empty(), py, pkg)
            == after_request(entries, fs, py, pkg),
{
    let e1 = after_request(entries, fs, py, pkg);
    let id1 = id_of_request(entries, fs, py, pkg);
    lemma_request(entries, sep, fs, py, pkg);
    lemma_py_index(e1, sep, id1);
}

/// A file that has an entry in one namespace is refused in any other.
pub proof fn lemma_other_package_is_refused(
    entries: Seq<Entry>,
    sep: char,
    fs: Seq<char>,
    py: Seq<char>,
    pkg1: Option<Seq<char>>,
    pkg2: Option<Seq<char>>,
)
    requires
        entries_inv(entries, sep),
        conflict(entries, sep, fs, py, pkg1) is None,
        fs.len() > 0,
        !py_known(entries, py, pkg1) || fs_known(entries, fs),
        pkg1 != pkg2,
    ensures
        conflict(after_request(entries, fs, py, pkg1), sep, fs, py, pkg2) == Some(
            CacheError::PackageMismatch,
        ),
{
    let e1 = after_request(entries, fs, py, pkg1);
    let id1 = id_of_request(entries, fs, py, pkg1);
    lemma_request(entries, sep, fs, py, pkg1);
    if fs_known(entries, fs) {
        let i = fs_index(entries, fs);
        assert(0 <= i < entries.len() && entries[i].fs == fs);
    } else {
        assert(e1[id1].fs == fs);
        lemma_fs_index(e1, sep, id1);
    }
}

/// A file that has an entry is refused with the same import path in any other
/// namespace.
pub proof fn lemma_held_file_is_refused_elsewhere(
    entries: Seq<Entry>,
    sep: char,
    i: int,
    pkg: Option<Seq<char>>,
)
    requires
        entries_inv(entries, sep),
        0 <= i < entries.len(),
        entries[i].fs.len() > 0,
        entries[i].pkg != pkg,
    ensures
        conflict(entries, sep, entries[i].fs, entries[i].py, pkg) == Some(
            CacheError::PackageMismatch,
        ),
{
    lemma_fs_index(entries, sep, i);
}

/// Modules of different packages have different ids, whatever their import paths.
pub proof fn lemma_packages_are_apart(
    entries: Seq<Entry>,
    sep: char,
    fs1: Seq<char>,
    fs2: Seq<char>,
    py: Seq<char>,
    pkg1: Seq<char>,
    pkg2: Seq<char>,
)
    requires
        entries_inv(entries, sep),
        conflict(entries, sep, fs1, py, Some(pkg1)) is None,
        conflict(after_request(entries, fs1, py, Some(pkg1)), sep, fs2, py, Some(pkg2)) is None,
        pkg1 != pkg2,
    ensures
        id_of_request(entries, fs1, py, Some(pkg1)) != id_of_request(
            after_request(entries, fs1, py, Some(pkg1)),
            fs2,
            py,
            Some(pkg2),
        ),
{
    let e1 = after_request(entries, fs1, py, Some(pkg1));
    lemma_request(entries, sep, fs1, py, Some(pkg1));
    lemma_request(e1, sep, fs2, py, Some(pkg2));
}

/// The platform's path separator.
///
/// Trusted: reads `std::path::MAIN_SEPARATOR`, which the standard library documents as
/// `/` on Unix and `\` on Windows.
#[verifier::external_body]
pub(crate) fn main_separator() -> (c: char)
    ensures
        c == '/' || c == '\\',
{
    std::path::MAIN_SEPARATOR
}

pub struct ModuleRefCache {
    sep: char,
    values: Vec<ModuleRefVal>,
    fs_to_ref: StringHashMap<ModuleRef>,
    py_to_ref_global: StringHashMap<ModuleRef>,
    py_to_ref_local: Vec<(String, StringHashMap<ModuleRef>)>,
}

impl View for ModuleRefCache {
    type V = Seq<Entry>;

    closed spec fn view(&self) -> Seq<Entry> {
        self.values@.map_values(|v: ModuleRefVal| v@)
    }
}

impl ModuleRefCache {
    /// The character that no import path may contain.
    pub closed spec fn separator(&self) -> char {
        self.sep
    }

    /// The inverse maps hold exactly the entries.
    pub closed spec fn maps_agree(&self) -> bool {
        let entries = self@;
        let fsm = self.fs_to_ref@;
        let glob = self.py_to_ref_global@;
        let local = self.py_to_ref_local@;
        &&& forall|k: Seq<char>| #[trigger]
            fsm.contains_key(k) ==> k.len() > 0 && (fsm[k] as int) < entries.len()
                && entries[fsm[k] as int].fs == k
        &&& forall|i: int|
            0 <= i < entries.len() && (#[trigger] entries[i]).fs.len() > 0 ==> fsm.contains_key(
                entries[i].fs,
            ) && fsm[entries[i].fs] == i
        &&& forall|k: Seq<char>| #[trigger]
            glob.contains_key(k) ==> (glob[k] as int) < entries.len() && entries[glob[k] as int].py
                == k && entries[glob[k] as int].pkg is None
        &&& forall|i: int|
            0 <= i < entries.len() && (#[trigger] entries[i]).pkg is None ==> glob.contains_key(
                entries[i].py,
            ) && glob[entries[i].py] == i
        &&& forall|a: int, b: int|
            0 <= a < b < local.len() ==> (#[trigger] local[a]).0@ != (#[trigger] local[b]).0@
        &&& forall|a: int, k: Seq<char>|
            0 <= a < local.len() && #[trigger] local[a].1@.contains_key(k) ==> (local[a].1@[k] as int)
                < entries.len() && entries[local[a].1@[k] as int].py == k
                && entries[local[a].1@[k] as int].pkg == Some(local[a].0@)
        &&& forall|i: int|
            0 <= i < entries.len() && (#[trigger] entries[i]).pkg is Some ==> exists|a: int|
                0 <= a < local.len() && (#[trigger] local[a]).0@ == entries[i].pkg->0
                    && local[a].1@.contains_key(entries[i].py) && local[a].1@[entries[i].py] == i
    }

    pub open spec fn wf(&self) -> bool {
        &&& self.maps_agree()
        &&& entries_inv(self@, self.separator())
    }

    pub fn new() -> (c: ModuleRefCache)
        ensures
            c.wf(),
            c@ == Seq::<Entry>::empty(),
            c.separator() == '/' || c.separator() == '\\',
    {
        Self::with_separator(main_separator())
    }

    /// An empty cache whose import paths may not contain `sep`.
    pub fn with_separator(sep: char) -> (c: ModuleRefCache)
        ensures
            c.wf(),
            c@ == Seq::<Entry>::empty(),
            c.separator() == sep,
    {
        let c = ModuleRefCache {
            sep,
            values: Vec::new(),
            fs_to_ref: StringHashMap::new(),
            py_to_ref_global: StringHashMap::new(),
            py_to_ref_local: Vec::new(),
        };
        assert(c@ =~= Seq::<Entry>::empty());
        c
    }

    /// The character that no import path may contain.
    pub fn sep(&self) -> (c: char)
        ensures
            c == self.separator(),
    {
        self.sep
    }

    /// The number of ids handed out; every id is below it.
    pub fn max_value(&self) -> (n: ModuleRef)
        requires
            self.wf(),
        ensures
            n == self@.len(),
    {
        self.values.len() as ModuleRef
    }

    pub fn get(&self, r: ModuleRef) -> (v: &ModuleRefVal)
        requires
            (r as int) < self@.len(),
        ensures
            v@ == self@[r as int],
    {
        &self.values[r as usize]
    }

    pub fn py_for_ref(&self, r: ModuleRef) -> (s: &str)
        requires
            (r as int) < self@.len(),
        ensures
            s@ == self@[r as int].py,
    {
        self.values[r as usize].py.as_str()
    }

    pub fn fs_for_ref(&self, r: ModuleRef) -> (s: &str)
        requires
            (r as int) < self@.len(),
        ensures
            s@ == self@[r as int].fs,
    {
        self.values[r as usize].fs.as_str()
    }

    pub fn pkg_for_ref(&self, r: ModuleRef) -> (s: Option<&str>)
        requires
            (r as int) < self@.len(),
        ensures
            opt_str_chars(s) == self@[r as int].pkg,
    {
        match &self.values[r as usize].pkg {
            Some(p) => Some(p.as_str()),
            None => None,
        }
    }

    fn find_pkg(&self, pkg: &str) -> (r: Option<usize>)
        ensures
            match r {
                Some(a) => a < self.py_to_ref_local@.len() && self.py_to_ref_local@[a as int].0@
                    == pkg@ && forall|b: int|
                    0 <= b < a ==> (#[trigger] self.py_to_ref_local@[b]).0@ != pkg@,
                None => forall|a: int|
                    0 <= a < self.py_to_ref_local@.len() ==> (
                    #[trigger] self.py_to_ref_local@[a]).0@ != pkg@,
            },
    {
        let mut a: usize = 0;
        while a < self.py_to_ref_local.len()
            invariant
                a <= self.py_to_ref_local@.len(),
                forall|b: int| 0 <= b < a ==> (#[trigger] self.py_to_ref_local@[b]).0@ != pkg@,
            decreases self.py_to_ref_local@.len() - a,
        {
            if str_eq(self.py_to_ref_local[a].0.as_str(), pkg) {
                return Some(a);
            }
            a += 1;
        }
        None
    }

    /// The id of the module with import path `py` in namespace `pkg`.
    pub fn ref_for_py(&self, py: &str, pkg: Option<&str>) -> (r: Option<ModuleRef>)
        requires
            self.wf(),
        ensures
            match r {
                Some(id) => (id as int) < self@.len() && self@[id as int].py == py@
                    && self@[id as int].pkg == opt_str_chars(pkg) && py_index(
                    self@,
                    py@,
                    opt_str_chars(pkg),
                ) == id,
                None => !py_known(self@, py@, opt_str_chars(pkg)),
            },
    {
        let found: Option<ModuleRef> = match pkg {
            None => match self.py_to_ref_global.get(py) {
                Some(id) => Some(*id),
                None => None,
            },
            Some(p) => match self.find_pkg(p) {
                None => None,
                Some(a) => match self.py_to_ref_local[a].1.get(py) {
                    Some(id) => Some(*id),
                    None => None,
                },
            },
        };
        proof {
            let entries = self@;
            match found {
                Some(id) => {
                    lemma_py_index(entries, self.separator(), id as int);
                },
                None => {
                    if py_known(entries, py@, opt_str_chars(pkg)) {
                        let i = py_index(entries, py@, opt_str_chars(pkg));
                        assert(entries[i].py == py@ && entries[i].pkg == opt_str_chars(pkg));
                        if pkg is Some {
                            let a = choose|a: int|
                                0 <= a < self.py_to_ref_local@.len() && (
                                #[trigger] self.py_to_ref_local@[a]).0@ == entries[i].pkg->0
                                    && self.py_to_ref_local@[a].1@.contains_key(entries[i].py)
                                    && self.py_to_ref_local@[a].1@[entries[i].py] == i;
                            let b = self.find_pkg_index(pkg->0@);
                            if a < b {
                                assert(self.py_to_ref_local@[a].0@ != self.py_to_ref_local@[b].0@);
                            } else if b < a {
                                assert(self.py_to_ref_local@[b].0@ != self.py_to_ref_local@[a].0@);
                            }
                        }
                    }
                },
            }
        }
        found
    }

    spec fn find_pkg_index(&self, pkg: Seq<char>) -> int {
        choose|a: int|
            0 <= a < self.py_to_ref_local@.len() && (#[trigger] self.py_to_ref_local@[a]).0@ == pkg
    }

    /// The id of the module whose file is `fs`.
    pub fn ref_for_fs(&self, fs: &str) -> (r: Option<ModuleRef>)
        requires
            self.wf(),
        ensures
            match r {
                Some(id) => (id as int) < self@.len() && self@[id as int].fs == fs@ && fs_index(
                    self@,
                    fs@,
                ) == id && fs_known(self@, fs@),
                None => !fs_known(self@, fs@),
            },
    {
        let found: Option<ModuleRef> = match self.fs_to_ref.get(fs) {
            Some(id) => Some(*id),
            None => None,
        };
        proof {
            match found {
                Some(id) => {
                    lemma_fs_index(self@, self.separator(), id as int);
                },
                None => {
                    if fs_known(self@, fs@) {
                        let i = fs_index(self@, fs@);
                        assert(self@[i].fs == fs@);
                    }
                },
            }
        }
        found
    }

    /// The id for `(fs, py, pkg)`: that of the entry already made for the file or for
    /// the import path, or a new one. Refuses a triple that contradicts an entry.
    pub fn try_get_or_create(&mut self, fs: &str, py: &str, pkg: Option<&str>) -> (r: Result<
        ModuleRef,
        CacheError,
    >)
        requires
            old(self).wf(),
        ensures
            final(self).wf(),
            final(self).separator() == old(self).separator(),
            match r {
                Ok(id) => {
                    &&& conflict(old(self)@, old(self).separator(), fs@, py@, opt_str_chars(pkg))
                        is None
                    &&& final(self)@ == after_request(old(self)@, fs@, py@, opt_str_chars(pkg))
                    &&& id == id_of_request(old(self)@, fs@, py@, opt_str_chars(pkg))
                    &&& (id as int) < final(self)@.len()
                    &&& final(self)@[id as int].py == py@
                    &&& final(self)@[id as int].pkg == opt_str_chars(pkg)
                },
                Err(e) => {
                    &&& conflict(old(self)@, old(self).separator(), fs@, py@, opt_str_chars(pkg))
                        == Some(e)
                    &&& final(self)@ == old(self)@
                },
            },
    {
        let ghost entries = self@;
        let ghost pkgv = opt_str_chars(pkg);
        if contains_char(py, self.sep) {
            return Err(CacheError::SeparatorInImportPath);
        }
        if !fs.is_empty() {
            if let Some(r) = self.ref_for_fs(fs) {
                let v = &self.values[r as usize];
                let same_pkg = match (&v.pkg, pkg) {
                    (None, None) => true,
                    (Some(a), Some(b)) => str_eq(a.as_str(), b),
                    _ => false,
                };
                if !same_pkg {
                    return Err(CacheError::PackageMismatch);
                }
                if !str_eq(v.py.as_str(), py) {
                    return Err(CacheError::ImportPathMismatch);
                }
                return Ok(r);
            }
        }
        if let Some(r) = self.ref_for_py(py, pkg) {
            if !fs.is_empty() && !self.values[r as usize].fs.as_str().is_empty() {
                return Err(CacheError::FilePathMismatch);
            }
            return Ok(r);
        }
        if self.values.len() >= u32::MAX as usize {
            return Err(CacheError::Full);
        }
        let r = self.values.len() as ModuleRef;
        let owner: Option<String> = match pkg {
            Some(p) => Some(p.to_owned()),
            None => None,
        };
        self.values.push(ModuleRefVal { fs: fs.to_owned(), py: py.to_owned(), pkg: owner });
        let ghost added = Entry { fs: fs@, py: py@, pkg: pkgv };
        assert(self@ =~= entries.push(added));
        if !fs.is_empty() {
            self.fs_to_ref.insert(fs.to_owned(), r);
        }
        match pkg {
            None => {
                self.py_to_ref_global.insert(py.to_owned(), r);
            },
            Some(p) => {
                let a: usize = match self.find_pkg(p) {
                    Some(a) => a,
                    None => {
                        self.py_to_ref_local.push((p.to_owned(), StringHashMap::new()));
                        self.py_to_ref_local.len() - 1
                    },
                };
                let ghost before = self.py_to_ref_local@;
                let slot = &mut self.py_to_ref_local[a];
                slot.1.insert(py.to_owned(), r);
                proof {
                    let local = self.py_to_ref_local@;
                    let old_local = old(self).py_to_ref_local@;
                    assert(local.len() == before.len());
                    assert(local[a as int].0@ == p@);
                    assert forall|b: int| 0 <= b < local.len() && b != a implies local[b]
                        == before[b] by {}
                    assert forall|b: int| 0 <= b < old_local.len() implies (#[trigger] before[b])
                        == old_local[b] by {}
                    assert forall|x: int, y: int| 0 <= x < y < local.len() implies (
                    #[trigger] local[x]).0@ != (#[trigger] local[y]).0@ by {
                        assert(local[x].0@ == before[x].0@);
                        assert(local[y].0@ == before[y].0@);
                        if y < old_local.len() {
                            assert(old_local[x].0@ != old_local[y].0@);
                        } else {
                            assert(before[x] == old_local[x]);
                        }
                    }
                    assert forall|x: int, k: Seq<char>|
                        0 <= x < local.len() && #[trigger] local[x].1@.contains_key(k) implies (
                    local[x].1@[k] as int) < self@.len() && self@[local[x].1@[k] as int].py == k
                        && self@[local[x].1@[k] as int].pkg == Some(local[x].0@) by {
                        if x == a && k == py@ {
                        } else {
                            if x < old_local.len() {
                                assert(before[x] == old_local[x]);
                                assert(old_local[x].1@.contains_key(k));
                                assert(self@[old_local[x].1@[k] as int] == entries[old_local[x].1@[k] as int]);
                            }
                        }
                    }
                    assert forall|i: int|
                        0 <= i < self@.len() && (#[trigger] self@[i]).pkg is Some implies exists|
                        x: int,
                    |
                        0 <= x < local.len() && (#[trigger] local[x]).0@ == self@[i].pkg->0
                            && local[x].1@.contains_key(self@[i].py) && local[x].1@[self@[i].py]
                            == i by {
                        if i < entries.len() {
                            assert(self@[i] == entries[i]);
                            let x = choose|x: int|
                                0 <= x < old_local.len() && (#[trigger] old_local[x]).0@
                                    == entries[i].pkg->0 && old_local[x].1@.contains_key(
                                    entries[i].py,
                                ) && old_local[x].1@[entries[i].py] == i;
                            assert(before[x] == old_local[x]);
                            if x == a {
                                assert(entries[i].py != py@);
                            }
                            assert(local[x].0@ == self@[i].pkg->0);
                            assert(local[x].1@.contains_key(self@[i].py));
                        } else {
                            assert(local[a as int].0@ == self@[i].pkg->0);
                        }
                    }
                }
            },
        }
        proof {
            assert forall|i: int| 0 <= i < entries.len() implies self@[i] == entries[i] by {}
            let fsm = self.fs_to_ref@;
            let glob = self.py_to_ref_global@;
            assert forall|k: Seq<char>| #[trigger] fsm.contains_key(k) implies k.len() > 0 && (
            fsm[k] as int) < self@.len() && self@[fsm[k] as int].fs == k by {
                if old(self).fs_to_ref@.contains_key(k) {
                    assert(self@[old(self).fs_to_ref@[k] as int] == entries[old(
                        self,
                    ).fs_to_ref@[k] as int]);
                }
            }
            assert forall|i: int|
                0 <= i < self@.len() && (#[trigger] self@[i]).fs.len() > 0 implies fsm.contains_key(
                self@[i].fs,
            ) && fsm[self@[i].fs] == i by {
                if i < entries.len() {
                    assert(self@[i] == entries[i]);
                    if entries[i].fs == fs@ {
                        assert(fs_known(entries, fs@));
                    }
                }
            }
            assert forall|k: Seq<char>| #[trigger] glob.contains_key(k) implies (glob[k] as int)
                < self@.len() && self@[glob[k] as int].py == k && self@[glob[k] as int].pkg
                is None by {
                if old(self).py_to_ref_global@.contains_key(k) {
                    assert(self@[old(self).py_to_ref_global@[k] as int] == entries[old(
                        self,
                    ).py_to_ref_global@[k] as int]);
                }
            }
            assert forall|i: int|
                0 <= i < self@.len() && (#[trigger] self@[i]).pkg is None implies glob.contains_key(
                self@[i].py,
            ) && glob[self@[i].py] == i by {
                if i < entries.len() {
                    assert(self@[i] == entries[i]);
                    if entries[i].py == py@ && pkg is None {
                        assert(py_known(entries, py@, pkgv));
                    }
                }
            }
            if pkg is None {
                let local = self.py_to_ref_local@;
                assert(local == old(self).py_to_ref_local@);
                assert forall|x: int, k: Seq<char>|
                    0 <= x < local.len() && #[trigger] local[x].1@.contains_key(k) implies (
                local[x].1@[k] as int) < self@.len() && self@[local[x].1@[k] as int].py == k
                    && self@[local[x].1@[k] as int].pkg == Some(local[x].0@) by {
                    assert(self@[local[x].1@[k] as int] == entries[local[x].1@[k] as int]);
                }
                assert forall|i: int|
                    0 <= i < self@.len() && (#[trigger] self@[i]).pkg is Some implies exists|x: int|
                    0 <= x < local.len() && (#[trigger] local[x]).0@ == self@[i].pkg->0
                        && local[x].1@.contains_key(self@[i].py) && local[x].1@[self@[i].py]
                        == i by {
                    assert(self@[i] == entries[i]);
                }
            }
            assert forall|i: int, j: int|
                0 <= i < self@.len() && 0 <= j < self@.len() && i != j && (
                #[trigger] self@[i]).fs.len() > 0 implies self@[i].fs != (#[trigger] self@[j]).fs by {
                if i < entries.len() && j < entries.len() {
                } else if i < entries.len() {
                    if entries[i].fs == fs@ {
                        assert(fs_known(entries, fs@));
                    }
                } else {
                    if entries[j].fs == fs@ {
                        assert(fs_known(entries, fs@));
                    }
                }
            }
            assert forall|i: int, j: int|
                0 <= i < self@.len() && 0 <= j < self@.len() && i != j implies !((
            #[trigger] self@[i]).py == (#[trigger] self@[j]).py && self@[i].pkg
                == self@[j].pkg) by {
                if i < entries.len() && j < entries.len() {
                } else if i < entries.len() {
                    if entries[i].py == py@ && entries[i].pkg == pkgv {
                        assert(py_known(entries, py@, pkgv));
                    }
                } else {
                    if entries[j].py == py@ && entries[j].pkg == pkgv {
                        assert(py_known(entries, py@, pkgv));
                    }
                }
            }
        }
        Ok(r)
    }

    /// The id for `(fs, py, pkg)`, for a triple that contradicts no entry.
    pub fn get_or_create(&mut self, fs: &str, py: &str, pkg: Option<&str>) -> (id: ModuleRef)
        requires
            old(self).wf(),
            conflict(old(self)@, old(self).separator(), fs@, py@, opt_str_chars(pkg)) is None,
        ensures
            final(self).wf(),
            final(self).separator() == old(self).separator(),
            final(self)@ == after_request(old(self)@, fs@, py@, opt_str_chars(pkg)),
            id == id_of_request(old(self)@, fs@, py@, opt_str_chars(pkg)),
            (id as int) < final(self)@.len(),
            final(self)@[id as int].py == py@,
            final(self)@[id as int].pkg == opt_str_chars(pkg),
    {
        match self.try_get_or_create(fs, py, pkg) {
            Ok(id) => id,
            Err(_) => {
                proof {
                    assert(false);
                }
                0
            },
        }
    }

    /// The id that the map of files holds for `fs`.
    pub closed spec fn held_for_fs(&self, fs: Seq<char>) -> Option<int> {
        if self.fs_to_ref@.contains_key(fs) {
            Some(self.fs_to_ref@[fs] as int)
        } else {
            None
        }
    }

    /// Whether `a` is the first place at which the maps of the packages name `pkg`.
    spec fn is_slot_of(&self, pkg: Seq<char>, a: int) -> bool {
        &&& 0 <= a < self.py_to_ref_local@.len()
        &&& self.py_to_ref_local@[a].0@ == pkg
        &&& forall|b: int| 0 <= b < a ==> (#[trigger] self.py_to_ref_local@[b]).0@ != pkg
    }

    /// The first place at which the maps of the packages name `pkg`.
    spec fn slot_of(&self, pkg: Seq<char>) -> int {
        choose|a: int| self.is_slot_of(pkg, a)
    }

    /// The id that the maps of import paths hold for `py` in namespace `pkg`: that of
    /// the map of the global namespace, or of the first map that is kept for the
    /// package.
    pub closed spec fn held_for_py(&self, py: Seq<char>, pkg: Option<Seq<char>>) -> Option<int> {
        match pkg {
            None => if self.py_to_ref_global@.contains_key(py) {
                Some(self.py_to_ref_global@[py] as int)
            } else {
                None
            },
            Some(p) => if exists|a: int| self.is_slot_of(p, a) {
                let a = self.slot_of(p);
                if self.py_to_ref_local@[a].1@.contains_key(py) {
                    Some(self.py_to_ref_local@[a].1@[py] as int)
                } else {
                    None
                }
            } else {
                None
            },
        }
    }

    /// Entry `i` is what the inverse maps hold for it: for its file, where it has one,
    /// and for its import path in its namespace.
    pub open spec fn is_held(&self, i: int) -> bool {
        &&& self@[i].fs.len() > 0 ==> self.held_for_fs(self@[i].fs) == Some(i)
        &&& self.held_for_py(self@[i].py, self@[i].pkg) == Some(i)
    }

    /// In a cache that is well formed the inverse maps hold every entry.
    pub proof fn lemma_every_entry_is_held(&self, i: int)
        requires
            self.wf(),
            0 <= i < self@.len(),
        ensures
            self.is_held(i),
    {
        let entries = self@;
        if entries[i].pkg is Some {
            let p = entries[i].pkg->0;
            let a = choose|a: int|
                0 <= a < self.py_to_ref_local@.len() && (#[trigger] self.py_to_ref_local@[a]).0@
                    == entries[i].pkg->0 && self.py_to_ref_local@[a].1@.contains_key(entries[i].py)
                    && self.py_to_ref_local@[a].1@[entries[i].py] == i;
            assert(self.is_slot_of(p, a)) by {
                assert forall|b: int| 0 <= b < a implies (#[trigger] self.py_to_ref_local@[b]).0@
                    != p by {
                    assert(self.py_to_ref_local@[b].0@ != self.py_to_ref_local@[a].0@);
                }
            }
            self.lemma_one_slot(p, a);
        }
    }

    /// A package has at most one first place.
    proof fn lemma_one_slot(&self, pkg: Seq<char>, a: int)
        requires
            self.is_slot_of(pkg, a),
        ensures
            self.slot_of(pkg) == a,
    {
        let b = self.slot_of(pkg);
        assert(self.is_slot_of(pkg, b));
        if a < b {
            assert(self.py_to_ref_local@[a].0@ != pkg);
        } else if b < a {
            assert(self.py_to_ref_local@[b].0@ != pkg);
        }
    }

    /// What the maps of import paths hold for `py` in namespace `pkg`.
    fn lookup_py(&self, py: &str, pkg: Option<&str>) -> (r: Option<ModuleRef>)
        ensures
            match r {
                Some(id) => self.held_for_py(py@, opt_str_chars(pkg)) == Some(id as int),
                None => self.held_for_py(py@, opt_str_chars(pkg)) is None,
            },
    {
        match pkg {
            None => match self.py_to_ref_global.get(py) {
                Some(id) => Some(*id),
                None => None,
            },
            Some(p) => match self.find_pkg(p) {
                None => {
                    proof {
                        assert forall|a: int| !self.is_slot_of(p@, a) by {
                            if 0 <= a < self.py_to_ref_local@.len() {
                                assert(self.py_to_ref_local@[a].0@ != p@);
                            }
                        }
                    }
                    None
                },
                Some(a) => {
                    let slot = &self.py_to_ref_local[a].1;
                    proof {
                        assert(self.is_slot_of(p@, a as int));
                        self.lemma_one_slot(p@, a as int);
                        assert(self.held_for_py(py@, Some(p@)) == if slot@.contains_key(py@) {
                            Some(slot@[py@] as int)
                        } else {
                            None::<int>
                        });
                    }
                    match slot.get(py) {
                        Some(id) => Some(*id),
                        None => None,
                    }
                },
            },
        }
    }

    /// Whether the inverse maps hold every entry: for its file, where it has one, and
    /// for its import path in its namespace. In a cache that is well formed they do.
    pub fn validate(&self) -> (ok: bool)
        ensures
            ok == (forall|i: int| 0 <= i < self@.len() ==> self.is_held(i)),
            self.wf() ==> ok,
    {
        let mut r: usize = 0;
        while r < self.values.len()
            invariant
                r <= self.values@.len(),
                self.values@.len() == self@.len(),
                forall|i: int| 0 <= i < r ==> self.is_held(i),
            decreases self.values@.len() - r,
        {
            let rv = &self.values[r];
            assert(rv@ == self@[r as int]);
            proof {
                if self.wf() {
                    self.lemma_every_entry_is_held(r as int);
                }
            }
            if !rv.fs.as_str().is_empty() {
                let held: Option<ModuleRef> = match self.fs_to_ref.get(rv.fs.as_str()) {
                    Some(id) => Some(*id),
                    None => None,
                };
                match held {
                    Some(id) => {
                        if id as usize != r {
                            assert(!self.is_held(r as int));
                            return false;
                        }
                    },
                    None => {
                        assert(!self.is_held(r as int));
                        return false;
                    },
                }
            }
            let owner: Option<&str> = match &rv.pkg {
                Some(p) => Some(p.as_str()),
                None => None,
            };
            match self.lookup_py(rv.py.as_str(), owner) {
                Some(id) => {
                    if id as usize != r {
                        assert(!self.is_held(r as int));
                        return false;
                    }
                },
                None => {
                    assert(!self.is_held(r as int));
                    return false;
                },
            }
            r += 1;
        }
        true
    }

    /// The first package, from position `from` on, that has a module with import path
    /// `m`, and that module.
    spec fn first_local(&self, m: Seq<char>, from: int) -> Option<int>
        decreases self.py_to_ref_local@.len() - from,
    {
        if from < 0 || from >= self.py_to_ref_local@.len() {
            None
        } else if self.py_to_ref_local@[from].1@.contains_key(m) {
            Some(self.py_to_ref_local@[from].1@[m] as int)
        } else {
            self.first_local(m, from + 1)
        }
    }

    /// The module that `m` stands for when it is taken as a file path, then as an
    /// import path of the global namespace, then as an import path of the packages in
    /// the order in which they came to the cache.
    pub closed spec fn first_match(&self, m: Seq<char>) -> Option<int> {
        if fs_known(self@, m) {
            Some(fs_index(self@, m))
        } else if py_known(self@, m, None) {
            Some(py_index(self@, m, None))
        } else {
            self.first_local(m, 0)
        }
    }

    /// The first id found for `m`, taken as a file path, then as an import path of the
    /// global namespace, then as an import path of some package.
    pub fn first_matching_ref(&self, m: &str) -> (r: Option<ModuleRef>)
        requires
            self.wf(),
        ensures
            match r {
                Some(id) => self.first_match(m@) == Some(id as int),
                None => self.first_match(m@) is None,
            },
            match r {
                Some(id) => {
                    &&& (id as int) < self@.len()
                    &&& fs_known(self@, m@) ==> id == fs_index(self@, m@)
                    &&& !fs_known(self@, m@) ==> self@[id as int].py == m@
                    &&& !fs_known(self@, m@) && py_known(self@, m@, None) ==> id == py_index(
                        self@,
                        m@,
                        None,
                    )
                },
                None => !fs_known(self@, m@) && forall|i: int|
                    0 <= i < self@.len() ==> (#[trigger] self@[i]).py != m@,
            },
    {
        if let Some(id) = self.ref_for_fs(m) {
            return Some(id);
        }
        if let Some(id) = self.ref_for_py(m, None) {
            return Some(id);
        }
        let mut a: usize = 0;
        while a < self.py_to_ref_local.len()
            invariant
                self.wf(),
                !fs_known(self@, m@),
                !py_known(self@, m@, None),
                a <= self.py_to_ref_local@.len(),
                self.first_local(m@, 0) == self.first_local(m@, a as int),
                forall|b: int|
                    0 <= b < a ==> !(#[trigger] self.py_to_ref_local@[b]).1@.contains_key(m@),
            decreases self.py_to_ref_local@.len() - a,
        {
            if let Some(id) = self.py_to_ref_local[a].1.get(m) {
                assert(self.py_to_ref_local@[a as int].1@.contains_key(m@));
                assert(self@[*id as int].py == m@);
                return Some(*id);
            }
            a += 1;
        }
        proof {
            assert forall|i: int| 0 <= i < self@.len() implies (#[trigger] self@[i]).py != m@ by {
                if self@[i].py == m@ {
                    if self@[i].pkg is None {
                        assert(py_known(self@, m@, None));
                    } else {
                        let b = choose|b: int|
                            0 <= b < self.py_to_ref_local@.len() && (
                            #[trigger] self.py_to_ref_local@[b]).0@ == self@[i].pkg->0
                                && self.py_to_ref_local@[b].1@.contains_key(self@[i].py)
                                && self.py_to_ref_local@[b].1@[self@[i].py] == i;
                    }
                }
            }
        }
        None
    }

    /// The cache that holds exactly `values`, in their order.
    pub fn from_values(values: &Vec<ModuleRefVal>, sep: char) -> (r: Result<
        ModuleRefCache,
        CacheError,
    >)
        ensures
            match r {
                Ok(c) => c.wf() && c.separator() == sep && c@ == values@.map_values(
                    |v: ModuleRefVal| v@,
                ),
                Err(_) => !entries_inv(values@.map_values(|v: ModuleRefVal| v@), sep),
            },
    {
        let ghost all = values@.map_values(|v: ModuleRefVal| v@);
        let mut c = Self::with_separator(sep);
        assert(c@ =~= all.take(0));
        let mut i: usize = 0;
        while i < values.len()
            invariant
                i <= values@.len(),
                all == values@.map_values(|v: ModuleRefVal| v@),
                c.wf(),
                c.separator() == sep,
                c@ == all.take(i as int),
            decreases values@.len() - i,
        {
            let v = &values[i];
            let owner: Option<&str> = match &v.pkg {
                Some(p) => Some(p.as_str()),
                None => None,
            };
            let ghost before = c@;
            assert(all[i as int] == v@);
            proof {
                if fs_known(before, v@.fs) {
                    let j = fs_index(before, v@.fs);
                    assert(all[j] == before[j]);
                    assert(all[j].fs == all[i as int].fs);
                }
                if py_known(before, v@.py, v@.pkg) {
                    let j = py_index(before, v@.py, v@.pkg);
                    assert(all[j] == before[j]);
                    assert(all[j].py == all[i as int].py && all[j].pkg == all[i as int].pkg);
                }
            }
            match c.try_get_or_create(v.fs.as_str(), v.py.as_str(), owner) {
                Err(e) => {
                    return Err(e);
                },
                Ok(id) => {
                    if id as usize != i {
                        return Err(CacheError::Duplicate);
                    }
                    assert(c@ =~= all.take(i + 1));
                },
            }
            i += 1;
        }
        assert(all.take(i as int) =~= all);
        Ok(c)
    }
}

} // verus!
