//! From an import path to a module: which file is looked for, and in which order.
use vstd::prelude::*;
use vstd::string::*;
use crate::file_tree::FileTree;
use crate::moduleref::{
    after_request, conflict, entries_inv, fs_index, fs_known, id_of_request,
    is_prefix_of_entries, lemma_request, opt_str_chars, py_index, py_known, CacheError, Entry,
    ModuleRef, ModuleRefCache,
};
use crate::text::{
    first_index_of, last_index_of, lemma_first_index_of, lemma_last_index_of, find_char, push_char,
    rfind_char, str_eq,
};

verus! {

/// The first component of a dotted name.
pub open spec fn root_ns(name: Seq<char>) -> Seq<char> {
    match first_index_of(name, '.') {
        Some(i) => name.take(i),
        None => name,
    }
}

/// The first component of a dotted name.
pub fn root_namespace(name: &str) -> (r: &str)
    ensures
        r@ == root_ns(name@),
{
    match find_char(name, '.') {
        Some(i) => {
            proof {
                lemma_first_index_of(name@, '.');
                assert(name@.subrange(0, i as int) =~= name@.take(i as int));
            }
            name.substring_char(0, i)
        },
        None => name,
    }
}

/// `name` without its last dotted component, if it has more than one.
pub open spec fn parent_of(name: Seq<char>) -> Option<Seq<char>> {
    match last_index_of(name, '.') {
        Some(k) => Some(name.take(k)),
        None => None,
    }
}

/// The files that may hold the module with base path `base`, in the order in which
/// they are preferred: the package before the module, and `.py` before `.pyx` before
/// `.pyi`.
pub open spec fn candidates(base: Seq<char>, sep: char) -> Seq<Seq<char>> {
    seq![
        base + seq![sep] + "__init__.py"@,
        base + seq![sep] + "__init__.pyi"@,
        base + ".py"@,
        base + ".pyx"@,
        base + ".pyi"@,
    ]
}

/// The candidate files for `base`.
pub fn candidate_files(base: &str, sep: char) -> (v: Vec<String>)
    ensures
        crate::text::views(v@) == candidates(base@, sep),
{
    let mut init_py = base.to_owned();
    push_char(&mut init_py, sep);
    let mut init_pyi = init_py.clone();
    init_py.append("__init__.py");
    init_pyi.append("__init__.pyi");
    let mut mod_py = base.to_owned();
    mod_py.append(".py");
    let mut mod_pyx = base.to_owned();
    mod_pyx.append(".pyx");
    let mut mod_pyi = base.to_owned();
    mod_pyi.append(".pyi");
    let mut v: Vec<String> = Vec::new();
    v.push(init_py);
    v.push(init_pyi);
    v.push(mod_py);
    v.push(mod_pyx);
    v.push(mod_pyi);
    proof {
        let w = crate::text::views(v@);
        let c = candidates(base@, sep);
        assert(w.len() == 5 && c.len() == 5);
        assert(w[0] =~= c[0]);
        assert(w[1] =~= c[1]);
        assert(w[2] =~= c[2]);
        assert(w[3] =~= c[3]);
        assert(w[4] =~= c[4]);
        assert(w =~= c);
    }
    v
}

/// The first of `cands`, from position `from` on, that is the file of an entry.
pub open spec fn first_known(entries: Seq<Entry>, cands: Seq<Seq<char>>, from: int) -> Option<int>
    decreases cands.len() - from,
{
    if from < 0 || from >= cands.len() {
        None
    } else if fs_known(entries, cands[from]) {
        Some(from)
    } else {
        first_known(entries, cands, from + 1)
    }
}

/// Whether the file `path` is in `files`: its directory is listed with an entry of its
/// name.
pub open spec fn is_present(files: FileTree, sep: char, path: Seq<char>) -> bool {
    match last_index_of(path, sep) {
        Some(k) => files.has(path.take(k), path.skip(k + 1)),
        None => false,
    }
}

/// The first of `cands`, from position `from` on, that is in `files`.
pub open spec fn first_present(files: FileTree, sep: char, cands: Seq<Seq<char>>, from: int) -> Option<
    int,
>
    decreases cands.len() - from,
{
    if from < 0 || from >= cands.len() {
        None
    } else if is_present(files, sep, cands[from]) {
        Some(from)
    } else {
        first_present(files, sep, cands, from + 1)
    }
}

/// What a lookup comes to: a module id and the entries after the lookup, or the reason
/// for which the lookup is refused.
pub type Outcome = Result<(int, Seq<Entry>), CacheError>;

/// A request to the table of modules, as an outcome.
pub open spec fn request(
    entries: Seq<Entry>,
    sep: char,
    fs: Seq<char>,
    py: Seq<char>,
    pkg: Option<Seq<char>>,
) -> Outcome {
    match conflict(entries, sep, fs, py, pkg) {
        Some(e) => Err(e),
        None => Ok((id_of_request(entries, fs, py, pkg), after_request(entries, fs, py, pkg))),
    }
}

/// One round of the search for the module `dep` with base path `base`: the entry of
/// the first candidate file that has one, which must belong to namespace `root`; else
/// an entry for the first candidate file that is present; else nothing.
pub open spec fn search_round(
    entries: Seq<Entry>,
    files: FileTree,
    sep: char,
    dep: Seq<char>,
    base: Seq<char>,
    root: Option<Seq<char>>,
) -> Option<Outcome> {
    let cands = candidates(base, sep);
    match first_known(entries, cands, 0) {
        Some(i) => {
            let r = fs_index(entries, cands[i]);
            if entries[r].pkg == root {
                Some(Ok((r, entries)))
            } else {
                Some(Err(CacheError::PackageMismatch))
            }
        },
        None => match first_present(files, sep, cands, 0) {
            Some(i) => Some(request(entries, sep, cands[i], dep, root)),
            None => None,
        },
    }
}

/// The base path for the parent of `dep`: `base` without as many characters as the
/// last component of `dep` and its dot have. `None` where `dep` has one component or
/// `base` is too short.
pub open spec fn parent_base(dep: Seq<char>, base: Seq<char>) -> Option<Seq<char>> {
    match last_index_of(dep, '.') {
        Some(k) => if base.len() + k >= dep.len() {
            Some(base.take(base.len() + k - dep.len()))
        } else {
            None
        },
        None => None,
    }
}

/// The search for the module `dep` with base path `base`: one round for `dep`, and if
/// that finds nothing one round for its parent.
pub open spec fn search(
    entries: Seq<Entry>,
    files: FileTree,
    sep: char,
    dep: Seq<char>,
    base: Seq<char>,
    root: Option<Seq<char>>,
) -> Option<Outcome> {
    match search_round(entries, files, sep, dep, base, root) {
        Some(o) => Some(o),
        None => match parent_base(dep, base) {
            Some(b) => search_round(entries, files, sep, parent_of(dep)->0, b, root),
            None => None,
        },
    }
}

/// Where the package file of `base` is listed and no candidate file has an entry, the
/// search asks for the entry of the package file, whatever else is listed: the package
/// goes before the module of the same name.
pub proof fn lemma_package_goes_first(
    entries: Seq<Entry>,
    files: FileTree,
    sep: char,
    dep: Seq<char>,
    base: Seq<char>,
    root: Option<Seq<char>>,
)
    requires
        first_known(entries, candidates(base, sep), 0) is None,
        is_present(files, sep, base + seq![sep] + "__init__.py"@),
    ensures
        search(entries, files, sep, dep, base, root) == Some(
            request(entries, sep, base + seq![sep] + "__init__.py"@, dep, root),
        ),
{
    assert(candidates(base, sep)[0] == base + seq![sep] + "__init__.py"@);
}

/// Where no candidate file of `dep` has an entry or is listed, `dep` stands for what
/// its parent stands for: a name imported from a module is an edge to the module.
/// Where the parent is found through a file that is listed, the entry has the import
/// path of the parent, and no entry is made for `dep` itself.
pub proof fn lemma_name_stands_for_its_module(
    entries: Seq<Entry>,
    files: FileTree,
    sep: char,
    dep: Seq<char>,
    base: Seq<char>,
    root: Option<Seq<char>>,
)
    requires
        entries_inv(entries, sep),
        first_known(entries, candidates(base, sep), 0) is None,
        first_present(files, sep, candidates(base, sep), 0) is None,
        parent_base(dep, base) is Some,
    ensures
        search(entries, files, sep, dep, base, root) == search_round(
            entries,
            files,
            sep,
            parent_of(dep)->0,
            parent_base(dep, base)->0,
            root,
        ),
        match search(entries, files, sep, dep, base, root) {
            Some(Ok(p)) => first_known(
                entries,
                candidates(parent_base(dep, base)->0, sep),
                0,
            ) is None ==> 0 <= p.0 < p.1.len() && p.1[p.0].py == parent_of(dep)->0 && p.1[p.0].pkg
                == root && (py_known(p.1, dep, root) ==> py_known(entries, dep, root)),
            _ => true,
        },
{
    let b = parent_base(dep, base)->0;
    let parent = parent_of(dep)->0;
    let cands = candidates(b, sep);
    if first_known(entries, cands, 0) is None {
        match first_present(files, sep, cands, 0) {
            Some(i) => {
                if conflict(entries, sep, cands[i], parent, root) is None {
                    lemma_request(entries, sep, cands[i], parent, root);
                    let after = after_request(entries, cands[i], parent, root);
                    lemma_last_index_of(dep, '.');
                    if py_known(after, dep, root) {
                        let j = py_index(after, dep, root);
                        assert(after[j].py == dep && after[j].pkg == root);
                        if j >= entries.len() {
                            assert(after[j].py == parent);
                            assert(parent.len() < dep.len());
                        } else {
                            assert(entries[j] == after[j]);
                        }
                    }
                }
            },
            None => {},
        }
    }
}

/// What an exec lookup returned, held against an outcome.
pub open spec fn agrees(
    r: Result<Option<ModuleRef>, CacheError>,
    after: Seq<Entry>,
    before: Seq<Entry>,
    want: Option<Outcome>,
) -> bool {
    match want {
        None => r == Ok::<Option<ModuleRef>, CacheError>(None) && after == before,
        Some(Err(e)) => r == Err::<Option<ModuleRef>, CacheError>(e) && after == before,
        Some(Ok(p)) => r == Ok::<Option<ModuleRef>, CacheError>(Some(p.0 as ModuleRef)) && 0 <= p.0
            < after.len() && after == p.1,
    }
}

/// One round of the search, run against the table of modules.
pub fn run_search_round(
    cache: &mut ModuleRefCache,
    files: &FileTree,
    dep: &str,
    base: &str,
    root: Option<&str>,
) -> (r: Result<Option<ModuleRef>, CacheError>)
    requires
        old(cache).wf(),
        files.wf(),
    ensures
        final(cache).wf(),
        final(cache).separator() == old(cache).separator(),
        is_prefix_of_entries(old(cache)@, final(cache)@),
        agrees(
            r,
            final(cache)@,
            old(cache)@,
            search_round(old(cache)@, *files, old(cache).separator(), dep@, base@, opt_str_chars(root)),
        ),
{
    let sep = cache.sep();
    let cands = candidate_files(base, sep);
    let ghost cv = candidates(base@, sep);
    let ghost entries = cache@;
    let mut i: usize = 0;
    while i < cands.len()
        invariant
            i <= cands@.len(),
            cache.wf(),
            cache@ == entries,
            entries == old(cache)@,
            cache.separator() == sep,
            sep == old(cache).separator(),
            cv == crate::text::views(cands@),
            cv == candidates(base@, sep),
            first_known(entries, cv, 0) == first_known(entries, cv, i as int),
        decreases cands@.len() - i,
    {
        assert(cv[i as int] == cands@[i as int]@);
        if let Some(r) = cache.ref_for_fs(cands[i].as_str()) {
            let same = match (cache.pkg_for_ref(r), root) {
                (None, None) => true,
                (Some(a), Some(b)) => str_eq(a, b),
                _ => false,
            };
            if same {
                return Ok(Some(r));
            } else {
                return Err(CacheError::PackageMismatch);
            }
        }
        i += 1;
    }
    let mut i: usize = 0;
    while i < cands.len()
        invariant
            i <= cands@.len(),
            cache.wf(),
            files.wf(),
            cache@ == entries,
            entries == old(cache)@,
            cache.separator() == sep,
            sep == old(cache).separator(),
            cv == crate::text::views(cands@),
            cv == candidates(base@, sep),
            first_known(entries, cv, 0) is None,
            first_present(*files, sep, cv, 0) == first_present(*files, sep, cv, i as int),
        decreases cands@.len() - i,
    {
        assert(cv[i as int] == cands@[i as int]@);
        let cand = cands[i].as_str();
        let cand_len = cand.unicode_len();
        if let Some(k) = rfind_char(cand, sep) {
            proof {
                lemma_last_index_of(cand@, sep);
                assert(cand@.subrange(0, k as int) =~= cand@.take(k as int));
            }
            let dir = cand.substring_char(0, k);
            let name = crate::text::skip_chars(cand, k + 1);
            if files.exists_case_sensitive(dir, name) {
                let r = cache.try_get_or_create(cand, dep, root);
                proof {
                    if r is Ok {
                        lemma_request(entries, sep, cand@, dep@, opt_str_chars(root));
                    }
                }
                return match r {
                    Ok(id) => Ok(Some(id)),
                    Err(e) => Err(e),
                };
            }
        }
        i += 1;
    }
    Ok(None)
}

/// The search for the module `dep` with base path `base`, run against the table of
/// modules.
pub fn run_search(
    cache: &mut ModuleRefCache,
    files: &FileTree,
    dep: &str,
    base: &str,
    root: Option<&str>,
) -> (r: Result<Option<ModuleRef>, CacheError>)
    requires
        old(cache).wf(),
        files.wf(),
    ensures
        final(cache).wf(),
        final(cache).separator() == old(cache).separator(),
        is_prefix_of_entries(old(cache)@, final(cache)@),
        agrees(
            r,
            final(cache)@,
            old(cache)@,
            search(old(cache)@, *files, old(cache).separator(), dep@, base@, opt_str_chars(root)),
        ),
{
    let first = run_search_round(cache, files, dep, base, root);
    match first {
        Ok(None) => {},
        _ => {
            return first;
        },
    }
    let dep_len = dep.unicode_len();
    let base_len = base.unicode_len();
    match rfind_char(dep, '.') {
        None => Ok(None),
        Some(k) => {
            proof {
                lemma_last_index_of(dep@, '.');
            }
            if base_len < dep_len - k {
                return Ok(None);
            }
            let keep = base_len - (dep_len - k);
            let parent = dep.substring_char(0, k);
            let parent_base = base.substring_char(0, keep);
            assert(parent@ =~= dep@.take(k as int));
            assert(parent_base@ =~= base@.take(base@.len() + k - dep@.len()));
            run_search_round(cache, files, parent, parent_base, root)
        },
    }
}

} // verus!
