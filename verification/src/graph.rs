//! The import graph builder: from files and their raw imports to module ids and edges.
use vstd::prelude::*;
use vstd::hash_map::StringHashMap;
use vstd::string::*;
use crate::edge_table::{edges_inv, has_edge, EdgeTable};
use crate::edges::EDGE_CAPACITY;
use crate::file_tree::{entry_views, EntryView, FileTree, Kind};
use crate::matcher::MatcherNode;
use crate::moduleref::{
    after_request, conflict, entries_inv, id_of_request, is_prefix_of_entries, lemma_request,
    main_separator,
    opt_str_chars, py_index, py_known, CacheError, Entry, ModuleRef, ModuleRefCache,
};
use crate::resolve::{
    agrees, parent_of, request, root_namespace, root_ns, run_search, search, Outcome,
};
use crate::splice::nearest_known;
use crate::string_set::StringSet;
use crate::text::{
    ends_with, has_suffix, last_index_of, lemma_last_index_of, push_char, replace_char, replaced,
    lemma_views_push, rfind_char, skip_chars, split, starts_with, str_eq, take_chars, views,
};
use crate::transitive_closure::TransitiveClosure;
use crate::unresolved::{is_recorded, rows_below, Unresolved};

verus! {

/// Why the builder gives up: the input contradicts itself.
#[derive(Debug, PartialEq, Eq, Clone, Copy)]
pub enum GraphError {
    /// The table of modules refused a module.
    Cache(CacheError),
    /// A local module imports a module of a package that is no neighbour of its own.
    Neighbor,
    /// A file path has no suffix.
    NoFileSuffix,
    /// There are more modules than the closure can hold.
    TooManyModules,
}

/// What became of a file handed to the builder.
#[derive(Debug, PartialEq, Eq, Clone, Copy)]
pub enum Added {
    /// Its module is neither local nor global: nothing was recorded.
    Ignored,
    /// A package of the same name hides it: nothing was recorded.
    Shadowed,
    /// It was recorded as this module.
    Module(ModuleRef),
}

/// Whether a name is local, global or neither.
pub open spec fn locality(local: Set<Seq<char>>, global: Set<Seq<char>>, name: Seq<char>) -> Option<
    bool,
> {
    if local.contains(root_ns(name)) {
        Some(true)
    } else if global.contains(root_ns(name)) {
        Some(false)
    } else {
        None
    }
}

/// The map that the pairs make when they are entered one after the other.
pub open spec fn pairs_map(pairs: Seq<(Seq<char>, Seq<char>)>) -> Map<Seq<char>, Seq<char>>
    decreases pairs.len(),
{
    if pairs.len() == 0 {
        Map::empty()
    } else {
        pairs_map(pairs.drop_last()).insert(pairs.last().0, pairs.last().1)
    }
}

/// The pairs turned round, for the import roots that are global.
pub open spec fn import_pairs(pairs: Seq<(Seq<char>, Seq<char>)>, global: Set<Seq<char>>) -> Seq<
    (Seq<char>, Seq<char>),
>
    decreases pairs.len(),
{
    if pairs.len() == 0 {
        Seq::empty()
    } else if global.contains(root_ns(pairs.last().1)) {
        import_pairs(pairs.drop_last(), global).push((pairs.last().1, pairs.last().0))
    } else {
        import_pairs(pairs.drop_last(), global)
    }
}

/// The pairs as mathematical values.
pub open spec fn pair_views(pairs: Seq<(String, String)>) -> Seq<(Seq<char>, Seq<char>)> {
    pairs.map_values(|p: (String, String)| (p.0@, p.1@))
}

/// The strings as a set.
pub open spec fn set_of(v: Seq<String>) -> Set<Seq<char>> {
    Set::new(|s: Seq<char>| exists|i: int| 0 <= i < v.len() && (#[trigger] v[i])@ == s)
}

/// What the strings of a map stand for.
pub open spec fn string_map(m: Map<Seq<char>, String>) -> Map<Seq<char>, Seq<char>> {
    Map::new(|k: Seq<char>| m.contains_key(k), |k: Seq<char>| m[k]@)
}

pub struct ModuleGraph {
    sep: char,
    source_roots: StringHashMap<String>,
    import_roots: StringHashMap<String>,
    global_prefixes: StringSet,
    local_prefixes: StringSet,
    external_prefixes: MatcherNode,
    import_matcher: MatcherNode,
    package_matcher: MatcherNode,
    modules_refs: ModuleRefCache,
    files: FileTree,
    global_ns: EdgeTable,
    unresolved: Unresolved,
}

impl ModuleGraph {
    /// The path separator.
    pub closed spec fn separator(&self) -> char {
        self.sep
    }

    /// The import root of each source root.
    pub closed spec fn roots(&self) -> Map<Seq<char>, Seq<char>> {
        string_map(self.source_roots@)
    }

    /// The source root of each import root of a global namespace.
    pub closed spec fn roots_back(&self) -> Map<Seq<char>, Seq<char>> {
        string_map(self.import_roots@)
    }

    /// The namespaces shared by the whole graph.
    pub closed spec fn global(&self) -> Set<Seq<char>> {
        self.global_prefixes@
    }

    /// The namespaces that each package has for itself.
    pub closed spec fn local(&self) -> Set<Seq<char>> {
        self.local_prefixes@
    }

    /// The imports that are tracked though no file stands for them.
    pub closed spec fn external(&self) -> MatcherNode {
        self.external_prefixes
    }

    /// The import roots of global namespaces.
    pub closed spec fn import_tree(&self) -> MatcherNode {
        self.import_matcher
    }

    /// The source roots.
    pub closed spec fn package_tree(&self) -> MatcherNode {
        self.package_matcher
    }

    /// The table of modules.
    pub closed spec fn cache(&self) -> ModuleRefCache {
        self.modules_refs
    }

    /// The directory listings.
    pub closed spec fn file_tree(&self) -> FileTree {
        self.files
    }

    /// The edges collected.
    pub closed spec fn edges(&self) -> EdgeTable {
        self.global_ns
    }

    /// The imports that were not resolved.
    pub closed spec fn unresolved_imports(&self) -> Unresolved {
        self.unresolved
    }

    /// The parts that make up the builder are each consistent, and fit together.
    pub closed spec fn parts_wf(&self) -> bool {
        &&& self.global_prefixes.wf()
        &&& self.local_prefixes.wf()
        &&& self.external_prefixes.wf()
        &&& self.import_matcher.wf()
        &&& self.package_matcher.wf()
        &&& self.files.wf()
    }

    pub open spec fn wf(&self) -> bool {
        &&& self.parts_wf()
        &&& self.cache().wf()
        &&& self.cache().separator() == self.separator()
        &&& self.edges().wf()
        &&& self.edges()@.len() <= self.cache()@.len()
        &&& self.unresolved_imports().wf()
        &&& rows_below(self.unresolved_imports()@, self.cache()@.len())
    }

    /// All but the modules, the edges and the unresolved imports is as in `before`.
    pub open spec fn same_setup(&self, before: &ModuleGraph) -> bool {
        &&& self.separator() == before.separator()
        &&& self.roots() == before.roots()
        &&& self.roots_back() == before.roots_back()
        &&& self.global() == before.global()
        &&& self.local() == before.local()
        &&& self.external() == before.external()
        &&& self.import_tree() == before.import_tree()
        &&& self.package_tree() == before.package_tree()
        &&& self.file_tree() == before.file_tree()
    }

    /// A builder for the given source roots (pairs of file system root and import
    /// root), namespaces, and directory listings.
    pub fn new(
        source_roots: Vec<(String, String)>,
        global_prefixes: Vec<String>,
        local_prefixes: Vec<String>,
        external_prefixes: Vec<String>,
        files: FileTree,
    ) -> (g: ModuleGraph)
        requires
            files.wf(),
        ensures
            g.wf(),
            g.separator() == '/' || g.separator() == '\\',
            g.cache()@.len() == 0,
            g.edges()@.len() == 0,
            g.unresolved_imports()@.len() == 0,
            g.file_tree() == files,
            g.global() == set_of(global_prefixes@),
            g.local() == set_of(local_prefixes@),
            g.roots() == pairs_map(pair_views(source_roots@)),
            g.roots_back() == pairs_map(import_pairs(pair_views(source_roots@), g.global())),
            forall|p: Seq<Seq<char>>|
                g.external().paths().contains(p) <==> exists|i: int|
                    0 <= i < external_prefixes@.len() && p == split(
                        (#[trigger] external_prefixes@[i])@,
                        '.',
                    ),
            forall|p: Seq<Seq<char>>|
                g.package_tree().paths().contains(p) <==> exists|i: int|
                    0 <= i < source_roots@.len() && p == split(
                        (#[trigger] source_roots@[i]).0@,
                        g.separator(),
                    ),
            forall|p: Seq<Seq<char>>|
                g.import_tree().paths().contains(p) <==> exists|i: int|
                    0 <= i < source_roots@.len() && g.global().contains(
                        root_ns((#[trigger] source_roots@[i]).1@),
                    ) && p == split(source_roots@[i].1@, '.'),
    {
        let sep = main_separator();
        let mut global = StringSet::new();
        let mut i: usize = 0;
        assert(global@ =~= set_of(global_prefixes@.take(0)));
        while i < global_prefixes.len()
            invariant
                i <= global_prefixes@.len(),
                global.wf(),
                global@ == set_of(global_prefixes@.take(i as int)),
            decreases global_prefixes@.len() - i,
        {
            global.insert(global_prefixes[i].as_str());
            proof {
                lemma_set_of_take(global_prefixes@, i as int);
            }
            i += 1;
        }
        assert(global_prefixes@.take(global_prefixes@.len() as int) =~= global_prefixes@);
        let mut local = StringSet::new();
        let mut i: usize = 0;
        assert(local@ =~= set_of(local_prefixes@.take(0)));
        while i < local_prefixes.len()
            invariant
                i <= local_prefixes@.len(),
                local.wf(),
                local@ == set_of(local_prefixes@.take(i as int)),
            decreases local_prefixes@.len() - i,
        {
            local.insert(local_prefixes[i].as_str());
            proof {
                lemma_set_of_take(local_prefixes@, i as int);
            }
            i += 1;
        }
        assert(local_prefixes@.take(local_prefixes@.len() as int) =~= local_prefixes@);
        let mut external = MatcherNode::new();
        let mut i: usize = 0;
        while i < external_prefixes.len()
            invariant
                i <= external_prefixes@.len(),
                external.wf(),
                forall|p: Seq<Seq<char>>|
                    external.paths().contains(p) <==> exists|j: int|
                        0 <= j < i && p == split((#[trigger] external_prefixes@[j])@, '.'),
            decreases external_prefixes@.len() - i,
        {
            let ghost before = external.paths();
            external.add(external_prefixes[i].as_str(), '.');
            proof {
                assert forall|p: Seq<Seq<char>>|
                    external.paths().contains(p) <==> exists|j: int|
                        0 <= j < i + 1 && p == split((#[trigger] external_prefixes@[j])@, '.') by {
                    if before.contains(p) {
                        let j = choose|j: int|
                            0 <= j < i && p == split((#[trigger] external_prefixes@[j])@, '.');
                        assert(0 <= j < i + 1 && p == split(external_prefixes@[j]@, '.'));
                    }
                    if p == split(external_prefixes@[i as int]@, '.') {
                        assert(0 <= i < i + 1 && p == split(external_prefixes@[i as int]@, '.'));
                    }
                }
            }
            i += 1;
        }
        let ghost pv = pair_views(source_roots@);
        let mut roots: StringHashMap<String> = StringHashMap::new();
        let mut back: StringHashMap<String> = StringHashMap::new();
        let mut import_matcher = MatcherNode::new();
        let mut package_matcher = MatcherNode::new();
        let mut i: usize = 0;
        proof {
            assert(string_map(roots@) =~= pairs_map(pv.take(0)));
            assert(string_map(back@) =~= pairs_map(import_pairs(pv.take(0), global@)));
        }
        while i < source_roots.len()
            invariant
                i <= source_roots@.len(),
                pv == pair_views(source_roots@),
                global.wf(),
                import_matcher.wf(),
                package_matcher.wf(),
                string_map(roots@) == pairs_map(pv.take(i as int)),
                string_map(back@) == pairs_map(import_pairs(pv.take(i as int), global@)),
                forall|p: Seq<Seq<char>>|
                    package_matcher.paths().contains(p) <==> exists|j: int|
                        0 <= j < i && p == split((#[trigger] source_roots@[j]).0@, sep),
                forall|p: Seq<Seq<char>>|
                    import_matcher.paths().contains(p) <==> exists|j: int|
                        0 <= j < i && global@.contains(root_ns((#[trigger] source_roots@[j]).1@))
                            && p == split(source_roots@[j].1@, '.'),
            decreases source_roots@.len() - i,
        {
            let k = &source_roots[i].0;
            let v = &source_roots[i].1;
            let ghost roots0 = roots@;
            let ghost back0 = back@;
            let ghost pk0 = package_matcher.paths();
            let ghost im0 = import_matcher.paths();
            proof {
                assert(pv.take(i + 1).drop_last() =~= pv.take(i as int));
                assert(pv.take(i + 1).last() == (k@, v@));
            }
            roots.insert(k.clone(), v.clone());
            package_matcher.add(k.as_str(), sep);
            let is_global = global.contains(root_namespace(v.as_str()));
            if is_global {
                import_matcher.add(v.as_str(), '.');
                back.insert(v.clone(), k.clone());
            }
            proof {
                assert(string_map(roots@) =~= string_map(roots0).insert(k@, v@));
                assert(root_ns(pv.take(i + 1).last().1) == root_ns(v@));
                if is_global {
                    assert(string_map(back@) =~= string_map(back0).insert(v@, k@));
                    assert(import_pairs(pv.take(i + 1), global@) == import_pairs(
                        pv.take(i as int),
                        global@,
                    ).push((v@, k@)));
                    assert(import_pairs(pv.take(i + 1), global@).drop_last() =~= import_pairs(
                        pv.take(i as int),
                        global@,
                    ));
                } else {
                    assert(import_pairs(pv.take(i + 1), global@) == import_pairs(
                        pv.take(i as int),
                        global@,
                    ));
                }
                assert forall|p: Seq<Seq<char>>|
                    package_matcher.paths().contains(p) <==> exists|j: int|
                        0 <= j < i + 1 && p == split((#[trigger] source_roots@[j]).0@, sep) by {
                    if pk0.contains(p) {
                        let j = choose|j: int|
                            0 <= j < i && p == split((#[trigger] source_roots@[j]).0@, sep);
                        assert(0 <= j < i + 1 && p == split(source_roots@[j].0@, sep));
                    }
                    if p == split(k@, sep) {
                        assert(0 <= i < i + 1 && p == split(source_roots@[i as int].0@, sep));
                    }
                }
                assert forall|p: Seq<Seq<char>>|
                    import_matcher.paths().contains(p) <==> exists|j: int|
                        0 <= j < i + 1 && global@.contains(
                            root_ns((#[trigger] source_roots@[j]).1@),
                        ) && p == split(source_roots@[j].1@, '.') by {
                    if im0.contains(p) {
                        let j = choose|j: int|
                            0 <= j < i && global@.contains(
                                root_ns((#[trigger] source_roots@[j]).1@),
                            ) && p == split(source_roots@[j].1@, '.');
                        assert(0 <= j < i + 1 && global@.contains(root_ns(source_roots@[j].1@)) && p
                            == split(source_roots@[j].1@, '.'));
                    }
                    if is_global && p == split(v@, '.') {
                        assert(0 <= i < i + 1 && global@.contains(
                            root_ns(source_roots@[i as int].1@),
                        ) && p == split(source_roots@[i as int].1@, '.'));
                    }
                }
            }
            i += 1;
        }
        proof {
            assert(pv.take(source_roots@.len() as int) =~= pv);
        }
        let cache = ModuleRefCache::with_separator(sep);
        ModuleGraph {
            sep,
            source_roots: roots,
            import_roots: back,
            global_prefixes: global,
            local_prefixes: local,
            external_prefixes: external,
            import_matcher,
            package_matcher,
            modules_refs: cache,
            files,
            global_ns: EdgeTable::new(),
            unresolved: Unresolved::new(),
        }
    }

    /// Whether `name` is local, global or neither.
    pub open spec fn locality_of(&self, name: Seq<char>) -> Option<bool> {
        locality(self.local(), self.global(), name)
    }

    /// Whether `name` is local (`Some(true)`), global (`Some(false)`) or neither.
    pub fn is_local(&self, name: &str) -> (r: Option<bool>)
        requires
            self.wf(),
        ensures
            r == self.locality_of(name@),
    {
        let ns = root_namespace(name);
        if self.local_prefixes.contains(ns) {
            Some(true)
        } else if self.global_prefixes.contains(ns) {
            Some(false)
        } else {
            None
        }
    }

    /// The source root that `filepath` lies under and the import path that the file
    /// has there.
    pub open spec fn fs_to_py_of(&self, filepath: Seq<char>) -> Option<(Seq<char>, Seq<char>)> {
        let root = self.package_tree().longest_prefix_of(filepath, self.separator());
        if self.roots().contains_key(root) {
            Some(
                (
                    root,
                    self.roots()[root] + replaced(
                        filepath.skip(root.len() as int),
                        self.separator(),
                        '.',
                    ),
                ),
            )
        } else {
            None
        }
    }

    /// The source root that `filepath` lies under and the import path that the file
    /// has there, if it lies under one.
    pub fn fs_to_py<'a>(&self, filepath: &'a str) -> (r: Option<(&'a str, String)>)
        requires
            self.wf(),
        ensures
            match (r, self.fs_to_py_of(filepath@)) {
                (Some(p), Some(q)) => p.0@ == q.0 && p.1@ == q.1,
                (None, None) => true,
                _ => false,
            },
    {
        let root = self.package_matcher.longest_prefix(filepath, self.sep);
        match self.source_roots.get(root) {
            None => None,
            Some(py_root) => {
                let n = root.unicode_len();
                let total = filepath.unicode_len();
                let tail = skip_chars(filepath, n);
                let mut py = py_root.clone();
                py.append(replace_char(tail, self.sep, '.').as_str());
                Some((root, py))
            },
        }
    }

    /// The base path of the file that holds `import_path` and the namespace of that
    /// file, seen from a module of the package with source root `fs_root`.
    pub open spec fn py_to_fs_of(&self, import_path: Seq<char>, fs_root: Seq<char>) -> Option<
        (Seq<char>, Option<Seq<char>>),
    > {
        let sep = self.separator();
        match self.locality_of(import_path) {
            None => None,
            Some(true) => if !self.roots().contains_key(fs_root) {
                None
            } else {
                let py_root = self.roots()[fs_root];
                if py_root.is_prefix_of(import_path) {
                    Some((path_below(fs_root, py_root, import_path, sep), Some(fs_root)))
                } else if fs_root.len() < py_root.len() {
                    None
                } else {
                    let neighbor = fs_root.take(fs_root.len() - py_root.len()) + root_ns(
                        import_path,
                    );
                    if self.roots().contains_key(neighbor) && self.roots()[neighbor].len()
                        <= import_path.len() {
                        Some(
                            (
                                path_below(neighbor, self.roots()[neighbor], import_path, sep),
                                Some(neighbor),
                            ),
                        )
                    } else {
                        None
                    }
                }
            },
            Some(false) => {
                let py_root = self.import_tree().longest_prefix_of(import_path, '.');
                if self.roots_back().contains_key(py_root) {
                    Some((path_below(self.roots_back()[py_root], py_root, import_path, sep), None))
                } else {
                    None
                }
            },
        }
    }

    /// The base path of the file that holds `import_path` and the namespace of that
    /// file: for a local import the package of `fs_root` or a neighbour of it, for a
    /// global import the source root with the longest matching import root.
    pub fn py_to_fs(&self, import_path: &str, fs_root: &str) -> (r: Option<(String, Option<String>)>)
        requires
            self.wf(),
        ensures
            match (r, self.py_to_fs_of(import_path@, fs_root@)) {
                (Some(p), Some(q)) => p.0@ == q.0 && crate::moduleref::opt_chars(p.1) == q.1,
                (None, None) => true,
                _ => false,
            },
    {
        let total = import_path.unicode_len();
        match self.is_local(import_path) {
            None => None,
            Some(true) => {
                match self.source_roots.get(fs_root) {
                    None => None,
                    Some(py_root) => {
                        if starts_with(import_path, py_root.as_str()) {
                            let n = py_root.as_str().unicode_len();
                            let mut path = fs_root.to_owned();
                            path.append(
                                replace_char(skip_chars(import_path, n), '.', self.sep).as_str(),
                            );
                            Some((path, Some(fs_root.to_owned())))
                        } else {
                            let fs_len = fs_root.unicode_len();
                            let py_len = py_root.as_str().unicode_len();
                            if fs_len < py_len {
                                return None;
                            }
                            let mut neighbor = take_chars(fs_root, fs_len - py_len).to_owned();
                            neighbor.append(root_namespace(import_path));
                            match self.source_roots.get(neighbor.as_str()) {
                                None => None,
                                Some(py_root2) => {
                                    let n = py_root2.as_str().unicode_len();
                                    if n > total {
                                        return None;
                                    }
                                    let mut path = neighbor.clone();
                                    path.append(
                                        replace_char(
                                            skip_chars(import_path, n),
                                            '.',
                                            self.sep,
                                        ).as_str(),
                                    );
                                    Some((path, Some(neighbor)))
                                },
                            }
                        }
                    },
                }
            },
            Some(false) => {
                let py_root = self.import_matcher.longest_prefix(import_path, '.');
                match self.import_roots.get(py_root) {
                    None => None,
                    Some(dst_root) => {
                        let n = py_root.unicode_len();
                        let mut path = dst_root.clone();
                        path.append(
                            replace_char(skip_chars(import_path, n), '.', self.sep).as_str(),
                        );
                        Some((path, None))
                    },
                }
            },
        }
    }

    /// The module that `dep` stands for when its file has base path `cand` in
    /// namespace `root`: a namespace package where `dep` is the start of an import
    /// root, else what the search among the candidate files finds.
    pub open spec fn lookup_in(
        &self,
        entries: Seq<Entry>,
        dep: Seq<char>,
        cand: Seq<char>,
        root: Option<Seq<char>>,
    ) -> Option<Outcome> {
        if self.import_tree().strict_prefix_tokens(split(dep, '.')) {
            Some(request(entries, self.separator(), Seq::<char>::empty(), dep, None))
        } else {
            search(entries, self.file_tree(), self.separator(), dep, cand, root)
        }
    }

    /// The module that `dep` stands for, seen from a module of the package with source
    /// root `fs_root`.
    pub open spec fn resolution(&self, entries: Seq<Entry>, fs_root: Seq<char>, dep: Seq<char>) -> Option<
        Outcome,
    > {
        if self.import_tree().strict_prefix_tokens(split(dep, '.')) {
            Some(request(entries, self.separator(), Seq::<char>::empty(), dep, None))
        } else {
            match self.py_to_fs_of(dep, fs_root) {
                Some(p) => self.lookup_in(entries, dep, p.0, p.1),
                None => None,
            }
        }
    }

    /// The modules, the edges and the unresolved imports are as in `before`.
    pub open spec fn same_graph(&self, before: &ModuleGraph) -> bool {
        &&& self.edges() == before.edges()
        &&& self.unresolved_imports() == before.unresolved_imports()
    }

    fn namespace_module(&mut self, dep: &str) -> (r: Result<Option<ModuleRef>, CacheError>)
        requires
            old(self).wf(),
        ensures
            final(self).wf(),
            final(self).same_setup(old(self)),
            final(self).same_graph(old(self)),
            is_prefix_of_entries(old(self).cache()@, final(self).cache()@),
            agrees(
                r,
                final(self).cache()@,
                old(self).cache()@,
                Some(
                    request(old(self).cache()@, old(self).separator(), Seq::<char>::empty(), dep@, None),
                ),
            ),
    {
        let r = self.modules_refs.try_get_or_create("", dep, None);
        proof {
            assert(""@ =~= Seq::<char>::empty()) by {
                reveal_strlit("");
            }
            if r is Ok {
                lemma_request(
                    old(self).cache()@,
                    old(self).separator(),
                    Seq::<char>::empty(),
                    dep@,
                    None,
                );
            }
        }
        match r {
            Ok(id) => Ok(Some(id)),
            Err(e) => Err(e),
        }
    }

    /// The module that `dep` stands for when its file has base path `fs_candidate` in
    /// namespace `local_fs_root`.
    pub fn to_module_no_cache(
        &mut self,
        dep: &str,
        fs_candidate: &str,
        local_fs_root: Option<&str>,
    ) -> (r: Result<Option<ModuleRef>, CacheError>)
        requires
            old(self).wf(),
        ensures
            final(self).wf(),
            final(self).same_setup(old(self)),
            final(self).same_graph(old(self)),
            is_prefix_of_entries(old(self).cache()@, final(self).cache()@),
            agrees(
                r,
                final(self).cache()@,
                old(self).cache()@,
                old(self).lookup_in(
                    old(self).cache()@,
                    dep@,
                    fs_candidate@,
                    opt_str_chars(local_fs_root),
                ),
            ),
    {
        if self.import_matcher.strict_prefix(dep, '.') {
            return self.namespace_module(dep);
        }
        run_search(&mut self.modules_refs, &self.files, dep, fs_candidate, local_fs_root)
    }

    /// The module that `dep` stands for, seen from a module of the package with source
    /// root `fs_root`.
    pub fn to_module_local_aware(&mut self, fs_root: &str, dep: &str) -> (r: Result<
        Option<ModuleRef>,
        CacheError,
    >)
        requires
            old(self).wf(),
        ensures
            final(self).wf(),
            final(self).same_setup(old(self)),
            final(self).same_graph(old(self)),
            is_prefix_of_entries(old(self).cache()@, final(self).cache()@),
            agrees(
                r,
                final(self).cache()@,
                old(self).cache()@,
                old(self).resolution(old(self).cache()@, fs_root@, dep@),
            ),
    {
        if self.import_matcher.strict_prefix(dep, '.') {
            return self.namespace_module(dep);
        }
        match self.py_to_fs(dep, fs_root) {
            None => Ok(None),
            Some(p) => {
                let root: Option<&str> = match &p.1 {
                    Some(s) => Some(s.as_str()),
                    None => None,
                };
                self.to_module_no_cache(dep, p.0.as_str(), root)
            },
        }
    }

    /// The name of the submodule that entry `e` of directory `dir` stands for.
    fn submodule_name(&self, dir: &str, e: &crate::file_tree::DirEntry) -> (r: Option<String>)
        requires
            self.wf(),
        ensures
            crate::moduleref::opt_chars(r) == submodule_of(
                self.file_tree(),
                self.separator(),
                dir@,
                e@,
            ),
    {
        let name = e.name.as_str();
        let n = name.unicode_len();
        match e.kind {
            Kind::Dir => {
                let mut sub = dir.to_owned();
                push_char(&mut sub, self.sep);
                sub.append(name);
                assert(sub@ =~= dir@ + seq![self.sep] + e@.name);
                if self.files.exists_case_sensitive(sub.as_str(), "__init__.py")
                    || self.files.exists_case_sensitive(sub.as_str(), "__init__.pyi")
                    || self.files.exists_case_sensitive(sub.as_str(), "__init__.pyx") {
                    Some(name.to_owned())
                } else {
                    None
                }
            },
            Kind::Other => None,
            Kind::File => {
                proof {
                    reveal_strlit(".py");
                    reveal_strlit(".pyi");
                    reveal_strlit(".pyx");
                }
                if ends_with(name, ".py") && !str_eq(name, "__init__.py") {
                    Some(take_chars(name, n - 3).to_owned())
                } else if (ends_with(name, ".pyi") && !str_eq(name, "__init__.pyi")) || (ends_with(
                    name,
                    ".pyx",
                ) && !str_eq(name, "__init__.pyx")) {
                    Some(take_chars(name, n - 4).to_owned())
                } else {
                    None
                }
            },
        }
    }

    /// What looking up the submodules `subs` of the package `dep` with base path `cand`,
    /// one after the other, makes of the table `entries`, and the modules found.
    pub open spec fn below(
        &self,
        entries: Seq<Entry>,
        dep: Seq<char>,
        cand: Seq<char>,
        root: Option<Seq<char>>,
        subs: Seq<Seq<char>>,
    ) -> Gathered
        decreases subs.len(),
    {
        if subs.len() == 0 {
            Ok((entries, Seq::<ModuleRef>::empty()))
        } else {
            match self.below(entries, dep, cand, root, subs.drop_last()) {
                Err(e) => Err(e),
                Ok(p) => match self.lookup_in(
                    p.0,
                    dep + seq!['.'] + subs.last(),
                    cand + seq![self.separator()] + subs.last(),
                    root,
                ) {
                    None => Ok(p),
                    Some(Err(e)) => Err(e),
                    Some(Ok(q)) => Ok((q.1, p.1.push(q.0 as ModuleRef))),
                },
            }
        }
    }

    /// The modules that a star import of the package `dep` with base path `cand` stands
    /// for, and what finding them makes of the table `entries`: the module of every
    /// entry of the directory that names a submodule, in the order of the listing, and
    /// then the package itself. `None` where the directory is not listed and the package
    /// is not found.
    pub open spec fn star_in(
        &self,
        entries: Seq<Entry>,
        dep: Seq<char>,
        cand: Seq<char>,
        root: Option<Seq<char>>,
    ) -> Result<Option<(Seq<Entry>, Seq<ModuleRef>)>, CacheError> {
        match self.lookup_in(entries, dep, cand, root) {
            Some(Err(e)) => Err(e),
            Some(Ok(own)) => if self.file_tree().is_listed(cand) {
                match self.below(
                    own.1,
                    dep,
                    cand,
                    root,
                    submodules(
                        self.file_tree(),
                        self.separator(),
                        cand,
                        self.file_tree().listings()[cand],
                    ),
                ) {
                    Err(e) => Err(e),
                    Ok(p) => Ok(Some((p.0, p.1.push(own.0 as ModuleRef)))),
                }
            } else {
                Ok(Some((own.1, seq![own.0 as ModuleRef])))
            },
            None => if self.file_tree().is_listed(cand) {
                match self.below(
                    entries,
                    dep,
                    cand,
                    root,
                    submodules(
                        self.file_tree(),
                        self.separator(),
                        cand,
                        self.file_tree().listings()[cand],
                    ),
                ) {
                    Err(e) => Err(e),
                    Ok(p) => Ok(Some(p)),
                }
            } else {
                Ok(None)
            },
        }
    }

    /// As `star_in`, for the package `dep` seen from a module of the package with source
    /// root `pkg`.
    pub open spec fn star(&self, entries: Seq<Entry>, pkg: Seq<char>, dep: Seq<char>) -> Result<
        Option<(Seq<Entry>, Seq<ModuleRef>)>,
        CacheError,
    > {
        match self.py_to_fs_of(dep, pkg) {
            None => Ok(None),
            Some(p) => self.star_in(entries, dep, p.0, p.1),
        }
    }

    /// A lookup that fails makes every longer one fail.
    pub proof fn lemma_below_fails(
        &self,
        entries: Seq<Entry>,
        dep: Seq<char>,
        cand: Seq<char>,
        root: Option<Seq<char>>,
        subs: Seq<Seq<char>>,
        k: int,
    )
        requires
            0 <= k <= subs.len(),
            self.below(entries, dep, cand, root, subs.take(k)) is Err,
        ensures
            self.below(entries, dep, cand, root, subs) == self.below(
                entries,
                dep,
                cand,
                root,
                subs.take(k),
            ),
        decreases subs.len() - k,
    {
        if k == subs.len() {
            assert(subs.take(k) =~= subs);
        } else {
            assert(subs.drop_last().take(k) =~= subs.take(k));
            self.lemma_below_fails(entries, dep, cand, root, subs.drop_last(), k);
        }
    }

    /// Looking up more names keeps the modules found for the names before them, in
    /// their places.
    pub proof fn lemma_below_grows(
        &self,
        entries: Seq<Entry>,
        dep: Seq<char>,
        cand: Seq<char>,
        root: Option<Seq<char>>,
        subs: Seq<Seq<char>>,
        k: int,
    )
        requires
            0 <= k <= subs.len(),
            self.below(entries, dep, cand, root, subs) is Ok,
        ensures
            match (
                self.below(entries, dep, cand, root, subs.take(k)),
                self.below(entries, dep, cand, root, subs),
            ) {
                (Ok(p), Ok(q)) => p.1.len() <= q.1.len() && forall|i: int|
                    0 <= i < p.1.len() ==> p.1[i] == q.1[i],
                _ => false,
            },
        decreases subs.len() - k,
    {
        if k == subs.len() {
            assert(subs.take(k) =~= subs);
        } else {
            assert(subs.drop_last().take(k) =~= subs.take(k));
            self.lemma_below_grows(entries, dep, cand, root, subs.drop_last(), k);
        }
    }

    /// A star import misses no submodule: the module that the lookup of the name of a
    /// submodule finds is among the modules found, and so is the package itself where
    /// it is found.
    pub proof fn lemma_no_submodule_is_missed(
        &self,
        entries: Seq<Entry>,
        dep: Seq<char>,
        cand: Seq<char>,
        root: Option<Seq<char>>,
        subs: Seq<Seq<char>>,
        k: int,
    )
        requires
            0 <= k < subs.len(),
            self.below(entries, dep, cand, root, subs) is Ok,
        ensures
            match (
                self.below(entries, dep, cand, root, subs.take(k)),
                self.below(entries, dep, cand, root, subs),
            ) {
                (Ok(p), Ok(all)) => match self.lookup_in(
                    p.0,
                    dep + seq!['.'] + subs[k],
                    cand + seq![self.separator()] + subs[k],
                    root,
                ) {
                    Some(Ok(q)) => all.1.contains(q.0 as ModuleRef),
                    Some(Err(_)) => false,
                    None => true,
                },
                _ => false,
            },
            match (
                self.lookup_in(entries, dep, cand, root),
                self.star_in(entries, dep, cand, root),
            ) {
                (Some(Ok(own)), Ok(Some(p))) => p.1.contains(own.0 as ModuleRef),
                _ => true,
            },
    {
        self.lemma_below_grows(entries, dep, cand, root, subs, k);
        self.lemma_below_grows(entries, dep, cand, root, subs, k + 1);
        assert(subs.take(k + 1).drop_last() =~= subs.take(k));
        assert(subs.take(k + 1).last() == subs[k]);
        match (
            self.below(entries, dep, cand, root, subs.take(k)),
            self.below(entries, dep, cand, root, subs.take(k + 1)),
            self.below(entries, dep, cand, root, subs),
        ) {
            (Ok(p), Ok(next), Ok(all)) => {
                match self.lookup_in(
                    p.0,
                    dep + seq!['.'] + subs[k],
                    cand + seq![self.separator()] + subs[k],
                    root,
                ) {
                    Some(Ok(q)) => {
                        assert(next.1 == p.1.push(q.0 as ModuleRef));
                        assert(all.1[p.1.len() as int] == q.0 as ModuleRef);
                    },
                    _ => {},
                }
            },
            _ => {},
        }
        match (self.lookup_in(entries, dep, cand, root), self.star_in(entries, dep, cand, root)) {
            (Some(Ok(own)), Ok(Some(p))) => {
                if self.file_tree().is_listed(cand) {
                    assert(p.1.last() == own.0 as ModuleRef);
                } else {
                    assert(p.1[0] == own.0 as ModuleRef);
                }
            },
            _ => {},
        }
    }

    /// What a lookup finds depends on the setup alone.
    pub proof fn lemma_below_same(
        &self,
        other: &ModuleGraph,
        entries: Seq<Entry>,
        dep: Seq<char>,
        cand: Seq<char>,
        root: Option<Seq<char>>,
        subs: Seq<Seq<char>>,
    )
        requires
            self.same_setup(other),
        ensures
            self.below(entries, dep, cand, root, subs) == other.below(entries, dep, cand, root, subs),
        decreases subs.len(),
    {
        if subs.len() > 0 {
            self.lemma_below_same(other, entries, dep, cand, root, subs.drop_last());
        }
    }

    /// The modules that a star import of the package `dep` with base path `fs_cand`
    /// stands for: see `star_in`.
    pub fn to_module_list(&mut self, fs_cand: &str, dep: &str, local_fs_root: Option<&str>) -> (r:
        Result<Option<Vec<ModuleRef>>, CacheError>)
        requires
            old(self).wf(),
        ensures
            final(self).wf(),
            final(self).same_setup(old(self)),
            final(self).same_graph(old(self)),
            is_prefix_of_entries(old(self).cache()@, final(self).cache()@),
            match (
                r,
                old(self).star_in(old(self).cache()@, dep@, fs_cand@, opt_str_chars(local_fs_root)),
            ) {
                (Ok(Some(v)), Ok(Some(p))) => v@ == p.1 && final(self).cache()@ == p.0,
                (Ok(None), Ok(None)) => final(self).cache()@ == old(self).cache()@,
                (Err(e), Err(e2)) => e == e2,
                _ => false,
            },
            r matches Ok(Some(v)) ==> forall|i: int|
                0 <= i < v@.len() ==> (#[trigger] v@[i] as int) < final(self).cache()@.len(),
    {
        let ghost root = opt_str_chars(local_fs_root);
        let ghost entries0 = self.cache()@;
        let own = self.to_module_no_cache(dep, fs_cand, local_fs_root)?;
        let ghost entries1 = self.cache()@;
        let ghost first = *self;
        let mut subs: Vec<String> = Vec::new();
        match self.files.list(fs_cand) {
            None => {
                return Ok(
                    match own {
                        Some(r) => {
                            let mut v: Vec<ModuleRef> = Vec::new();
                            v.push(r);
                            assert(v@ =~= seq![r]);
                            Some(v)
                        },
                        None => None,
                    },
                );
            },
            Some(entries) => {
                let ghost listing = entry_views(entries@);
                let mut i: usize = 0;
                while i < entries.len()
                    invariant
                        i <= entries@.len(),
                        self.wf(),
                        *self == first,
                        listing == entry_views(entries@),
                        views(subs@) == submodules(
                            self.file_tree(),
                            self.separator(),
                            fs_cand@,
                            listing.take(i as int),
                        ),
                    decreases entries@.len() - i,
                {
                    proof {
                        assert(listing.take(i + 1).drop_last() =~= listing.take(i as int));
                        assert(listing.take(i + 1).last() == entries@[i as int]@);
                    }
                    if let Some(sub) = self.submodule_name(fs_cand, &entries[i]) {
                        proof {
                            lemma_views_push(subs@, sub);
                        }
                        subs.push(sub);
                    }
                    i += 1;
                }
                proof {
                    assert(listing.take(i as int) =~= listing);
                }
            },
        }
        let ghost names = views(subs@);
        let mut out: Vec<ModuleRef> = Vec::new();
        let mut i: usize = 0;
        while i < subs.len()
            invariant
                i <= subs@.len(),
                self.wf(),
                self.same_setup(old(self)),
                self.same_graph(old(self)),
                names == views(subs@),
                root == opt_str_chars(local_fs_root),
                entries0 == old(self).cache()@,
                is_prefix_of_entries(old(self).cache()@, self.cache()@),
                forall|j: int| 0 <= j < out@.len() ==> (#[trigger] out@[j] as int) < self.cache()@.len(),
                own is Some ==> (own->0 as int) < self.cache()@.len(),
                old(self).below(entries1, dep@, fs_cand@, root, names.take(i as int)) == Ok::<
                    (Seq<Entry>, Seq<ModuleRef>),
                    CacheError,
                >((self.cache()@, out@)),
                old(self).star_in(entries0, dep@, fs_cand@, root) == match old(self).below(
                    entries1,
                    dep@,
                    fs_cand@,
                    root,
                    names,
                ) {
                    Err(e) => Err::<Option<(Seq<Entry>, Seq<ModuleRef>)>, CacheError>(e),
                    Ok(p) => Ok(
                        Some(
                            match own {
                                Some(r) => (p.0, p.1.push(r)),
                                None => p,
                            },
                        ),
                    ),
                },
            decreases subs@.len() - i,
        {
            let mut subdep = dep.to_owned();
            push_char(&mut subdep, '.');
            subdep.append(subs[i].as_str());
            let mut subcand = fs_cand.to_owned();
            push_char(&mut subcand, self.sep);
            subcand.append(subs[i].as_str());
            let ghost before = *self;
            let res = self.to_module_no_cache(subdep.as_str(), subcand.as_str(), local_fs_root);
            proof {
                assert(names.take(i + 1).drop_last() =~= names.take(i as int));
                assert(names.take(i + 1).last() == subs@[i as int]@);
                assert(subdep@ =~= dep@ + seq!['.'] + subs@[i as int]@);
                assert(subcand@ =~= fs_cand@ + seq![old(self).separator()] + subs@[i as int]@);
                assert(before.lookup_in(before.cache()@, subdep@, subcand@, root)
                    == old(self).lookup_in(before.cache()@, subdep@, subcand@, root));
                if res is Err {
                    old(self).lemma_below_fails(entries1, dep@, fs_cand@, root, names, i + 1);
                }
            }
            let found = res?;
            if let Some(x) = found {
                out.push(x);
            }
            i += 1;
        }
        proof {
            assert(names.take(i as int) =~= names);
        }
        if let Some(r) = own {
            out.push(r);
        }
        Ok(Some(out))
    }

    /// As `to_module_list`, for the package `dep` seen from a module of the package with
    /// source root `pkg`.
    pub fn to_module_list_local_aware(&mut self, pkg: &str, dep: &str) -> (r: Result<
        Option<Vec<ModuleRef>>,
        CacheError,
    >)
        requires
            old(self).wf(),
        ensures
            final(self).wf(),
            final(self).same_setup(old(self)),
            final(self).same_graph(old(self)),
            is_prefix_of_entries(old(self).cache()@, final(self).cache()@),
            match (r, old(self).star(old(self).cache()@, pkg@, dep@)) {
                (Ok(Some(v)), Ok(Some(p))) => v@ == p.1 && final(self).cache()@ == p.0,
                (Ok(None), Ok(None)) => final(self).cache()@ == old(self).cache()@,
                (Err(e), Err(e2)) => e == e2,
                _ => false,
            },
            r matches Ok(Some(v)) ==> forall|i: int|
                0 <= i < v@.len() ==> (#[trigger] v@[i] as int) < final(self).cache()@.len(),
    {
        match self.py_to_fs(dep, pkg) {
            None => Ok(None),
            Some(p) => {
                let root: Option<&str> = match &p.1 {
                    Some(s) => Some(s.as_str()),
                    None => None,
                };
                self.to_module_list(p.0.as_str(), dep, root)
            },
        }
    }

    /// The module with import path `m` in the global namespace, or else the module of
    /// the longest enclosing import path of `m` that has one there.
    pub open spec fn module_or_parent_of(&self, m: Seq<char>) -> Option<int> {
        nearest_known(self.cache()@, m)
    }

    /// The module with import path `m` in the global namespace, or else the module of
    /// the longest enclosing import path of `m` that has one there.
    pub fn module_or_parent(&self, m: &str) -> (r: Option<ModuleRef>)
        requires
            self.wf(),
        ensures
            match r {
                Some(id) => self.module_or_parent_of(m@) == Some(id as int) && (id as int)
                    < self.cache()@.len(),
                None => self.module_or_parent_of(m@) is None,
            },
    {
        let mut actual: &str = m;
        loop
            invariant
                self.wf(),
                nearest_known(self.cache()@, actual@) == nearest_known(self.cache()@, m@),
            decreases actual@.len(),
        {
            if let Some(r) = self.modules_refs.ref_for_py(actual, None) {
                return Some(r);
            }
            match rfind_char(actual, '.') {
                None => {
                    return None;
                },
                Some(k) => {
                    proof {
                        lemma_last_index_of(actual@, '.');
                    }
                    actual = take_chars(actual, k);
                },
            }
        }
    }

    /// All but the unresolved imports and the edges is as in `o`.
    spec fn same_but_graph(&self, o: &ModuleGraph) -> bool {
        &&& self.sep == o.sep
        &&& self.source_roots == o.source_roots
        &&& self.import_roots == o.import_roots
        &&& self.global_prefixes == o.global_prefixes
        &&& self.local_prefixes == o.local_prefixes
        &&& self.external_prefixes == o.external_prefixes
        &&& self.import_matcher == o.import_matcher
        &&& self.package_matcher == o.package_matcher
        &&& self.modules_refs == o.modules_refs
        &&& self.files == o.files
    }

    /// Whether a package of the same name hides the file `filepath`.
    pub open spec fn is_shadowed(&self, filepath: Seq<char>) -> bool {
        match last_index_of(filepath, '.') {
            Some(k) => self.file_tree().has(filepath.take(k), "__init__.py"@)
                || self.file_tree().has(filepath.take(k), "__init__.pyi"@),
            None => false,
        }
    }

    /// The namespace that a file with import path `module` of the package `pkg`
    /// belongs to.
    pub open spec fn namespace_of(&self, module: Seq<char>, pkg: Seq<char>) -> Option<Seq<char>> {
        if self.locality_of(module) == Some(true) {
            Some(pkg)
        } else {
            None
        }
    }

    /// What the raw import `dep` of a module of the package `pkg` adds to a scan: the
    /// longest external prefix of `dep` where there is one; for `x.*` what the star
    /// import of `x` stands for; else the module that `dep` stands for, or, where it
    /// stands for none and is local or global, its parent as an import not resolved.
    pub open spec fn scan_one(&self, st: Scan, pkg: Seq<char>, dep: Seq<char>) -> Result<
        Scan,
        CacheError,
    > {
        let pref = self.external().longest_prefix_of(dep, '.');
        if pref.len() > 0 {
            match request(st.entries, self.separator(), Seq::<char>::empty(), pref, None) {
                Err(e) => Err(e),
                Ok(p) => Ok(
                    Scan {
                        entries: p.1,
                        found: st.found.push(p.0 as ModuleRef),
                        missing: st.missing,
                    },
                ),
            }
        } else if has_suffix(dep, ".*"@) {
            match self.star(st.entries, pkg, dep.take(dep.len() - 2)) {
                Err(e) => Err(e),
                Ok(None) => Ok(st),
                Ok(Some(p)) => Ok(
                    Scan { entries: p.0, found: st.found + p.1, missing: st.missing },
                ),
            }
        } else {
            match self.resolution(st.entries, pkg, dep) {
                Some(Err(e)) => Err(e),
                Some(Ok(p)) => Ok(
                    Scan {
                        entries: p.1,
                        found: st.found.push(p.0 as ModuleRef),
                        missing: st.missing,
                    },
                ),
                None => match (self.locality_of(dep), last_index_of(dep, '.')) {
                    (Some(_), Some(k)) => Ok(
                        Scan {
                            entries: st.entries,
                            found: st.found,
                            missing: st.missing.push(dep.take(k)),
                        },
                    ),
                    _ => Ok(st),
                },
            }
        }
    }

    /// The scan of the raw imports `deps` of a module of the package `pkg`, one after
    /// the other, starting with the table `entries`.
    pub open spec fn scan(&self, entries: Seq<Entry>, pkg: Seq<char>, deps: Seq<Seq<char>>) -> Result<
        Scan,
        CacheError,
    >
        decreases deps.len(),
    {
        if deps.len() == 0 {
            Ok(
                Scan {
                    entries,
                    found: Seq::<ModuleRef>::empty(),
                    missing: Seq::<Seq<char>>::empty(),
                },
            )
        } else {
            match self.scan(entries, pkg, deps.drop_last()) {
                Err(e) => Err(e),
                Ok(st) => self.scan_one(st, pkg, deps.last()),
            }
        }
    }

    /// A scan that fails makes every longer one fail.
    pub proof fn lemma_scan_fails(
        &self,
        entries: Seq<Entry>,
        pkg: Seq<char>,
        deps: Seq<Seq<char>>,
        k: int,
    )
        requires
            0 <= k <= deps.len(),
            self.scan(entries, pkg, deps.take(k)) is Err,
        ensures
            self.scan(entries, pkg, deps) == self.scan(entries, pkg, deps.take(k)),
        decreases deps.len() - k,
    {
        if k == deps.len() {
            assert(deps.take(k) =~= deps);
        } else {
            assert(deps.drop_last().take(k) =~= deps.take(k));
            self.lemma_scan_fails(entries, pkg, deps.drop_last(), k);
        }
    }

    /// What a star import stands for depends on the setup alone.
    pub proof fn lemma_star_same(
        &self,
        other: &ModuleGraph,
        entries: Seq<Entry>,
        pkg: Seq<char>,
        dep: Seq<char>,
    )
        requires
            self.same_setup(other),
        ensures
            self.star(entries, pkg, dep) == other.star(entries, pkg, dep),
    {
        match self.py_to_fs_of(dep, pkg) {
            None => {},
            Some(p) => {
                let subs = submodules(
                    self.file_tree(),
                    self.separator(),
                    p.0,
                    self.file_tree().listings()[p.0],
                );
                match self.lookup_in(entries, dep, p.0, p.1) {
                    Some(Ok(own)) => {
                        self.lemma_below_same(other, own.1, dep, p.0, p.1, subs);
                    },
                    None => {
                        self.lemma_below_same(other, entries, dep, p.0, p.1, subs);
                    },
                    _ => {},
                }
            },
        }
    }

    /// What a raw import adds to a scan depends on the setup alone.
    pub proof fn lemma_scan_one_same(
        &self,
        other: &ModuleGraph,
        st: Scan,
        pkg: Seq<char>,
        dep: Seq<char>,
    )
        requires
            self.same_setup(other),
        ensures
            self.scan_one(st, pkg, dep) == other.scan_one(st, pkg, dep),
    {
        self.lemma_star_same(other, st.entries, pkg, dep.take(dep.len() - 2));
    }

    /// What is to become of the file `filepath` of the package with source root `pkg`,
    /// with import path `module` and the raw imports `deps`.
    ///
    /// A module that is neither local nor global is ignored, and so is a file that a
    /// package of the same name hides. Else the imports are scanned. A local module may
    /// import only what its own package or a neighbour of it owns. The module is that
    /// of the file, in the namespace of the package if it is local; a global namespace
    /// package has no file of its own.
    pub open spec fn plan(
        &self,
        filepath: Seq<char>,
        pkg: Seq<char>,
        module: Seq<char>,
        deps: Seq<Seq<char>>,
        is_ns_pkg_init: bool,
    ) -> Result<Plan, GraphError> {
        match self.locality_of(module) {
            None => Ok(Plan::Ignored),
            Some(is_local) => if last_index_of(filepath, '.') is None {
                Err(GraphError::NoFileSuffix)
            } else if self.is_shadowed(filepath) {
                Ok(Plan::Shadowed)
            } else {
                match self.scan(self.cache()@, pkg, deps) {
                    Err(e) => Err(GraphError::Cache(e)),
                    Ok(st) => {
                        let nspkg = is_ns_pkg_init || self.import_tree().strict_prefix_tokens(
                            split(module, '.'),
                        );
                        if is_local && !all_near(st.entries, st.found, pkg, self.separator()) {
                            Err(GraphError::Neighbor)
                        } else {
                            match request(
                                st.entries,
                                self.separator(),
                                if nspkg && !is_local {
                                    Seq::<char>::empty()
                                } else {
                                    filepath
                                },
                                module,
                                if is_local {
                                    Some(pkg)
                                } else {
                                    None
                                },
                            ) {
                                Err(e) => Err(GraphError::Cache(e)),
                                Ok(p) => Ok(
                                    Plan::Module {
                                        id: p.0,
                                        entries: p.1,
                                        found: st.found,
                                        missing: st.missing,
                                        keeps: nspkg,
                                    },
                                ),
                            }
                        }
                    },
                }
            },
        }
    }

    /// A file that a package of the same name hides is dropped: nothing is to become of
    /// it, whatever it imports and whenever it comes.
    pub proof fn lemma_hidden_file_is_dropped(
        &self,
        filepath: Seq<char>,
        pkg: Seq<char>,
        module: Seq<char>,
        deps: Seq<Seq<char>>,
        is_ns_pkg_init: bool,
    )
        requires
            self.locality_of(module) is Some,
            self.is_shadowed(filepath),
        ensures
            self.plan(filepath, pkg, module, deps, is_ns_pkg_init) == Ok::<Plan, GraphError>(
                Plan::Shadowed,
            ),
    {
    }

    /// Scans one raw import of a module of the package `pkg`, and adds what it stands
    /// for to `imports` or `names`.
    fn scan_step(
        &mut self,
        pkg: &str,
        dep: &str,
        imports: &mut Vec<ModuleRef>,
        names: &mut Vec<String>,
    ) -> (r: Result<(), CacheError>)
        requires
            old(self).wf(),
            forall|j: int| 0 <= j < old(imports)@.len() ==> (#[trigger] old(imports)@[j] as int)
                < old(self).cache()@.len(),
        ensures
            final(self).wf(),
            final(self).same_setup(old(self)),
            final(self).same_graph(old(self)),
            is_prefix_of_entries(old(self).cache()@, final(self).cache()@),
            forall|j: int| 0 <= j < final(imports)@.len() ==> (#[trigger] final(imports)@[j] as int)
                < final(self).cache()@.len(),
            match (
                r,
                old(self).scan_one(
                    Scan {
                        entries: old(self).cache()@,
                        found: old(imports)@,
                        missing: views(old(names)@),
                    },
                    pkg@,
                    dep@,
                ),
            ) {
                (Ok(()), Ok(st)) => final(imports)@ == st.found && views(final(names)@) == st.missing
                    && final(self).cache()@ == st.entries,
                (Err(e), Err(e2)) => e == e2,
                _ => false,
            },
    {
        let n = dep.unicode_len();
        proof {
            reveal_strlit("");
            reveal_strlit(".*");
            assert(""@ =~= Seq::<char>::empty());
        }
        let pref = self.external_prefixes.longest_prefix(dep, '.');
        if !pref.is_empty() {
            match self.modules_refs.try_get_or_create("", pref, None) {
                Ok(id) => {
                    proof {
                        lemma_request_keeps(
                            old(self).cache()@,
                            self.sep,
                            Seq::<char>::empty(),
                            pref@,
                            None,
                        );
                    }
                    imports.push(id);
                    Ok(())
                },
                Err(e) => Err(e),
            }
        } else if ends_with(dep, ".*") {
            let target = take_chars(dep, n - 2);
            match self.to_module_list_local_aware(pkg, target) {
                Err(e) => Err(e),
                Ok(None) => Ok(()),
                Ok(Some(refs)) => {
                    let ghost imports0 = imports@;
                    let mut j: usize = 0;
                    while j < refs.len()
                        invariant
                            j <= refs@.len(),
                            imports@ == imports0 + refs@.take(j as int),
                            forall|t: int| 0 <= t < refs@.len() ==> (#[trigger] refs@[t] as int)
                                < self.cache()@.len(),
                            forall|t: int|
                                0 <= t < imports@.len() ==> (#[trigger] imports@[t] as int)
                                    < self.cache()@.len(),
                        decreases refs@.len() - j,
                    {
                        imports.push(refs[j]);
                        proof {
                            assert(imports@ =~= imports0 + refs@.take(j + 1));
                        }
                        j += 1;
                    }
                    proof {
                        assert(refs@.take(j as int) =~= refs@);
                    }
                    Ok(())
                },
            }
        } else {
            match self.to_module_local_aware(pkg, dep) {
                Err(e) => Err(e),
                Ok(Some(r)) => {
                    imports.push(r);
                    Ok(())
                },
                Ok(None) => {
                    if self.is_local(dep).is_some() {
                        proof {
                            lemma_last_index_of(dep@, '.');
                        }
                        if let Some(idx) = rfind_char(dep, '.') {
                            let name = take_chars(dep, idx).to_owned();
                            proof {
                                lemma_views_push(names@, name);
                            }
                            names.push(name);
                        }
                    }
                    Ok(())
                },
            }
        }
    }

    /// Scans the raw imports `deps` of a module of the package `pkg`: the modules they
    /// stand for, and the import paths to record as not resolved.
    fn scan_imports(&mut self, pkg: &str, deps: &Vec<String>) -> (r: Result<
        (Vec<ModuleRef>, Vec<String>),
        CacheError,
    >)
        requires
            old(self).wf(),
        ensures
            final(self).wf(),
            final(self).same_setup(old(self)),
            final(self).same_graph(old(self)),
            is_prefix_of_entries(old(self).cache()@, final(self).cache()@),
            match (r, old(self).scan(old(self).cache()@, pkg@, views(deps@))) {
                (Ok(p), Ok(st)) => p.0@ == st.found && views(p.1@) == st.missing && final(self).cache()@
                    == st.entries,
                (Err(e), Err(e2)) => e == e2,
                _ => false,
            },
            r matches Ok(p) ==> forall|j: int|
                0 <= j < p.0@.len() ==> (#[trigger] p.0@[j] as int) < final(self).cache()@.len(),
    {
        let ghost all = views(deps@);
        let ghost entries0 = self.cache()@;
        let mut unresolved_names: Vec<String> = Vec::new();
        let mut imports: Vec<ModuleRef> = Vec::new();
        let mut i: usize = 0;
        proof {
            assert(all.take(0).len() == 0);
            assert(views(unresolved_names@) =~= Seq::<Seq<char>>::empty());
            assert(imports@ =~= Seq::<ModuleRef>::empty());
        }
        while i < deps.len()
            invariant
                i <= deps@.len(),
                all == views(deps@),
                entries0 == old(self).cache()@,
                self.wf(),
                self.same_setup(old(self)),
                self.same_graph(old(self)),
                is_prefix_of_entries(old(self).cache()@, self.cache()@),
                forall|j: int| 0 <= j < imports@.len() ==> (#[trigger] imports@[j] as int)
                    < self.cache()@.len(),
                old(self).scan(entries0, pkg@, all.take(i as int)) == Ok::<Scan, CacheError>(
                    Scan {
                        entries: self.cache()@,
                        found: imports@,
                        missing: views(unresolved_names@),
                    },
                ),
            decreases deps@.len() - i,
        {
            let ghost before = *self;
            let ghost st = Scan {
                entries: self.cache()@,
                found: imports@,
                missing: views(unresolved_names@),
            };
            let res = self.scan_step(pkg, deps[i].as_str(), &mut imports, &mut unresolved_names);
            proof {
                assert(all.take(i + 1).drop_last() =~= all.take(i as int));
                assert(all.take(i + 1).last() == deps@[i as int]@);
                before.lemma_scan_one_same(old(self), st, pkg@, deps@[i as int]@);
                if res is Err {
                    old(self).lemma_scan_fails(entries0, pkg@, all, i + 1);
                }
            }
            match res {
                Ok(()) => {},
                Err(e) => {
                    return Err(e);
                },
            }
            i += 1;
        }
        proof {
            assert(all.take(i as int) =~= all);
        }
        Ok((imports, unresolved_names))
    }

    /// Whether each of the modules `found` that a package owns is owned by `pkg` or by
    /// a neighbour of `pkg`.
    fn near_all(&self, found: &Vec<ModuleRef>, pkg: &str) -> (r: bool)
        requires
            self.wf(),
            forall|j: int| 0 <= j < found@.len() ==> (#[trigger] found@[j] as int) < self.cache()@.len(),
        ensures
            r == all_near(self.cache()@, found@, pkg@, self.separator()),
    {
        let mut j: usize = 0;
        while j < found.len()
            invariant
                j <= found@.len(),
                self.wf(),
                forall|t: int| 0 <= t < found@.len() ==> (#[trigger] found@[t] as int)
                    < self.cache()@.len(),
                forall|t: int|
                    0 <= t < j ==> is_near(self.cache()@, #[trigger] found@[t], pkg@, self.separator()),
            decreases found@.len() - j,
        {
            if let Some(dpkg) = self.modules_refs.pkg_for_ref(found[j]) {
                if !str_eq(dpkg, pkg) && !are_neighbors(dpkg, pkg, self.sep) {
                    assert(!is_near(self.cache()@, found@[j as int], pkg@, self.separator()));
                    return false;
                }
            }
            j += 1;
        }
        true
    }

    /// Records that module `m` asked for each of `names`.
    fn record_all(&mut self, names: &Vec<String>, m: ModuleRef)
        requires
            old(self).wf(),
            (m as int) < old(self).cache()@.len(),
        ensures
            final(self).wf(),
            final(self).same_but_graph(old(self)),
            final(self).edges() == old(self).edges(),
            forall|p: Seq<char>, x: ModuleRef| #[trigger]
                is_recorded(final(self).unresolved_imports()@, p, x) <==> is_recorded(
                    old(self).unresolved_imports()@,
                    p,
                    x,
                ) || (x == m && views(names@).contains(p)),
    {
        let ghost rows0 = self.unresolved@;
        let ghost all = views(names@);
        let mut j: usize = 0;
        while j < names.len()
            invariant
                j <= names@.len(),
                all == views(names@),
                rows0 == old(self).unresolved@,
                self.same_but_graph(old(self)),
                self.global_ns == old(self).global_ns,
                old(self).wf(),
                self.unresolved.wf(),
                (m as int) < self.modules_refs@.len(),
                rows_below(self.unresolved@, self.modules_refs@.len()),
                forall|p: Seq<char>, x: ModuleRef| #[trigger]
                    is_recorded(self.unresolved@, p, x) <==> is_recorded(rows0, p, x) || (x == m
                        && all.take(j as int).contains(p)),
            decreases names@.len() - j,
        {
            let ghost before = self.unresolved@;
            self.unresolved.record(names[j].as_str(), m);
            proof {
                let done = all.take(j as int);
                let next = all.take(j + 1);
                assert(next =~= done.push(names@[j as int]@));
                assert forall|p: Seq<char>, x: ModuleRef| #[trigger]
                    is_recorded(self.unresolved@, p, x) <==> is_recorded(rows0, p, x) || (x == m
                        && next.contains(p)) by {
                    assert(is_recorded(before, p, x) <==> is_recorded(rows0, p, x) || (x == m
                        && done.contains(p)));
                    if done.contains(p) {
                        let t = choose|t: int| 0 <= t < done.len() && done[t] == p;
                        assert(next[t] == p);
                    }
                    if next.contains(p) {
                        let t = choose|t: int| 0 <= t < next.len() && next[t] == p;
                        if t < j {
                            assert(done[t] == p);
                        }
                    }
                    assert(next[j as int] == names@[j as int]@);
                }
            }
            j += 1;
        }
        proof {
            assert(all.take(j as int) =~= all);
        }
    }

    /// Gives module `m` an edge to each of `targets`, in place of the edges it has
    /// unless `keeps`.
    fn link_all(&mut self, m: ModuleRef, targets: &Vec<ModuleRef>, keeps: bool)
        requires
            old(self).wf(),
            (m as int) < old(self).cache()@.len(),
            forall|j: int| 0 <= j < targets@.len() ==> (#[trigger] targets@[j] as int)
                < old(self).cache()@.len(),
        ensures
            final(self).wf(),
            final(self).same_but_graph(old(self)),
            final(self).unresolved_imports() == old(self).unresolved_imports(),
            final(self).edges()@.len() == final(self).cache()@.len(),
            forall|a: int, b: int| #[trigger]
                has_edge(final(self).edges()@, a, b) <==> links_after(
                    old(self).edges()@,
                    m as int,
                    targets@,
                    keeps,
                    a,
                    b,
                ),
    {
        let ghost edges0 = self.global_ns@;
        let total = self.modules_refs.max_value();
        self.global_ns.grow(total);
        proof {
            assert forall|a: int, b: int| has_edge(self.global_ns@, a, b) <==> has_edge(
                edges0,
                a,
                b,
            ) by {
                if has_edge(self.global_ns@, a, b) {
                    lemma_edge_before_growth(edges0, self.global_ns@, a, b);
                }
                if has_edge(edges0, a, b) {
                    assert(self.global_ns@[a] == edges0[a]);
                }
            }
        }
        if !keeps {
            let ghost before = self.global_ns@;
            self.global_ns.clear(m);
            proof {
                assert forall|a: int, b: int| has_edge(self.global_ns@, a, b) <==> a != m
                    && has_edge(before, a, b) by {
                    if 0 <= a < before.len() && a != m {
                        assert(self.global_ns@[a] == before[a]);
                    }
                }
            }
        }
        let mut j: usize = 0;
        while j < targets.len()
            invariant
                j <= targets@.len(),
                self.same_but_graph(old(self)),
                self.unresolved == old(self).unresolved,
                old(self).wf(),
                edges0 == old(self).global_ns@,
                self.global_ns.wf(),
                self.global_ns@.len() == total,
                total == self.modules_refs@.len(),
                (m as int) < total,
                forall|t: int| 0 <= t < targets@.len() ==> (#[trigger] targets@[t] as int) < total,
                forall|a: int, b: int| #[trigger]
                    has_edge(self.global_ns@, a, b) <==> links_after(
                        edges0,
                        m as int,
                        targets@.take(j as int),
                        keeps,
                        a,
                        b,
                    ),
            decreases targets@.len() - j,
        {
            let ghost before_add = self.global_ns@;
            self.global_ns.add_edge(m, targets[j]);
            proof {
                let done = targets@.take(j as int);
                let next = targets@.take(j + 1);
                assert(next =~= done.push(targets@[j as int]));
                assert forall|a: int, b: int| #[trigger]
                    has_edge(self.global_ns@, a, b) <==> links_after(
                        edges0,
                        m as int,
                        next,
                        keeps,
                        a,
                        b,
                    ) by {
                    lemma_holds_one_more(done, targets@[j as int], b);
                    assert(has_edge(before_add, a, b) <==> links_after(
                        edges0,
                        m as int,
                        done,
                        keeps,
                        a,
                        b,
                    ));
                }
            }
            j += 1;
        }
        proof {
            assert(targets@.take(j as int) =~= targets@);
        }
    }

    /// Records the file `filepath` of the package with source root `pkg` as the module
    /// `module`, with an edge to each module that one of `deps` stands for: see `plan`.
    ///
    /// An import that stands for no module but is local or global is recorded as
    /// unresolved, under its parent. The edges of a namespace package are added to those
    /// it has; those of any other module replace them.
    pub fn add(
        &mut self,
        filepath: &str,
        pkg: &str,
        module: &str,
        deps: &Vec<String>,
        is_ns_pkg_init: bool,
    ) -> (r: Result<Added, GraphError>)
        requires
            old(self).wf(),
        ensures
            final(self).wf(),
            final(self).same_setup(old(self)),
            is_prefix_of_entries(old(self).cache()@, final(self).cache()@),
            match (r, old(self).plan(filepath@, pkg@, module@, views(deps@), is_ns_pkg_init)) {
                (Ok(Added::Ignored), Ok(Plan::Ignored)) => final(self).same_graph(old(self))
                    && final(self).cache()@ == old(self).cache()@,
                (Ok(Added::Shadowed), Ok(Plan::Shadowed)) => final(self).same_graph(old(self))
                    && final(self).cache()@ == old(self).cache()@,
                (Ok(Added::Module(m)), Ok(Plan::Module { id, entries, found, missing, keeps })) => {
                    &&& m == id
                    &&& final(self).cache()@ == entries
                    &&& final(self).edges()@.len() == entries.len()
                    &&& forall|a: int, b: int| #[trigger]
                        has_edge(final(self).edges()@, a, b) <==> links_after(
                            old(self).edges()@,
                            id,
                            found,
                            keeps,
                            a,
                            b,
                        )
                    &&& forall|p: Seq<char>, x: ModuleRef| #[trigger]
                        is_recorded(final(self).unresolved_imports()@, p, x) <==> is_recorded(
                            old(self).unresolved_imports()@,
                            p,
                            x,
                        ) || (x == id && missing.contains(p))
                },
                (Err(e), Err(e2)) => e == e2,
                _ => false,
            },
            r matches Ok(Added::Module(m)) ==> (m as int) < final(self).cache()@.len()
                && final(self).cache()@[m as int].py == module@
                && final(self).cache()@[m as int].pkg == old(self).namespace_of(module@, pkg@),
    {
        let is_local = match self.is_local(module) {
            None => {
                return Ok(Added::Ignored);
            },
            Some(l) => l,
        };
        let k = match rfind_char(filepath, '.') {
            None => {
                return Err(GraphError::NoFileSuffix);
            },
            Some(k) => k,
        };
        proof {
            lemma_last_index_of(filepath@, '.');
        }
        let parent = take_chars(filepath, k);
        if self.files.exists_case_sensitive(parent, "__init__.py")
            || self.files.exists_case_sensitive(parent, "__init__.pyi") {
            return Ok(Added::Shadowed);
        }
        let (imports, unresolved_names) = match self.scan_imports(pkg, deps) {
            Ok(p) => p,
            Err(e) => {
                return Err(GraphError::Cache(e));
            },
        };
        let nspkg = is_ns_pkg_init || self.import_matcher.strict_prefix(module, '.');
        if is_local && !self.near_all(&imports, pkg) {
            return Err(GraphError::Neighbor);
        }
        proof {
            reveal_strlit("");
            assert(""@ =~= Seq::<char>::empty());
        }
        let created = if nspkg && !is_local {
            self.modules_refs.try_get_or_create("", module, None)
        } else if is_local {
            self.modules_refs.try_get_or_create(filepath, module, Some(pkg))
        } else {
            self.modules_refs.try_get_or_create(filepath, module, None)
        };
        let module_ref = match created {
            Ok(id) => id,
            Err(e) => {
                return Err(GraphError::Cache(e));
            },
        };
        proof {
            let scanned = old(self).scan(old(self).cache()@, pkg@, views(deps@))->Ok_0;
            lemma_request_keeps(
                scanned.entries,
                self.sep,
                if nspkg && !is_local {
                    Seq::<char>::empty()
                } else {
                    filepath@
                },
                module@,
                if is_local {
                    Some(pkg@)
                } else {
                    None
                },
            );
        }
        self.record_all(&unresolved_names, module_ref);
        self.link_all(module_ref, &imports, nspkg);
        Ok(Added::Module(module_ref))
    }

    /// The modules that a list of extra dependencies stands for: for `x.*` the modules
    /// directly below `x`, for anything else the module of that import path in the
    /// global namespace, or of its longest enclosing import path that has one.
    pub open spec fn dynamic_targets(&self, deps: Seq<Seq<char>>) -> Set<int> {
        Set::new(
            |x: int|
                0 <= x < self.cache()@.len() && exists|i: int|
                    0 <= i < deps.len() && self.is_dynamic_target(#[trigger] deps[i], x),
        )
    }

    /// Whether the extra dependency `dep` stands for module `x`.
    pub open spec fn is_dynamic_target(&self, dep: Seq<char>, x: int) -> bool {
        if has_suffix(dep, ".*"@) {
            is_directly_below(self.cache()@[x].py, dep.drop_last())
        } else {
            self.module_or_parent_of(dep) == Some(x)
        }
    }

    /// Adds an edge from module `r` to each module that one of `deps` stands for.
    pub fn add_dynamic_dep(&mut self, r: ModuleRef, deps: &Vec<String>)
        requires
            old(self).wf(),
            (r as int) < old(self).cache()@.len(),
        ensures
            final(self).wf(),
            final(self).same_setup(old(self)),
            final(self).cache() == old(self).cache(),
            final(self).unresolved_imports() == old(self).unresolved_imports(),
            forall|a: int, b: int|
                #[trigger] has_edge(final(self).edges()@, a, b) <==> has_edge(old(self).edges()@, a, b) || (a
                    == r && b != r && old(self).dynamic_targets(views(deps@)).contains(b)),
    {
        let ghost mid = *self;
        let ghost edges0 = self.global_ns@;
        let ghost all = views(deps@);
        let total = self.modules_refs.max_value();
        self.global_ns.grow(total);
        proof {
            assert forall|a: int, b: int| has_edge(self.global_ns@, a, b) <==> has_edge(
                edges0,
                a,
                b,
            ) by {
                if has_edge(self.global_ns@, a, b) {
                    let t = choose|t: int|
                        0 <= t < self.global_ns@[a].len() && #[trigger] self.global_ns@[a][t] == b;
                    assert(a < edges0.len());
                }
                if has_edge(edges0, a, b) {
                    assert(self.global_ns@[a] == edges0[a]);
                }
            }
            assert(mid.dynamic_targets(all.take(0)) =~= Set::<int>::empty());
        }
        let mut i: usize = 0;
        while i < deps.len()
            invariant
                i <= deps@.len(),
                mid.wf(),
                self.same_but_graph(&mid),
                self.unresolved == mid.unresolved,
                all == views(deps@),
                self.global_ns.wf(),
                self.global_ns@.len() == total,
                total == mid.modules_refs@.len(),
                (r as int) < total,
                forall|a: int, b: int|
                    #[trigger] has_edge(self.global_ns@, a, b) <==> has_edge(edges0, a, b) || (a == r && b != r
                        && mid.dynamic_targets(all.take(i as int)).contains(b)),
            decreases deps@.len() - i,
        {
            let dep = deps[i].as_str();
            let n = dep.unicode_len();
            let ghost before = self.global_ns@;
            let ghost done = mid.dynamic_targets(all.take(i as int));
            let ghost next = mid.dynamic_targets(all.take(i + 1));
            proof {
                assert(all[i as int] == dep@);
                assert forall|x: int|
                    next.contains(x) <==> done.contains(x) || (0 <= x < total
                        && mid.is_dynamic_target(dep@, x)) by {
                    if next.contains(x) {
                        let j = choose|j: int|
                            0 <= j < all.take(i + 1).len() && mid.is_dynamic_target(
                                #[trigger] all.take(i + 1)[j],
                                x,
                            );
                        if j < i {
                            assert(all.take(i as int)[j] == all.take(i + 1)[j]);
                        }
                    }
                    if done.contains(x) {
                        let j = choose|j: int|
                            0 <= j < all.take(i as int).len() && mid.is_dynamic_target(
                                #[trigger] all.take(i as int)[j],
                                x,
                            );
                        assert(all.take(i + 1)[j] == all.take(i as int)[j]);
                    }
                    if 0 <= x < total && mid.is_dynamic_target(dep@, x) {
                        assert(all.take(i + 1)[i as int] == dep@);
                    }
                }
            }
            if ends_with(dep, ".*") {
                proof {
                    reveal_strlit(".*");
                }
                let prefix = take_chars(dep, n - 1);
                assert(prefix@ =~= dep@.drop_last());
                let plen = prefix.unicode_len();
                let mut m: ModuleRef = 0;
                while m < total
                    invariant
                        m <= total,
                        mid.wf(),
                        self.same_but_graph(&mid),
                        self.unresolved == mid.unresolved,
                        self.global_ns.wf(),
                        self.global_ns@.len() == total,
                        total == mid.modules_refs@.len(),
                        (r as int) < total,
                        plen == prefix@.len(),
                        forall|a: int, b: int|
                            #[trigger] has_edge(self.global_ns@, a, b) <==> has_edge(before, a, b) || (a == r
                                && b != r && 0 <= b < m && is_directly_below(
                                mid.modules_refs@[b].py,
                                prefix@,
                            )),
                    decreases total - m,
                {
                    let py = self.modules_refs.py_for_ref(m);
                    let ghost prev = self.global_ns@;
                    let hit = starts_with(py, prefix) && !crate::text::contains_char(
                        skip_chars(py, plen),
                        '.',
                    );
                    if hit {
                        self.global_ns.add_edge(r, m);
                    }
                    proof {
                        assert(hit == is_directly_below(mid.modules_refs@[m as int].py, prefix@));
                        assert forall|a: int, b: int|
                            #[trigger] has_edge(self.global_ns@, a, b) <==> has_edge(before, a, b) || (a == r
                                && b != r && 0 <= b < m + 1 && is_directly_below(
                                mid.modules_refs@[b].py,
                                prefix@,
                            )) by {
                            assert(has_edge(prev, a, b) <==> has_edge(before, a, b) || (a == r && b
                                != r && 0 <= b < m && is_directly_below(
                                mid.modules_refs@[b].py,
                                prefix@,
                            )));
                            if hit {
                                assert(has_edge(self.global_ns@, a, b) <==> has_edge(prev, a, b)
                                    || (a == r && b == m && r != m));
                            }
                        }
                    }
                    m += 1;
                }
            } else {
                proof {
                    assert(self.modules_refs == mid.modules_refs);
                }
                let ghost prev = self.global_ns@;
                let found = self.module_or_parent(dep);
                if let Some(x) = found {
                    self.global_ns.add_edge(r, x);
                }
                proof {
                    assert forall|a: int, b: int|
                        #[trigger] has_edge(self.global_ns@, a, b) <==> has_edge(before, a, b) || (a == r && b
                            != r && 0 <= b < total && mid.is_dynamic_target(dep@, b)) by {
                        if let Some(x) = found {
                            assert(has_edge(self.global_ns@, a, b) <==> has_edge(prev, a, b) || (a
                                == r && b == x && r != x));
                        }
                    }
                }
            }
            proof {
                assert forall|a: int, b: int|
                    #[trigger] has_edge(self.global_ns@, a, b) <==> has_edge(edges0, a, b) || (a == r && b != r
                        && next.contains(b)) by {
                    assert(has_edge(before, a, b) <==> has_edge(edges0, a, b) || (a == r && b != r
                        && done.contains(b)));
                    assert(has_edge(self.global_ns@, a, b) <==> has_edge(before, a, b) || (a == r
                        && b != r && 0 <= b < total && mid.is_dynamic_target(dep@, b)));
                    assert(next.contains(b) <==> done.contains(b) || (0 <= b < total
                        && mid.is_dynamic_target(dep@, b)));
                }
            }
            i += 1;
        }
        proof {
            assert(all.take(deps@.len() as int) =~= all);
        }
    }

    /// The edges that the rules `rules` add: from the module that the first part of a
    /// rule stands for to the modules that its dependencies stand for.
    pub open spec fn is_dynamic_edge(
        &self,
        rules: Seq<(Seq<char>, Seq<Seq<char>>)>,
        a: int,
        b: int,
    ) -> bool {
        exists|i: int|
            0 <= i < rules.len() && self.cache().first_match((#[trigger] rules[i]).0) == Some(a)
                && a != b && self.dynamic_targets(rules[i].1).contains(b)
    }

    /// Adds the edges that the rules stand for. A rule whose first part stands for no
    /// module adds nothing.
    pub fn add_dynamic_dependencies(&mut self, dynamic_edges: &Vec<(String, Vec<String>)>)
        requires
            old(self).wf(),
        ensures
            final(self).wf(),
            final(self).same_setup(old(self)),
            final(self).cache() == old(self).cache(),
            final(self).unresolved_imports() == old(self).unresolved_imports(),
            forall|a: int, b: int|
                #[trigger] has_edge(final(self).edges()@, a, b) <==> has_edge(old(self).edges()@, a, b)
                    || old(self).is_dynamic_edge(crate::splice::unified_view(dynamic_edges@), a, b),
    {
        let ghost rules = crate::splice::unified_view(dynamic_edges@);
        let ghost edges0 = self.global_ns@;
        let ghost mid = *self;
        let mut i: usize = 0;
        while i < dynamic_edges.len()
            invariant
                i <= dynamic_edges@.len(),
                self.wf(),
                self.same_setup(&mid),
                self.cache() == mid.cache(),
                self.unresolved_imports() == mid.unresolved_imports(),
                rules == crate::splice::unified_view(dynamic_edges@),
                forall|a: int, b: int|
                    #[trigger] has_edge(self.edges()@, a, b) <==> has_edge(edges0, a, b)
                        || mid.is_dynamic_edge(rules.take(i as int), a, b),
            decreases dynamic_edges@.len() - i,
        {
            let ghost before = self.global_ns@;
            let ghost snap = *self;
            let found = self.modules_refs.first_matching_ref(dynamic_edges[i].0.as_str());
            if let Some(r) = found {
                self.add_dynamic_dep(r, &dynamic_edges[i].1);
            }
            proof {
                let done = rules.take(i as int);
                let next = rules.take(i + 1);
                assert(snap.cache() == mid.cache());
                assert(next[i as int] == (dynamic_edges@[i as int].0@, views(dynamic_edges@[i as int].1@)));
                assert(snap.dynamic_targets(next[i as int].1) == mid.dynamic_targets(
                    next[i as int].1,
                ));
                assert forall|a: int, b: int|
                    mid.is_dynamic_edge(next, a, b) <==> mid.is_dynamic_edge(done, a, b) || (
                    mid.cache().first_match(next[i as int].0) == Some(a) && a != b
                        && mid.dynamic_targets(next[i as int].1).contains(b)) by {
                    if mid.is_dynamic_edge(next, a, b) {
                        let j = choose|j: int|
                            0 <= j < next.len() && mid.cache().first_match((#[trigger] next[j]).0)
                                == Some(a) && a != b && mid.dynamic_targets(next[j].1).contains(b);
                        if j < i {
                            assert(done[j] == next[j]);
                        }
                    }
                    if mid.is_dynamic_edge(done, a, b) {
                        let j = choose|j: int|
                            0 <= j < done.len() && mid.cache().first_match((#[trigger] done[j]).0)
                                == Some(a) && a != b && mid.dynamic_targets(done[j].1).contains(b);
                        assert(next[j] == done[j]);
                    }
                    if mid.cache().first_match(next[i as int].0) == Some(a) && a != b
                        && mid.dynamic_targets(next[i as int].1).contains(b) {
                        assert(0 <= i < next.len());
                    }
                }
                assert forall|a: int, b: int|
                    #[trigger] has_edge(self.edges()@, a, b) <==> has_edge(edges0, a, b)
                        || mid.is_dynamic_edge(next, a, b) by {
                    assert(has_edge(before, a, b) <==> has_edge(edges0, a, b)
                        || mid.is_dynamic_edge(done, a, b));
                    if let Some(r) = found {
                        assert(has_edge(self.edges()@, a, b) <==> has_edge(before, a, b) || (a == r
                            && b != r && snap.dynamic_targets(next[i as int].1).contains(b)));
                    }
                }
            }
            i += 1;
        }
        proof {
            assert(rules.take(dynamic_edges@.len() as int) =~= rules);
        }
    }

    /// Whether the file `path` is listed.
    pub fn file_present(&self, path: &str) -> (r: bool)
        requires
            self.wf(),
        ensures
            r == crate::resolve::is_present(self.file_tree(), self.separator(), path@),
    {
        let n = path.unicode_len();
        match rfind_char(path, self.sep) {
            None => false,
            Some(k) => {
                proof {
                    lemma_last_index_of(path@, self.sep);
                }
                self.files.exists_case_sensitive(take_chars(path, k), skip_chars(path, k + 1))
            },
        }
    }

    /// Whether the file `filepath` is analysed: a `.py` file always; a `.pyx` or `.pyi`
    /// file where no `.py` file of the same stem is listed, and for a `.pyi` file no
    /// `.pyx` file either.
    pub open spec fn eligible(&self, filepath: Seq<char>) -> bool {
        let present = |p: Seq<char>|
            crate::resolve::is_present(self.file_tree(), self.separator(), p);
        if has_suffix(filepath, ".py"@) {
            true
        } else if (has_suffix(filepath, ".pyx"@) || has_suffix(filepath, ".pyi"@)) && !present(
            filepath.drop_last(),
        ) {
            !(has_suffix(filepath, "i"@) && present(filepath.drop_last() + "x"@))
        } else {
            false
        }
    }

    /// Whether the file `filepath` is analysed.
    pub fn is_eligible(&self, filepath: &str) -> (r: bool)
        requires
            self.wf(),
        ensures
            r == self.eligible(filepath@),
    {
        proof {
            reveal_strlit(".pyx");
            reveal_strlit(".pyi");
            reveal_strlit("i");
            reveal_strlit("x");
        }
        if ends_with(filepath, ".py") {
            return true;
        }
        if !(ends_with(filepath, ".pyx") || ends_with(filepath, ".pyi")) {
            return false;
        }
        let n = filepath.unicode_len();
        let stem = take_chars(filepath, n - 1);
        assert(stem@ =~= filepath@.drop_last());
        if self.file_present(stem) {
            return false;
        }
        if ends_with(filepath, "i") {
            let mut other = stem.to_owned();
            other.append("x");
            if self.file_present(other.as_str()) {
                return false;
            }
        }
        true
    }

    /// For a file under a source root: the root, the import path of the file with its
    /// `__init__` if it has one, and the import path of the module.
    pub open spec fn module_of_file(&self, filepath: Seq<char>) -> Option<
        (Seq<char>, Seq<char>, Seq<char>),
    > {
        match self.fs_to_py_of(filepath) {
            None => None,
            Some(p) => match last_index_of(p.1, '.') {
                None => None,
                Some(k) => {
                    let with_init = replaced(p.1.take(k), self.separator(), '.');
                    Some(
                        (
                            p.0,
                            with_init,
                            if has_suffix(with_init, ".__init__"@) {
                                with_init.take(with_init.len() - 9)
                            } else {
                                with_init
                            },
                        ),
                    )
                },
            },
        }
    }

    /// For a file under a source root: the root, the import path under which its
    /// relative imports are read, and the import path of the module.
    pub fn module_for_file(&self, filepath: &str) -> (r: Option<(String, String, String)>)
        requires
            self.wf(),
        ensures
            match (r, self.module_of_file(filepath@)) {
                (Some(p), Some(q)) => p.0@ == q.0 && p.1@ == q.1 && p.2@ == q.2,
                (None, None) => true,
                _ => false,
            },
    {
        match self.fs_to_py(filepath) {
            None => None,
            Some(p) => {
                match rfind_char(p.1.as_str(), '.') {
                    None => None,
                    Some(k) => {
                        proof {
                            lemma_last_index_of(p.1@, '.');
                            reveal_strlit(".__init__");
                        }
                        let with_init = replace_char(take_chars(p.1.as_str(), k), self.sep, '.');
                        let n = with_init.as_str().unicode_len();
                        let module = if ends_with(with_init.as_str(), ".__init__") {
                            take_chars(with_init.as_str(), n - 9).to_owned()
                        } else {
                            with_init.clone()
                        };
                        Some((p.0.to_owned(), with_init, module))
                    },
                }
            },
        }
    }

    /// Every module has an edge to the module of each enclosing import path, in its own
    /// namespace.
    pub open spec fn parents_are_linked(&self) -> bool {
        forall|n: int, k: int|
            0 <= n < self.cache()@.len() && 0 <= k < self.cache()@[n].py.len()
                && #[trigger] self.cache()@[n].py[k] == '.' ==> py_known(
                self.cache()@,
                self.cache()@[n].py.take(k),
                self.cache()@[n].pkg,
            ) && has_edge(
                self.edges()@,
                n,
                py_index(self.cache()@, self.cache()@[n].py.take(k), self.cache()@[n].pkg),
            )
    }

    /// The edges are those of `before` and an edge from every module to the module of
    /// each enclosing import path, in its own namespace.
    pub open spec fn links_parents_of(&self, before: Seq<Seq<ModuleRef>>) -> bool {
        forall|a: int, b: int| #[trigger]
            has_edge(self.edges()@, a, b) <==> has_edge(before, a, b) || is_parent_link(
                self.cache()@,
                a,
                b,
            )
    }

    /// All but the modules is as in `o`.
    spec fn same_but_cache(&self, o: &ModuleGraph) -> bool {
        &&& self.same_but_graph_and_cache(o)
        &&& self.unresolved == o.unresolved
        &&& self.global_ns == o.global_ns
    }

    /// Gives every enclosing import path of every module a module in the module's own
    /// namespace: one without a file where there is none yet. Fails where no id is left
    /// for one of them.
    fn create_parents(&mut self) -> (r: Result<(), GraphError>)
        requires
            old(self).wf(),
        ensures
            final(self).wf(),
            final(self).same_setup(old(self)),
            final(self).same_graph(old(self)),
            is_prefix_of_entries(old(self).cache()@, final(self).cache()@),
            match r {
                Ok(()) => final(self).cache()@ == reified(old(self).cache()@) && forall|j: int|
                    0 <= j < final(self).cache()@.len() ==> has_parents(final(self).cache()@, j),
                Err(e) => e == GraphError::Cache(CacheError::Full) && reified(
                    old(self).cache()@,
                ).len() > u32::MAX,
            },
    {
        let ghost mid = *self;
        let ghost entries0 = self.modules_refs@;
        let count = self.modules_refs.max_value();
        let mut n: ModuleRef = 0;
        while n < count
            invariant
                mid == *old(self),
                entries0 == mid.modules_refs@,
                mid.wf(),
                self.same_but_cache(&mid),
                self.modules_refs.wf(),
                self.modules_refs.separator() == self.sep,
                is_prefix_of_entries(entries0, self.modules_refs@),
                count == entries0.len(),
                n <= count,
                self.modules_refs@ == reified_upto(entries0, n as int),
                forall|j: int| 0 <= j < n ==> has_parents(self.modules_refs@, j),
                forall|j: int|
                    entries0.len() <= j < self.modules_refs@.len() ==> has_parents(
                        self.modules_refs@,
                        j,
                    ),
            decreases count - n,
        {
            let py: String = self.modules_refs.py_for_ref(n).to_owned();
            let pkg: Option<String> = match self.modules_refs.pkg_for_ref(n) {
                Some(p) => Some(p.to_owned()),
                None => None,
            };
            let owner: Option<&str> = match &pkg {
                Some(p) => Some(p.as_str()),
                None => None,
            };
            let total = py.as_str().unicode_len();
            let mut at: usize = total;
            let ghost me = self.modules_refs@[n as int];
            let ghost start = self.modules_refs@;
            proof {
                assert(me == entries0[n as int]);
                assert(py@.take(total as int) =~= py@);
                assert(reified_upto(entries0, n + 1) == with_parents(
                    start,
                    py@,
                    me.pkg,
                    total as int,
                ));
                lemma_reified_grows(entries0, n + 1, entries0.len() as int);
            }
            while at > 0
                invariant
                    mid == *old(self),
                    entries0 == mid.modules_refs@,
                    mid.wf(),
                    self.same_but_cache(&mid),
                    self.modules_refs.wf(),
                    self.modules_refs.separator() == self.sep,
                    is_prefix_of_entries(entries0, start),
                    is_prefix_of_entries(start, self.modules_refs@),
                    (n as int) < entries0.len(),
                    self.modules_refs@[n as int] == me,
                    me.py == py@,
                    me.pkg == opt_str_chars(owner),
                    at <= total,
                    total == py@.len(),
                    with_parents(self.modules_refs@, py@, me.pkg, at as int) == with_parents(
                        start,
                        py@,
                        me.pkg,
                        total as int,
                    ),
                    reified(entries0).len() >= with_parents(start, py@, me.pkg, total as int).len(),
                    forall|k: int|
                        at <= k < py@.len() && #[trigger] py@[k] == '.' ==> py_known(
                            self.modules_refs@,
                            py@.take(k),
                            me.pkg,
                        ),
                    forall|j: int| 0 <= j < n ==> has_parents(self.modules_refs@, j),
                    forall|j: int|
                        entries0.len() <= j < start.len() ==> has_parents(self.modules_refs@, j),
                    forall|j: int|
                        start.len() <= j < self.modules_refs@.len() ==> is_cut_of(
                            self.modules_refs@[j],
                            py@,
                            me.pkg,
                        ),
                decreases at,
            {
                let head = take_chars(py.as_str(), at);
                let found = rfind_char(head, '.');
                proof {
                    lemma_last_index_of(head@, '.');
                }
                let k = match found {
                    None => {
                        proof {
                            assert forall|j: int| 0 <= j < at implies py@[j] != '.' by {
                                assert(head@[j] == py@[j]);
                            }
                        }
                        at = 0;
                        continue ;
                    },
                    Some(k) => k,
                };
                proof {
                    assert forall|j: int| k < j < at implies py@[j] != '.' by {
                        assert(head@[j] == py@[j]);
                    }
                    assert(head@[k as int] == py@[k as int]);
                    reveal_strlit("");
                    assert(""@ =~= Seq::<char>::empty());
                    lemma_no_separator_in_prefix(py@, k as int, self.sep);
                    assert(!self.modules_refs@[n as int].py.contains(self.sep));
                }
                let parent = take_chars(py.as_str(), k);
                let ghost before = self.modules_refs@;
                let ghost next = after_request(before, Seq::<char>::empty(), parent@, me.pkg);
                proof {
                    lemma_with_parents_grows(next, py@, me.pkg, k as int);
                }
                match self.modules_refs.try_get_or_create("", parent, owner) {
                    Ok(_) => {},
                    Err(e) => {
                        return Err(GraphError::Cache(e));
                    },
                }
                proof {
                    let entries = self.modules_refs@;
                    lemma_request(before, self.sep, Seq::<char>::empty(), parent@, me.pkg);
                    let id = id_of_request(before, Seq::<char>::empty(), parent@, me.pkg);
                    assert(entries[id].py == parent@ && entries[id].pkg == me.pkg);
                    assert forall|j: int|
                        k <= j < py@.len() && #[trigger] py@[j] == '.' implies py_known(
                        entries,
                        py@.take(j),
                        me.pkg,
                    ) by {
                        if j != k {
                            lemma_known_kept(before, entries, py@.take(j), me.pkg);
                        }
                    }
                    assert forall|j: int| 0 <= j < n implies has_parents(entries, j) by {
                        lemma_has_parents_kept(before, entries, j);
                    }
                    assert forall|j: int| entries0.len() <= j < start.len() implies has_parents(
                        entries,
                        j,
                    ) by {
                        lemma_has_parents_kept(before, entries, j);
                    }
                    assert forall|j: int| start.len() <= j < entries.len() implies is_cut_of(
                        entries[j],
                        py@,
                        me.pkg,
                    ) by {
                        if j >= before.len() {
                            assert(entries[j].py == py@.take(k as int));
                        } else {
                            assert(entries[j] == before[j]);
                        }
                    }
                }
                at = k;
            }
            proof {
                let entries = self.modules_refs@;
                assert(has_parents(entries, n as int));
                assert forall|j: int| entries0.len() <= j < entries.len() implies has_parents(
                    entries,
                    j,
                ) by {
                    if j >= start.len() {
                        lemma_cut_has_parents(entries, j, py@, me.pkg);
                    }
                }
                assert(start[n as int] == me);
            }
            n += 1;
        }
        Ok(())
    }

    /// Gives every module an edge to the module of each enclosing import path, in the
    /// module's own namespace.
    fn link_parents(&mut self)
        requires
            old(self).wf(),
            forall|j: int| 0 <= j < old(self).cache()@.len() ==> has_parents(old(self).cache()@, j),
        ensures
            final(self).wf(),
            final(self).same_setup(old(self)),
            final(self).cache() == old(self).cache(),
            final(self).unresolved_imports() == old(self).unresolved_imports(),
            final(self).edges()@.len() == final(self).cache()@.len(),
            final(self).parents_are_linked(),
            final(self).links_parents_of(old(self).edges()@),
    {
        let ghost mid = *self;
        let ghost edges0 = self.global_ns@;
        let ghost entries = self.modules_refs@;
        let count = self.modules_refs.max_value();
        self.global_ns.grow(count);
        proof {
            assert forall|a: int, b: int| has_edge(self.global_ns@, a, b) <==> has_edge(
                edges0,
                a,
                b,
            ) by {
                if has_edge(self.global_ns@, a, b) {
                    lemma_edge_before_growth(edges0, self.global_ns@, a, b);
                }
                if has_edge(edges0, a, b) {
                    assert(self.global_ns@[a] == edges0[a]);
                }
            }
        }
        let mut n: ModuleRef = 0;
        while n < count
            invariant
                mid == *old(self),
                edges0 == mid.global_ns@,
                entries == mid.modules_refs@,
                mid.wf(),
                self.same_but_graph_and_cache(&mid),
                self.unresolved == mid.unresolved,
                self.modules_refs == mid.modules_refs,
                self.global_ns.wf(),
                self.global_ns@.len() == entries.len(),
                count == entries.len(),
                n <= count,
                forall|j: int| 0 <= j < entries.len() ==> has_parents(entries, j),
                forall|a: int, b: int|
                    has_edge(edges0, a, b) ==> #[trigger] has_edge(self.global_ns@, a, b),
                forall|a: int, b: int| #[trigger]
                    has_edge(self.global_ns@, a, b) ==> has_edge(edges0, a, b) || is_parent_link(
                        entries,
                        a,
                        b,
                    ),
                forall|m: int, k: int|
                    0 <= m < n && 0 <= k < entries[m].py.len() && #[trigger] entries[m].py[k]
                        == '.' ==> has_edge(
                        self.global_ns@,
                        m,
                        py_index(entries, entries[m].py.take(k), entries[m].pkg),
                    ),
            decreases count - n,
        {
            let py: String = self.modules_refs.py_for_ref(n).to_owned();
            let pkg: Option<String> = match self.modules_refs.pkg_for_ref(n) {
                Some(p) => Some(p.to_owned()),
                None => None,
            };
            let owner: Option<&str> = match &pkg {
                Some(p) => Some(p.as_str()),
                None => None,
            };
            let total = py.as_str().unicode_len();
            let mut at: usize = total;
            let ghost me = entries[n as int];
            while at > 0
                invariant
                    mid == *old(self),
                    edges0 == mid.global_ns@,
                    entries == mid.modules_refs@,
                    mid.wf(),
                    self.same_but_graph_and_cache(&mid),
                    self.unresolved == mid.unresolved,
                    self.modules_refs == mid.modules_refs,
                    self.global_ns.wf(),
                    self.global_ns@.len() == entries.len(),
                    (n as int) < entries.len(),
                    me == entries[n as int],
                    me.py == py@,
                    me.pkg == opt_str_chars(owner),
                    at <= total,
                    total == py@.len(),
                    forall|j: int| 0 <= j < entries.len() ==> has_parents(entries, j),
                    forall|a: int, b: int|
                        has_edge(edges0, a, b) ==> #[trigger] has_edge(self.global_ns@, a, b),
                    forall|a: int, b: int| #[trigger]
                        has_edge(self.global_ns@, a, b) ==> has_edge(edges0, a, b)
                            || is_parent_link(entries, a, b),
                    forall|m: int, k: int|
                        0 <= m < n && 0 <= k < entries[m].py.len() && #[trigger] entries[m].py[k]
                            == '.' ==> has_edge(
                            self.global_ns@,
                            m,
                            py_index(entries, entries[m].py.take(k), entries[m].pkg),
                        ),
                    forall|k: int|
                        at <= k < py@.len() && #[trigger] py@[k] == '.' ==> has_edge(
                            self.global_ns@,
                            n as int,
                            py_index(entries, py@.take(k), me.pkg),
                        ),
                decreases at,
            {
                let head = take_chars(py.as_str(), at);
                let found = rfind_char(head, '.');
                proof {
                    lemma_last_index_of(head@, '.');
                }
                let k = match found {
                    None => {
                        proof {
                            assert forall|j: int| 0 <= j < at implies py@[j] != '.' by {
                                assert(head@[j] == py@[j]);
                            }
                        }
                        at = 0;
                        continue ;
                    },
                    Some(k) => k,
                };
                proof {
                    assert forall|j: int| k < j < at implies py@[j] != '.' by {
                        assert(head@[j] == py@[j]);
                    }
                    assert(head@[k as int] == py@[k as int]);
                    assert(has_parents(entries, n as int));
                    assert(entries[n as int].py[k as int] == '.');
                }
                let parent = take_chars(py.as_str(), k);
                let ghost edges_before = self.global_ns@;
                if let Some(pref) = self.modules_refs.ref_for_py(parent, owner) {
                    self.global_ns.add_edge(n, pref);
                    proof {
                        assert(pref != n) by {
                            if pref == n {
                                assert(parent@.len() == py@.len());
                            }
                        }
                        assert forall|a: int, b: int| #[trigger]
                            has_edge(self.global_ns@, a, b) implies has_edge(edges0, a, b)
                            || is_parent_link(entries, a, b) by {
                            if !has_edge(edges_before, a, b) {
                                assert(a == n && b == pref);
                                assert(py@.take(k as int) == parent@);
                            }
                        }
                        assert forall|m: int, j: int|
                            0 <= m < n && 0 <= j < entries[m].py.len() && #[trigger] entries[m].py[j]
                                == '.' implies has_edge(
                            self.global_ns@,
                            m,
                            py_index(entries, entries[m].py.take(j), entries[m].pkg),
                        ) by {
                            assert(has_edge(
                                edges_before,
                                m,
                                py_index(entries, entries[m].py.take(j), entries[m].pkg),
                            ));
                        }
                        assert forall|j: int| k <= j < py@.len() && #[trigger] py@[j] == '.' implies has_edge(
                            self.global_ns@,
                            n as int,
                            py_index(entries, py@.take(j), me.pkg),
                        ) by {
                            if j != k {
                                assert(has_edge(
                                    edges_before,
                                    n as int,
                                    py_index(entries, py@.take(j), me.pkg),
                                ));
                            }
                        }
                    }
                }
                at = k;
            }
            n += 1;
        }
        proof {
            assert forall|a: int, b: int| #[trigger]
                has_edge(self.global_ns@, a, b) <==> has_edge(edges0, a, b) || is_parent_link(
                    entries,
                    a,
                    b,
                ) by {
                if is_parent_link(entries, a, b) {
                    let k = choose|k: int|
                        0 <= k < entries[a].py.len() && #[trigger] entries[a].py[k] == '.'
                            && py_known(entries, entries[a].py.take(k), entries[a].pkg) && b
                            == py_index(entries, entries[a].py.take(k), entries[a].pkg);
                }
            }
            assert forall|m: int, k: int|
                0 <= m < entries.len() && 0 <= k < entries[m].py.len() && #[trigger] entries[m].py[k]
                    == '.' implies py_known(entries, entries[m].py.take(k), entries[m].pkg)
                && has_edge(
                self.global_ns@,
                m,
                py_index(entries, entries[m].py.take(k), entries[m].pkg),
            ) by {
                assert(has_parents(entries, m));
            }
        }
    }

    /// Adds, for every module, an edge to the module of each enclosing import path
    /// (`x.y.z` to `x.y` and to `x`), in the module's own namespace. An enclosing import
    /// path that has no module yet gets one without a file: the table of modules becomes
    /// `reified` of what it was. Fails exactly where that table needs more ids than
    /// there are; the edges are then as they were.
    pub fn reify_deps(&mut self) -> (r: Result<(), GraphError>)
        requires
            old(self).wf(),
        ensures
            final(self).wf(),
            final(self).same_setup(old(self)),
            final(self).unresolved_imports() == old(self).unresolved_imports(),
            is_prefix_of_entries(old(self).cache()@, final(self).cache()@),
            forall|a: int, b: int|
                has_edge(old(self).edges()@, a, b) ==> #[trigger] has_edge(final(self).edges()@, a, b),
            r is Ok <==> reified(old(self).cache()@).len() <= u32::MAX,
            match r {
                Ok(()) => final(self).cache()@ == reified(old(self).cache()@)
                    && final(self).edges()@.len() == final(self).cache()@.len()
                    && final(self).parents_are_linked()
                    && final(self).links_parents_of(old(self).edges()@),
                Err(e) => e == GraphError::Cache(CacheError::Full) && final(self).edges()
                    == old(self).edges(),
            },
    {
        match self.create_parents() {
            Ok(()) => {},
            Err(e) => {
                return Err(e);
            },
        }
        self.link_parents();
        Ok(())
    }

    /// All but the unresolved imports, the edges and the modules is as in `o`.
    spec fn same_but_graph_and_cache(&self, o: &ModuleGraph) -> bool {
        &&& self.sep == o.sep
        &&& self.source_roots == o.source_roots
        &&& self.import_roots == o.import_roots
        &&& self.global_prefixes == o.global_prefixes
        &&& self.local_prefixes == o.local_prefixes
        &&& self.external_prefixes == o.external_prefixes
        &&& self.import_matcher == o.import_matcher
        &&& self.package_matcher == o.package_matcher
        &&& self.files == o.files
    }

    /// Ends the collection: links every module to the modules of its enclosing import
    /// paths, then condenses the graph and closes it. Succeeds exactly where the table
    /// of modules, once every enclosing import path has a module, is no longer than a
    /// closure can hold.
    pub fn finalize(self) -> (r: Result<TransitiveClosure, GraphError>)
        requires
            self.wf(),
        ensures
            r is Ok <==> reified(self.cache()@).len() <= EDGE_CAPACITY,
            match r {
                Ok(tc) => {
                    &&& tc.wf()
                    &&& tc.entries() == reified(self.cache()@)
                    &&& is_prefix_of_entries(self.cache()@, tc.entries())
                    &&& tc.unresolved_imports() == self.unresolved_imports()
                    &&& tc.is_closed()
                    &&& tc.is_layered()
                    &&& exists|g: Seq<Seq<ModuleRef>>|
                        is_final_graph(g, self.edges()@, tc.entries()) && #[trigger] tc.condenses(g)
                    &&& forall|a: int, b: int| #[trigger]
                        has_edge(self.edges()@, a, b) ==> tc.reaches(a, b)
                    &&& forall|n: int, k: int|
                        0 <= n < tc.entries().len() && 0 <= k < tc.entries()[n].py.len()
                            && #[trigger] tc.entries()[n].py[k] == '.' ==> py_known(
                            tc.entries(),
                            tc.entries()[n].py.take(k),
                            tc.entries()[n].pkg,
                        ) && tc.reaches(
                            n,
                            py_index(
                                tc.entries(),
                                tc.entries()[n].py.take(k),
                                tc.entries()[n].pkg,
                            ),
                        )
                },
                Err(e) => if reified(self.cache()@).len() > u32::MAX {
                    e == GraphError::Cache(CacheError::Full)
                } else {
                    e == GraphError::TooManyModules
                },
            },
    {
        let mut g = self;
        match g.reify_deps() {
            Err(e) => {
                return Err(e);
            },
            Ok(()) => {},
        }
        if g.modules_refs.max_value() as usize > EDGE_CAPACITY {
            return Err(GraphError::TooManyModules);
        }
        let ghost reified = g;
        let tc = TransitiveClosure::from(&g.global_ns, g.modules_refs, g.unresolved);
        proof {
            assert(is_final_graph(reified.edges()@, self.edges()@, tc.entries()));
            assert(tc.condenses(reified.edges()@));
            assert forall|a: int, b: int| #[trigger] has_edge(self.edges()@, a, b) implies tc.reaches(
                a,
                b,
            ) by {
                assert(has_edge(reified.edges()@, a, b));
            }
            assert forall|n: int, k: int|
                0 <= n < tc.entries().len() && 0 <= k < tc.entries()[n].py.len()
                    && #[trigger] tc.entries()[n].py[k] == '.' implies py_known(
                tc.entries(),
                tc.entries()[n].py.take(k),
                tc.entries()[n].pkg,
            ) && tc.reaches(
                n,
                py_index(tc.entries(), tc.entries()[n].py.take(k), tc.entries()[n].pkg),
            ) by {
                assert(reified.cache()@[n].py[k] == '.');
                assert(has_edge(
                    reified.edges()@,
                    n,
                    py_index(
                        reified.cache()@,
                        reified.cache()@[n].py.take(k),
                        reified.cache()@[n].pkg,
                    ),
                ));
            }
        }
        Ok(tc)
    }
}

/// Module `b` is the module of an enclosing import path of module `a`, in the
/// namespace of `a`.
pub open spec fn is_parent_link(entries: Seq<Entry>, a: int, b: int) -> bool {
    0 <= a < entries.len() && exists|k: int|
        0 <= k < entries[a].py.len() && #[trigger] entries[a].py[k] == '.' && py_known(
            entries,
            entries[a].py.take(k),
            entries[a].pkg,
        ) && b == py_index(entries, entries[a].py.take(k), entries[a].pkg)
}

/// The table `entries` with a module for each enclosing import path of `py` that ends
/// before position `at`, in namespace `pkg`, the nearest first: one without a file
/// where the import path has no module yet.
pub open spec fn with_parents(
    entries: Seq<Entry>,
    py: Seq<char>,
    pkg: Option<Seq<char>>,
    at: int,
) -> Seq<Entry>
    decreases at,
{
    if at <= 0 || at > py.len() {
        entries
    } else {
        match last_index_of(py.take(at), '.') {
            Some(k) => if 0 <= k < at {
                with_parents(
                    after_request(entries, Seq::<char>::empty(), py.take(k), pkg),
                    py,
                    pkg,
                    k,
                )
            } else {
                entries
            },
            None => entries,
        }
    }
}

/// The table `entries` once the first `n` of its modules have a module for each of
/// their enclosing import paths.
pub open spec fn reified_upto(entries: Seq<Entry>, n: int) -> Seq<Entry>
    decreases n,
{
    if n <= 0 {
        entries
    } else {
        let prev = reified_upto(entries, n - 1);
        if n - 1 < prev.len() {
            with_parents(prev, prev[n - 1].py, prev[n - 1].pkg, prev[n - 1].py.len() as int)
        } else {
            prev
        }
    }
}

/// The table `entries` once every enclosing import path of every module has a module,
/// in the module's own namespace. The modules that this adds have all their enclosing
/// import paths among those of the module they were added for.
pub open spec fn reified(entries: Seq<Entry>) -> Seq<Entry> {
    reified_upto(entries, entries.len() as int)
}

/// Every enclosing import path of module `j` has a module in the namespace of `j`.
pub open spec fn has_parents(entries: Seq<Entry>, j: int) -> bool {
    forall|k: int|
        0 <= k < entries[j].py.len() && #[trigger] entries[j].py[k] == '.' ==> py_known(
            entries,
            entries[j].py.take(k),
            entries[j].pkg,
        )
}

/// `e` is a module of namespace `pkg` whose import path is an initial part of `py`.
pub open spec fn is_cut_of(e: Entry, py: Seq<char>, pkg: Option<Seq<char>>) -> bool {
    e.pkg == pkg && exists|k: int| 0 <= k <= py.len() && e.py == #[trigger] py.take(k)
}

/// What a table knows, a longer table knows.
pub proof fn lemma_known_kept(
    before: Seq<Entry>,
    after: Seq<Entry>,
    py: Seq<char>,
    pkg: Option<Seq<char>>,
)
    requires
        is_prefix_of_entries(before, after),
        py_known(before, py, pkg),
    ensures
        py_known(after, py, pkg),
{
    let i = py_index(before, py, pkg);
    assert(after[i] == before[i]);
}

/// A module that has its parents keeps them when modules are added.
pub proof fn lemma_has_parents_kept(before: Seq<Entry>, after: Seq<Entry>, j: int)
    requires
        is_prefix_of_entries(before, after),
        0 <= j < before.len(),
        has_parents(before, j),
    ensures
        has_parents(after, j),
{
    assert(after[j] == before[j]);
    assert forall|k: int|
        0 <= k < after[j].py.len() && #[trigger] after[j].py[k] == '.' implies py_known(
        after,
        after[j].py.take(k),
        after[j].pkg,
    ) by {
        assert(before[j].py[k] == '.');
        lemma_known_kept(before, after, before[j].py.take(k), before[j].pkg);
    }
}

/// A module whose import path is an initial part of `py` has its parents where every
/// enclosing import path of `py` has a module.
pub proof fn lemma_cut_has_parents(entries: Seq<Entry>, j: int, py: Seq<char>, pkg: Option<Seq<char>>)
    requires
        0 <= j < entries.len(),
        is_cut_of(entries[j], py, pkg),
        forall|k: int|
            0 <= k < py.len() && #[trigger] py[k] == '.' ==> py_known(entries, py.take(k), pkg),
    ensures
        has_parents(entries, j),
{
    let k0 = choose|k: int| 0 <= k <= py.len() && entries[j].py == #[trigger] py.take(k);
    assert forall|k: int|
        0 <= k < entries[j].py.len() && #[trigger] entries[j].py[k] == '.' implies py_known(
        entries,
        entries[j].py.take(k),
        entries[j].pkg,
    ) by {
        assert(py[k] == '.');
        assert(py.take(k0).take(k) =~= py.take(k));
    }
}

/// Giving parents adds modules and keeps those that are there.
pub proof fn lemma_with_parents_grows(
    entries: Seq<Entry>,
    py: Seq<char>,
    pkg: Option<Seq<char>>,
    at: int,
)
    ensures
        is_prefix_of_entries(entries, with_parents(entries, py, pkg, at)),
    decreases at,
{
    if 0 < at <= py.len() {
        match last_index_of(py.take(at), '.') {
            Some(k) => {
                if 0 <= k < at {
                    let next = after_request(entries, Seq::<char>::empty(), py.take(k), pkg);
                    lemma_with_parents_grows(next, py, pkg, k);
                    let last = with_parents(next, py, pkg, k);
                    assert forall|i: int| 0 <= i < entries.len() implies entries[i] == last[i] by {
                        assert(next[i] == entries[i]);
                    }
                }
            },
            None => {},
        }
    }
}

/// Giving more modules their parents adds modules and keeps those that are there.
pub proof fn lemma_reified_grows(entries: Seq<Entry>, n: int, m: int)
    requires
        n <= m,
    ensures
        is_prefix_of_entries(reified_upto(entries, n), reified_upto(entries, m)),
    decreases m - n,
{
    if n < m {
        lemma_reified_grows(entries, n, m - 1);
        if m > 0 {
            let prev = reified_upto(entries, m - 1);
            if m - 1 < prev.len() {
                lemma_with_parents_grows(
                    prev,
                    prev[m - 1].py,
                    prev[m - 1].pkg,
                    prev[m - 1].py.len() as int,
                );
            }
            let a = reified_upto(entries, n);
            let b = reified_upto(entries, m);
            assert forall|i: int| 0 <= i < a.len() implies a[i] == b[i] by {
                assert(prev[i] == a[i]);
            }
        }
    }
}

/// `g` is the graph that a builder with the edges `edges` ends with when its modules
/// are `entries`: it has those edges and an edge from every module to the module of
/// each enclosing import path.
pub open spec fn is_final_graph(
    g: Seq<Seq<ModuleRef>>,
    edges: Seq<Seq<ModuleRef>>,
    entries: Seq<Entry>,
) -> bool {
    &&& edges_inv(g)
    &&& g.len() == entries.len()
    &&& forall|a: int, b: int| #[trigger]
        has_edge(g, a, b) <==> has_edge(edges, a, b) || is_parent_link(entries, a, b)
}

/// A link to a parent stays one when modules are added.
pub proof fn lemma_parent_link_kept(
    before: Seq<Entry>,
    after: Seq<Entry>,
    sep: char,
    a: int,
    b: int,
)
    requires
        entries_inv(after, sep),
        is_prefix_of_entries(before, after),
        is_parent_link(before, a, b),
    ensures
        is_parent_link(after, a, b),
{
    let k = choose|k: int|
        0 <= k < before[a].py.len() && #[trigger] before[a].py[k] == '.' && py_known(
            before,
            before[a].py.take(k),
            before[a].pkg,
        ) && b == py_index(before, before[a].py.take(k), before[a].pkg);
    assert(after[a] == before[a]);
    assert(0 <= b < before.len());
    assert(after[b] == before[b]);
    crate::moduleref::lemma_py_index(after, sep, b);
    assert(after[a].py[k] == '.');
}

/// An edge of a table that was made longer was there before.
pub proof fn lemma_edge_before_growth(
    before: Seq<Seq<ModuleRef>>,
    after: Seq<Seq<ModuleRef>>,
    a: int,
    b: int,
)
    requires
        before.len() <= after.len(),
        forall|v: int| 0 <= v < before.len() ==> after[v] == before[v],
        forall|v: int| before.len() <= v < after.len() ==> after[v].len() == 0,
        has_edge(after, a, b),
    ensures
        has_edge(before, a, b),
{
    let i = choose|i: int| 0 <= i < after[a].len() && #[trigger] after[a][i] == b;
    assert(a < before.len());
    assert(before[a][i] == b);
}

/// A string without `sep` has no `sep` in any of its prefixes.
pub proof fn lemma_no_separator_in_prefix(s: Seq<char>, k: int, sep: char)
    requires
        0 <= k <= s.len(),
        !s.contains(sep),
    ensures
        !s.take(k).contains(sep),
{
    if s.take(k).contains(sep) {
        let i = choose|i: int| 0 <= i < k && s.take(k)[i] == sep;
        assert(s[i] == sep);
    }
}

/// A request that is not refused keeps what was known of import paths.
pub proof fn lemma_request_keeps(
    entries: Seq<Entry>,
    sep: char,
    fs: Seq<char>,
    py: Seq<char>,
    pkg: Option<Seq<char>>,
)
    requires
        entries_inv(entries, sep),
        conflict(entries, sep, fs, py, pkg) is None,
    ensures
        is_prefix_of_entries(entries, after_request(entries, fs, py, pkg)),
        entries_inv(after_request(entries, fs, py, pkg), sep),
{
    lemma_request(entries, sep, fs, py, pkg);
}

/// `py` is `prefix` followed by one more component.
pub open spec fn is_directly_below(py: Seq<char>, prefix: Seq<char>) -> bool {
    prefix.is_prefix_of(py) && !py.skip(prefix.len() as int).contains('.')
}

/// The packages `dpkg` and `pkg` lie in the same directory: what precedes the last
/// separator of the one is what precedes the last separator of the other.
pub open spec fn neighbors(dpkg: Seq<char>, pkg: Seq<char>, sep: char) -> bool {
    match (last_index_of(dpkg, sep), last_index_of(pkg, sep)) {
        (Some(a), Some(b)) => dpkg.take(a) == pkg.take(b),
        _ => false,
    }
}

/// Whether the packages `dpkg` and `pkg` lie in the same directory.
pub fn are_neighbors(dpkg: &str, pkg: &str, sep: char) -> (r: bool)
    ensures
        r == neighbors(dpkg@, pkg@, sep),
{
    match (rfind_char(dpkg, sep), rfind_char(pkg, sep)) {
        (Some(a), Some(b)) => {
            proof {
                lemma_last_index_of(dpkg@, sep);
                lemma_last_index_of(pkg@, sep);
            }
            str_eq(take_chars(dpkg, a), take_chars(pkg, b))
        },
        _ => false,
    }
}

/// What a scan of raw imports has gathered: the table of modules, the modules that the
/// imports stand for, and the import paths to record as not resolved.
pub struct Scan {
    pub entries: Seq<Entry>,
    pub found: Seq<ModuleRef>,
    pub missing: Seq<Seq<char>>,
}

/// What is to become of a file handed to the builder.
pub enum Plan {
    /// Nothing: its module is neither local nor global.
    Ignored,
    /// Nothing: a package of the same name hides it.
    Shadowed,
    /// It becomes module `id` of the table `entries`, with an edge to each of `found`
    /// and with `missing` recorded as not resolved; `keeps` says whether the edges that
    /// the module has stay.
    Module { id: int, entries: Seq<Entry>, found: Seq<ModuleRef>, missing: Seq<Seq<char>>, keeps: bool },
}

/// Module `m` has no owner, or is owned by `pkg` or by a neighbour of `pkg`.
pub open spec fn is_near(entries: Seq<Entry>, m: ModuleRef, pkg: Seq<char>, sep: char) -> bool {
    match entries[m as int].pkg {
        Some(d) => d == pkg || neighbors(d, pkg, sep),
        None => true,
    }
}

/// Each of the modules `found` is near `pkg`.
pub open spec fn all_near(entries: Seq<Entry>, found: Seq<ModuleRef>, pkg: Seq<char>, sep: char) -> bool {
    forall|j: int| 0 <= j < found.len() ==> is_near(entries, #[trigger] found[j], pkg, sep)
}

/// Whether the edge from `a` to `b` is there once module `m` has been given an edge to
/// each of `targets`, in place of the edges it had in `before` unless `keeps`.
pub open spec fn links_after(
    before: Seq<Seq<ModuleRef>>,
    m: int,
    targets: Seq<ModuleRef>,
    keeps: bool,
    a: int,
    b: int,
) -> bool {
    if a == m {
        (keeps && has_edge(before, a, b)) || (b != m && 0 <= b <= u32::MAX && targets.contains(
            b as ModuleRef,
        ))
    } else {
        has_edge(before, a, b)
    }
}

/// What a list with one more number holds.
pub proof fn lemma_holds_one_more(v: Seq<ModuleRef>, x: ModuleRef, b: int)
    ensures
        0 <= b <= u32::MAX ==> (v.push(x).contains(b as ModuleRef) <==> v.contains(b as ModuleRef)
            || b == x),
{
    if 0 <= b <= u32::MAX {
        let w = v.push(x);
        if v.contains(b as ModuleRef) {
            let t = choose|t: int| 0 <= t < v.len() && v[t] == b as ModuleRef;
            assert(w[t] == b as ModuleRef);
        }
        if b == x {
            assert(w[v.len() as int] == x);
        }
        if w.contains(b as ModuleRef) {
            let t = choose|t: int| 0 <= t < w.len() && w[t] == b as ModuleRef;
            if t < v.len() {
                assert(v[t] == b as ModuleRef);
            }
        }
    }
}

/// A table of modules and the modules found in it so far, or why the table refused one.
pub type Gathered = Result<(Seq<Entry>, Seq<ModuleRef>), CacheError>;

/// The names of the submodules that the entries `listing` of directory `dir` stand for,
/// in the order of the listing.
pub open spec fn submodules(
    files: FileTree,
    sep: char,
    dir: Seq<char>,
    listing: Seq<EntryView>,
) -> Seq<Seq<char>>
    decreases listing.len(),
{
    if listing.len() == 0 {
        Seq::<Seq<char>>::empty()
    } else {
        let rest = submodules(files, sep, dir, listing.drop_last());
        match submodule_of(files, sep, dir, listing.last()) {
            Some(s) => rest.push(s),
            None => rest,
        }
    }
}

/// The name of the submodule that entry `e` of directory `dir` stands for: a directory
/// with an `__init__` file, or a source file that is not itself an `__init__` file.
pub open spec fn submodule_of(files: FileTree, sep: char, dir: Seq<char>, e: EntryView) -> Option<
    Seq<char>,
> {
    match e.kind {
        Kind::Dir => {
            let sub = dir + seq![sep] + e.name;
            if files.has(sub, "__init__.py"@) || files.has(sub, "__init__.pyi"@) || files.has(
                sub,
                "__init__.pyx"@,
            ) {
                Some(e.name)
            } else {
                None
            }
        },
        Kind::Other => None,
        Kind::File => if has_suffix(e.name, ".py"@) && e.name != "__init__.py"@ {
            Some(e.name.take(e.name.len() - 3))
        } else if (has_suffix(e.name, ".pyi"@) && e.name != "__init__.pyi"@) || (has_suffix(
            e.name,
            ".pyx"@,
        ) && e.name != "__init__.pyx"@) {
            Some(e.name.take(e.name.len() - 4))
        } else {
            None
        },
    }
}

/// The base path of the file for `import_path` below `root`, whose import root is
/// `py_root`.
pub open spec fn path_below(
    root: Seq<char>,
    py_root: Seq<char>,
    import_path: Seq<char>,
    sep: char,
) -> Seq<char> {
    root + replaced(import_path.skip(py_root.len() as int), '.', sep)
}

/// Taking one more string adds that string to the set.
pub proof fn lemma_set_of_take(v: Seq<String>, k: int)
    requires
        0 <= k < v.len(),
    ensures
        set_of(v.take(k + 1)) == set_of(v.take(k)).insert(v[k]@),
{
    let a = v.take(k);
    let b = v.take(k + 1);
    assert forall|s: Seq<char>| set_of(b).contains(s) <==> set_of(a).insert(v[k]@).contains(s) by {
        if set_of(b).contains(s) {
            let j = choose|j: int| 0 <= j < b.len() && (#[trigger] b[j])@ == s;
            if j < k {
                assert(a[j]@ == s);
            }
        }
        if set_of(a).contains(s) {
            let j = choose|j: int| 0 <= j < a.len() && (#[trigger] a[j])@ == s;
            assert(b[j]@ == s);
        }
        if s == v[k]@ {
            assert(b[k]@ == s);
        }
    }
    assert(set_of(b) =~= set_of(a).insert(v[k]@));
}

} // verus!
