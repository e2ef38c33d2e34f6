use prunepytest::file_tree::{FileTree, Kind};
use prunepytest::graph::{Added, GraphError, ModuleGraph};
use prunepytest::resolve::root_namespace;
use prunepytest::transitive_closure::TransitiveClosure;

fn s(v: &[&str]) -> Vec<String> {
    v.iter().map(|x| x.to_string()).collect()
}

fn sorted(mut v: Vec<String>) -> Vec<String> {
    v.sort();
    v
}

/// Lists every file and the directories above it.
fn tree(files: &[&str]) -> FileTree {
    let mut t = FileTree::new();
    let mut seen: Vec<String> = Vec::new();
    for f in files {
        let parts: Vec<&str> = f.split('/').collect();
        for i in 1..parts.len() {
            let dir = parts[..i].join("/");
            let name = parts[i];
            let key = format!("{}/{}", dir, name);
            if seen.contains(&key) {
                continue;
            }
            seen.push(key);
            let kind = if i + 1 == parts.len() { Kind::File } else { Kind::Dir };
            t.add(&dir, name, kind);
        }
    }
    t
}

fn graph(roots: &[(&str, &str)], global: &[&str], local: &[&str], files: &[&str]) -> ModuleGraph {
    ModuleGraph::new(
        roots.iter().map(|(a, b)| (a.to_string(), b.to_string())).collect(),
        s(global),
        s(local),
        Vec::new(),
        tree(files),
    )
}

fn add(g: &mut ModuleGraph, file: &str, deps: &[&str]) -> Result<Added, GraphError> {
    let (pkg, _, module) = g.module_for_file(file).unwrap();
    g.add(file, &pkg, &module, &s(deps), false)
}

fn module_count(tc: &TransitiveClosure, py: &str) -> usize {
    (0..tc.module_refs().max_value())
        .filter(|&m| tc.module_refs().py_for_ref(m) == py)
        .count()
}

#[test]
fn root_namespace_is_the_first_component() {
    assert_eq!("a", root_namespace("a.b.c"));
    assert_eq!("abc", root_namespace("abc"));
    assert_eq!("", root_namespace(".abc"));
    assert_eq!("", root_namespace(""));
}

#[test]
fn files_map_to_import_paths_and_back() {
    let g = graph(
        &[("src/top", "top"), ("src/top/inner", "elsewhere"), ("proj/a/tests", "tests")],
        &["top", "elsewhere"],
        &["tests"],
        &[],
    );
    assert_eq!(
        Some(("src/top", "top.pkg.mod.py".to_string())),
        g.fs_to_py("src/top/pkg/mod.py")
    );
    assert_eq!(
        Some(("src/top/inner", "elsewhere.x.py".to_string())),
        g.fs_to_py("src/top/inner/x.py")
    );
    assert_eq!(None, g.fs_to_py("other/top/x.py"));
    assert_eq!(
        Some((
            "src/top".to_string(),
            "top.pkg.__init__".to_string(),
            "top.pkg".to_string()
        )),
        g.module_for_file("src/top/pkg/__init__.py")
    );
    assert_eq!(Some(false), g.is_local("top.pkg"));
    assert_eq!(Some(true), g.is_local("tests"));
    assert_eq!(None, g.is_local("numpy.linalg"));
    assert_eq!(
        Some(("src/top/pkg/mod".to_string(), None)),
        g.py_to_fs("top.pkg.mod", "proj/a/tests")
    );
    assert_eq!(
        Some(("src/top/inner/x".to_string(), None)),
        g.py_to_fs("elsewhere.x", "src/top")
    );
    assert_eq!(
        Some(("proj/a/tests/util".to_string(), Some("proj/a/tests".to_string()))),
        g.py_to_fs("tests.util", "proj/a/tests")
    );
    assert_eq!(None, g.py_to_fs("numpy", "src/top"));
}

#[test]
fn a_local_import_may_reach_a_neighbour() {
    let g = graph(
        &[("proj/a/tests", "tests"), ("proj/a/helpers", "helpers")],
        &[],
        &["tests", "helpers"],
        &[],
    );
    assert_eq!(
        Some(("proj/a/helpers/h".to_string(), Some("proj/a/helpers".to_string()))),
        g.py_to_fs("helpers.h", "proj/a/tests")
    );
}

#[test]
fn only_source_files_without_a_better_twin_are_eligible() {
    let g = graph(
        &[("r", "top")],
        &["top"],
        &[],
        &["r/a.py", "r/a.pyi", "r/b.pyi", "r/c.pyx", "r/c.pyi", "r/d.txt"],
    );
    assert!(g.is_eligible("r/a.py"));
    assert!(!g.is_eligible("r/a.pyi"));
    assert!(g.is_eligible("r/b.pyi"));
    assert!(g.is_eligible("r/c.pyx"));
    assert!(!g.is_eligible("r/c.pyi"));
    assert!(!g.is_eligible("r/d.txt"));
    assert!(g.file_present("r/d.txt"));
    assert!(!g.file_present("r/D.txt"));
    assert!(!g.file_present("d.txt"));
}

#[test]
fn a_package_hides_the_module_of_its_name() {
    let files = ["r/foo.py", "r/foo/__init__.py", "r/user.py"];
    let mut g = graph(&[("r", "top")], &["top"], &[], &files);
    assert_eq!(Ok(Added::Shadowed), add(&mut g, "r/foo.py", &[]));
    let pkg = add(&mut g, "r/foo/__init__.py", &[]).unwrap();
    let user = add(&mut g, "r/user.py", &["top.foo"]).unwrap();
    assert!(matches!(pkg, Added::Module(_)));
    let tc = g.finalize().unwrap();
    assert_eq!(1, module_count(&tc, "top.foo"));
    let Added::Module(p) = pkg else { panic!() };
    let Added::Module(u) = user else { panic!() };
    assert_eq!("r/foo/__init__.py", tc.module_refs().fs_for_ref(p));
    assert_eq!(s(&["top", "top.foo"]), sorted(tc.depends_on(u).unwrap()));
}

#[test]
fn a_symbol_imported_from_a_module_is_an_edge_to_the_module() {
    let files = ["r/pkg/__init__.py", "r/pkg/sub.py", "r/pkg/main.py"];
    let mut g = graph(&[("r/pkg", "pkg")], &["pkg"], &[], &files);
    let main = add(&mut g, "r/pkg/main.py", &["pkg.sub", "pkg.sub.Name"]).unwrap();
    let Added::Module(m) = main else { panic!() };
    let tc = g.finalize().unwrap();
    assert_eq!(0, module_count(&tc, "pkg.sub.Name"));
    assert_eq!(1, module_count(&tc, "pkg.sub"));
    assert_eq!(s(&["pkg", "pkg.sub"]), sorted(tc.depends_on(m).unwrap()));
    assert_eq!(
        s(&["r/pkg/main.py"]),
        tc.affected_by_files(&s(&["r/pkg/sub.py"]))
    );
}

#[test]
fn the_package_is_chosen_over_the_module_of_its_name() {
    let files = [
        "r/pkg/__init__.py",
        "r/pkg/sub.py",
        "r/pkg/sub/__init__.py",
        "r/app/main.py",
    ];
    let mut g = graph(&[("r/pkg", "pkg"), ("r/app", "app")], &["pkg", "app"], &[], &files);
    let main = add(&mut g, "r/app/main.py", &["pkg", "pkg.sub"]).unwrap();
    let Added::Module(m) = main else { panic!() };
    let tc = g.finalize().unwrap();
    assert_eq!(s(&["app", "pkg", "pkg.sub"]), sorted(tc.depends_on(m).unwrap()));
    assert_eq!(
        s(&["r/app/main.py"]),
        tc.affected_by_files(&s(&["r/pkg/sub/__init__.py"]))
    );
    assert_eq!(None, tc.file_depends_on("r/pkg/sub.py"));
}

#[test]
fn a_star_import_reaches_every_submodule() {
    let files = [
        "r/pkg/__init__.py",
        "r/pkg/a.py",
        "r/pkg/b.py",
        "r/pkg/c/__init__.py",
        "r/pkg/data/readme.txt",
        "r/pkg/notes.txt",
        "r/app/main.py",
    ];
    let mut g = graph(&[("r/pkg", "pkg"), ("r/app", "app")], &["pkg", "app"], &[], &files);
    let main = add(&mut g, "r/app/main.py", &["pkg", "pkg.*"]).unwrap();
    let Added::Module(m) = main else { panic!() };
    let tc = g.finalize().unwrap();
    assert_eq!(
        s(&["app", "pkg", "pkg.a", "pkg.b", "pkg.c"]),
        sorted(tc.depends_on(m).unwrap())
    );
}

#[test]
fn parents_are_linked_and_made_where_missing() {
    let files = ["r/x/y/z.py"];
    let mut g = graph(&[("r/x", "x")], &["x"], &[], &files);
    let z = add(&mut g, "r/x/y/z.py", &[]).unwrap();
    let Added::Module(z) = z else { panic!() };
    let tc = g.finalize().unwrap();
    assert_eq!(s(&["x", "x.y"]), sorted(tc.depends_on(z).unwrap()));
    assert_eq!(
        s(&["x.y", "x.y.z"]),
        sorted(tc.affected_by_modules(&s(&["x"])))
    );
    let y = tc.module_refs().ref_for_py("x.y", None).unwrap();
    assert_eq!("", tc.module_refs().fs_for_ref(y));
}

#[test]
fn what_cannot_be_resolved_is_recorded_under_its_parent() {
    let deps = ["pkg.gone.Thing", "numpy.linalg", "pkg.also_gone", "solo"];
    let files = ["r/pkg/__init__.py", "r/pkg/main.py"];
    let mut g = graph(&[("r/pkg", "pkg")], &["pkg"], &[], &files);
    add(&mut g, "r/pkg/main.py", &deps).unwrap();
    let tc = g.finalize().unwrap();
    assert_eq!(
        vec![("pkg.gone".to_string(), s(&["r/pkg/main.py"]))],
        tc.unresolved()
    );

    let mut g = graph(&[("r/pkg", "pkg")], &["pkg"], &[], &["r/pkg/main.py"]);
    add(&mut g, "r/pkg/main.py", &deps).unwrap();
    let tc = g.finalize().unwrap();
    let mut rows = tc.unresolved();
    rows.sort();
    assert_eq!(
        vec![
            ("pkg".to_string(), s(&["r/pkg/main.py"])),
            ("pkg.gone".to_string(), s(&["r/pkg/main.py"])),
        ],
        rows
    );
}

#[test]
fn external_prefixes_are_tracked_without_files() {
    let mut g = ModuleGraph::new(
        vec![("r/pkg".to_string(), "pkg".to_string())],
        s(&["pkg"]),
        Vec::new(),
        s(&["importlib", "__import__"]),
        tree(&["r/pkg/main.py"]),
    );
    let main = g
        .add(
            "r/pkg/main.py",
            "r/pkg",
            "pkg.main",
            &s(&["importlib.util", "__import__", "importlibs"]),
            false,
        )
        .unwrap();
    let Added::Module(m) = main else { panic!() };
    let tc = g.finalize().unwrap();
    assert_eq!(
        s(&["__import__", "importlib", "pkg"]),
        sorted(tc.depends_on(m).unwrap())
    );
}

#[test]
fn modules_outside_every_namespace_are_ignored() {
    let mut g = graph(&[("r/pkg", "pkg")], &[], &[], &["r/pkg/main.py"]);
    assert_eq!(
        Ok(Added::Ignored),
        g.add("r/pkg/main.py", "r/pkg", "pkg.main", &s(&["pkg.x"]), false)
    );
    let mut g = graph(&[("r/pkg", "pkg")], &["pkg"], &[], &[]);
    assert_eq!(
        Err(GraphError::NoFileSuffix),
        g.add("r/pkg/main", "r/pkg", "pkg.main", &Vec::new(), false)
    );
}

#[test]
fn local_modules_of_different_packages_stay_apart() {
    let files = [
        "p/a/tests/__init__.py",
        "p/a/tests/util.py",
        "p/a/tests/test_x.py",
        "p/b/tests/__init__.py",
        "p/b/tests/util.py",
        "p/b/tests/test_x.py",
    ];
    let mut g = graph(
        &[("p/a/tests", "tests"), ("p/b/tests", "tests")],
        &[],
        &["tests"],
        &files,
    );
    let ax = add(&mut g, "p/a/tests/test_x.py", &["tests.util"]).unwrap();
    let bx = add(&mut g, "p/b/tests/test_x.py", &["tests.util"]).unwrap();
    let (Added::Module(ax), Added::Module(bx)) = (ax, bx) else { panic!() };
    assert_ne!(ax, bx);
    let tc = g.finalize().unwrap();
    assert_eq!(2, module_count(&tc, "tests.util"));
    assert_eq!(
        s(&["p/a/tests/test_x.py"]),
        tc.affected_by_files(&s(&["p/a/tests/util.py"]))
    );
    let mut groups = tc.local_affected_by_files(&s(&["p/a/tests/util.py", "p/b/tests/util.py"]));
    groups.sort();
    assert_eq!(
        vec![
            ("p/a/tests".to_string(), s(&["p/a/tests/test_x.py"])),
            ("p/b/tests".to_string(), s(&["p/b/tests/test_x.py"])),
        ],
        groups
    );
}

#[test]
fn namespace_packages_have_one_module_whatever_file_is_seen() {
    let files = [
        "r/one/ns/__init__.py",
        "r/one/ns/a/__init__.py",
        "r/two/ns/__init__.py",
        "r/two/ns/b/__init__.py",
    ];
    let roots = [("r/one/ns/a", "ns.a"), ("r/two/ns/b", "ns.b")];
    let mut g = graph(&roots, &["ns"], &[], &files);
    let a = add(&mut g, "r/one/ns/a/__init__.py", &["ns.b"]).unwrap();
    let b = add(&mut g, "r/two/ns/b/__init__.py", &["ns"]).unwrap();
    let (Added::Module(a), Added::Module(b)) = (a, b) else { panic!() };
    let tc = g.finalize().unwrap();
    assert_eq!(1, module_count(&tc, "ns"));
    let ns = tc.module_refs().ref_for_py("ns", None).unwrap();
    assert_eq!("", tc.module_refs().fs_for_ref(ns));
    assert_eq!(s(&["ns", "ns.b"]), sorted(tc.depends_on(a).unwrap()));
    assert_eq!(s(&["ns"]), sorted(tc.depends_on(b).unwrap()));
}

#[test]
fn dynamic_dependencies_add_edges() {
    let files = ["r/pkg/__init__.py", "r/pkg/a.py", "r/pkg/b.py", "r/pkg/plug/one.py", "r/pkg/plug/two.py"];
    let mut g = graph(&[("r/pkg", "pkg")], &["pkg"], &[], &files);
    for f in ["r/pkg/a.py", "r/pkg/b.py", "r/pkg/plug/one.py", "r/pkg/plug/two.py"] {
        add(&mut g, f, &[]).unwrap();
    }
    let a = g.module_or_parent("pkg.a").unwrap();
    assert_eq!(Some(a), g.module_or_parent("pkg.a.Symbol"));
    assert_eq!(None, g.module_or_parent("pkg.zzz.Symbol"));
    g.add_dynamic_dependencies(&vec![
        ("pkg.a".to_string(), s(&["pkg.plug.*", "pkg.b.Thing", "pkg.nothing.here"])),
        ("r/pkg/b.py".to_string(), s(&["pkg.a"])),
        ("unknown".to_string(), s(&["pkg.a"])),
    ]);
    let tc = g.finalize().unwrap();
    assert_eq!(
        s(&["pkg", "pkg.a", "pkg.b", "pkg.plug", "pkg.plug.one", "pkg.plug.two"]),
        sorted(tc.depends_on(a).unwrap())
    );
}

#[test]
fn the_graph_does_not_depend_on_the_order_of_the_files() {
    let files = [
        "r/pkg/__init__.py",
        "r/pkg/a.py",
        "r/pkg/b.py",
        "r/pkg/c.py",
    ];
    let deps: [(&str, &[&str]); 4] = [
        ("r/pkg/__init__.py", &[]),
        ("r/pkg/a.py", &["pkg.b", "pkg.c.Name"]),
        ("r/pkg/b.py", &["pkg.a"]),
        ("r/pkg/c.py", &["pkg"]),
    ];
    let mut answers = Vec::new();
    for order in [[0, 1, 2, 3], [3, 2, 1, 0], [1, 3, 0, 2]] {
        let mut g = graph(&[("r/pkg", "pkg")], &["pkg"], &[], &files);
        for i in order {
            add(&mut g, deps[i].0, deps[i].1).unwrap();
        }
        let tc = g.finalize().unwrap();
        let mut answer = Vec::new();
        for py in ["pkg", "pkg.a", "pkg.b", "pkg.c"] {
            answer.push((
                py,
                tc.module_depends_on(py, None).map(sorted),
                sorted(tc.affected_by_modules(&s(&[py]))),
            ));
        }
        answers.push((tc.component_count(), answer));
    }
    assert_eq!(answers[0], answers[1]);
    assert_eq!(answers[0], answers[2]);
    assert_eq!(3, answers[0].0);
}

#[test]
fn a_local_module_may_import_from_a_sibling_package_only() {
    let files = [
        "p/a/tests/test_x.py",
        "p/a/helpers/h.py",
        "p/a/tests/other.py",
    ];
    let roots = [("p/a/tests", "tests"), ("p/a/helpers", "helpers")];
    let mut g = graph(&roots, &[], &["tests", "helpers"], &files);
    let t = add(&mut g, "p/a/tests/test_x.py", &["helpers.h", "tests.other"]).unwrap();
    let Added::Module(t) = t else { panic!() };
    let tc = g.finalize().unwrap();
    assert_eq!(
        s(&["helpers", "helpers.h", "tests", "tests.other"]),
        sorted(tc.depends_on(t).unwrap())
    );
    assert!(prunepytest::graph::are_neighbors("p/a/helpers", "p/a/tests", '/'));
    assert!(!prunepytest::graph::are_neighbors("p/b/helpers", "p/a/tests", '/'));
    assert!(!prunepytest::graph::are_neighbors("helpers", "tests", '/'));

    // a module that a package elsewhere owns is refused
    let mut g = graph(
        &[("p/a/t1", "tests"), ("phelpers", "helpers")],
        &[],
        &["tests", "helpers"],
        &["p/a/t1/test_x.py", "phelpers/h.py"],
    );
    assert_eq!(
        Err(GraphError::Neighbor),
        add(&mut g, "p/a/t1/test_x.py", &["helpers.h"])
    );
}

#[test]
fn a_file_known_under_another_import_path_is_refused() {
    let mut g = graph(&[("r/pkg", "pkg")], &["pkg"], &[], &["r/pkg/a.py"]);
    assert!(matches!(
        g.add("r/pkg/a.py", "r/pkg", "pkg.a", &Vec::new(), false),
        Ok(Added::Module(_))
    ));
    assert_eq!(
        Err(GraphError::Cache(prunepytest::moduleref::CacheError::ImportPathMismatch)),
        g.add("r/pkg/a.py", "r/pkg", "pkg.b", &Vec::new(), false)
    );
}

#[test]
fn an_extra_dependency_stands_for_its_longest_known_ancestor() {
    let files = ["r/pkg/__init__.py", "r/pkg/a.py"];
    let mut g = graph(&[("r/pkg", "pkg")], &["pkg"], &[], &files);
    let a = add(&mut g, "r/pkg/a.py", &["pkg"]).unwrap();
    let Added::Module(a) = a else { panic!() };
    let pkg = g.module_or_parent("pkg").unwrap();
    assert_ne!(a, pkg);
    assert_eq!(Some(a), g.module_or_parent("pkg.a"));
    assert_eq!(Some(a), g.module_or_parent("pkg.a.b"));
    assert_eq!(Some(a), g.module_or_parent("pkg.a.b.c.d"));
    assert_eq!(Some(pkg), g.module_or_parent("pkg.x.y.z"));
    assert_eq!(None, g.module_or_parent("other.x.y"));
}

#[test]
fn an_import_root_above_another_is_no_namespace_package() {
    // `ns` is an import root itself, so `ns.inner` below it is an ordinary package
    let files = ["r/ns/__init__.py", "r/ns/inner/__init__.py", "r/deep/__init__.py", "r/user.py"];
    let roots = [("r/ns", "ns"), ("r/deep", "ns.inner.deep"), ("r", "top")];
    let mut g = graph(&roots, &["ns", "top"], &[], &files);
    let inner = add(&mut g, "r/ns/inner/__init__.py", &[]).unwrap();
    let Added::Module(inner) = inner else { panic!() };
    let tc = g.finalize().unwrap();
    assert_eq!("r/ns/inner/__init__.py", tc.module_refs().fs_for_ref(inner));
}
