use prunepytest::edge_table::EdgeTable;
use prunepytest::graph_file::LoadError;
use prunepytest::moduleref::{ModuleRef, ModuleRefCache};
use prunepytest::splice::apply_dynamic_edges_at_leaves;
use prunepytest::transitive_closure::TransitiveClosure;
use prunepytest::unresolved::Unresolved;

fn closure(names: &[&str], edges: &[(ModuleRef, ModuleRef)]) -> TransitiveClosure {
    let mut cache = ModuleRefCache::new();
    for name in names {
        let fs = format!("{}.py", name);
        cache.get_or_create(&fs, name, None);
    }
    let mut g = EdgeTable::new();
    g.grow(cache.max_value());
    for &(v, w) in edges {
        g.add_edge(v, w);
    }
    TransitiveClosure::from(&g, cache, Unresolved::new())
}

fn sorted(mut v: Vec<String>) -> Vec<String> {
    v.sort();
    v
}

fn strings(v: &[&str]) -> Vec<String> {
    v.iter().map(|s| s.to_string()).collect()
}

#[test]
fn cycle_is_one_component_that_depends_on_itself() {
    let tc = closure(&["a", "b", "c"], &[(0, 1), (1, 2), (2, 0)]);
    assert_eq!(1, tc.component_count());
    assert_eq!(tc.component(0), tc.component(1));
    assert_eq!(tc.component(1), tc.component(2));
    assert_eq!(
        strings(&["a", "b", "c"]),
        sorted(tc.depends_on(0).unwrap())
    );
    assert_eq!(vec![0], tc.successors_of(0));
    assert_eq!(vec![0], tc.ancestors_of(0));
}

#[test]
fn chain_depends_on_what_follows_and_affects_what_precedes() {
    let tc = closure(&["a", "b", "c"], &[(0, 1), (1, 2)]);
    assert_eq!(3, tc.component_count());
    assert_eq!(strings(&["b", "c"]), sorted(tc.depends_on(0).unwrap()));
    assert_eq!(strings(&["c"]), sorted(tc.depends_on(1).unwrap()));
    assert_eq!(strings(&[]), sorted(tc.depends_on(2).unwrap()));
    assert_eq!(None, tc.depends_on(3));
    assert_eq!(
        strings(&["a", "b"]),
        sorted(tc.affected_by_modules(&strings(&["c"])))
    );
    assert_eq!(
        strings(&[]),
        sorted(tc.affected_by_modules(&strings(&["a"])))
    );
    assert_eq!(
        strings(&["a.py"]),
        sorted(tc.affected_by_files(&strings(&["b.py", "nowhere.py"])))
    );
    assert_eq!(
        Some(strings(&["c"])),
        tc.file_depends_on("b.py").map(sorted)
    );
    assert_eq!(None, tc.file_depends_on("b"));
    assert_eq!(
        Some(strings(&["b", "c"])),
        tc.module_depends_on("a", None).map(sorted)
    );
    assert_eq!(None, tc.module_depends_on("a", Some("pkg")));
}

#[test]
fn self_loops_are_dropped() {
    let tc = closure(&["a", "b"], &[(0, 0), (0, 1), (0, 1)]);
    assert_eq!(2, tc.component_count());
    assert_eq!(strings(&["b"]), sorted(tc.depends_on(0).unwrap()));
}

#[test]
fn ancestors_are_the_transpose_of_successors() {
    let tc = closure(
        &["a", "b", "c", "d", "e", "f"],
        &[(0, 1), (1, 2), (2, 1), (2, 3), (4, 3), (0, 4), (5, 5)],
    );
    let n = tc.component_count();
    for a in 0..n {
        let succ = tc.successors_of(a);
        for b in 0..n {
            assert_eq!(
                succ.contains(&b),
                tc.ancestors_of(b).contains(&a),
                "{} {}",
                a,
                b
            );
        }
    }
    // b and c are one component, which reaches itself and d
    let bc = tc.component(1).unwrap();
    assert_eq!(Some(bc), tc.component(2));
    assert_eq!(2, tc.members_of(bc).len());
    assert_eq!(strings(&["b", "c", "d"]), sorted(tc.depends_on(1).unwrap()));
    assert_eq!(
        strings(&["b", "c", "d", "e"]),
        sorted(tc.depends_on(0).unwrap())
    );
}

#[test]
fn every_edge_is_covered_on_a_larger_graph() {
    let names: Vec<String> = (0..40).map(|i| format!("m{}", i)).collect();
    let refs: Vec<&str> = names.iter().map(|s| s.as_str()).collect();
    let mut edges = Vec::new();
    for i in 0..40u32 {
        edges.push((i, (i * 7 + 3) % 40));
        edges.push((i, (i * i + 1) % 40));
        if i % 5 == 0 {
            edges.push((i, (i + 39) % 40));
        }
    }
    let tc = closure(&refs, &edges);
    for &(v, w) in &edges {
        if v != w {
            let cv = tc.component(v).unwrap();
            let cw = tc.component(w).unwrap();
            assert!(tc.successors_of(cv).contains(&cw), "{} -> {}", v, w);
        }
    }
    for c in 0..tc.component_count() {
        let succ = tc.successors_of(c);
        for &x in &succ {
            assert!(x <= c);
            for y in tc.successors_of(x) {
                assert!(succ.contains(&y));
            }
        }
        assert_eq!(succ.contains(&c), tc.members_of(c).len() > 1);
    }
}

#[test]
fn leaf_edges_are_spliced_at_leaves_only() {
    // u -> t, v -> t, w -> v, x alone
    let mut tc = closure(&["t", "u", "v", "w", "x"], &[(1, 0), (2, 0), (3, 2)]);
    let t = tc.component(0).unwrap();
    let u = tc.component(1).unwrap();
    let v = tc.component(2).unwrap();
    let w = tc.component(3).unwrap();
    let x = tc.component(4).unwrap();
    let before_v = tc.successors_of(v);
    assert!(tc.ancestors_of(u).is_empty());
    assert_eq!(vec![w], tc.ancestors_of(v));

    let unified = vec![("t".to_string(), strings(&["x"]))];
    tc.apply_dynamic_edges_at_leaves(&unified, &Vec::new());

    assert!(tc.successors_of(u).contains(&x));
    assert!(tc.ancestors_of(x).contains(&u));
    assert!(tc.successors_of(w).contains(&x));
    assert!(tc.ancestors_of(x).contains(&w));
    assert_eq!(before_v, tc.successors_of(v));
    assert!(!tc.ancestors_of(x).contains(&v));
    assert!(!tc.successors_of(t).contains(&x));
    assert_eq!(strings(&["t", "x"]), sorted(tc.depends_on(1).unwrap()));
    assert_eq!(
        strings(&["u", "w"]),
        sorted(tc.affected_by_modules(&strings(&["x"])))
    );
}

#[test]
fn unknown_triggers_and_dependencies_change_nothing() {
    let mut tc = closure(&["t", "u", "x"], &[(1, 0)]);
    let u = tc.component(1).unwrap();
    let before = tc.successors_of(u);
    let unified = vec![
        ("nothing".to_string(), strings(&["x"])),
        ("t".to_string(), strings(&["missing", "also.missing"])),
    ];
    apply_dynamic_edges_at_leaves(&mut tc, &unified, &Vec::new());
    assert_eq!(before, tc.successors_of(u));
}

#[test]
fn a_dependency_stands_for_its_nearest_known_parent() {
    let mut tc = closure(&["t", "u", "x", "y"], &[(1, 0), (2, 3)]);
    let u = tc.component(1).unwrap();
    let x = tc.component(2).unwrap();
    let y = tc.component(3).unwrap();
    let unified = vec![("t".to_string(), strings(&["x.inner.Name"]))];
    tc.apply_dynamic_edges_at_leaves(&unified, &Vec::new());
    let succ = tc.successors_of(u);
    assert!(succ.contains(&x));
    assert!(succ.contains(&y));
}

fn local_closure() -> TransitiveClosure {
    let mut cache = ModuleRefCache::new();
    cache.get_or_create("lib/core.py", "lib.core", None);
    cache.get_or_create("lib/extra.py", "lib.extra", None);
    cache.get_or_create("a/tests/test_one.py", "tests.test_one", Some("a/tests"));
    cache.get_or_create("b/tests/test_one.py", "tests.test_one", Some("b/tests"));
    cache.get_or_create("b/tests/test_two.py", "tests.test_two", Some("b/tests"));
    let mut g = EdgeTable::new();
    g.grow(cache.max_value());
    g.add_edge(2, 0);
    g.add_edge(3, 0);
    g.add_edge(4, 1);
    let mut unresolved = Unresolved::new();
    unresolved.record("lib.gone", 2);
    unresolved.record("lib.gone", 3);
    unresolved.record("lib.gone", 2);
    unresolved.record("other", 4);
    TransitiveClosure::from(&g, cache, unresolved)
}

#[test]
fn local_answers_are_grouped_by_package() {
    let tc = local_closure();
    let mut groups = tc.local_affected_by_files(&strings(&["lib/core.py", "lib/extra.py"]));
    groups.sort();
    for g in groups.iter_mut() {
        g.1.sort();
    }
    assert_eq!(
        vec![
            ("a/tests".to_string(), strings(&["a/tests/test_one.py"])),
            (
                "b/tests".to_string(),
                strings(&["b/tests/test_one.py", "b/tests/test_two.py"])
            ),
        ],
        groups
    );
    let mut by_module = tc.local_affected_by_modules(&strings(&["lib.core"]));
    by_module.sort();
    assert_eq!(
        vec![
            ("a/tests".to_string(), strings(&["tests.test_one"])),
            ("b/tests".to_string(), strings(&["tests.test_one"])),
        ],
        by_module
    );
    // modules without a package are left out of grouped answers
    assert!(tc
        .local_affected_by_modules(&strings(&["tests.test_one"]))
        .is_empty());
    assert_eq!(
        strings(&["tests.test_one"]),
        tc.affected_by_modules(&strings(&["lib.core"]))
    );
}

#[test]
fn unresolved_imports_are_reported_with_the_files_that_asked() {
    let tc = local_closure();
    let mut rows = tc.unresolved();
    rows.sort();
    for r in rows.iter_mut() {
        r.1.sort();
    }
    assert_eq!(
        vec![
            (
                "lib.gone".to_string(),
                strings(&["a/tests/test_one.py", "b/tests/test_one.py"])
            ),
            ("other".to_string(), strings(&["b/tests/test_two.py"])),
        ],
        rows
    );
}

#[test]
fn per_package_rules_reach_only_their_package() {
    let mut tc = local_closure();
    let a = tc.component(2).unwrap();
    let b1 = tc.component(3).unwrap();
    let extra = tc.component(1).unwrap();
    assert!(!tc.successors_of(a).contains(&extra));
    let rules = vec![(
        "lib.core".to_string(),
        vec![
            ("a/tests".to_string(), strings(&["lib.extra"])),
            ("c/tests".to_string(), strings(&["lib.extra"])),
        ],
    )];
    tc.apply_dynamic_edges_at_leaves(&Vec::new(), &rules);
    assert!(tc.successors_of(a).contains(&extra));
    assert!(tc.ancestors_of(extra).contains(&a));
    assert!(!tc.successors_of(b1).contains(&extra));
}

fn same_answers(a: &TransitiveClosure, b: &TransitiveClosure) {
    assert_eq!(a.component_count(), b.component_count());
    assert_eq!(a.module_refs().max_value(), b.module_refs().max_value());
    for m in 0..a.module_refs().max_value() {
        assert_eq!(a.module_refs().fs_for_ref(m), b.module_refs().fs_for_ref(m));
        assert_eq!(a.module_refs().py_for_ref(m), b.module_refs().py_for_ref(m));
        assert_eq!(
            a.module_refs().pkg_for_ref(m),
            b.module_refs().pkg_for_ref(m)
        );
        assert_eq!(a.component(m), b.component(m));
        assert_eq!(a.depends_on(m).map(sorted), b.depends_on(m).map(sorted));
    }
    for c in 0..a.component_count() {
        assert_eq!(a.members_of(c), b.members_of(c));
        assert_eq!(a.successors_of(c), b.successors_of(c));
        assert_eq!(a.ancestors_of(c), b.ancestors_of(c));
    }
    assert_eq!(a.unresolved(), b.unresolved());
}

#[test]
fn a_graph_file_reads_back_as_the_same_graph() {
    let tc = local_closure();
    let plain = tc.encode();
    let back = TransitiveClosure::decode(&plain, '/').unwrap();
    same_answers(&tc, &back);
    assert_eq!(plain, back.encode());

    let framed = tc.to_file_bytes().unwrap();
    assert_ne!(plain, framed);
    let loaded = TransitiveClosure::from_file_bytes(&framed, '/').unwrap();
    same_answers(&tc, &loaded);
    assert_eq!(
        sorted(tc.affected_by_files(&strings(&["lib/core.py"]))),
        sorted(loaded.affected_by_files(&strings(&["lib/core.py"])))
    );
    same_answers(&tc, &tc.round_trip());
}

#[test]
fn the_bytes_of_a_small_graph_are_as_laid_out() {
    let tc = closure(&["a"], &[]);
    assert_eq!(
        vec![
            1, 4, b'a', b'.', b'p', b'y', 1, b'a', 0, // one entry: fs, py, no package
            1, 0, // the component of the one module
            1, 1, 0, 0, 0, // one component: one member, reaches nothing, reached by nothing
            0, // nothing unresolved
        ],
        tc.encode()
    );
}

#[test]
fn bytes_that_are_no_graph_are_refused() {
    assert_eq!(
        Some(LoadError::Malformed),
        TransitiveClosure::decode(&vec![], '/').err()
    );
    assert_eq!(
        Some(LoadError::Malformed),
        TransitiveClosure::decode(&vec![1, 200], '/').err()
    );
    let empty = TransitiveClosure::decode(&vec![0, 0, 0, 0], '/').unwrap();
    assert_eq!(0, empty.component_count());
    // no module, but one component number
    assert_eq!(
        Some(LoadError::Inconsistent),
        TransitiveClosure::decode(&vec![0, 1, 0, 0, 0], '/').err()
    );
    // a string that is no UTF-8
    assert_eq!(
        Some(LoadError::Malformed),
        TransitiveClosure::decode(&vec![1, 1, 0xff, 0, 0, 0, 0, 0], '/').err()
    );
    assert_eq!(
        Some(LoadError::Frame),
        TransitiveClosure::from_file_bytes(&b"no frame".to_vec(), '/').err()
    );
    let tc = closure(&["a", "b"], &[(0, 1)]);
    let mut plain = tc.encode();
    plain.truncate(plain.len() - 1);
    assert_eq!(
        Some(LoadError::Malformed),
        TransitiveClosure::decode(&plain, '/').err()
    );
    // the component that reaches is not named by the one reached
    let mut wrong = tc.encode();
    let n = wrong.len();
    assert_eq!(0, wrong[n - 1]);
    let at = wrong.iter().rposition(|&b| b == 1).unwrap();
    wrong[at] = 0;
    assert_eq!(
        Some(LoadError::Inconsistent),
        TransitiveClosure::decode(&wrong, '/').err()
    );
}

/// Which modules a walk of at least one edge leads to, found by a plain search.
fn linked(n: usize, edges: &[(ModuleRef, ModuleRef)]) -> Vec<Vec<bool>> {
    let mut reach = vec![vec![false; n]; n];
    for &(v, w) in edges {
        if v != w {
            reach[v as usize][w as usize] = true;
        }
    }
    for k in 0..n {
        for a in 0..n {
            if reach[a][k] {
                for b in 0..n {
                    if reach[k][b] {
                        reach[a][b] = true;
                    }
                }
            }
        }
    }
    reach
}

#[test]
fn the_closure_is_what_a_plain_search_finds() {
    let mut seed: u32 = 12345;
    let mut next = move |bound: u32| {
        seed = seed.wrapping_mul(1664525).wrapping_add(1013904223);
        (seed >> 8) % bound
    };
    for (n, m) in [(1u32, 0u32), (2, 1), (6, 5), (12, 14), (30, 25), (30, 45), (60, 70)] {
        let names: Vec<String> = (0..n).map(|i| format!("m{}", i)).collect();
        let refs: Vec<&str> = names.iter().map(|s| s.as_str()).collect();
        let edges: Vec<(ModuleRef, ModuleRef)> = (0..m).map(|_| (next(n), next(n))).collect();
        let tc = closure(&refs, &edges);
        let reach = linked(n as usize, &edges);
        for a in 0..n {
            for b in 0..n {
                let ca = tc.component(a).unwrap();
                let cb = tc.component(b).unwrap();
                let both = reach[a as usize][b as usize] && reach[b as usize][a as usize];
                assert_eq!(a == b || both, ca == cb, "components of {} and {}", a, b);
                assert_eq!(
                    reach[a as usize][b as usize],
                    tc.successors_of(ca).contains(&cb),
                    "{} to {}",
                    a,
                    b
                );
                assert_eq!(
                    reach[a as usize][b as usize],
                    tc.ancestors_of(cb).contains(&ca),
                    "{} from {}",
                    b,
                    a
                );
            }
        }
    }
}
