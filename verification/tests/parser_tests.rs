use prunepytest::parser::{
    content_looks_like_pkgutil_ns_init, looks_like_pkgutil_ns_init, raw_get_all_imports,
    raw_imports_from_module, split_at_depth, try_split_at_depth, Callee, Error, Syntax,
};

fn s(v: &[&str]) -> Vec<String> {
    v.iter().map(|x| x.to_string()).collect()
}

fn import(names: &[&str]) -> Syntax {
    Syntax::Import { names: s(names) }
}

fn from(level: u32, module: Option<&str>, names: &[&str]) -> Syntax {
    Syntax::ImportFrom {
        level,
        module: module.map(|m| m.to_string()),
        names: s(names),
    }
}

fn name(id: &str) -> Syntax {
    Syntax::Name { id: id.to_string() }
}

fn literal() -> Syntax {
    Syntax::Expression { parts: Vec::new() }
}

#[test]
fn split_at_depth_cuts_at_the_separator_counted_from_the_end() {
    assert_eq!(("a.b", "c"), split_at_depth("a.b.c", '.', 1));
    assert_eq!(("a", "b.c"), split_at_depth("a.b.c", '.', 2));
    assert_eq!(("", "a"), split_at_depth(".a", '.', 1));
    assert_eq!(Some(("a/b", "c")), try_split_at_depth("a/b/c", '/', 1));
    assert_eq!(None, try_split_at_depth("a.b.c", '.', 3));
    assert_eq!(None, try_split_at_depth("a.b.c", '.', 0));
    assert_eq!(None, try_split_at_depth("abc", '.', 1));
}

#[test]
fn import_statements_give_their_names() {
    let body = vec![import(&["a", "b.c"])];
    assert_eq!(
        Some(s(&["a", "b.c"])),
        raw_imports_from_module(&body, "pkg.mod", false, false)
    );
}

#[test]
fn from_imports_give_the_base_and_each_member() {
    let body = vec![
        from(0, Some("m"), &["n"]),
        from(1, Some("x.y"), &["a", "b"]),
        from(2, None, &["z"]),
        from(1, None, &["w"]),
    ];
    assert_eq!(
        Some(s(&[
            "m",
            "m.n",
            "pkg.sub.x.y",
            "pkg.sub.x.y.a",
            "pkg.sub.x.y.b",
            "pkg",
            "pkg.z",
            "pkg.sub",
            "pkg.sub.w",
        ])),
        raw_imports_from_module(&body, "pkg.sub.mod", false, false)
    );
}

#[test]
fn a_from_import_above_the_top_is_refused() {
    let body = vec![import(&["a"]), from(3, Some("x"), &["y"])];
    assert_eq!(None, raw_imports_from_module(&body, "pkg.mod", true, false));
    let nested = vec![Syntax::Statement {
        parts: vec![from(1, None, &["y"])],
    }];
    assert_eq!(None, raw_imports_from_module(&nested, "top", true, false));
    assert_eq!(
        Some(s(&[])),
        raw_imports_from_module(&nested, "top", false, false)
    );
}

#[test]
fn nested_imports_count_only_when_deep() {
    let body = vec![
        import(&["top"]),
        Syntax::Statement {
            parts: vec![import(&["inner"]), Syntax::Statement { parts: vec![import(&["deepest"])] }],
        },
    ];
    assert_eq!(
        Some(s(&["top"])),
        raw_imports_from_module(&body, "m", false, false)
    );
    assert_eq!(
        Some(s(&["top", "inner", "deepest"])),
        raw_imports_from_module(&body, "m", true, false)
    );
}

#[test]
fn type_checking_blocks_are_skipped_unless_asked_for() {
    let guarded = |test: &str| Syntax::If {
        test: test.to_string(),
        parts: vec![name("TYPE_CHECKING"), import(&["typing_only"])],
    };
    let body = vec![
        guarded("TYPE_CHECKING"),
        guarded("typing.TYPE_CHECKING"),
        guarded("not TYPE_CHECKING"),
    ];
    assert_eq!(
        Some(s(&["typing_only"])),
        raw_imports_from_module(&body, "m", true, false)
    );
    assert_eq!(
        Some(s(&["typing_only", "typing_only", "typing_only"])),
        raw_imports_from_module(&body, "m", true, true)
    );
    assert_eq!(
        Some(s(&[])),
        raw_imports_from_module(&body, "m", false, true)
    );
}

#[test]
fn import_calls_with_one_string_argument_give_it() {
    let call = |func: Callee, args: Vec<Option<String>>, parts: Vec<Syntax>| Syntax::Statement {
        parts: vec![Syntax::Call { func, args, parts }],
    };
    let body = vec![
        call(
            Callee::Name("__import__".to_string()),
            vec![Some("x".to_string())],
            vec![name("__import__"), literal()],
        ),
        call(
            Callee::Attribute {
                object: "importlib".to_string(),
                attr: "import_module".to_string(),
            },
            vec![Some("y".to_string())],
            vec![Syntax::Expression { parts: vec![name("importlib")] }, literal()],
        ),
        call(
            Callee::Attribute {
                object: "builtins".to_string(),
                attr: "__import__".to_string(),
            },
            vec![Some("z".to_string())],
            vec![],
        ),
        call(Callee::Name("import_module".to_string()), vec![None], vec![name("import_module")]),
        call(
            Callee::Name("import_module".to_string()),
            vec![Some("a".to_string()), Some("b".to_string())],
            vec![],
        ),
        call(
            Callee::Attribute {
                object: "other".to_string(),
                attr: "import_module".to_string(),
            },
            vec![Some("no".to_string())],
            vec![],
        ),
        call(Callee::Other, vec![Some("no".to_string())], vec![]),
        call(Callee::Name("f".to_string()), vec![Some("no".to_string())], vec![name("f")]),
    ];
    assert_eq!(
        Some(s(&["x", "__import__", "y", "z"])),
        raw_imports_from_module(&body, "m", true, false)
    );
}

#[test]
fn the_namespace_stanza_is_found_at_the_start() {
    let stanza = "__path__ = __import__('pkgutil').extend_path(__path__, __name__)\n";
    assert!(content_looks_like_pkgutil_ns_init(stanza));
    assert!(content_looks_like_pkgutil_ns_init(
        "__path__=__import__  (\"pkgutil\").extend_path  (  __path__ ,__name__ )"
    ));
    assert!(!content_looks_like_pkgutil_ns_init(""));
    assert!(!content_looks_like_pkgutil_ns_init(&format!("\n{}", stanza)));
    assert!(!content_looks_like_pkgutil_ns_init(&format!(" {}", stanza)));
    assert!(!content_looks_like_pkgutil_ns_init(
        "__path__ = __import__('pkgutil').extend_path(__name__, __path__)"
    ));
    assert!(looks_like_pkgutil_ns_init("a/b/__init__.py", stanza));
    assert!(!looks_like_pkgutil_ns_init("a/b/__init__.pyi", stanza));
    assert!(!looks_like_pkgutil_ns_init("a/b/__init__.py", "import x"));
}

#[test]
fn all_imports_of_a_file() {
    let stanza = "__path__ = __import__('pkgutil').extend_path(__path__, __name__)\n";
    let body = vec![import(&["a"])];
    assert_eq!(
        Some((true, s(&["a"]))),
        raw_get_all_imports("ns/__init__.py", stanza, &body, "ns.__init__", true, false)
    );
    assert_eq!(
        Some((false, s(&["a"]))),
        raw_get_all_imports("ns/mod.py", stanza, &body, "ns.mod", true, false)
    );
    assert_eq!(
        Some((false, s(&[]))),
        raw_get_all_imports("ns/fast.pyx", stanza, &body, "ns.fast", true, false)
    );
    assert_eq!(
        None,
        raw_get_all_imports("m.py", "", &vec![from(1, None, &["x"])], "m", true, false)
    );
}

#[test]
fn errors_carry_their_message() {
    assert_eq!("gone", Error::IO("gone".to_string()).message());
    assert_eq!("bad", Error::Parse("bad".to_string()).message());
}
