use prunepytest::moduleref::{CacheError, ModuleRefCache, ModuleRefVal};

#[test]
fn get_or_create_global() {
    let mut mrc = ModuleRefCache::new();
    let r0 = mrc.get_or_create("foo/bar.py", "foo.bar", None);
    let r1 = mrc.get_or_create("foo/baz.py", "foo.baz", None);
    let r2 = mrc.get_or_create("qux.py", "qux", None);

    assert!(r0 < mrc.max_value());
    assert!(r1 < mrc.max_value());
    assert!(r2 < mrc.max_value());
    assert_ne!(r0, r1);
    assert_ne!(r0, r2);
    assert_ne!(r1, r2);

    let max = mrc.max_value();

    assert_eq!(
        r0,
        mrc.get_or_create("foo/bar.py", "foo.bar", None)
    );
    assert_eq!(
        r1,
        mrc.get_or_create("foo/baz.py", "foo.baz", None)
    );
    assert_eq!(r2, mrc.get_or_create("qux.py", "qux", None));

    assert_eq!(max, mrc.max_value());

    assert_eq!("foo/bar.py", mrc.fs_for_ref(r0));
    assert_eq!("foo/baz.py", mrc.fs_for_ref(r1));
    assert_eq!("qux.py", mrc.fs_for_ref(r2));

    assert_eq!("foo.bar", mrc.py_for_ref(r0));
    assert_eq!("foo.baz", mrc.py_for_ref(r1));
    assert_eq!("qux", mrc.py_for_ref(r2));

    assert_eq!(None, mrc.pkg_for_ref(r0));
    assert_eq!(None, mrc.pkg_for_ref(r1));
    assert_eq!(None, mrc.pkg_for_ref(r2));

    assert_eq!(Some(r0), mrc.ref_for_fs("foo/bar.py"));
    assert_eq!(Some(r1), mrc.ref_for_fs("foo/baz.py"));
    assert_eq!(Some(r2), mrc.ref_for_fs("qux.py"));
    assert_eq!(None, mrc.ref_for_fs("foo.bar"));
    assert_eq!(None, mrc.ref_for_fs("foo.baz"));
    assert_eq!(None, mrc.ref_for_fs("qux"));

    assert_eq!(None, mrc.ref_for_py("foo/bar.py", None));
    assert_eq!(None, mrc.ref_for_py("foo/baz.py", None));
    assert_eq!(None, mrc.ref_for_py("qux.py", None));
    assert_eq!(Some(r0), mrc.ref_for_py("foo.bar", None));
    assert_eq!(Some(r1), mrc.ref_for_py("foo.baz", None));
    assert_eq!(Some(r2), mrc.ref_for_py("qux", None));
    assert_eq!(None, mrc.ref_for_py("foo.bar", Some("foo")));
    assert_eq!(None, mrc.ref_for_py("foo.baz", Some("foo")));
    assert_eq!(None, mrc.ref_for_py("qux", Some("foo")));
}

#[test]
fn get_or_create_local() {
    let mut mrc = ModuleRefCache::new();
    let r0 = mrc.get_or_create("a/foo.py", "foo", Some("a"));
    let r1 = mrc.get_or_create("b/foo.py", "foo", Some("b"));
    let r2 = mrc.get_or_create("c/foo.py", "foo", None);

    assert!(r0 < mrc.max_value());
    assert!(r1 < mrc.max_value());
    assert!(r2 < mrc.max_value());
    assert_ne!(r0, r1);
    assert_ne!(r0, r2);
    assert_ne!(r1, r2);

    let max = mrc.max_value();

    assert_eq!(
        r0,
        mrc.get_or_create("a/foo.py", "foo", Some("a"))
    );
    assert_eq!(
        r1,
        mrc.get_or_create("b/foo.py", "foo", Some("b"))
    );
    assert_eq!(r2, mrc.get_or_create("c/foo.py", "foo", None));

    assert_eq!(max, mrc.max_value());

    assert_eq!("a/foo.py", mrc.fs_for_ref(r0));
    assert_eq!("b/foo.py", mrc.fs_for_ref(r1));
    assert_eq!("c/foo.py", mrc.fs_for_ref(r2));

    assert_eq!("foo", mrc.py_for_ref(r0));
    assert_eq!("foo", mrc.py_for_ref(r1));
    assert_eq!("foo", mrc.py_for_ref(r2));

    assert_eq!(Some("a"), mrc.pkg_for_ref(r0));
    assert_eq!(Some("b"), mrc.pkg_for_ref(r1));
    assert_eq!(None, mrc.pkg_for_ref(r2));

    assert_eq!(Some(r0), mrc.ref_for_fs("a/foo.py"));
    assert_eq!(Some(r1), mrc.ref_for_fs("b/foo.py"));
    assert_eq!(Some(r2), mrc.ref_for_fs("c/foo.py"));
    assert_eq!(None, mrc.ref_for_fs("foo"));

    assert_eq!(None, mrc.ref_for_py("a/foo.py", None));
    assert_eq!(None, mrc.ref_for_py("b/foo.py", None));
    assert_eq!(None, mrc.ref_for_py("c/foo.py", None));
    assert_eq!(Some(r0), mrc.ref_for_py("foo", Some("a")));
    assert_eq!(Some(r1), mrc.ref_for_py("foo", Some("b")));
    assert_eq!(Some(r2), mrc.ref_for_py("foo", None));
    assert_eq!(None, mrc.ref_for_py("foo", Some("c")));
}

#[test]
fn get_or_create_no_fs() {
    let mut mrc = ModuleRefCache::new();

    // namespace pkg may have the same py mapping to multiple fs value
    // to support that, we allow the fs value to be omitted
    let r0 = mrc.get_or_create("", "foo", Some("a"));
    let r1 = mrc.get_or_create("", "foo", Some("b"));
    let r2 = mrc.get_or_create("", "foo", None);

    assert!(r0 < mrc.max_value());
    assert!(r1 < mrc.max_value());
    assert!(r2 < mrc.max_value());
    assert_ne!(r0, r1);
    assert_ne!(r0, r2);
    assert_ne!(r1, r2);

    let max = mrc.max_value();

    assert_eq!(
        r0,
        mrc.get_or_create("", "foo", Some("a"))
    );
    assert_eq!(
        r1,
        mrc.get_or_create("", "foo", Some("b"))
    );
    assert_eq!(r2, mrc.get_or_create("", "foo", None));

    assert_eq!(max, mrc.max_value());

    assert_eq!("", mrc.fs_for_ref(r0));
    assert_eq!("", mrc.fs_for_ref(r1));
    assert_eq!("", mrc.fs_for_ref(r2));

    assert_eq!("foo", mrc.py_for_ref(r0));
    assert_eq!("foo", mrc.py_for_ref(r1));
    assert_eq!("foo", mrc.py_for_ref(r2));

    assert_eq!(Some("a"), mrc.pkg_for_ref(r0));
    assert_eq!(Some("b"), mrc.pkg_for_ref(r1));
    assert_eq!(None, mrc.pkg_for_ref(r2));

    assert_eq!(None, mrc.ref_for_fs(""));

    assert_eq!(None, mrc.ref_for_py("", None));
    assert_eq!(Some(r0), mrc.ref_for_py("foo", Some("a")));
    assert_eq!(Some(r1), mrc.ref_for_py("foo", Some("b")));
    assert_eq!(Some(r2), mrc.ref_for_py("foo", None));
    assert_eq!(None, mrc.ref_for_py("foo", Some("c")));
}

#[test]
fn allow_mixed_fs() {
    let mut mrc = ModuleRefCache::new();
    let r0 = mrc.get_or_create("", "foo", None);
    let r1 = mrc.get_or_create("foo.py", "foo", None);

    assert_eq!(r0, r1);

    let r2 = mrc.get_or_create("bar.py", "bar", None);
    let r3 = mrc.get_or_create("", "bar", None);

    assert_eq!(r2, r3);
    assert_ne!(r0, r2);
}

#[test]
fn path_separator_in_import_path_is_refused() {
    let mut mrc = ModuleRefCache::new();
    let py = "foo".to_string() + std::path::MAIN_SEPARATOR_STR + "bar";
    assert_eq!(
        Err(CacheError::SeparatorInImportPath),
        mrc.try_get_or_create("", &py, None)
    );
    assert_eq!(0, mrc.max_value());
}

#[test]
fn mismatch_pkg_is_refused() {
    let mut mrc = ModuleRefCache::new();
    assert_eq!(Ok(0), mrc.try_get_or_create("foo.py", "foo", None));
    assert_eq!(
        Err(CacheError::PackageMismatch),
        mrc.try_get_or_create("foo.py", "foo", Some("foo"))
    );
    assert_eq!(1, mrc.max_value());
}

#[test]
fn mismatch_pkg_between_packages_is_refused() {
    let mut mrc = ModuleRefCache::new();
    assert_eq!(Ok(0), mrc.try_get_or_create("foo.py", "foo", Some("foo")));
    assert_eq!(
        Err(CacheError::PackageMismatch),
        mrc.try_get_or_create("foo.py", "foo", Some("bar"))
    );
}

#[test]
fn mismatch_py_global_is_refused() {
    let mut mrc = ModuleRefCache::new();
    assert_eq!(Ok(0), mrc.try_get_or_create("foo.py", "foo", None));
    assert_eq!(
        Err(CacheError::ImportPathMismatch),
        mrc.try_get_or_create("foo.py", "bar", None)
    );
}

#[test]
fn mismatch_py_local_is_refused() {
    let mut mrc = ModuleRefCache::new();
    assert_eq!(Ok(0), mrc.try_get_or_create("foo.py", "foo", Some("foo")));
    assert_eq!(
        Err(CacheError::ImportPathMismatch),
        mrc.try_get_or_create("foo.py", "bar", Some("foo"))
    );
}

#[test]
fn second_file_for_one_import_path_is_refused() {
    let mut mrc = ModuleRefCache::new();
    assert_eq!(Ok(0), mrc.try_get_or_create("a/foo.py", "foo", None));
    assert_eq!(
        Err(CacheError::FilePathMismatch),
        mrc.try_get_or_create("b/foo.py", "foo", None)
    );
    assert_eq!(Ok(0), mrc.try_get_or_create("a/foo.py", "foo", None));
}

#[test]
fn get_or_create_is_idempotent() {
    let mut mrc = ModuleRefCache::new();
    let a = mrc.get_or_create("x/a.py", "x.a", Some("x"));
    let n = mrc.max_value();
    let b = mrc.get_or_create("x/a.py", "x.a", Some("x"));
    assert_eq!(a, b);
    assert_eq!(n, mrc.max_value());
}

#[test]
fn file_after_namespace_keeps_the_entry_without_a_file() {
    let mut mrc = ModuleRefCache::new();
    let a = mrc.get_or_create("", "ns", None);
    let b = mrc.get_or_create("ns/__init__.py", "ns", None);
    assert_eq!(a, b);
    assert_eq!("", mrc.fs_for_ref(a));
    assert_eq!(None, mrc.ref_for_fs("ns/__init__.py"));
}

#[test]
fn first_matching_ref_tries_file_then_global_then_local() {
    let mut mrc = ModuleRefCache::new();
    let f = mrc.get_or_create("m", "other", None);
    let g = mrc.get_or_create("g.py", "m", None);
    let l = mrc.get_or_create("p/l.py", "only.local", Some("p"));
    assert_eq!(Some(f), mrc.first_matching_ref("m"));
    assert_eq!(Some(f), mrc.first_matching_ref("other"));
    assert_eq!(Some(g), mrc.first_matching_ref("g.py"));
    assert_eq!(Some(l), mrc.first_matching_ref("only.local"));
    assert_eq!(None, mrc.first_matching_ref("missing"));
    assert!(mrc.validate());
}

#[test]
fn from_values_rebuilds_the_maps_and_rejects_duplicates() {
    let v = |fs: &str, py: &str, pkg: Option<&str>| ModuleRefVal {
        fs: fs.to_string(),
        py: py.to_string(),
        pkg: pkg.map(|p| p.to_string()),
    };
    let values = vec![v("a.py", "a", None), v("", "ns", None), v("p/a.py", "a", Some("p"))];
    let c = ModuleRefCache::from_values(&values, '/').unwrap();
    assert_eq!(3, c.max_value());
    assert_eq!(Some(0), c.ref_for_fs("a.py"));
    assert_eq!(Some(1), c.ref_for_py("ns", None));
    assert_eq!(Some(2), c.ref_for_py("a", Some("p")));
    assert_eq!("p/a.py", c.get(2).fs);

    let twice = vec![v("a.py", "a", None), v("b.py", "a", None)];
    assert!(ModuleRefCache::from_values(&twice, '/').is_err());
    let same = vec![v("a.py", "a", None), v("a.py", "a", None)];
    assert_eq!(
        Some(CacheError::Duplicate),
        ModuleRefCache::from_values(&same, '/').err()
    );
    let sep = vec![v("a.py", "a/b", None)];
    assert_eq!(
        Some(CacheError::SeparatorInImportPath),
        ModuleRefCache::from_values(&sep, '/').err()
    );
}
