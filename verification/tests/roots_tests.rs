use prunepytest::roots::{source_roots, Notation};

fn pairs(v: &[(&str, &str)]) -> Option<Vec<(String, String)>> {
    Some(v.iter().map(|(a, b)| (a.to_string(), b.to_string())).collect())
}

#[test]
fn a_list_names_file_system_root_then_import_root() {
    assert_eq!(
        pairs(&[("src/affirm", "affirm"), ("c:/x/tests", "tests")]),
        source_roots("src/affirm:affirm,c:/x/tests:tests", Notation::List)
    );
    assert_eq!(pairs(&[("", "")]), source_roots(":", Notation::List));
    assert_eq!(None, source_roots("", Notation::List));
    assert_eq!(None, source_roots("a:b,", Notation::List));
    assert_eq!(None, source_roots("a:b,c", Notation::List));
}

#[test]
fn lines_name_import_root_then_file_system_root() {
    assert_eq!(
        pairs(&[("src/affirm", "affirm"), ("x:y", "tests")]),
        source_roots("affirm:src/affirm\ntests:x:y\n", Notation::Lines)
    );
    assert_eq!(pairs(&[]), source_roots("", Notation::Lines));
    assert_eq!(pairs(&[]), source_roots("\n\n", Notation::Lines));
    assert_eq!(None, source_roots("affirm:src\nnothing\n", Notation::Lines));
}
