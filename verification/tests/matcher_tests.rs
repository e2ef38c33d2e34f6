use prunepytest::matcher::MatcherNode;

#[test]
fn from_values() {
    let m = MatcherNode::from(
        vec![
            "foo",
            "bar/v1",
            "bar/v2",
            "qux/a",
            "qux/a/sub",
            "qux/b",
            "qux/b/sub",
            "qux/c",
            "qux/c/sub",
        ],
        '/',
    );

    {
        let mut r: Vec<String> = Vec::default();
        m.all_suffixes_of_into("foo", '.', &mut r);
        assert!(r.is_empty());
    }
    {
        let mut r: Vec<String> = Vec::default();
        m.all_suffixes_of_into("bar", '.', &mut r);
        r.sort();
        assert_eq!(vec!["bar.v1", "bar.v2"], r);
    }
    {
        let mut r: Vec<String> = Vec::default();
        m.all_suffixes_of_into("baz", '.', &mut r);
        assert!(r.is_empty());
    }
    {
        let mut r: Vec<String> = Vec::default();
        m.all_suffixes_of_into("qux", '.', &mut r);
        r.sort();
        assert_eq!(
            vec![
                "qux.a",
                "qux.a.sub",
                "qux.b",
                "qux.b.sub",
                "qux.c",
                "qux.c.sub"
            ],
            r
        );
    }
    {
        let mut r: Vec<String> = Vec::default();
        m.all_suffixes_of_into("qux.a", '.', &mut r);
        r.sort();
        assert_eq!(vec!["qux.a.sub"], r);
    }

    assert_eq!(false, m.matches("", '/'));
    assert_eq!(false, m.matches("f", '/'));
    assert_eq!(false, m.matches("fo", '/'));
    assert_eq!(true, m.matches("foo", '/'));
    assert_eq!(false, m.matches("fool", '/'));
    assert_eq!(false, m.matches("foo.l", '/'));
    assert_eq!(true, m.matches("foo.l", '.'));
    assert_eq!(true, m.matches("foo/l", '/'));
    assert_eq!(false, m.matches("foo/l", '.'));

    assert_eq!(false, m.matches("bar", '/'));
    assert_eq!(true, m.matches("bar/v1", '/'));
    assert_eq!(true, m.matches("bar.v1", '.'));
    assert_eq!(true, m.matches("bar/v1/sub", '/'));
    assert_eq!(true, m.matches("bar.v1.sub", '.'));

    assert_eq!(true, m.matches("bar/v2", '/'));
    assert_eq!(true, m.matches("bar.v2", '.'));
    assert_eq!(false, m.matches("bar.v3", '.'));

    assert_eq!(false, m.matches("qux", '/'));
    assert_eq!(true, m.matches("qux/a", '/'));
    assert_eq!(true, m.matches("qux/b", '/'));
    assert_eq!(true, m.matches("qux/c", '/'));
    assert_eq!(true, m.matches("qux.a", '.'));
    assert_eq!(true, m.matches("qux.b", '.'));
    assert_eq!(true, m.matches("qux.c", '.'));
    assert_eq!(false, m.matches("qux/d", '/'));
    assert_eq!(false, m.matches("qux.d", '.'));
    assert_eq!(true, m.matches("qux/a/sub", '/'));
    assert_eq!(true, m.matches("qux/b/sub", '/'));
    assert_eq!(true, m.matches("qux/c/sub", '/'));
    assert_eq!(true, m.matches("qux/a/sub/1", '/'));
    assert_eq!(true, m.matches("qux/b/sub/1/2", '/'));
    assert_eq!(true, m.matches("qux/c/sub/1/2/3", '/'));

    assert_eq!(false, m.strict_prefix("foo", '.'));
    assert_eq!(true, m.strict_prefix("bar", '.'));
    assert_eq!(false, m.strict_prefix("bar/.v1", '.'));
    assert_eq!(true, m.strict_prefix("qux", '.'));
    assert_eq!(false, m.strict_prefix("qux.a", '.'));
    assert_eq!(false, m.strict_prefix("qux.a.sub", '.'));

    assert_eq!("", m.longest_prefix("", '/'));
    assert_eq!("", m.longest_prefix("f", '/'));
    assert_eq!("", m.longest_prefix("fo", '/'));
    assert_eq!("foo", m.longest_prefix("foo", '/'));
    assert_eq!("", m.longest_prefix("fool", '/'));
    assert_eq!("", m.longest_prefix("foo.l", '/'));
    assert_eq!("foo", m.longest_prefix("foo.l", '.'));
    assert_eq!("foo", m.longest_prefix("foo/l", '/'));
    assert_eq!("", m.longest_prefix("foo/l", '.'));

    assert_eq!("", m.longest_prefix("bar", '/'));
    assert_eq!("bar/v1", m.longest_prefix("bar/v1", '/'));
    assert_eq!("bar.v1", m.longest_prefix("bar.v1", '.'));
    assert_eq!("bar/v1", m.longest_prefix("bar/v1/sub", '/'));
    assert_eq!("bar.v1", m.longest_prefix("bar.v1.sub", '.'));

    assert_eq!("bar/v2", m.longest_prefix("bar/v2", '/'));
    assert_eq!("bar.v2", m.longest_prefix("bar.v2", '.'));

    assert_eq!("", m.longest_prefix("qux", '/'));
    assert_eq!("qux/a", m.longest_prefix("qux/a", '/'));
    assert_eq!("qux/b", m.longest_prefix("qux/b", '/'));
    assert_eq!("qux/c", m.longest_prefix("qux/c", '/'));
    assert_eq!("qux.a", m.longest_prefix("qux.a", '.'));
    assert_eq!("qux.b", m.longest_prefix("qux.b", '.'));
    assert_eq!("qux.c", m.longest_prefix("qux.c", '.'));
    assert_eq!("", m.longest_prefix("qux/d", '/'));
    assert_eq!("", m.longest_prefix("qux.d", '.'));
    assert_eq!("qux/a/sub", m.longest_prefix("qux/a/sub", '/'));
    assert_eq!("qux/b/sub", m.longest_prefix("qux/b/sub", '/'));
    assert_eq!("qux/c/sub", m.longest_prefix("qux/c/sub", '/'));
    assert_eq!("qux/a/sub", m.longest_prefix("qux/a/sub/1", '/'));
    assert_eq!("qux/b/sub", m.longest_prefix("qux/b/sub/1/2", '/'));
    assert_eq!("qux/c/sub", m.longest_prefix("qux/c/sub/1/2/3", '/'));
}

#[test]
fn add() {
    let mut m = MatcherNode::new();
    m.add("foo.bar.baz", '.');
    m.add("foo/baz/bar", '/');
    m.add("foo", '/');
    m.add("bar/baz", '/');
    m.add("foo/baz", '/');

    assert_eq!(2, m.child_count());
    assert_eq!(true, m.matches("foo", '/'));
    assert_eq!(true, m.matches("foo.baz", '.'));
    assert_eq!(true, m.matches("foo/bar", '/'));
    assert_eq!(true, m.matches("foo/bar/baz", '/'));
    assert_eq!(true, m.matches("foo/baz/bar", '/'));
    assert_eq!(true, m.matches("bar.baz", '.'));
    assert_eq!(false, m.matches("fool", '.'));
    assert_eq!(false, m.matches("fool.ed", '.'));
    assert_eq!(false, m.matches("baz", '.'));
    assert_eq!(false, m.matches("baz.bar", '.'));

    assert_eq!(false, m.strict_prefix("foo", '/'));
    assert_eq!(false, m.strict_prefix("foo.baz", '.'));
    assert_eq!(false, m.strict_prefix("foo/bar", '/'));
    assert_eq!(false, m.strict_prefix("foo/bar/baz", '/'));
    assert_eq!(false, m.strict_prefix("foo/baz/bar", '/'));
    assert_eq!(true, m.strict_prefix("bar", '.'));
    assert_eq!(false, m.strict_prefix("bar.baz", '.'));
    assert_eq!(false, m.strict_prefix("fool", '.'));
    assert_eq!(false, m.strict_prefix("fool.ed", '.'));
    assert_eq!(false, m.strict_prefix("baz", '.'));
    assert_eq!(false, m.strict_prefix("baz.bar", '.'));

    assert_eq!("foo", m.longest_prefix("foo", '/'));
    assert_eq!("foo.baz", m.longest_prefix("foo.baz", '.'));
    assert_eq!("foo", m.longest_prefix("foo/bar", '/'));
    assert_eq!("foo/bar/baz", m.longest_prefix("foo/bar/baz", '/'));
    assert_eq!("foo/baz/bar", m.longest_prefix("foo/baz/bar", '/'));
    assert_eq!("bar.baz", m.longest_prefix("bar.baz", '.'));
    assert_eq!("", m.longest_prefix("fool", '.'));
    assert_eq!("", m.longest_prefix("fool.ed", '.'));
    assert_eq!("", m.longest_prefix("baz.bar", '.'));
}

#[test]
fn longest_prefix_len_counts_the_bytes_of_the_prefix() {
    let m = MatcherNode::from(vec!["foo", "bar/v1", "é/x"], '/');
    assert_eq!(3, m.longest_prefix_len("foo/l", '/'));
    assert_eq!(6, m.longest_prefix_len("bar/v1/sub", '/'));
    assert_eq!(0, m.longest_prefix_len("bar/v3", '/'));
    assert_eq!(0, m.longest_prefix_len("fool", '/'));
    assert_eq!("é/x".len(), m.longest_prefix_len("é/x/y", '/'));
}

#[test]
fn a_strict_prefix_has_nothing_inserted_on_the_way() {
    let mut m = MatcherNode::new();
    m.add("foo", '.');
    m.add("foo.bar.baz", '.');
    m.add("qux.a.b", '.');
    assert_eq!(false, m.strict_prefix("foo", '.'));
    assert_eq!(false, m.strict_prefix("foo.bar", '.'));
    assert_eq!(false, m.strict_prefix("foo.bar.baz", '.'));
    assert_eq!(true, m.strict_prefix("qux", '.'));
    assert_eq!(true, m.strict_prefix("qux.a", '.'));
    assert_eq!(false, m.strict_prefix("qux.a.b", '.'));
    assert_eq!(false, m.strict_prefix("qux.a.b.c", '.'));
    assert_eq!(false, m.strict_prefix("nothing", '.'));
}
