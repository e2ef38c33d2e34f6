use prunepytest::dump::{extend, extend_str, label_chars, sorted_join};
use prunepytest::edge_table::EdgeTable;
use prunepytest::moduleref::ModuleRefCache;
use prunepytest::sorting::{less, order, sort_numbers};
use prunepytest::transitive_closure::TransitiveClosure;
use prunepytest::unresolved::Unresolved;

fn chars(s: &str) -> Vec<char> {
    s.chars().collect()
}

fn text(v: Vec<char>) -> String {
    v.into_iter().collect()
}

fn closure(modules: &[(&str, &str, Option<&str>)], edges: &[(u32, u32)]) -> TransitiveClosure {
    let mut cache = ModuleRefCache::with_separator('/');
    for (fs, py, pkg) in modules {
        cache.get_or_create(fs, py, *pkg);
    }
    let mut g = EdgeTable::new();
    g.grow(modules.len() as u32);
    for (a, b) in edges {
        g.add_edge(*a, *b);
    }
    TransitiveClosure::from(&g, cache, Unresolved::new())
}

#[test]
fn labels_have_at_least_four_hexadecimal_digits() {
    assert_eq!("V0000", text(label_chars('V', 0)));
    assert_eq!("V000a", text(label_chars('V', 10)));
    assert_eq!("C00ff", text(label_chars('C', 255)));
    assert_eq!("Cbeef", text(label_chars('C', 0xbeef)));
    assert_eq!("V10000", text(label_chars('V', 0x10000)));
    assert_eq!(format!("V{:04x}", 1234567usize), text(label_chars('V', 1234567)));
}

#[test]
fn strings_are_ordered_as_the_standard_library_orders_them() {
    let words = ["", "a", "ab", "b", "B", "é", "z", "日本", "a.b", "a/b", "a_b", "ab"];
    for a in words {
        for b in words {
            assert_eq!(a < b, less(&chars(a), &chars(b)), "{:?} < {:?}", a, b);
        }
    }
}

#[test]
fn the_sort_is_stable() {
    let keys: Vec<Vec<char>> = ["b", "a", "c", "a", "", "b"].iter().map(|s| chars(s)).collect();
    assert_eq!(vec![4, 1, 3, 0, 5, 2], order(&keys));
    assert_eq!(Vec::<usize>::new(), order(&Vec::new()));
}

#[test]
fn numbers_are_sorted_by_their_value() {
    assert_eq!(
        vec![2, 9, 10, 0x2000, 0x10000],
        sort_numbers(&vec![0x10000, 9, 0x2000, 10, 2])
    );
    assert_eq!(Vec::<usize>::new(), sort_numbers(&Vec::new()));
}

#[test]
fn pieces_are_joined_in_order() {
    let parts: Vec<Vec<char>> = ["V0002", "V0000", "V0001"].iter().map(|s| chars(s)).collect();
    assert_eq!("V0000,V0001,V0002", text(sorted_join(&parts)));
    assert_eq!("", text(sorted_join(&Vec::new())));
    assert_eq!("x", text(sorted_join(&vec![chars("x")])));
    let mut out = chars("ab");
    extend(&mut out, &chars("cd"));
    extend_str(&mut out, "ef");
    assert_eq!("abcdef", text(out));
}

#[test]
fn the_short_rendering_does_not_depend_on_the_ids() {
    // z -> m -> a -> m, with a local module named by its file
    let one = closure(
        &[("", "z", None), ("", "m", None), ("", "a", None), ("t/x.py", "x", Some("t"))],
        &[(0, 1), (1, 2), (2, 1), (3, 0)],
    );
    let expected = "V0000 : a\n\
                    V0001 : m\n\
                    V0002 : t/x.py\n\
                    V0003 : z\n\
                    C0000 (V0000,V0001) -> C0000\n\
                    C0001 (V0002) -> C0000,C0002\n\
                    C0002 (V0003) -> C0000\n";
    assert_eq!(expected, one.to_small_text());

    let other = closure(
        &[("t/x.py", "x", Some("t")), ("", "a", None), ("", "z", None), ("", "m", None)],
        &[(0, 2), (2, 3), (3, 1), (1, 3)],
    );
    assert_eq!(expected, other.to_small_text());
    assert_eq!("", closure(&[], &[]).to_small_text());
}

#[test]
fn the_long_rendering_lists_import_paths() {
    let tc = closure(
        &[("", "z", None), ("", "m", None), ("", "a", None)],
        &[(0, 1), (1, 2), (2, 1)],
    );
    assert_eq!("a,m : a,mz : a,m", tc.to_text());
}
