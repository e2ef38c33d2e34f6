//! The source roots as they are written on a command line or in a file: pairs of a
//! file system root and an import root.
use vstd::prelude::*;
use vstd::string::*;
use crate::graph::pair_views;
use crate::text::{
    find_char, first_index_of, last_index_of, lemma_first_index_of, lemma_last_index_of,
    rfind_char, skip_chars, split, take_chars, tokenize, views,
};

verus! {

/// How pairs are written.
#[derive(Clone, Copy, Debug, PartialEq, Eq)]
pub enum Notation {
    /// In a list, with commas between the pairs: the file system root, a colon, the
    /// import root. The last colon of a pair counts.
    List,
    /// One pair on each line: the import root, a colon, the file system root. The first
    /// colon of a line counts, and an empty line is passed over.
    Lines,
}

/// The pair of file system root and import root that `item` stands for; `None` where
/// it has no colon.
pub open spec fn pair_of(item: Seq<char>, notation: Notation) -> Option<(Seq<char>, Seq<char>)> {
    match notation {
        Notation::List => match last_index_of(item, ':') {
            Some(k) => Some((item.take(k), item.skip(k + 1))),
            None => None,
        },
        Notation::Lines => match first_index_of(item, ':') {
            Some(k) => Some((item.skip(k + 1), item.take(k))),
            None => None,
        },
    }
}

/// Whether `item` is passed over.
pub open spec fn is_skipped(item: Seq<char>, notation: Notation) -> bool {
    notation == Notation::Lines && item.len() == 0
}

/// The pairs that `items` stand for, in their order; `None` where one of them stands
/// for no pair.
pub open spec fn pairs_of(items: Seq<Seq<char>>, notation: Notation) -> Option<
    Seq<(Seq<char>, Seq<char>)>,
>
    decreases items.len(),
{
    if items.len() == 0 {
        Some(Seq::empty())
    } else {
        match pairs_of(items.drop_last(), notation) {
            None => None,
            Some(ps) => if is_skipped(items.last(), notation) {
                Some(ps)
            } else {
                match pair_of(items.last(), notation) {
                    Some(p) => Some(ps.push(p)),
                    None => None,
                }
            },
        }
    }
}

/// The separator between the items of a text.
pub open spec fn item_separator(notation: Notation) -> char {
    match notation {
        Notation::List => ',',
        Notation::Lines => '\n',
    }
}

/// The source roots that `text` names.
pub open spec fn roots_of(text: Seq<char>, notation: Notation) -> Option<
    Seq<(Seq<char>, Seq<char>)>,
> {
    pairs_of(split(text, item_separator(notation)), notation)
}

/// Once an item stands for no pair, the whole text names none.
proof fn lemma_pairs_fail(items: Seq<Seq<char>>, notation: Notation, k: int)
    requires
        0 <= k <= items.len(),
        pairs_of(items.take(k), notation) is None,
    ensures
        pairs_of(items, notation) is None,
    decreases items.len() - k,
{
    if k == items.len() {
        assert(items.take(k) =~= items);
    } else {
        assert(items.drop_last().take(k) =~= items.take(k));
        lemma_pairs_fail(items.drop_last(), notation, k);
    }
}

/// The pair that one item stands for.
fn read_pair(item: &str, notation: Notation) -> (r: Option<(String, String)>)
    ensures
        match (r, pair_of(item@, notation)) {
            (Some(p), Some(q)) => p.0@ == q.0 && p.1@ == q.1,
            (None, None) => true,
            _ => false,
        },
{
    let n = item.unicode_len();
    proof {
        lemma_last_index_of(item@, ':');
        lemma_first_index_of(item@, ':');
    }
    match notation {
        Notation::List => match rfind_char(item, ':') {
            Some(k) => Some((take_chars(item, k).to_owned(), skip_chars(item, k + 1).to_owned())),
            None => None,
        },
        Notation::Lines => match find_char(item, ':') {
            Some(k) => Some((skip_chars(item, k + 1).to_owned(), take_chars(item, k).to_owned())),
            None => None,
        },
    }
}

/// The source roots that `text` names, as pairs of file system root and import root.
pub fn source_roots(text: &str, notation: Notation) -> (r: Option<Vec<(String, String)>>)
    ensures
        match (r, roots_of(text@, notation)) {
            (Some(v), Some(ps)) => pair_views(v@) == ps,
            (None, None) => true,
            _ => false,
        },
{
    let sep = match notation {
        Notation::List => ',',
        Notation::Lines => '\n',
    };
    let items = tokenize(text, sep);
    let ghost all = views(items@);
    let mut out: Vec<(String, String)> = Vec::new();
    let mut i: usize = 0;
    proof {
        assert(all.take(0).len() == 0);
        assert(pair_views(out@) =~= Seq::<(Seq<char>, Seq<char>)>::empty());
    }
    while i < items.len()
        invariant
            i <= items@.len(),
            all == views(items@),
            all == split(text@, item_separator(notation)),
            pairs_of(all.take(i as int), notation) == Some(pair_views(out@)),
        decreases items@.len() - i,
    {
        let item = items[i].as_str();
        proof {
            assert(all.take(i + 1).drop_last() =~= all.take(i as int));
            assert(all.take(i + 1).last() == item@);
        }
        let skipped = match notation {
            Notation::List => false,
            Notation::Lines => item.unicode_len() == 0,
        };
        if !skipped {
            match read_pair(item, notation) {
                Some(p) => {
                    let ghost before = out@;
                    out.push(p);
                    proof {
                        assert(pair_views(out@) =~= pair_views(before).push((p.0@, p.1@)));
                    }
                },
                None => {
                    proof {
                        lemma_pairs_fail(all, notation, i + 1);
                    }
                    return None;
                },
            }
        }
        i += 1;
    }
    proof {
        assert(all.take(i as int) =~= all);
    }
    Some(out)
}

} // verus!
