//! Sets of component ids, kept in a hierarchical sparse bitset.
//!
//! The bitset is not verified. This file states what the rest of the library assumes of
//! it, over `edge_set`, the set of numbers that a bitset holds.
use vstd::prelude::*;

verus! {

/// A set of component ids. Verus sees nothing inside a value of it.
#[verifier::external_body]
pub struct CondensedEdges {
    bits: hi_sparse_bitset::BitSet<hi_sparse_bitset::config::_128bit>,
}

/// The numbers that `s` holds.
pub uninterp spec fn edge_set(s: CondensedEdges) -> Set<usize>;

/// One more than the greatest number that a set can hold.
pub const EDGE_CAPACITY: usize = 2_097_152;

/// A set that holds nothing.
///
/// Trusted: wraps `BitSet::new`, which builds the default value, a bitset with no block
/// allocated.
#[verifier::external_body]
pub(crate) fn edges_new() -> (s: CondensedEdges)
    ensures
        edge_set(s) == Set::<usize>::empty(),
{
    CondensedEdges { bits: hi_sparse_bitset::BitSet::new() }
}

/// Adds `index` to the set.
///
/// Trusted: wraps `BitSet::insert`, which sets the bit of `index` and panics when
/// `index` is not below the capacity of the configuration, 128 * 128 * 128.
#[verifier::external_body]
pub(crate) fn edges_insert(s: &mut CondensedEdges, index: usize)
    requires
        index < EDGE_CAPACITY,
    ensures
        edge_set(*final(s)) == edge_set(*old(s)).insert(index),
{
    s.bits.insert(index)
}

/// Whether the set holds `index`.
///
/// Trusted: wraps `BitSet::contains`, which reads the bit of `index` without a range
/// check; only an index below the capacity is handed to it.
#[verifier::external_body]
pub(crate) fn edges_contains(s: &CondensedEdges, index: usize) -> (r: bool)
    requires
        index < EDGE_CAPACITY,
    ensures
        r == edge_set(*s).contains(index),
{
    s.bits.contains(index)
}

/// Whether the set holds nothing.
///
/// Trusted: wraps `BitSet::is_empty`.
#[verifier::external_body]
pub(crate) fn edges_is_empty(s: &CondensedEdges) -> (r: bool)
    ensures
        r == (forall|i: usize| !edge_set(*s).contains(i)),
{
    s.bits.is_empty()
}

/// The numbers of the set, in ascending order.
///
/// Trusted: wraps `BitSet::iter`, whose items the crate documents as always sorted; each
/// number comes once and all are below the capacity.
#[verifier::external_body]
pub(crate) fn edges_to_vec(s: &CondensedEdges) -> (v: Vec<usize>)
    ensures
        forall|i: int, j: int| 0 <= i < j < v@.len() ==> v@[i] < v@[j],
        forall|x: usize| v@.contains(x) <==> edge_set(*s).contains(x),
        forall|i: int| 0 <= i < v@.len() ==> v@[i] < EDGE_CAPACITY,
{
    s.bits.iter().collect()
}

} // verus!
