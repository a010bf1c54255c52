//! The bijective handle table, kept in a `bimap::BiMap`.
//!
//! Verus does not look inside the bimap. Its contents are named by [`pairs`],
//! and each method that the store calls is reached through a wrapper whose
//! contract is taken on trust from the bimap's source.

use bimap::BiMap;
use bimap::BiHashMap;
use vstd::prelude::*;

verus! {

/// What the table remembers of a node: a tag (0 for a terminal node, 1 for an
/// internal one) followed by four words. A terminal node keeps its state in
/// the first word and zeroes in the others; an internal node keeps the indices
/// of its north-west, north-east, south-west and south-east children.
pub type Shape = (usize, usize, usize, usize, usize);

/// `bimap::BiHashMap`, which `bimap::BiMap` stands for: carried as a value
/// that Verus does not look into.
#[verifier::external_type_specification]
#[verifier::external_body]
#[verifier::reject_recursive_types(L)]
#[verifier::reject_recursive_types(R)]
#[verifier::reject_recursive_types(LS)]
#[verifier::reject_recursive_types(RS)]
pub struct ExBiHashMap<L, R, LS, RS>(BiHashMap<L, R, LS, RS>);

/// The left-right pairs that a table holds, as a map from left to right.
pub uninterp spec fn pairs(t: BiMap<usize, Shape>) -> Map<usize, Shape>;

/// The pairs left by `BiHashMap::insert`: the pair of `left` and every pair
/// whose right value is `right` give way to the new pair.
pub open spec fn pairs_after_insert(m: Map<usize, Shape>, left: usize, right: Shape) -> Map<
    usize,
    Shape,
> {
    Map::new(
        |l: usize| l == left || (m.dom().contains(l) && m[l] != right),
        |l: usize|
            if l == left {
                right
            } else {
                m[l]
            },
    )
}

/// `BiHashMap::new`: a table without pairs.
#[verifier::external_body]
pub(crate) fn table_new() -> (t: BiMap<usize, Shape>)
    ensures
        pairs(t).dom() == Set::<usize>::empty(),
{
    BiMap::new()
}

/// `BiHashMap::len`: the number of pairs.
#[verifier::external_body]
pub(crate) fn table_len(t: &BiMap<usize, Shape>) -> (n: usize)
    ensures
        n == pairs(*t).dom().len(),
{
    t.len()
}

/// `BiHashMap::get_by_left`: the right value paired with `left`, if any.
#[verifier::external_body]
pub(crate) fn table_get_by_left(t: &BiMap<usize, Shape>, left: usize) -> (r: Option<Shape>)
    ensures
        r == if pairs(*t).dom().contains(left) {
            Some(pairs(*t)[left])
        } else {
            None
        },
{
    t.get_by_left(&left).copied()
}

/// `BiHashMap::get_by_right`: a left value paired with `right`, or `None`
/// when no pair has that right value.
#[verifier::external_body]
pub(crate) fn table_get_by_right(t: &BiMap<usize, Shape>, right: &Shape) -> (r: Option<usize>)
    ensures
        match r {
            Some(l) => pairs(*t).dom().contains(l) && pairs(*t)[l] == *right,
            None => forall|l: usize| pairs(*t).dom().contains(l) ==> pairs(*t)[l] != *right,
        },
{
    t.get_by_right(right).copied()
}

/// `BiHashMap::insert`: pairs `left` with `right`, after removing the pairs
/// that held either of them.
#[verifier::external_body]
pub(crate) fn table_insert(t: &mut BiMap<usize, Shape>, left: usize, right: Shape)
    ensures
        pairs(*final(t)) == pairs_after_insert(pairs(*old(t)), left, right),
{
    t.insert(left, right);
}

} // verus!
