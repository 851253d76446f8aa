//! The merge of two ascending lists of positions, by the merge join of
//! itertools.

use super::nway::is_join;
use super::nway::items_ascend;
use super::nway::JoinPlace;
use itertools::EitherOrBoth;
use std::cmp::Ordering;
use vstd::prelude::*;

verus! {

/// How two positions compare.
pub fn order_of(left: usize, right: usize) -> (order: Ordering)
    ensures
        order == Ordering::Less <==> left < right,
        order == Ordering::Equal <==> left == right,
        order == Ordering::Greater <==> left > right,
{
    if left < right {
        Ordering::Less
    } else if left == right {
        Ordering::Equal
    } else {
        Ordering::Greater
    }
}

/// Calls `itertools::merge_join_by` on the two lists, each item with its
/// index, and gives the places that it yields. It walks both lists at
/// once and yields, in ascending order of the items, the lesser item of
/// the two in question alone, and two equal items together. For lists
/// that ascend strictly the places of the items that both lists hold
/// therefore name equal items, ascend in both lists, and leave out no
/// pair of equal items.
#[verifier::external_body]
pub(crate) fn merge_join_places(current: &[usize], new: &[usize]) -> (places: Vec<JoinPlace>)
    requires
        items_ascend(current@),
        items_ascend(new@),
    ensures
        is_join(current@, new@, places@),
{
    itertools::merge_join_by(
        current.iter().enumerate(),
        new.iter().enumerate(),
        |left, right| order_of(*left.1, *right.1),
    ).map(
        |entry|
            match entry {
                EitherOrBoth::Left(left) => JoinPlace::Left(left.0),
                EitherOrBoth::Right(right) => JoinPlace::Right(right.0),
                EitherOrBoth::Both(left, right) => JoinPlace::Both(left.0, right.0),
            },
    ).collect()
}

} // verus!
