//! Similarity ranking of users by how differently they ordered a common set
//! of rated items.
//!
//! For a designated target user in a rating table, every other user's ratings
//! are re-expressed in the target's item ranking order (a collision vector),
//! the number of inversions in that vector is counted by a divide-and-conquer
//! merge, and users are ranked by ascending inversion count.
use vstd::prelude::*;

pub mod collisions;
pub mod inversions;
pub mod ranking;

verus! {

/// The distinct, inspectable error conditions the core can surface.
///
/// - `UserNotFound`: the target user id does not appear in the rating table.
/// - `MalformedInput`: the rating table breaks the data-model invariant
///   (rows of unequal length, or a target row that does not contain every
///   rank `1..=item_count`).
/// - `Overflow`: the item count exceeds the width chosen for rank values and
///   for the inversion accumulator (ranks are `u32`, counts accumulate in
///   `u64`, so item counts up to `u32::MAX` are safe).
#[derive(Clone, Copy, Debug, PartialEq, Eq, Structural)]
pub enum RatingError {
    UserNotFound,
    MalformedInput,
    Overflow,
}

} // verus!
