//! Building collision vectors: a comparison user's ratings re-expressed in
//! the target user's item ranking order.
//!
//! A rating table is a sequence of `(user id, ratings)` rows, one rating per
//! item. Within the target's row the ratings are ranks: each value
//! `1..=item_count` occurs, and position `i` of the collision vector holds
//! the comparison user's rating of the item the target ranked `i + 1`.
use vstd::prelude::*;

use crate::inversions::inversions;
use crate::RatingError;

verus! {

/// A rating table row: the user's id and one rating per item.
pub type RatingRow = (u32, Vec<u32>);

/// The target row contains every rank value `1..=row.len()`, so looking up
/// "which item did the target rank `k`" is defined for every `k`.
pub open spec fn has_all_ranks(row: Seq<u32>) -> bool {
    forall|r: u32| 1 <= r <= row.len() ==> #[trigger] row.contains(r)
}

/// The first position of `rank` within `row` (zero if absent).
pub open spec fn rank_index(row: Seq<u32>, rank: u32) -> int {
    match row.index_of_first(rank) {
        Some(i) => i,
        None => 0,
    }
}

/// The collision vector of one comparison user against a target row:
/// position `i` holds the comparison user's rating of the item the target
/// ranked `i + 1`.
pub open spec fn collision_of(target_row: Seq<u32>, rating: Seq<u32>) -> Seq<u32> {
    Seq::new(target_row.len(), |i: int| rating[rank_index(target_row, (i + 1) as u32)])
}

/// The item count of a table: the length of its first row.
pub open spec fn films_of(table: Seq<RatingRow>) -> nat {
    if table.len() == 0 {
        0
    } else {
        table[0].1@.len()
    }
}

/// Every row rates the same items, so all rows have the same length.
pub open spec fn same_len_rows(table: Seq<RatingRow>) -> bool {
    forall|k: int| 0 <= k < table.len() ==> (#[trigger] table[k]).1@.len() == films_of(table)
}

/// Some row of the table carries the given user id.
pub open spec fn table_contains_id(table: Seq<RatingRow>, id: u32) -> bool {
    exists|k: int| 0 <= k < table.len() && (#[trigger] table[k]).0 == id
}

/// The index of the last row carrying the given user id (`-1` if none).
/// When an id appears on several rows, the last one is taken as the user's
/// row, and every row with another id counts as a comparison row.
pub open spec fn last_index_with_id(table: Seq<RatingRow>, id: u32) -> int
    decreases table.len(),
{
    if table.len() == 0 {
        -1
    } else if table.last().0 == id {
        table.len() - 1
    } else {
        last_index_with_id(table.drop_last(), id)
    }
}

/// The ratings of the target user: the last row carrying the target's id.
pub open spec fn target_row_of(table: Seq<RatingRow>, id: u32) -> Seq<u32> {
    table[last_index_with_id(table, id)].1@
}

/// The comparison rows: every row whose id differs from the target's, in
/// table order.
pub open spec fn others_of(table: Seq<RatingRow>, id: u32) -> Seq<RatingRow>
    decreases table.len(),
{
    if table.len() == 0 {
        Seq::empty()
    } else {
        let rest = others_of(table.drop_last(), id);
        if table.last().0 == id {
            rest
        } else {
            rest.push(table.last())
        }
    }
}

/// When some row carries the id, the last index with that id is a real row
/// index and its row carries the id.
pub proof fn lemma_last_index_exists(table: Seq<RatingRow>, id: u32)
    requires
        table_contains_id(table, id),
    ensures
        0 <= last_index_with_id(table, id) < table.len(),
        table[last_index_with_id(table, id)].0 == id,
    decreases table.len(),
{
    if table.last().0 != id {
        let k = choose|k: int| 0 <= k < table.len() && (#[trigger] table[k]).0 == id;
        assert(table.drop_last()[k] == table[k]);
        lemma_last_index_exists(table.drop_last(), id);
    }
}

proof fn lemma_last_index_with_id(table: Seq<RatingRow>, id: u32, i: int)
    requires
        0 <= i < table.len(),
        table[i].0 == id,
        forall|j: int| i < j < table.len() ==> (#[trigger] table[j]).0 != id,
    ensures
        last_index_with_id(table, id) == i,
    decreases table.len(),
{
    if i < table.len() - 1 {
        lemma_last_index_with_id(table.drop_last(), id, i);
    }
}

/// Finds the first position of `rank` within `row` by a linear scan, as the
/// spec function `rank_index` names it.
fn find_rank_position(row: &Vec<u32>, rank: u32) -> (r: Option<usize>)
    ensures
        match r {
            Some(idx) => idx < row@.len() && row@.index_of_first(rank) == Some(idx as int),
            None => !row@.contains(rank),
        },
{
    let mut idx: usize = 0;
    while idx < row.len()
        invariant
            idx <= row@.len(),
            forall|j: int| 0 <= j < idx ==> row@[j] != rank,
        decreases row@.len() - idx,
    {
        if row[idx] == rank {
            proof {
                row@.index_of_first_ensures(rank);
            }
            return Some(idx);
        }
        idx = idx + 1;
    }
    proof {
        assert(forall|j: int| 0 <= j < row@.len() ==> row@[j] != rank);
    }
    None
}

/// Checks that the row contains every rank value `1..=row.len()`, the
/// precondition for inverting it into a rank-to-item lookup.
pub fn check_has_all_ranks(row: &Vec<u32>) -> (ok: bool)
    requires
        row@.len() <= 0xFFFF_FFFFusize,
    ensures
        ok == has_all_ranks(row@),
{
    let films = row.len();
    let mut i: usize = 0;
    while i < films
        invariant
            i <= films,
            films == row@.len() <= 0xFFFF_FFFFusize,
            forall|r: u32| 1 <= r <= i ==> #[trigger] row@.contains(r),
        decreases films - i,
    {
        let rank = (i as u32) + 1;
        match find_rank_position(row, rank) {
            Some(_) => {
                proof {
                    row@.index_of_first_ensures(rank);
                }
            },
            None => {
                return false;
            },
        }
        i = i + 1;
    }
    true
}

/// Builds the collision vector of one comparison user against the target's
/// row: position `i` receives the rating the comparison user gave to the item
/// the target ranked `i + 1`.
pub fn build_collision_vector(target_row: &Vec<u32>, rating: &Vec<u32>) -> (c: Vec<u32>)
    requires
        target_row@.len() == rating@.len(),
        target_row@.len() <= 0xFFFF_FFFFusize,
        has_all_ranks(target_row@),
    ensures
        c@ == collision_of(target_row@, rating@),
{
    let films = target_row.len();
    let mut collision: Vec<u32> = Vec::new();
    let mut i: usize = 0;
    while i < films
        invariant
            i <= films,
            films == target_row@.len() == rating@.len(),
            films <= 0xFFFF_FFFFusize,
            has_all_ranks(target_row@),
            collision@.len() == i,
            forall|k: int|
                0 <= k < i ==> collision@[k] == rating@[rank_index(target_row@, (k + 1) as u32)],
        decreases films - i,
    {
        let rank = (i as u32) + 1;
        assert(target_row@.contains(rank));
        proof {
            target_row@.index_of_first_ensures(rank);
        }
        let idx = match find_rank_position(target_row, rank) {
            Some(idx) => idx,
            None => {
                proof {
                    assert(false);
                }
                0
            },
        };
        collision.push(rating[idx]);
        i = i + 1;
    }
    proof {
        assert(collision@ =~= collision_of(target_row@, rating@));
    }
    collision
}

/// For every comparison user — every row whose id differs from the target's —
/// builds the collision vector of that user's ratings against the target's
/// row, in table order.
///
/// The target's row is the last row carrying the target's id; a duplicated id
/// is a deliberate override, not an error, and rows with another id all stay
/// as comparison rows. The table is validated fast-first: the target must be
/// present (`UserNotFound`), the rows must all have the same length and the
/// target's row must contain every rank `1..=item_count` (`MalformedInput`),
/// and the item count must fit the `u32` rank domain (`Overflow`).
pub fn get_rating_collisions(ratings: &Vec<RatingRow>, target_user_id: u32) -> (r: Result<
    Vec<RatingRow>,
    RatingError,
>)
    ensures
        match r {
            Ok(cols) => {
                &&& table_contains_id(ratings@, target_user_id)
                &&& same_len_rows(ratings@)
                &&& films_of(ratings@) <= 0xFFFF_FFFF
                &&& has_all_ranks(target_row_of(ratings@, target_user_id))
                &&& cols@.len() == others_of(ratings@, target_user_id).len()
                &&& forall|k: int|
                    0 <= k < cols@.len() ==> {
                        &&& (#[trigger] cols@[k]).0 == others_of(ratings@, target_user_id)[k].0
                        &&& cols@[k].1@ == collision_of(
                            target_row_of(ratings@, target_user_id),
                            others_of(ratings@, target_user_id)[k].1@,
                        )
                    }
            },
            Err(e) => match e {
                RatingError::UserNotFound => !table_contains_id(ratings@, target_user_id),
                RatingError::MalformedInput => {
                    &&& table_contains_id(ratings@, target_user_id)
                    &&& (!same_len_rows(ratings@) || (films_of(ratings@) <= 0xFFFF_FFFF
                        && !has_all_ranks(target_row_of(ratings@, target_user_id))))
                },
                RatingError::Overflow => {
                    &&& table_contains_id(ratings@, target_user_id)
                    &&& same_len_rows(ratings@)
                    &&& films_of(ratings@) > 0xFFFF_FFFF
                },
            },
        },
{
    let n = ratings.len();

    // Locate the last row carrying the target's id.
    let mut target_idx: usize = 0;
    let mut found = false;
    let mut k: usize = 0;
    while k < n
        invariant
            k <= n == ratings@.len(),
            found ==> target_idx < k && ratings@[target_idx as int].0 == target_user_id && forall|
                j: int,
            |
                target_idx < j < k ==> (#[trigger] ratings@[j]).0 != target_user_id,
            !found ==> forall|j: int| 0 <= j < k ==> (#[trigger] ratings@[j]).0 != target_user_id,
        decreases n - k,
    {
        if ratings[k].0 == target_user_id {
            target_idx = k;
            found = true;
        }
        k = k + 1;
    }
    if !found {
        return Err(RatingError::UserNotFound);
    }
    proof {
        lemma_last_index_with_id(ratings@, target_user_id, target_idx as int);
    }

    // Every row must rate the same items as the first row.
    let films = ratings[0].1.len();
    let mut k: usize = 0;
    while k < n
        invariant
            k <= n == ratings@.len(),
            n > 0,
            table_contains_id(ratings@, target_user_id),
            films == films_of(ratings@),
            forall|j: int| 0 <= j < k ==> (#[trigger] ratings@[j]).1@.len() == films,
        decreases n - k,
    {
        if ratings[k].1.len() != films {
            assert(!same_len_rows(ratings@)) by {
                assert(ratings@[k as int].1@.len() != films_of(ratings@));
            }
            return Err(RatingError::MalformedInput);
        }
        k = k + 1;
    }
    assert(same_len_rows(ratings@));

    // Ranks are `u32` values and inversion counts accumulate in a `u64`, so
    // the item count must fit the `u32` range.
    if films > 0xFFFF_FFFFusize {
        return Err(RatingError::Overflow);
    }

    let ghost trow = target_row_of(ratings@, target_user_id);
    assert(ratings@[target_idx as int].1@ == trow);
    if !check_has_all_ranks(&ratings[target_idx].1) {
        return Err(RatingError::MalformedInput);
    }

    let mut collisions: Vec<RatingRow> = Vec::new();
    let mut k: usize = 0;
    while k < n
        invariant
            k <= n == ratings@.len(),
            n > 0,
            target_idx < n,
            films == films_of(ratings@) <= 0xFFFF_FFFFusize,
            same_len_rows(ratings@),
            trow == target_row_of(ratings@, target_user_id),
            ratings@[target_idx as int].1@ == trow,
            has_all_ranks(trow),
            collisions@.len() == others_of(ratings@.subrange(0, k as int), target_user_id).len(),
            forall|j: int|
                0 <= j < collisions@.len() ==> {
                    &&& (#[trigger] collisions@[j]).0 == others_of(
                        ratings@.subrange(0, k as int),
                        target_user_id,
                    )[j].0
                    &&& collisions@[j].1@ == collision_of(
                        trow,
                        others_of(ratings@.subrange(0, k as int), target_user_id)[j].1@,
                    )
                },
        decreases n - k,
    {
        let ghost pref = ratings@.subrange(0, k as int);
        proof {
            assert(ratings@.subrange(0, k + 1).drop_last() =~= pref);
        }
        if ratings[k].0 != target_user_id {
            let collision = build_collision_vector(&ratings[target_idx].1, &ratings[k].1);
            collisions.push((ratings[k].0, collision));
        }
        k = k + 1;
    }
    proof {
        assert(ratings@.subrange(0, n as int) =~= ratings@);
    }
    Ok(collisions)
}

/// The collision vector of the target against themself is the identity
/// ranking `1, 2, ..., item_count`, and its inversion count is zero.
pub proof fn lemma_self_collision(row: Seq<u32>)
    requires
        row.len() <= 0xFFFF_FFFF,
        has_all_ranks(row),
    ensures
        collision_of(row, row) =~= Seq::new(row.len(), |i: int| (i + 1) as u32),
        inversions(collision_of(row, row)) == 0,
{
    let c = collision_of(row, row);
    assert forall|i: int| 0 <= i < c.len() implies c[i] == (i + 1) as u32 by {
        assert(row.contains((i + 1) as u32));
        row.index_of_first_ensures((i + 1) as u32);
    }
    assert(crate::inversions::sorted(c));
    crate::inversions::lemma_sorted_zero_inversions(c);
}

} // verus!
