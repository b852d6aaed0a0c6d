//! The rating comparator: ranks every other user of a rating table by how
//! similarly they ordered the items, most similar first.
//!
//! Each comparison user's collision vector is counted for inversions — the
//! dissimilarity score — and the `(user id, inversion count)` pairs are then
//! stably sorted by ascending count, so users with equal counts keep their
//! table order.
use vstd::prelude::*;

use crate::collisions::collision_of;
use crate::collisions::films_of;
use crate::collisions::get_rating_collisions;
use crate::collisions::has_all_ranks;
use crate::collisions::lemma_last_index_exists;
use crate::collisions::others_of;
use crate::collisions::same_len_rows;
use crate::collisions::table_contains_id;
use crate::collisions::target_row_of;
use crate::collisions::RatingRow;
use crate::inversions::inversions;
use crate::inversions::sort_and_count_inversions;
use crate::RatingError;

verus! {

/// One ranked entry: a comparison user's id and their dissimilarity score,
/// the inversion count of their collision vector.
pub type RankEntry = (u32, u64);

/// The entries are in ascending order of inversion count.
pub open spec fn sorted_by_count(s: Seq<RankEntry>) -> bool {
    forall|i: int, j: int| 0 <= i <= j < s.len() ==> s[i].1 <= s[j].1
}

/// The subsequence of entries carrying the count `c`, in their order in `s`.
pub open spec fn entries_with_count(s: Seq<RankEntry>, c: u64) -> Seq<RankEntry>
    decreases s.len(),
{
    if s.len() == 0 {
        Seq::empty()
    } else {
        let rest = entries_with_count(s.drop_last(), c);
        if s.last().1 == c {
            rest.push(s.last())
        } else {
            rest
        }
    }
}

/// `b` reorders `a` without disturbing ties: for every count value, the
/// entries carrying it stand in the same order in both sequences. Together
/// with sortedness this pins the stably sorted sequence down uniquely.
pub open spec fn stable_reordering(a: Seq<RankEntry>, b: Seq<RankEntry>) -> bool {
    forall|c: u64| #[trigger] entries_with_count(b, c) == entries_with_count(a, c)
}

/// The ranking before sorting: one entry per comparison row, in table order,
/// scored by the inversion count of its collision vector.
pub open spec fn unsorted_pairs(table: Seq<RatingRow>, id: u32) -> Seq<RankEntry> {
    Seq::new(
        others_of(table, id).len(),
        |k: int|
            (
                others_of(table, id)[k].0,
                inversions(collision_of(target_row_of(table, id), others_of(table, id)[k].1@))
                    as u64,
            ),
    )
}

proof fn lemma_entries_concat(a: Seq<RankEntry>, b: Seq<RankEntry>, c: u64)
    ensures
        entries_with_count(a + b, c) == entries_with_count(a, c) + entries_with_count(b, c),
    decreases b.len(),
{
    if b.len() == 0 {
        assert(a + b =~= a);
        assert(entries_with_count(a, c) + entries_with_count(b, c) =~= entries_with_count(a, c));
    } else {
        assert((a + b).drop_last() =~= a + b.drop_last());
        lemma_entries_concat(a, b.drop_last(), c);
    }
}

proof fn lemma_entries_none(s: Seq<RankEntry>, c: u64)
    requires
        forall|i: int| 0 <= i < s.len() ==> (#[trigger] s[i]).1 != c,
    ensures
        entries_with_count(s, c) == Seq::<RankEntry>::empty(),
    decreases s.len(),
{
    if s.len() > 0 {
        lemma_entries_none(s.drop_last(), c);
    }
}

proof fn lemma_entries_singleton(x: RankEntry, c: u64)
    ensures
        entries_with_count(seq![x], c) == if x.1 == c {
            seq![x]
        } else {
            Seq::<RankEntry>::empty()
        },
{
    let s = seq![x];
    assert(s.len() == 1);
    assert(s.last() == x);
    assert(s.drop_last() =~= Seq::<RankEntry>::empty());
    assert(entries_with_count(s.drop_last(), c) =~= Seq::<RankEntry>::empty());
    if x.1 == c {
        assert(entries_with_count(s, c) == entries_with_count(s.drop_last(), c).push(x));
        assert(entries_with_count(s.drop_last(), c).push(x) =~= s);
    }
}

/// Inserting `x` just below the entries with strictly greater counts appends
/// it to its own count class and leaves every other class unchanged.
proof fn lemma_entries_insert(s: Seq<RankEntry>, idx: int, x: RankEntry, c: u64)
    requires
        0 <= idx <= s.len(),
        forall|m: int| idx <= m < s.len() ==> (#[trigger] s[m]).1 > x.1,
    ensures
        entries_with_count(s.insert(idx, x), c) == if x.1 == c {
            entries_with_count(s, c).push(x)
        } else {
            entries_with_count(s, c)
        },
{
    let t = s.subrange(0, idx);
    let d = s.subrange(idx, s.len() as int);
    assert(s =~= t + d);
    assert(s.insert(idx, x) =~= (t + seq![x]) + d);
    lemma_entries_concat(t + seq![x], d, c);
    lemma_entries_concat(t, seq![x], c);
    lemma_entries_concat(t, d, c);
    lemma_entries_singleton(x, c);
    if x.1 == c {
        lemma_entries_none(d, c);
        assert(entries_with_count(s.insert(idx, x), c) =~= entries_with_count(s, c).push(x));
    } else {
        assert(entries_with_count(s.insert(idx, x), c) =~= entries_with_count(s, c));
    }
}

/// Sorts the entries by ascending inversion count, stably: entries with equal
/// counts keep their relative order.
pub fn sort_pairs_by_count(pairs: &mut Vec<RankEntry>)
    ensures
        sorted_by_count(final(pairs)@),
        final(pairs)@.len() == old(pairs)@.len(),
        stable_reordering(old(pairs)@, final(pairs)@),
{
    let n = pairs.len();
    let ghost input = pairs@;
    let mut out: Vec<RankEntry> = Vec::new();
    let mut k: usize = 0;
    while k < n
        invariant
            k <= n == pairs@.len(),
            pairs@ == input,
            out@.len() == k,
            sorted_by_count(out@),
            forall|c: u64|
                #[trigger] entries_with_count(out@, c) == entries_with_count(
                    input.subrange(0, k as int),
                    c,
                ),
        decreases n - k,
    {
        let x = pairs[k];
        let ghost before = out@;

        // Scan from the end past every entry with a strictly greater count,
        // so the new entry lands after all entries with counts at most its
        // own.
        let mut idx: usize = out.len();
        while idx > 0 && out[idx - 1].1 > x.1
            invariant
                idx <= out@.len(),
                out@ == before,
                sorted_by_count(out@),
                forall|m: int| idx <= m < out@.len() ==> (#[trigger] out@[m]).1 > x.1,
            decreases idx,
        {
            idx = idx - 1;
        }
        proof {
            assert(forall|m: int| 0 <= m < idx ==> (#[trigger] out@[m]).1 <= x.1);
        }
        out.insert(idx, x);
        proof {
            assert(out@ == before.insert(idx as int, x));
            assert(sorted_by_count(out@)) by {
                before.insert_ensures(idx as int, x);
            }
            assert(input.subrange(0, k + 1).drop_last() =~= input.subrange(0, k as int));
            assert(input.subrange(0, k + 1).last() == x);
            assert forall|c: u64|
                #[trigger] entries_with_count(out@, c) == entries_with_count(
                    input.subrange(0, k + 1),
                    c,
                ) by {
                lemma_entries_insert(before, idx as int, x, c);
            }
        }
        k = k + 1;
    }
    proof {
        assert(input.subrange(0, n as int) =~= input);
    }
    *pairs = out;
}

/// For the target user of a rating table, ranks every other user by how
/// similarly they ordered the items: each comparison user's ratings are
/// re-expressed in the target's ranking order, the inversions of that
/// collision vector are counted, and the `(user id, count)` pairs are stably
/// sorted by ascending count. Fewer inversions means a more similar ranking.
///
/// A table holding only the target yields an empty ranking, not an error; the
/// error conditions are those of [`get_rating_collisions`].
pub fn compare_ratings(ratings: &Vec<RatingRow>, target_user_id: u32) -> (r: Result<
    Vec<RankEntry>,
    RatingError,
>)
    ensures
        match r {
            Ok(ranking) => {
                &&& table_contains_id(ratings@, target_user_id)
                &&& same_len_rows(ratings@)
                &&& films_of(ratings@) <= 0xFFFF_FFFF
                &&& has_all_ranks(target_row_of(ratings@, target_user_id))
                &&& ranking@.len() == others_of(ratings@, target_user_id).len()
                &&& sorted_by_count(ranking@)
                &&& stable_reordering(unsorted_pairs(ratings@, target_user_id), ranking@)
            },
            Err(e) => match e {
                RatingError::UserNotFound => !table_contains_id(ratings@, target_user_id),
                RatingError::MalformedInput => {
                    &&& table_contains_id(ratings@, target_user_id)
                    &&& (!same_len_rows(ratings@) || (films_of(ratings@) <= 0xFFFF_FFFF
                        && !has_all_ranks(target_row_of(ratings@, target_user_id))))
                },
                RatingError::Overflow => {
                    &&& table_contains_id(ratings@, target_user_id)
                    &&& same_len_rows(ratings@)
                    &&& films_of(ratings@) > 0xFFFF_FFFF
                },
            },
        },
{
    let collisions = match get_rating_collisions(ratings, target_user_id) {
        Ok(cols) => cols,
        Err(e) => {
            return Err(e);
        },
    };
    let ghost others = others_of(ratings@, target_user_id);
    let ghost trow = target_row_of(ratings@, target_user_id);
    let ghost cols0 = collisions@;
    proof {
        lemma_last_index_exists(ratings@, target_user_id);
        assert(trow.len() == films_of(ratings@));
    }

    let mut remaining = collisions;
    let mut pairs: Vec<RankEntry> = Vec::new();
    while remaining.len() > 0
        invariant
            pairs@.len() + remaining@.len() == cols0.len() == others.len(),
            remaining@ == cols0.subrange(pairs@.len() as int, cols0.len() as int),
            trow.len() <= 0xFFFF_FFFF,
            forall|k: int|
                0 <= k < cols0.len() ==> (#[trigger] cols0[k]).0 == others[k].0 && cols0[k].1@
                    == collision_of(trow, others[k].1@),
            forall|j: int|
                0 <= j < pairs@.len() ==> #[trigger] pairs@[j] == (
                    others[j].0,
                    inversions(collision_of(trow, others[j].1@)) as u64,
                ),
        decreases remaining@.len(),
    {
        let ghost done = pairs@.len() as int;
        let entry = remaining.remove(0);
        proof {
            assert(entry == cols0[done]);
            assert(remaining@ =~= cols0.subrange(done + 1, cols0.len() as int));
        }
        let uid = entry.0;
        let mut vector = entry.1;
        let count = sort_and_count_inversions(&mut vector);
        pairs.push((uid, count));
    }

    proof {
        assert(pairs@ =~= unsorted_pairs(ratings@, target_user_id));
    }
    sort_pairs_by_count(&mut pairs);
    Ok(pairs)
}

} // verus!
