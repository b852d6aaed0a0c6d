//! Counting inversions of a sequence by a divide-and-conquer merge that sorts
//! the sequence as a byproduct.
//!
//! An inversion is a pair of positions `i < j` whose values are out of
//! ascending order, `s[i] > s[j]`; equal values are not inverted. The spec
//! function [`inversions`] counts every such pair directly, and the executable
//! [`sort_and_count_inversions`] is proved to return exactly that count.
use vstd::prelude::*;

verus! {

/// The sequence is in non-decreasing order.
pub open spec fn sorted(s: Seq<u32>) -> bool {
    forall|i: int, j: int| 0 <= i <= j < s.len() ==> s[i] <= s[j]
}

/// How many elements of `s` are strictly greater than `v`.
pub open spec fn count_gt(s: Seq<u32>, v: u32) -> nat
    decreases s.len(),
{
    if s.len() == 0 {
        0
    } else {
        count_gt(s.drop_last(), v) + if s.last() > v {
            1nat
        } else {
            0nat
        }
    }
}

/// The number of inverted pairs of `s`: positions `i < j` with `s[i] > s[j]`.
///
/// Peeling the last element off, the pairs that end at the last position are
/// exactly the earlier elements greater than it, so this sums one pairwise
/// comparison per pair of positions.
pub open spec fn inversions(s: Seq<u32>) -> nat
    decreases s.len(),
{
    if s.len() == 0 {
        0
    } else {
        inversions(s.drop_last()) + count_gt(s.drop_last(), s.last())
    }
}

/// The number of split inversions between `a` and `b`: pairs of an element of
/// `a` and an element of `b` where the `a` element is strictly greater.
pub open spec fn split_inversions(a: Seq<u32>, b: Seq<u32>) -> nat
    decreases b.len(),
{
    if b.len() == 0 {
        0
    } else {
        split_inversions(a, b.drop_last()) + count_gt(a, b.last())
    }
}

proof fn lemma_count_gt_concat(a: Seq<u32>, b: Seq<u32>, v: u32)
    ensures
        count_gt(a + b, v) == count_gt(a, v) + count_gt(b, v),
    decreases b.len(),
{
    if b.len() == 0 {
        assert(a + b =~= a);
    } else {
        assert((a + b).drop_last() =~= a + b.drop_last());
        lemma_count_gt_concat(a, b.drop_last(), v);
    }
}

proof fn lemma_count_gt_bound(s: Seq<u32>, v: u32)
    ensures
        count_gt(s, v) <= s.len(),
    decreases s.len(),
{
    if s.len() > 0 {
        lemma_count_gt_bound(s.drop_last(), v);
    }
}

/// If the first `k` elements of `s` are at most `v` and the rest are greater,
/// then exactly the last `s.len() - k` elements count.
proof fn lemma_count_gt_split_point(s: Seq<u32>, v: u32, k: int)
    requires
        0 <= k <= s.len(),
        forall|i: int| 0 <= i < k ==> s[i] <= v,
        forall|i: int| k <= i < s.len() ==> s[i] > v,
    ensures
        count_gt(s, v) == s.len() - k,
    decreases s.len(),
{
    if s.len() > 0 {
        if k == s.len() {
            lemma_count_gt_split_point(s.drop_last(), v, k - 1);
        } else {
            lemma_count_gt_split_point(s.drop_last(), v, k);
        }
    }
}

/// Total inversions of a concatenation: the inversions inside each part plus
/// the split inversions between the parts.
proof fn lemma_inversions_concat(a: Seq<u32>, b: Seq<u32>)
    ensures
        inversions(a + b) == inversions(a) + inversions(b) + split_inversions(a, b),
    decreases b.len(),
{
    if b.len() == 0 {
        assert(a + b =~= a);
    } else {
        assert((a + b).drop_last() =~= a + b.drop_last());
        lemma_inversions_concat(a, b.drop_last());
        lemma_count_gt_concat(a, b.drop_last(), b.last());
    }
}

/// Removing one element removes exactly its own contribution to the count.
proof fn lemma_count_gt_remove(s: Seq<u32>, i: int, v: u32)
    requires
        0 <= i < s.len(),
    ensures
        count_gt(s, v) == count_gt(s.remove(i), v) + if s[i] > v {
            1nat
        } else {
            0nat
        },
    decreases s.len(),
{
    if i == s.len() - 1 {
        assert(s.remove(i) =~= s.drop_last());
    } else {
        assert(s.remove(i).drop_last() =~= s.drop_last().remove(i));
        assert(s.remove(i).last() == s.last());
        lemma_count_gt_remove(s.drop_last(), i, v);
    }
}

/// `count_gt` only depends on which values a sequence holds, not their order.
proof fn lemma_count_gt_permutation(a: Seq<u32>, b: Seq<u32>, v: u32)
    requires
        a.to_multiset() == b.to_multiset(),
    ensures
        count_gt(a, v) == count_gt(b, v),
    decreases a.len(),
{
    broadcast use vstd::seq_lib::group_to_multiset_ensures;

    if a.len() == 0 {
        assert(b.to_multiset().len() == 0);
        assert(b.len() == 0);
    } else {
        let x = a.last();
        assert(a.contains(x));
        assert(b.to_multiset().count(x) > 0);
        assert(b.contains(x));
        let j = choose|j: int| 0 <= j < b.len() && b[j] == x;
        assert(a.drop_last() =~= a.remove(a.len() - 1));
        assert(a.drop_last().to_multiset() =~= b.remove(j).to_multiset());
        lemma_count_gt_permutation(a.drop_last(), b.remove(j), v);
        lemma_count_gt_remove(b, j, v);
    }
}

/// Removing one element of `b` removes exactly its split pairs with `a`.
proof fn lemma_split_inversions_remove(a: Seq<u32>, b: Seq<u32>, i: int)
    requires
        0 <= i < b.len(),
    ensures
        split_inversions(a, b) == split_inversions(a, b.remove(i)) + count_gt(a, b[i]),
    decreases b.len(),
{
    if i == b.len() - 1 {
        assert(b.remove(i) =~= b.drop_last());
    } else {
        assert(b.remove(i).drop_last() =~= b.drop_last().remove(i));
        assert(b.remove(i).last() == b.last());
        lemma_split_inversions_remove(a, b.drop_last(), i);
    }
}

/// Split inversions only depend on which values the two sides hold, not on
/// their order; so counting them on the sorted halves counts the pairs of the
/// original halves.
proof fn lemma_split_inversions_permutation(a: Seq<u32>, a2: Seq<u32>, b: Seq<u32>, b2: Seq<u32>)
    requires
        a.to_multiset() == a2.to_multiset(),
        b.to_multiset() == b2.to_multiset(),
    ensures
        split_inversions(a, b) == split_inversions(a2, b2),
    decreases b.len(),
{
    broadcast use vstd::seq_lib::group_to_multiset_ensures;

    if b.len() == 0 {
        assert(b2.to_multiset().len() == 0);
        assert(b2.len() == 0);
    } else {
        let x = b.last();
        assert(b.contains(x));
        assert(b2.to_multiset().count(x) > 0);
        assert(b2.contains(x));
        let j = choose|j: int| 0 <= j < b2.len() && b2[j] == x;
        assert(b.drop_last() =~= b.remove(b.len() - 1));
        assert(b.drop_last().to_multiset() =~= b2.remove(j).to_multiset());
        lemma_split_inversions_permutation(a, a2, b.drop_last(), b2.remove(j));
        lemma_split_inversions_remove(a2, b2, j);
        lemma_count_gt_permutation(a, a2, x);
    }
}

/// A sequence of length `n` has at most `n * (n - 1) / 2` inversions, so with
/// lengths up to `u32::MAX` a `u64` accumulator cannot overflow.
proof fn lemma_inversions_bound(s: Seq<u32>)
    ensures
        2 * inversions(s) <= s.len() * (s.len() - 1),
    decreases s.len(),
{
    if s.len() > 0 {
        let n = s.len() as int;
        lemma_inversions_bound(s.drop_last());
        lemma_count_gt_bound(s.drop_last(), s.last());
        assert((n - 1) * (n - 2) + 2 * (n - 1) == n * (n - 1)) by (nonlinear_arith);
    }
}

/// The set of inverted pairs of positions of `s`: exactly what a brute-force
/// pairwise comparison of all positions would enumerate.
pub open spec fn inverted_pairs(s: Seq<u32>) -> Set<(int, int)> {
    Set::new(|p: (int, int)| 0 <= p.0 < p.1 < s.len() && s[p.0] > s[p.1])
}

/// The inverted pairs of `s` whose later position is not the last, together
/// with those pairs at the last position whose earlier position is below `k`.
spec fn inverted_pairs_upto(s: Seq<u32>, k: int) -> Set<(int, int)> {
    Set::new(
        |p: (int, int)|
            0 <= p.0 < p.1 < s.len() && s[p.0] > s[p.1] && (p.1 < s.len() - 1 || p.0 < k),
    )
}

proof fn lemma_inverted_pairs_upto(s: Seq<u32>, k: int)
    requires
        1 <= s.len(),
        0 <= k <= s.len() - 1,
        inverted_pairs(s.drop_last()).finite(),
    ensures
        inverted_pairs_upto(s, k).finite(),
        inverted_pairs_upto(s, k).len() == inverted_pairs(s.drop_last()).len() + count_gt(
            s.drop_last().subrange(0, k),
            s.last(),
        ),
    decreases k,
{
    broadcast use vstd::set::group_set_axioms;

    let t = s.drop_last();
    if k == 0 {
        assert(t.subrange(0, 0) =~= Seq::<u32>::empty());
        assert(inverted_pairs_upto(s, 0) =~= inverted_pairs(t));
    } else {
        lemma_inverted_pairs_upto(s, k - 1);
        assert(t.subrange(0, k).drop_last() =~= t.subrange(0, k - 1));
        assert(t.subrange(0, k).last() == s[k - 1]);
        if s[k - 1] > s.last() {
            let pair = ((k - 1) as int, s.len() - 1);
            assert(inverted_pairs_upto(s, k) =~= inverted_pairs_upto(s, k - 1).insert(pair));
            assert(!inverted_pairs_upto(s, k - 1).contains(pair));
        } else {
            assert(inverted_pairs_upto(s, k) =~= inverted_pairs_upto(s, k - 1));
        }
    }
}

/// The recursive count is the size of the set of inverted pairs, so it equals
/// what a brute-force comparison of every pair of positions would count.
pub proof fn lemma_inversions_count_pairs(s: Seq<u32>)
    ensures
        inverted_pairs(s).finite(),
        inverted_pairs(s).len() == inversions(s),
    decreases s.len(),
{
    broadcast use vstd::set::group_set_axioms;

    if s.len() == 0 {
        assert(inverted_pairs(s) =~= Set::<(int, int)>::empty());
    } else {
        lemma_inversions_count_pairs(s.drop_last());
        lemma_inverted_pairs_upto(s, s.len() - 1);
        assert(inverted_pairs_upto(s, s.len() - 1) =~= inverted_pairs(s));
        assert(s.drop_last().subrange(0, s.len() - 1) =~= s.drop_last());
    }
}

/// Counting inversions of an already-sorted sequence yields zero.
pub proof fn lemma_sorted_zero_inversions(s: Seq<u32>)
    requires
        sorted(s),
    ensures
        inversions(s) == 0,
    decreases s.len(),
{
    if s.len() > 0 {
        assert(forall|i: int, j: int|
            0 <= i <= j < s.drop_last().len() ==> s.drop_last()[i] <= s.drop_last()[j]);
        lemma_sorted_zero_inversions(s.drop_last());
        lemma_count_gt_split_point(s.drop_last(), s.last(), s.drop_last().len() as int);
    }
}

/// A strictly decreasing sequence — a reversed sequence of distinct sorted
/// values — has every pair inverted: `n * (n - 1) / 2` inversions in all.
pub proof fn lemma_reversed_inversions(s: Seq<u32>)
    requires
        forall|i: int, j: int| 0 <= i < j < s.len() ==> s[i] > s[j],
    ensures
        2 * inversions(s) == s.len() * (s.len() - 1),
        inversions(s) == s.len() * (s.len() - 1) / 2,
    decreases s.len(),
{
    if s.len() == 0 {
    } else {
        let n = s.len() as int;
        assert(forall|i: int, j: int|
            0 <= i < j < s.drop_last().len() ==> s.drop_last()[i] > s.drop_last()[j]);
        lemma_reversed_inversions(s.drop_last());
        lemma_count_gt_split_point(s.drop_last(), s.last(), 0);
        assert(2 * inversions(s) == (n - 1) * (n - 2) + 2 * (n - 1));
        assert((n - 1) * (n - 2) + 2 * (n - 1) == n * (n - 1)) by (nonlinear_arith);
        assert(inversions(s) == 2 * inversions(s) / 2);
    }
}

/// Merges the two sorted halves `array[..mid]` and `array[mid..]` into one
/// sorted whole, returning the number of split inversions between the halves:
/// pairs of a left element and a right element where the left one is greater.
///
/// Walks both halves with two cursors; emitting a right element while left
/// elements remain means every remaining left element is greater than it, so
/// that many split inversions are added at once.
pub fn merge_and_count_split_inversions(array: &mut Vec<u32>, mid: usize) -> (count: u64)
    requires
        mid <= old(array).len(),
        old(array).len() <= 0xFFFF_FFFFusize,
        sorted(old(array)@.subrange(0, mid as int)),
        sorted(old(array)@.subrange(mid as int, old(array)@.len() as int)),
    ensures
        sorted(final(array)@),
        final(array)@.len() == old(array)@.len(),
        final(array)@.to_multiset() == old(array)@.to_multiset(),
        count == split_inversions(
            old(array)@.subrange(0, mid as int),
            old(array)@.subrange(mid as int, old(array)@.len() as int),
        ),
{
    let length = array.len();
    let ghost left = array@.subrange(0, mid as int);
    let ghost right = array@.subrange(mid as int, length as int);

    let mut count: u64 = 0;
    let mut l_ptr: usize = 0;
    let mut r_ptr: usize = mid;
    let mut merged: Vec<u32> = Vec::new();

    proof {
        assert(right.subrange(0, 0) =~= Seq::<u32>::empty());
        assert(merged@.to_multiset() =~= left.subrange(0, 0).to_multiset().add(
            right.subrange(0, 0).to_multiset(),
        )) by {
            broadcast use vstd::seq_lib::group_to_multiset_ensures;

            assert(left.subrange(0, 0) =~= Seq::<u32>::empty());
        }
    }

    while l_ptr < mid || r_ptr < length
        invariant
            l_ptr <= mid <= r_ptr <= length,
            length == array.len() <= 0xFFFF_FFFFusize,
            array@ == old(array)@,
            left == array@.subrange(0, mid as int),
            right == array@.subrange(mid as int, length as int),
            sorted(left),
            sorted(right),
            merged@.len() == l_ptr + r_ptr - mid,
            sorted(merged@),
            merged@.to_multiset() == left.subrange(0, l_ptr as int).to_multiset().add(
                right.subrange(0, r_ptr - mid).to_multiset(),
            ),
            forall|k: int, i: int|
                0 <= k < merged@.len() && l_ptr <= i < mid ==> merged@[k] <= left[i],
            forall|k: int, j: int|
                0 <= k < merged@.len() && r_ptr - mid <= j < right.len() ==> merged@[k] <= right[j],
            forall|i: int, j: int|
                0 <= i < l_ptr && r_ptr - mid <= j < right.len() ==> left[i] <= right[j],
            count == split_inversions(left, right.subrange(0, r_ptr - mid)),
            count <= (mid as int) * (r_ptr - mid),
        decreases (mid - l_ptr) + (length - r_ptr),
    {
        let ghost l0 = l_ptr as int;
        let ghost r0 = r_ptr - mid;
        if r_ptr >= length || (l_ptr < mid && array[l_ptr] <= array[r_ptr]) {
            // Emit a left element: it precedes every remaining element of
            // either half, so no split inversion is created.
            let value = array[l_ptr];
            merged.push(value);
            l_ptr = l_ptr + 1;
            proof {
                broadcast use vstd::seq_lib::group_to_multiset_ensures;

                assert(value == left[l0]);
                assert(left.subrange(0, l0 + 1) =~= left.subrange(0, l0).push(value));
                assert(merged@.to_multiset() =~= left.subrange(0, l0 + 1).to_multiset().add(
                    right.subrange(0, r0).to_multiset(),
                ));
            }
        } else {
            // Emit a right element: every left element still unconsumed is
            // strictly greater than it, adding that many split inversions.
            let value = array[r_ptr];
            merged.push(value);
            r_ptr = r_ptr + 1;
            proof {
                broadcast use vstd::seq_lib::group_to_multiset_ensures;

                assert(value == right[r0]);
                assert(right.subrange(0, r0 + 1) =~= right.subrange(0, r0).push(value));
                assert(merged@.to_multiset() =~= left.subrange(0, l0).to_multiset().add(
                    right.subrange(0, r0 + 1).to_multiset(),
                ));
                assert(right.subrange(0, r0 + 1).drop_last() =~= right.subrange(0, r0));
                assert(split_inversions(left, right.subrange(0, r0 + 1)) == split_inversions(
                    left,
                    right.subrange(0, r0),
                ) + count_gt(left, value));
                if l_ptr < mid {
                    assert(forall|i: int| l0 <= i < mid ==> left[l0] <= left[i]);
                    lemma_count_gt_split_point(left, value, l0);
                } else {
                    lemma_count_gt_split_point(left, value, mid as int);
                }
                assert((mid as int) * r0 + mid == (mid as int) * (r0 + 1)) by (nonlinear_arith);
                assert((mid as int) * (r0 + 1) <= 0xFFFF_FFFFint * 0xFFFF_FFFFint)
                    by (nonlinear_arith)
                    requires
                        0 <= mid as int <= 0xFFFF_FFFFint,
                        0 <= r0 + 1 <= 0xFFFF_FFFFint,
                ;
            }
            count = count + (mid - l_ptr) as u64;
        }
    }

    proof {
        broadcast use vstd::seq_lib::group_to_multiset_ensures;

        assert(left.subrange(0, mid as int) =~= left);
        assert(right.subrange(0, (length - mid) as int) =~= right);
        assert(left + right =~= array@);
        vstd::seq_lib::lemma_multiset_commutative(left, right);
    }
    *array = merged;
    count
}

/// Sorts `array` ascending and returns its number of inversions: the pairs of
/// positions `i < j` with `array[i] > array[j]`, equal values not counted.
///
/// Divide and conquer: each half is sorted and counted recursively, and the
/// merge counts the split inversions between the halves. Sorting a half keeps
/// its values, and split inversions depend only on the values of the halves,
/// so the three counts add up to the inversions of the original sequence.
///
/// The length bound keeps the `u64` accumulator safe: a sequence of length
/// `n` has at most `n * (n - 1) / 2` inversions.
pub fn sort_and_count_inversions(array: &mut Vec<u32>) -> (count: u64)
    requires
        old(array).len() <= 0xFFFF_FFFFusize,
    ensures
        sorted(final(array)@),
        final(array)@.len() == old(array)@.len(),
        final(array)@.to_multiset() == old(array)@.to_multiset(),
        count == inversions(old(array)@),
    decreases old(array)@.len(),
{
    let length = array.len();
    if length <= 1 {
        proof {
            if length == 1 {
                let e = array@.drop_last();
                assert(e =~= Seq::<u32>::empty());
                assert(inversions(e) == 0);
                assert(count_gt(e, array@.last()) == 0);
                assert(inversions(array@) == inversions(e) + count_gt(e, array@.last()));
            }
            assert(inversions(array@) == 0);
        }
        return 0;
    }
    let mid = length / 2;
    let ghost whole = array@;
    let ghost left0 = whole.subrange(0, mid as int);
    let ghost right0 = whole.subrange(mid as int, length as int);

    let mut right = array.split_off(mid);
    let left_count = sort_and_count_inversions(array);
    let right_count = sort_and_count_inversions(&mut right);
    let ghost left_sorted = array@;
    let ghost right_sorted = right@;
    array.append(&mut right);
    proof {
        assert(array@.subrange(0, mid as int) =~= left_sorted);
        assert(array@.subrange(mid as int, length as int) =~= right_sorted);
    }
    let split_count = merge_and_count_split_inversions(array, mid);

    proof {
        assert(whole =~= left0 + right0);
        vstd::seq_lib::lemma_multiset_commutative(left_sorted, right_sorted);
        vstd::seq_lib::lemma_multiset_commutative(left0, right0);
        lemma_inversions_concat(left0, right0);
        lemma_split_inversions_permutation(left_sorted, left0, right_sorted, right0);
        lemma_inversions_bound(whole);
        assert(whole.len() * (whole.len() - 1) <= 0xFFFF_FFFFint * (0xFFFF_FFFFint - 1))
            by (nonlinear_arith)
            requires
                2 <= whole.len() <= 0xFFFF_FFFFint,
        ;
    }
    left_count + right_count + split_count
}

} // verus!
