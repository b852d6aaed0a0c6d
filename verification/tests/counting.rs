use inversion_rank::inversions::merge_and_count_split_inversions;
use inversion_rank::inversions::sort_and_count_inversions;

/// Pairwise reference count: every pair `i < j` with `v[i] > v[j]`.
fn brute_force_inversions(v: &[u32]) -> u64 {
    let mut count: u64 = 0;
    for i in 0..v.len() {
        for j in (i + 1)..v.len() {
            if v[i] > v[j] {
                count += 1;
            }
        }
    }
    count
}

fn is_sorted(v: &[u32]) -> bool {
    v.windows(2).all(|w| w[0] <= w[1])
}

#[test]
fn counts_the_worked_example() {
    let mut v: Vec<u32> = vec![9, 5, 1];
    let count = sort_and_count_inversions(&mut v);
    assert_eq!(count, 3);
    assert_eq!(v, vec![1, 5, 9]);
}

#[test]
fn agrees_with_brute_force() {
    let cases: Vec<Vec<u32>> = vec![
        vec![],
        vec![7],
        vec![2, 3, 8, 6, 1],
        vec![5, 5, 5],
        vec![1, 1, 2, 1],
        vec![3, 1, 4, 1, 5, 9, 2, 6],
        vec![2, 2, 1, 1],
        vec![10, 9, 8, 7, 6, 5, 4, 3, 2, 1],
        vec![0, u32::MAX, 0, u32::MAX],
    ];
    for case in cases {
        let expected = brute_force_inversions(&case);
        let mut v = case.clone();
        let count = sort_and_count_inversions(&mut v);
        assert_eq!(count, expected, "wrong count for {:?}", case);
    }
}

#[test]
fn leaves_the_sequence_sorted() {
    let mut v: Vec<u32> = vec![3, 1, 4, 1, 5, 9, 2, 6, 5, 3, 5];
    let _ = sort_and_count_inversions(&mut v);
    assert!(is_sorted(&v));
    assert_eq!(v.len(), 11);
}

#[test]
fn sorted_sequence_has_zero_inversions() {
    let mut v: Vec<u32> = vec![1, 2, 3, 4, 5];
    assert_eq!(sort_and_count_inversions(&mut v), 0);
    let mut w: Vec<u32> = vec![2, 2, 4, 4, 9];
    assert_eq!(sort_and_count_inversions(&mut w), 0);
}

#[test]
fn reversed_distinct_sequence_has_all_pairs_inverted() {
    let mut v: Vec<u32> = vec![9, 7, 5, 3, 1];
    // n * (n - 1) / 2 with n = 5
    assert_eq!(sort_and_count_inversions(&mut v), 10);
}

#[test]
fn empty_and_singleton_have_zero_inversions() {
    let mut v: Vec<u32> = vec![];
    assert_eq!(sort_and_count_inversions(&mut v), 0);
    assert!(v.is_empty());
    let mut w: Vec<u32> = vec![42];
    assert_eq!(sort_and_count_inversions(&mut w), 0);
    assert_eq!(w, vec![42]);
}

#[test]
fn merge_counts_only_split_inversions() {
    // Halves already sorted: split pairs are (3,2), (5,2), (5,4).
    let mut v: Vec<u32> = vec![1, 3, 5, 2, 4, 6];
    let count = merge_and_count_split_inversions(&mut v, 3);
    assert_eq!(count, 3);
    assert_eq!(v, vec![1, 2, 3, 4, 5, 6]);
}

#[test]
fn merge_with_an_empty_half_counts_nothing() {
    let mut v: Vec<u32> = vec![1, 2, 3];
    assert_eq!(merge_and_count_split_inversions(&mut v, 0), 0);
    assert_eq!(v, vec![1, 2, 3]);
    let mut w: Vec<u32> = vec![1, 2, 3];
    assert_eq!(merge_and_count_split_inversions(&mut w, 3), 0);
    assert_eq!(w, vec![1, 2, 3]);
}
