use inversion_rank::collisions::build_collision_vector;
use inversion_rank::collisions::check_has_all_ranks;
use inversion_rank::collisions::get_rating_collisions;
use inversion_rank::ranking::compare_ratings;
use inversion_rank::ranking::sort_pairs_by_count;
use inversion_rank::RatingError;

#[test]
fn collision_vector_of_the_worked_example() {
    // Target ranks the items [2, 1, 3]; the comparison user rated them
    // [5, 9, 1]. In the target's rank order the items are B, A, C, so the
    // collision vector is [9, 5, 1].
    let target_row: Vec<u32> = vec![2, 1, 3];
    let rating: Vec<u32> = vec![5, 9, 1];
    let collision = build_collision_vector(&target_row, &rating);
    assert_eq!(collision, vec![9, 5, 1]);
}

#[test]
fn self_collision_is_the_identity_ranking() {
    let row: Vec<u32> = vec![2, 1, 3];
    let collision = build_collision_vector(&row, &row);
    assert_eq!(collision, vec![1, 2, 3]);
    let mut v = collision;
    let count = inversion_rank::inversions::sort_and_count_inversions(&mut v);
    assert_eq!(count, 0);
}

#[test]
fn end_to_end_worked_example() {
    let table: Vec<(u32, Vec<u32>)> = vec![(1, vec![2, 1, 3]), (2, vec![5, 9, 1])];
    let collisions = get_rating_collisions(&table, 1).unwrap();
    assert_eq!(collisions, vec![(2, vec![9, 5, 1])]);
    let ranking = compare_ratings(&table, 1).unwrap();
    assert_eq!(ranking, vec![(2, 3)]);
}

#[test]
fn ranks_users_by_ascending_inversion_count() {
    let table: Vec<(u32, Vec<u32>)> = vec![
        (1, vec![1, 2, 3]),
        (2, vec![3, 2, 1]), // 3 inversions
        (3, vec![1, 2, 3]), // 0 inversions
        (4, vec![1, 3, 2]), // 1 inversion
    ];
    let ranking = compare_ratings(&table, 1).unwrap();
    assert_eq!(ranking, vec![(3, 0), (4, 1), (2, 3)]);
}

#[test]
fn equal_counts_keep_their_table_order() {
    let table: Vec<(u32, Vec<u32>)> = vec![
        (1, vec![1, 2]),
        (5, vec![1, 2]), // 0 inversions
        (4, vec![2, 1]), // 1 inversion
        (6, vec![1, 2]), // 0 inversions
        (3, vec![2, 1]), // 1 inversion
    ];
    let ranking = compare_ratings(&table, 1).unwrap();
    assert_eq!(ranking, vec![(5, 0), (6, 0), (4, 1), (3, 1)]);
}

#[test]
fn stable_sort_keeps_tied_pairs_in_order() {
    let mut pairs: Vec<(u32, u64)> = vec![(10, 5), (11, 0), (12, 5), (13, 0)];
    sort_pairs_by_count(&mut pairs);
    assert_eq!(pairs, vec![(11, 0), (13, 0), (10, 5), (12, 5)]);
}

#[test]
fn table_with_only_the_target_yields_an_empty_ranking() {
    let table: Vec<(u32, Vec<u32>)> = vec![(7, vec![1, 2])];
    let ranking = compare_ratings(&table, 7).unwrap();
    assert!(ranking.is_empty());
}

#[test]
fn zero_items_score_zero_for_every_user() {
    let table: Vec<(u32, Vec<u32>)> = vec![(1, vec![]), (2, vec![]), (3, vec![])];
    let ranking = compare_ratings(&table, 1).unwrap();
    assert_eq!(ranking, vec![(2, 0), (3, 0)]);
}

#[test]
fn missing_target_is_user_not_found() {
    let table: Vec<(u32, Vec<u32>)> = vec![(1, vec![1])];
    assert_eq!(compare_ratings(&table, 9), Err(RatingError::UserNotFound));
    let empty: Vec<(u32, Vec<u32>)> = vec![];
    assert_eq!(compare_ratings(&empty, 1), Err(RatingError::UserNotFound));
}

#[test]
fn unequal_row_lengths_are_malformed() {
    let table: Vec<(u32, Vec<u32>)> = vec![(1, vec![1, 2]), (2, vec![1])];
    assert_eq!(compare_ratings(&table, 1), Err(RatingError::MalformedInput));
}

#[test]
fn target_row_missing_a_rank_is_malformed() {
    // Rank 2 never appears in the target's row.
    let table: Vec<(u32, Vec<u32>)> = vec![(1, vec![1, 1, 3]), (2, vec![1, 2, 3])];
    assert_eq!(compare_ratings(&table, 1), Err(RatingError::MalformedInput));
    assert_eq!(
        get_rating_collisions(&table, 1),
        Err(RatingError::MalformedInput)
    );
}

#[test]
fn duplicate_target_ids_use_the_last_row() {
    let table: Vec<(u32, Vec<u32>)> =
        vec![(1, vec![1, 2]), (1, vec![2, 1]), (2, vec![1, 2])];
    // The target's row is [2, 1], so user 2's collision vector is [2, 1]:
    // one inversion. The earlier row with the target's id is not compared.
    let ranking = compare_ratings(&table, 1).unwrap();
    assert_eq!(ranking, vec![(2, 1)]);
}

#[test]
fn rank_completeness_check() {
    assert!(check_has_all_ranks(&vec![3, 1, 2]));
    assert!(check_has_all_ranks(&vec![]));
    assert!(!check_has_all_ranks(&vec![1, 1, 3]));
    assert!(!check_has_all_ranks(&vec![2, 3, 4]));
}
