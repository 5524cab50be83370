use prediction_game::engine::{compute_stats, compute_stats_range};
use prediction_game::game::Contestant;
use prediction_game::outcome::{build_assignment, count_yes, unresolved_indices};
use prediction_game::stats::{merge_checked, Stats};

fn test_predictions() -> Vec<Contestant> {
    vec![
        Contestant { name: "TEST_A".to_string(), ranking: vec![1, 2, 3, 4, 5, 6, 7, 8, 9, 10] },
        Contestant { name: "TEST_B".to_string(), ranking: vec![10, 9, 8, 7, 6, 5, 4, 3, 2, 1] },
    ]
}

fn index_of(predictions: &[Contestant], name: &str) -> usize {
    predictions.iter().position(|c| c.name == name).unwrap()
}

#[test]
fn stats_total_combinations_correct() {
    let predictions = test_predictions();
    let outcomes: Vec<char> = vec!['m'; 10];
    let stats = compute_stats(&predictions, &outcomes).unwrap();
    // Total = winners + true ties
    let total: u64 = stats.winner_tally.iter().sum::<u64>() + stats.true_tie_count;
    assert_eq!(total, 1024);
}

#[test]
fn symmetric_predictions_have_true_ties() {
    // TEST_A and TEST_B are perfect inverses, so some scenarios are true ties
    let predictions = test_predictions();
    let outcomes: Vec<char> = vec!['m'; 10];
    let stats = compute_stats(&predictions, &outcomes).unwrap();

    // With symmetric predictions, true ties occur when both have same sorted rankings
    assert!(stats.true_tie_count > 0, "Symmetric predictions should produce true ties");

    // Winners should be equal (symmetry)
    let test_a_wins = stats.winner_tally[index_of(&predictions, "TEST_A")];
    let test_b_wins = stats.winner_tally[index_of(&predictions, "TEST_B")];
    assert_eq!(test_a_wins, test_b_wins, "Symmetric predictions should have equal wins");
}

#[test]
fn tie_scenarios_match_python() {
    let predictions = test_predictions();
    let outcomes: Vec<char> = vec!['m'; 10];
    let stats = compute_stats(&predictions, &outcomes).unwrap();
    // Total ties = broken + true ties
    let total_ties = stats.tie_broken_count + stats.true_tie_count;
    assert_eq!(total_ties, 48);
}

#[test]
fn fixed_first_question_gives_unique_winner() {
    // Only question 0 is Yes: B scores 10 against A's 1, with no tie-break.
    let predictions = test_predictions();
    let mut outcomes: Vec<char> = vec!['n'; 10];
    outcomes[0] = 'y';
    let stats = compute_stats(&predictions, &outcomes).unwrap();
    let a = index_of(&predictions, "TEST_A");
    let b = index_of(&predictions, "TEST_B");
    assert_eq!(stats.winner_tally[b], 1);
    assert_eq!(stats.winner_tally[a], 0);
    assert_eq!(stats.win_paths[b], 1);
    assert_eq!(stats.win_paths[a], 0);
    assert_eq!(stats.tie_broken_count, 0);
    assert_eq!(stats.true_tie_count, 0);
}

#[test]
fn fixed_extreme_questions_give_true_tie() {
    // Questions 0 and 9 are Yes: both score 11 and carry the ladder [10, 1],
    // so the single scenario is a true tie, not an arbitrary winner.
    let predictions = test_predictions();
    let mut outcomes: Vec<char> = vec!['n'; 10];
    outcomes[0] = 'y';
    outcomes[9] = 'y';
    let stats = compute_stats(&predictions, &outcomes).unwrap();
    assert_eq!(stats.true_tie_count, 1);
    assert_eq!(stats.winner_tally, vec![0, 0]);
    // Both held the maximum score, so both keep their win-path.
    assert_eq!(stats.win_paths, vec![1, 1]);
    assert_eq!(stats.tie_broken_count, 0);
    assert_eq!(stats.true_ties_by_yes_count, vec![1]);
}

#[test]
fn win_paths_count_every_max_holder() {
    // One scenario: both contestants score 5 on the two Yes questions. The
    // tie-break crowns the first (ladder [4, 1] beats [3, 2]), but both
    // held the maximum score, so both gain a win-path.
    let predictions =
        vec![Contestant { name: "A".to_string(), ranking: vec![4, 1, 2, 3] }, Contestant {
            name: "B".to_string(),
            ranking: vec![3, 2, 4, 1],
        }];
    let outcomes = vec!['y', 'y', 'n', 'n'];
    let stats = compute_stats(&predictions, &outcomes).unwrap();
    assert_eq!(stats.winner_tally, vec![1, 0]);
    assert_eq!(stats.win_paths, vec![1, 1]);
    assert_eq!(stats.tie_broken_count, 1);
    assert_eq!(stats.true_tie_count, 0);
}

#[test]
fn split_ranges_merge_to_whole_space() {
    let predictions = test_predictions();
    let outcomes: Vec<char> = vec!['m'; 10];
    let whole = compute_stats_range(&predictions, &outcomes, 0, 1024);
    let left = compute_stats_range(&predictions, &outcomes, 0, 512);
    let right = compute_stats_range(&predictions, &outcomes, 512, 1024);
    let merged = merge_checked(left, right).unwrap();
    assert_eq!(merged.winner_tally, whole.winner_tally);
    assert_eq!(merged.tie_broken_count, whole.tie_broken_count);
    assert_eq!(merged.true_tie_count, whole.true_tie_count);
    assert_eq!(merged.true_ties_by_yes_count, whole.true_ties_by_yes_count);
    assert_eq!(merged.win_paths, whole.win_paths);
    assert_eq!(merged.person_question_buckets, whole.person_question_buckets);
    assert_eq!(merged.yes_buckets, whole.yes_buckets);
    assert_eq!(merged.true_tie_question_buckets, whole.true_tie_question_buckets);
}

#[test]
fn merge_is_commutative_on_shares() {
    let predictions = test_predictions();
    let outcomes: Vec<char> = vec!['m'; 10];
    let one = merge_checked(
        compute_stats_range(&predictions, &outcomes, 0, 300),
        compute_stats_range(&predictions, &outcomes, 300, 1024),
    )
    .unwrap();
    let other = merge_checked(
        compute_stats_range(&predictions, &outcomes, 300, 1024),
        compute_stats_range(&predictions, &outcomes, 0, 300),
    )
    .unwrap();
    assert_eq!(one.winner_tally, other.winner_tally);
    assert_eq!(one.tie_broken_count, other.tie_broken_count);
    assert_eq!(one.true_tie_count, other.true_tie_count);
    assert_eq!(one.yes_buckets, other.yes_buckets);
    assert_eq!(one.person_question_buckets, other.person_question_buckets);
}

#[test]
fn too_many_open_questions_is_a_capacity_error() {
    let ranking: Vec<u32> = (1..=64).collect();
    let predictions = vec![Contestant { name: "ONLY".to_string(), ranking }];
    let outcomes: Vec<char> = vec!['m'; 64];
    let err = compute_stats(&predictions, &outcomes).unwrap_err();
    assert_eq!(err.unresolved, 64);
}

#[test]
fn empty_stats_has_zeroed_dimensions() {
    let stats = Stats::new(2, 3, 1);
    assert_eq!(stats.winner_tally, vec![0, 0]);
    assert_eq!(stats.win_paths, vec![0, 0]);
    assert_eq!(stats.tie_broken_count, 0);
    assert_eq!(stats.true_tie_count, 0);
    assert_eq!(stats.true_ties_by_yes_count, vec![0, 0]);
    assert_eq!(stats.person_question_buckets, vec![vec![(0, 0); 3], vec![(0, 0); 3]]);
    assert_eq!(stats.yes_buckets, vec![vec![0, 0], vec![0, 0]]);
    assert_eq!(stats.true_tie_question_buckets, vec![(0, 0); 3]);
}

#[test]
fn assignment_follows_index_bits() {
    let outcomes = vec!['y', 'm', 'n', 'm'];
    let slots = unresolved_indices(&outcomes);
    assert_eq!(slots, vec![1, 3]);
    // Bit 0 clears slot 1, bit 1 sets slot 3.
    assert_eq!(build_assignment(&outcomes, &slots, 2), vec!['y', 'n', 'n', 'y']);
    assert_eq!(build_assignment(&outcomes, &slots, 1), vec!['y', 'y', 'n', 'n']);
    assert_eq!(count_yes(&build_assignment(&outcomes, &slots, 3)), 3);
}

#[test]
fn winner_buckets_record_the_assignment() {
    // One scenario: question 0 Yes, question 1 No; B wins it.
    let predictions =
        vec![Contestant { name: "A".to_string(), ranking: vec![1, 2] }, Contestant {
            name: "B".to_string(),
            ranking: vec![2, 1],
        }];
    let outcomes = vec!['y', 'n'];
    let stats = compute_stats(&predictions, &outcomes).unwrap();
    assert_eq!(stats.winner_tally, vec![0, 1]);
    assert_eq!(stats.person_question_buckets[1], vec![(1, 0), (0, 1)]);
    assert_eq!(stats.yes_buckets, vec![vec![0, 1]]);
}
