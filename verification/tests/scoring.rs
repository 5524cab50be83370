use prediction_game::game::Contestant;
use prediction_game::score::calculate_points;
use prediction_game::tiebreak::{correct_descending, tie_breaker_idx};

fn contestant(name: &str, ranking: Vec<u32>) -> Contestant {
    Contestant { name: name.to_string(), ranking }
}

#[test]
fn points_all_yes_sums_all_rankings() {
    let rankings = vec![1, 2, 3, 4, 5, 6, 7, 8, 9, 10];
    let outcomes: Vec<char> = vec!['y'; 10];
    assert_eq!(calculate_points(&rankings, &outcomes), 55);
}

#[test]
fn points_all_no_is_zero() {
    let rankings = vec![1, 2, 3, 4, 5, 6, 7, 8, 9, 10];
    let outcomes: Vec<char> = vec!['n'; 10];
    assert_eq!(calculate_points(&rankings, &outcomes), 0);
}

#[test]
fn points_only_counts_yes_positions() {
    let rankings = vec![1, 2, 3, 4, 5, 6, 7, 8, 9, 10];
    let mut outcomes: Vec<char> = vec!['n'; 10];
    outcomes[0] = 'y';
    outcomes[9] = 'y';
    assert_eq!(calculate_points(&rankings, &outcomes), 11);
}

#[test]
fn points_empty_inputs_score_zero() {
    let rankings: Vec<u32> = vec![];
    let outcomes: Vec<char> = vec![];
    assert_eq!(calculate_points(&rankings, &outcomes), 0);
}

#[test]
fn ladder_is_sorted_descending() {
    let ranking = vec![3, 1, 2];
    let outcomes = vec!['y', 'n', 'y'];
    assert_eq!(correct_descending(&ranking, &outcomes), vec![3, 2]);
}

#[test]
fn ladder_of_all_no_is_empty() {
    let ranking = vec![3, 1, 2];
    let outcomes = vec!['n', 'n', 'n'];
    assert_eq!(correct_descending(&ranking, &outcomes), Vec::<u32>::new());
}

#[test]
fn tie_breaker_picks_deeper_high_weight() {
    // Both score 5 on the two Yes questions, but the first candidate's
    // ladder [4, 1] beats [3, 2] at level 0.
    let predictions = vec![contestant("A", vec![4, 1, 2, 3]), contestant("B", vec![3, 2, 4, 1])];
    let outcomes = vec!['y', 'y', 'n', 'n'];
    let tied = vec![0, 1];
    assert_eq!(tie_breaker_idx(&predictions, &outcomes, &tied), Some(0));
}

#[test]
fn tie_breaker_reports_true_tie_on_equal_ladders() {
    // Inverse rankings with Yes on the extreme questions: both ladders are
    // [10, 1], so no level separates them.
    let predictions = vec![
        contestant("A", vec![1, 2, 3, 4, 5, 6, 7, 8, 9, 10]),
        contestant("B", vec![10, 9, 8, 7, 6, 5, 4, 3, 2, 1]),
    ];
    let mut outcomes: Vec<char> = vec!['n'; 10];
    outcomes[0] = 'y';
    outcomes[9] = 'y';
    let tied = vec![0, 1];
    assert_eq!(tie_breaker_idx(&predictions, &outcomes, &tied), None);
}

#[test]
fn tie_breaker_single_candidate_wins_outright() {
    let predictions = vec![contestant("A", vec![2, 1]), contestant("B", vec![1, 2])];
    let outcomes = vec!['y', 'n'];
    let tied = vec![0];
    assert_eq!(tie_breaker_idx(&predictions, &outcomes, &tied), Some(0));
}
