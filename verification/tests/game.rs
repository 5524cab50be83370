use prediction_game::game::{
    check_ranking, sort_strings, Contestant, DataIssue, GameData, OutcomeEntry, Question,
};

fn question(id: &str, text: &str) -> Question {
    Question { id: id.to_string(), text: text.to_string() }
}

fn entry(id: &str, value: &str) -> OutcomeEntry {
    OutcomeEntry { id: id.to_string(), value: value.to_string() }
}

fn contestant(name: &str, ranking: Vec<u32>) -> Contestant {
    Contestant { name: name.to_string(), ranking }
}

fn sample_data() -> GameData {
    GameData {
        year: 2026,
        questions: vec![question("q1", "first"), question("q2", "second"), question("q3", "third")],
        outcomes: vec![entry("q1", "yes"), entry("q3", "maybe")],
        predictions: vec![contestant("A", vec![1, 2, 3]), contestant("B", vec![3, 1, 2])],
    }
}

#[test]
fn validate_accepts_consistent_data() {
    assert!(sample_data().validate().is_ok());
}

#[test]
fn validate_reports_misordered_questions() {
    let mut data = sample_data();
    data.questions.swap(0, 1);
    let issues = data.validate().unwrap_err();
    // q2 now precedes q1: the question at index 1 is out of order.
    assert_eq!(issues, vec![DataIssue::MisorderedQuestion { question: 1 }]);
}

#[test]
fn validate_reports_unknown_outcome() {
    let mut data = sample_data();
    data.outcomes.push(entry("q9", "no"));
    let issues = data.validate().unwrap_err();
    assert_eq!(issues, vec![DataIssue::UnknownOutcome { outcome: 2 }]);
}

#[test]
fn validate_reports_wrong_ranking_length() {
    let mut data = sample_data();
    data.predictions[1].ranking = vec![1, 2];
    let issues = data.validate().unwrap_err();
    assert_eq!(issues, vec![DataIssue::WrongLength { contestant: 1, found: 2, expected: 3 }]);
}

#[test]
fn validate_reports_duplicate_weights() {
    let mut data = sample_data();
    data.predictions[0].ranking = vec![1, 1, 3];
    let issues = data.validate().unwrap_err();
    assert_eq!(issues, vec![DataIssue::InvalidRanking { contestant: 0 }]);
}

#[test]
fn validate_reports_every_defect_in_order() {
    let mut data = sample_data();
    data.outcomes.push(entry("zz", "no"));
    data.predictions[0].ranking = vec![2, 3, 4];
    data.predictions[1].ranking = vec![1];
    let issues = data.validate().unwrap_err();
    assert_eq!(
        issues,
        vec![
            DataIssue::UnknownOutcome { outcome: 2 },
            DataIssue::InvalidRanking { contestant: 0 },
            DataIssue::WrongLength { contestant: 1, found: 1, expected: 3 },
        ]
    );
}

#[test]
fn ranking_check_accepts_permutations_only() {
    assert!(check_ranking(&vec![2, 1, 3]));
    assert!(check_ranking(&vec![]));
    assert!(!check_ranking(&vec![0, 1, 2]));
    assert!(!check_ranking(&vec![1, 2, 4]));
    assert!(!check_ranking(&vec![3, 3, 1]));
}

#[test]
fn question_ids_keep_stored_order() {
    let ids = sample_data().question_ids();
    assert_eq!(ids, vec!["q1".to_string(), "q2".to_string(), "q3".to_string()]);
}

#[test]
fn outcomes_vec_reads_first_characters() {
    // q1 has "yes" -> 'y'; q2 has no entry -> 'm'; q3 has "maybe" -> 'm'.
    assert_eq!(sample_data().outcomes_vec(), vec!['y', 'm', 'm']);
    let mut data = sample_data();
    data.outcomes.push(entry("q2", "no"));
    assert_eq!(data.outcomes_vec(), vec!['y', 'n', 'm']);
    data.outcomes[0] = entry("q1", "");
    assert_eq!(data.outcomes_vec(), vec!['m', 'n', 'm']);
}

#[test]
fn sorted_ids_come_out_ascending() {
    let ids = vec!["q10".to_string(), "q2".to_string(), "q1".to_string(), "q2".to_string()];
    let sorted = sort_strings(ids.clone());
    let mut expected = ids;
    expected.sort();
    assert_eq!(sorted, expected);
    assert_eq!(sort_strings(Vec::new()), Vec::<String>::new());
}

#[test]
fn predictions_vec_copies_contestants() {
    let data = sample_data();
    let preds = data.predictions_vec();
    assert_eq!(preds.len(), 2);
    assert_eq!(preds[0].name, "A");
    assert_eq!(preds[0].ranking, vec![1, 2, 3]);
    assert_eq!(preds[1].name, "B");
    assert_eq!(preds[1].ranking, vec![3, 1, 2]);
}
