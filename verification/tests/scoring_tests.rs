use qperformance::RecordCollection;
use qperformance::get_quizzer_names;
use qperformance::update_arrays;
use qperformance::Round;

fn rec(room: &str, rnd: &str, qnum: u32, name: &str, team: &str, seat: &str, code: &str) -> Vec<String> {
    let mut v: Vec<String> = (0..11).map(|_| String::new()).collect();
    v[3] = room.to_string();
    v[4] = rnd.to_string();
    v[5] = format!("'{}'", qnum);
    v[7] = name.to_string();
    v[8] = team.to_string();
    v[9] = seat.to_string();
    v[10] = format!("'{}'", code);
    v
}

fn score_rounds(records: Vec<Vec<String>>) -> (Vec<String>, Vec<Round>) {
    let mut warns: Vec<String> = Vec::new();
    let (quizzers, registry) = get_quizzer_names(records, &mut warns);
    let n = quizzers.len();
    let mut attempts = vec![vec![0u32; 9]; n];
    let mut correct = vec![vec![0u32; 9]; n];
    let mut bonus_attempts = vec![vec![0u32; 9]; n];
    let mut bonus = vec![vec![0u32; 9]; n];
    let mut rounds: Vec<Round> = Vec::new();
    update_arrays(
        &mut warns,
        registry,
        &quizzers,
        Vec::new(),
        &mut attempts,
        &mut correct,
        &mut bonus_attempts,
        &mut bonus,
        &mut rounds,
    );
    (warns, rounds)
}

#[test]
fn four_straight_correct_earn_the_quiz_out_bonus() {
    let records = vec![
        rec("1", "5", 1, "Alpha", "0", "0", "TN"),
        rec("1", "5", 1, "Ann", "0", "0", "TC"),
        rec("1", "5", 2, "Ann", "0", "0", "TC"),
        rec("1", "5", 3, "Ann", "0", "0", "TC"),
        rec("1", "5", 4, "Ann", "0", "0", "TC"),
    ];
    let (_, rounds) = score_rounds(records);
    assert_eq!(rounds.len(), 1);
    assert_eq!(rounds[0].team_names, vec!["Alpha".to_string()]);
    assert_eq!(rounds[0].team_scores, vec![4 * 20 + 10]);
}

#[test]
fn incorrect_at_question_sixteen_always_deducts() {
    let records = vec![
        rec("1", "5", 1, "Alpha", "0", "0", "TN"),
        rec("1", "5", 16, "Ann", "0", "0", "TE"),
    ];
    let (_, rounds) = score_rounds(records);
    assert_eq!(rounds[0].team_scores, vec![-10]);
}

#[test]
fn only_the_third_incorrect_below_sixteen_deducts() {
    let two = vec![
        rec("1", "5", 1, "Alpha", "0", "0", "TN"),
        rec("1", "5", 1, "Ann", "0", "0", "TE"),
        rec("1", "5", 2, "Ann", "0", "0", "TE"),
    ];
    let (_, rounds) = score_rounds(two);
    assert_eq!(rounds[0].team_scores, vec![0]);
    let four = vec![
        rec("1", "6", 1, "Alpha", "0", "0", "TN"),
        rec("1", "6", 1, "Ann", "0", "0", "TE"),
        rec("1", "6", 2, "Ann", "0", "0", "TE"),
        rec("1", "6", 3, "Ann", "0", "0", "TE"),
        rec("1", "6", 4, "Ann", "0", "0", "TE"),
    ];
    let (_, rounds) = score_rounds(four);
    assert_eq!(rounds[0].team_scores, vec![-10]);
}

#[test]
fn bonus_events_score_ten_or_nothing() {
    let records = vec![
        rec("1", "5", 1, "Alpha", "0", "0", "TN"),
        rec("1", "5", 1, "Ann", "0", "0", "BC"),
        rec("1", "5", 2, "Ann", "0", "0", "BE"),
    ];
    let (_, rounds) = score_rounds(records);
    assert_eq!(rounds[0].team_scores, vec![10]);
}

#[test]
fn third_distinct_scorer_earns_team_bonus() {
    let records = vec![
        rec("1", "5", 1, "Alpha", "0", "0", "TN"),
        rec("1", "5", 1, "Ann", "0", "0", "TC"),
        rec("1", "5", 2, "Bob", "0", "0", "TC"),
        rec("1", "5", 3, "Cyd", "0", "0", "TC"),
    ];
    let (_, rounds) = score_rounds(records);
    // 3 * 20 plus the third-person bonus on Cyd's first correct answer.
    assert_eq!(rounds[0].team_scores, vec![70]);
}

#[test]
fn practice_rounds_without_scoring_are_dropped() {
    let records = vec![
        rec("1", "3", 1, "Ghost Team", "0", "0", "TN"),
        rec("1", "3", 1, "Gwen", "0", "0", "QN"),
        rec("1", "4", 1, "Alpha", "0", "0", "TN"),
        rec("1", "4", 1, "Ann", "0", "0", "TC"),
    ];
    let mut warns: Vec<String> = Vec::new();
    let (quizzers, registry) = get_quizzer_names(records, &mut warns);
    assert_eq!(registry.len(), 1);
    assert_eq!(registry[0].0, "Rm1Rd4");
    assert!(quizzers.iter().all(|q| q.0 != "Gwen"));
}

#[test]
fn team_name_mid_round_resets_the_slot_score() {
    // A team-name event inside a round's buffer is a defensive case: it
    // resets that slot's score and ledger.
    let rc = RecordCollection {
        room: "1".to_string(),
        round: "5".to_string(),
        teams: vec![("Alpha".to_string(), Vec::new())],
        records: vec![
            rec("1", "5", 1, "Ann", "0", "0", "TC"),
            rec("1", "5", 2, "Alpha", "0", "0", "TN"),
        ],
    };
    let registry = vec![("Rm1Rd5".to_string(), rc)];
    let mut warns: Vec<String> = Vec::new();
    let quizzers: Vec<(String, String)> = Vec::new();
    let mut attempts: Vec<Vec<u32>> = Vec::new();
    let mut correct: Vec<Vec<u32>> = Vec::new();
    let mut bonus_attempts: Vec<Vec<u32>> = Vec::new();
    let mut bonus: Vec<Vec<u32>> = Vec::new();
    let mut rounds: Vec<Round> = Vec::new();
    update_arrays(
        &mut warns,
        registry,
        &quizzers,
        Vec::new(),
        &mut attempts,
        &mut correct,
        &mut bonus_attempts,
        &mut bonus,
        &mut rounds,
    );
    assert_eq!(rounds[0].team_scores, vec![0]);
}

#[test]
fn missing_question_sets_are_warned_once() {
    let records = vec![
        rec("1", "5", 1, "Alpha", "0", "0", "TN"),
        rec("1", "5", 1, "Ann", "0", "0", "TC"),
    ];
    let (warns, _) = score_rounds(records);
    assert!(warns.iter().any(|w| w.starts_with(
        "Warning: Some rounds are missing question sets!"
    )));
    assert!(warns.iter().any(|w| w.starts_with("Skipped Rounds: [")));
}

#[test]
fn duplicate_round_keys_overwrite_with_a_warning() {
    let records = vec![
        rec("1", "5", 1, "Alpha", "0", "0", "TN"),
        rec("1", "5", 1, "Ann", "0", "0", "TC"),
        rec("1", "6", 1, "Beta", "0", "0", "TN"),
        rec("1", "6", 1, "Bob", "0", "0", "TC"),
        rec("1", "5", 2, "Gamma", "0", "0", "TN"),
        rec("1", "5", 2, "Gil", "0", "0", "TC"),
        rec("1", "5", 3, "Gil", "0", "0", "TC"),
    ];
    let mut warns: Vec<String> = Vec::new();
    let (_, registry) = get_quizzer_names(records, &mut warns);
    assert_eq!(registry.len(), 2);
    assert!(warns.iter().any(|w| w == "Warning: Duplicate round number: Rm1Rd5, overwriting!"));
    let dup = registry.iter().find(|e| e.0 == "Rm1Rd5").unwrap();
    assert_eq!(dup.1.records.len(), 2);
}

#[test]
fn scoring_reruns_bit_identically() {
    let records = vec![
        rec("1", "5", 1, "Alpha", "0", "0", "TN"),
        rec("1", "5", 1, "Bravo", "1", "0", "TN"),
        rec("1", "5", 1, "Ann", "0", "0", "TC"),
        rec("1", "5", 2, "Bea", "1", "0", "TC"),
        rec("1", "5", 16, "Ann", "0", "0", "TE"),
    ];
    let (w1, r1) = score_rounds(records.clone());
    let (w2, r2) = score_rounds(records);
    assert_eq!(w1, w2);
    let flat1: Vec<(String, String, Vec<String>, Vec<i32>)> = r1
        .into_iter()
        .map(|r| (r.round_number, r.room_number, r.team_names, r.team_scores))
        .collect();
    let flat2: Vec<(String, String, Vec<String>, Vec<i32>)> = r2
        .into_iter()
        .map(|r| (r.round_number, r.room_number, r.team_names, r.team_scores))
        .collect();
    assert_eq!(flat1, flat2);
}

#[test]
fn stats_accumulate_per_category_and_memory_aggregate() {
    let records = vec![
        rec("1", "5", 1, "Alpha", "0", "0", "TN"),
        rec("1", "5", 1, "Ann", "0", "0", "QN"),
        rec("1", "5", 1, "Ann", "0", "0", "TC"),
        rec("1", "5", 2, "Ann", "0", "0", "TC"),
    ];
    let mut warns: Vec<String> = Vec::new();
    let (quizzers, registry) = get_quizzer_names(records, &mut warns);
    assert_eq!(quizzers, vec![("Ann".to_string(), "Alpha".to_string())]);
    let question_types = vec![("5".to_string(), vec!['Q', 'Q', 'Q'])];
    let mut attempts = vec![vec![0u32; 9]; 1];
    let mut correct = vec![vec![0u32; 9]; 1];
    let mut bonus_attempts = vec![vec![0u32; 9]; 1];
    let mut bonus = vec![vec![0u32; 9]; 1];
    let mut rounds: Vec<Round> = Vec::new();
    update_arrays(
        &mut warns,
        registry,
        &quizzers,
        question_types,
        &mut attempts,
        &mut correct,
        &mut bonus_attempts,
        &mut bonus,
        &mut rounds,
    );
    // Category Q is column 3; the memory aggregate is column 8.
    assert_eq!(attempts[0][3], 2);
    assert_eq!(correct[0][3], 2);
    assert_eq!(attempts[0][8], 2);
    assert_eq!(correct[0][8], 2);
    assert_eq!(bonus[0][3], 0);
    assert!(warns.is_empty());
}

#[test]
fn unknown_team_slot_is_synthesized_with_a_warning() {
    let records = vec![
        rec("1", "5", 1, "Alpha", "0", "0", "TN"),
        rec("1", "5", 1, "Ann", "0", "0", "TC"),
        rec("1", "5", 2, "Zoe", "7", "0", "TC"),
    ];
    let (warns, rounds) = score_rounds(records);
    assert!(warns.iter().any(|w| w.starts_with("Warning: Team number 7 added mid-round")));
    // The synthesized team sits past the roster, so only the roster slot keeps a score.
    assert_eq!(rounds[0].team_names, vec!["Alpha".to_string()]);
    assert_eq!(rounds[0].team_scores, vec![20, 0]);
}

#[test]
fn last_mapped_question_uses_its_letter() {
    // A one-letter question set: question 1 is the last in-range index and
    // must resolve to the mapped letter, not the default category.
    let records = vec![
        rec("1", "5", 1, "Alpha", "0", "0", "TN"),
        rec("1", "5", 1, "Ann", "0", "0", "QN"),
        rec("1", "5", 1, "Ann", "0", "0", "TC"),
    ];
    let mut warns: Vec<String> = Vec::new();
    let (quizzers, registry) = get_quizzer_names(records, &mut warns);
    let question_types = vec![("5".to_string(), vec!['Q'])];
    let mut attempts = vec![vec![0u32; 9]; 1];
    let mut correct = vec![vec![0u32; 9]; 1];
    let mut bonus_attempts = vec![vec![0u32; 9]; 1];
    let mut bonus = vec![vec![0u32; 9]; 1];
    let mut rounds: Vec<Round> = Vec::new();
    update_arrays(
        &mut warns,
        registry,
        &quizzers,
        question_types,
        &mut attempts,
        &mut correct,
        &mut bonus_attempts,
        &mut bonus,
        &mut rounds,
    );
    assert_eq!(attempts[0][3], 1);
    assert_eq!(correct[0][3], 1);
    assert_eq!(attempts[0][8], 1);
    assert_eq!(attempts[0][1], 0);
}

#[test]
fn trailing_round_is_pruned_like_a_boundary() {
    // The stream ends inside a confirmed round whose roster holds a blank
    // slot and a blank seat: both are pruned, as at an in-stream boundary.
    let records = vec![
        rec("1", "9", 1, "Alpha", "0", "0", "TN"),
        rec("1", "9", 1, "''", "1", "0", "TN"),
        rec("1", "9", 1, "Ann", "0", "0", "QN"),
        rec("1", "9", 1, "''", "0", "1", "QN"),
        rec("1", "9", 1, "Ann", "0", "0", "TC"),
    ];
    let mut warns: Vec<String> = Vec::new();
    let (_, registry) = get_quizzer_names(records, &mut warns);
    assert_eq!(registry.len(), 1);
    let rc = &registry[0].1;
    assert_eq!(rc.teams.len(), 1);
    assert_eq!(rc.teams[0].0, "Alpha");
    assert_eq!(rc.teams[0].1, vec!["Ann".to_string()]);
}

#[test]
fn team_name_declaration_keeps_seated_quizzers() {
    // A quizzer seated before the team name is declared stays in the slot.
    let records = vec![
        rec("1", "9", 1, "Ann", "0", "0", "QN"),
        rec("1", "9", 1, "Alpha", "0", "0", "TN"),
        rec("1", "9", 1, "Ann", "0", "0", "TC"),
    ];
    let mut warns: Vec<String> = Vec::new();
    let (quizzers, registry) = get_quizzer_names(records, &mut warns);
    let rc = &registry[0].1;
    assert_eq!(rc.teams[0].0, "Alpha");
    assert_eq!(rc.teams[0].1, vec!["Ann".to_string()]);
    assert_eq!(quizzers, vec![("Ann".to_string(), "Alpha".to_string())]);
}

#[test]
fn record_collection_keeps_the_buffered_events() {
    let records = vec![
        rec("1", "5", 1, "Alpha", "0", "0", "TN"),
        rec("1", "5", 1, "Ann", "0", "0", "TC"),
    ];
    let mut warns: Vec<String> = Vec::new();
    let (_, registry) = get_quizzer_names(records, &mut warns);
    let rc: &RecordCollection = &registry[0].1;
    assert_eq!(rc.room, "1");
    assert_eq!(rc.round, "5");
    assert_eq!(rc.teams.len(), 1);
    assert_eq!(rc.teams[0].0, "Alpha");
    assert_eq!(rc.records.len(), 1);
}
