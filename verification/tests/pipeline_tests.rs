use qperformance::qperformance;
use qperformance::qperf_core;
use qperformance::get_question_types;

fn rec(room: &str, rnd: &str, qnum: u32, name: &str, team: &str, seat: &str, code: &str) -> Vec<String> {
    let mut v: Vec<String> = (0..11).map(|_| String::new()).collect();
    v[3] = room.to_string();
    v[4] = rnd.to_string();
    v[5] = format!("'{}'", qnum);
    v[7] = name.to_string();
    v[8] = team.to_string();
    v[9] = seat.to_string();
    v[10] = format!("'{}'", code);
    v
}

fn expected_header() -> String {
    let mut h = String::from("Quizzer,Team,");
    for t in ['A', 'G', 'I', 'M', 'Q', 'R', 'S', 'V', 'X'] {
        h.push_str(&format!(
            "{} Attempted,{} Correct,{} Bonuses Attempted,{} Bonuses Correct,",
            t, t, t, t
        ));
    }
    h.push('\n');
    h
}

fn expected_team_header() -> String {
    let mut s = String::from("Team Results\n\n");
    s.push_str(
        "Teams are ranked first by number of losses, then by number of wins, then by head-to-head record. \n\n",
    );
    s.push_str("Name,Placement,Wins,Losses,Total Score\n");
    s
}

#[test]
fn empty_input_renders_empty_tables() {
    let result = qperformance(Vec::new(), Vec::new());
    let (warns, out) = result.expect("pipeline should succeed");
    assert!(warns.is_empty());
    let expected = format!("{}\n{}", expected_header(), expected_team_header());
    assert_eq!(out, expected);
}

#[test]
fn small_tournament_produces_stats_and_standings() {
    let records = vec![
        rec("'1'", "'5'", 1, "'Alpha'", "0", "0", "TN"),
        rec("'1'", "'5'", 1, "'Beta'", "1", "0", "TN"),
        rec("'1'", "'5'", 1, "'Ann'", "0", "0", "QN"),
        rec("'1'", "'5'", 1, "'Bob'", "1", "0", "QN"),
        rec("'1'", "'5'", 1, "'Ann'", "0", "0", "TC"),
        rec("'1'", "'5'", 2, "'Bob'", "1", "0", "TC"),
        rec("'1'", "'5'", 3, "'Ann'", "0", "0", "TC"),
    ];
    let docs = vec!["SET #5 xxAz\\tabmid\\tabyyGz\\tabmid\\tabzzQz\\tabmid\\tabwwXz".to_string()];
    let (warns, out) = qperformance(docs, records).expect("pipeline should succeed");
    assert!(warns.is_empty(), "unexpected warnings: {:?}", warns);
    let lines: Vec<&str> = out.lines().collect();
    // Quizzer rows: name, team, then 36 cells.
    let ann = lines.iter().find(|l| l.starts_with("Ann,")).expect("Ann row");
    assert!(ann.starts_with("Ann,Alpha,"));
    let bob = lines.iter().find(|l| l.starts_with("Bob,")).expect("Bob row");
    assert!(bob.starts_with("Bob,Beta,"));
    // Ann answered questions 1 and 3 (categories A and Q), Bob question 2 (G).
    assert_eq!(ann, &"Ann,Alpha,1,1,0,0,0,0,0,0,0,0,0,0,1,1,0,0,1,1,0,0,0,0,0,0,0,0,0,0,0,0,0,0,0,0,0,0,");
    assert_eq!(bob, &"Bob,Beta,0,0,0,0,1,1,0,0,0,0,0,0,0,0,0,0,0,0,0,0,0,0,0,0,0,0,0,0,0,0,0,0,0,0,0,0,");
    // Standings: Alpha 40 points beats Beta 20.
    let alpha = lines.iter().find(|l| l.starts_with("Alpha,")).expect("Alpha row");
    assert_eq!(alpha, &"Alpha,1,1,0,40");
    let beta = lines.iter().find(|l| l.starts_with("Beta,")).expect("Beta row");
    assert_eq!(beta, &"Beta,2,0,1,20");
}

#[test]
fn invalid_question_type_is_a_fatal_error() {
    let err = qperf_core(
        Vec::new(),
        Vec::new(),
        vec!['A', 'Z'],
        ",".to_string(),
        String::new(),
        false,
    )
    .expect_err("Z is not a question type");
    assert_eq!(err, "Error: Invalid question type 'Z'.");
}

#[test]
fn empty_filter_result_warns_when_input_was_nonempty() {
    let records = vec![rec("1", "5", 1, "'Ann'", "0", "0", "TC")];
    let (warns, _) = qperf_core(
        Vec::new(),
        records,
        get_question_types(),
        ",".to_string(),
        "OTHER".to_string(),
        false,
    )
    .expect("pipeline should succeed");
    assert!(warns.iter().any(|w| w == "Warning: No records found for tournament OTHER"));
}

#[test]
fn display_rounds_lists_each_round_block() {
    let records = vec![
        rec("1", "5", 1, "'Alpha'", "0", "0", "TN"),
        rec("1", "5", 1, "'Ann'", "0", "0", "TC"),
    ];
    let (_, out) = qperf_core(
        Vec::new(),
        records,
        get_question_types(),
        ",".to_string(),
        String::new(),
        true,
    )
    .expect("pipeline should succeed");
    assert!(out.contains("Individual Round Results\n\n"));
    assert!(out.contains("Room: 1, Round: 5\n"));
    assert!(out.contains("'Alpha', 20\n"));
}
