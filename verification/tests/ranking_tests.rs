use qperformance::Round;
use qperformance::generate_matchup_key;
use qperformance::handle_matchup;
use qperformance::rank_teams;

fn round(room: &str, number: &str, teams: &[(&str, i32)]) -> Round {
    Round {
        round_number: number.to_string(),
        room_number: room.to_string(),
        team_names: teams.iter().map(|t| t.0.to_string()).collect(),
        team_scores: teams.iter().map(|t| t.1).collect(),
    }
}

fn entry_for<'a>(
    ranking: &'a [(String, u32, u32, u32, i32)],
    name: &str,
) -> &'a (String, u32, u32, u32, i32) {
    ranking.iter().find(|e| e.0 == name).expect("team missing from ranking")
}

#[test]
fn two_team_split_is_a_residual_tie() {
    let rounds = vec![
        round("1", "A", &[("TeamX", 100), ("TeamY", 80)]),
        round("1", "B", &[("TeamX", 90), ("TeamY", 110)]),
    ];
    let ranking = rank_teams(rounds);
    assert_eq!(ranking.len(), 2);
    let x = entry_for(&ranking, "TeamX");
    assert_eq!((x.2, x.3, x.4), (1, 1, 190));
    let y = entry_for(&ranking, "TeamY");
    assert_eq!((y.2, y.3, y.4), (1, 1, 190));
    let mut places: Vec<u32> = ranking.iter().map(|e| e.1).collect();
    places.sort();
    assert_eq!(places, vec![1, 2]);
}

#[test]
fn three_team_round_grants_pairwise_wins_and_losses() {
    let rounds = vec![round("1", "7", &[("A", 120), ("B", 100), ("C", 80)])];
    let ranking = rank_teams(rounds);
    assert_eq!(ranking.len(), 3);
    let a = entry_for(&ranking, "A");
    assert_eq!((a.1, a.2, a.3, a.4), (1, 2, 0, 120));
    let b = entry_for(&ranking, "B");
    assert_eq!((b.1, b.2, b.3, b.4), (2, 1, 1, 100));
    let c = entry_for(&ranking, "C");
    assert_eq!((c.1, c.2, c.3, c.4), (3, 0, 2, 80));
}

#[test]
fn three_team_round_records_three_ledger_pairs() {
    let mut ledger: Vec<((String, String), (i32, i32))> = Vec::new();
    handle_matchup(&mut ledger, "A", "B", 120, 100);
    handle_matchup(&mut ledger, "A", "C", 120, 80);
    handle_matchup(&mut ledger, "B", "C", 100, 80);
    assert_eq!(ledger.len(), 3);
    assert_eq!(ledger[0], (("A".to_string(), "B".to_string()), (120, 100)));
    assert_eq!(ledger[1], (("A".to_string(), "C".to_string()), (120, 80)));
    assert_eq!(ledger[2], (("B".to_string(), "C".to_string()), (100, 80)));
}

#[test]
fn repeated_encounters_accumulate_in_canonical_slots() {
    let mut ledger: Vec<((String, String), (i32, i32))> = Vec::new();
    handle_matchup(&mut ledger, "B", "A", 80, 100);
    handle_matchup(&mut ledger, "A", "B", 90, 110);
    assert_eq!(ledger.len(), 1);
    assert_eq!(ledger[0], (("A".to_string(), "B".to_string()), (190, 190)));
}

#[test]
fn matchup_key_is_ordered_lexicographically() {
    assert_eq!(generate_matchup_key("B", "A"), ("A".to_string(), "B".to_string()));
    assert_eq!(generate_matchup_key("A", "B"), ("A".to_string(), "B".to_string()));
}

#[test]
fn permuting_team_listing_keeps_tallies() {
    let rounds1 = vec![
        round("1", "7", &[("A", 120), ("B", 100), ("C", 80)]),
        round("1", "8", &[("A", 50), ("B", 70)]),
    ];
    let rounds2 = vec![
        round("1", "7", &[("C", 80), ("A", 120), ("B", 100)]),
        round("1", "8", &[("B", 70), ("A", 50)]),
    ];
    let r1 = rank_teams(rounds1);
    let r2 = rank_teams(rounds2);
    for name in ["A", "B", "C"] {
        let e1 = entry_for(&r1, name);
        let e2 = entry_for(&r2, name);
        assert_eq!((e1.2, e1.3, e1.4), (e2.2, e2.3, e2.4));
    }
}

#[test]
fn head_to_head_breaks_win_loss_ties() {
    // Both teams end 1-1, but D beat E twice on aggregate.
    let rounds = vec![
        round("1", "1", &[("D", 100), ("E", 40)]),
        round("1", "2", &[("D", 60), ("E", 80)]),
    ];
    let ranking = rank_teams(rounds);
    let d = entry_for(&ranking, "D");
    let e = entry_for(&ranking, "E");
    assert_eq!(d.1, 1);
    assert_eq!(e.1, 2);
}

#[test]
fn permuting_team_listing_keeps_head_to_head_placements() {
    // The tie-break reads the head-to-head ledger; listing the teams of a
    // round in the other order must not change it.
    let rounds1 = vec![
        round("1", "1", &[("D", 100), ("E", 40)]),
        round("1", "2", &[("D", 60), ("E", 80)]),
    ];
    let rounds2 = vec![
        round("1", "1", &[("E", 40), ("D", 100)]),
        round("1", "2", &[("E", 80), ("D", 60)]),
    ];
    let r1 = rank_teams(rounds1);
    let r2 = rank_teams(rounds2);
    assert_eq!(entry_for(&r1, "D").1, entry_for(&r2, "D").1);
    assert_eq!(entry_for(&r1, "E").1, entry_for(&r2, "E").1);
}

#[test]
fn fewer_losses_rank_first_then_more_wins() {
    let rounds = vec![
        round("1", "1", &[("A", 100), ("B", 80)]),
        round("1", "2", &[("B", 100), ("C", 80)]),
        round("1", "3", &[("A", 100), ("C", 80)]),
    ];
    let ranking = rank_teams(rounds);
    let a = entry_for(&ranking, "A");
    assert_eq!((a.1, a.2, a.3), (1, 2, 0));
    let b = entry_for(&ranking, "B");
    assert_eq!((b.1, b.2, b.3), (2, 1, 1));
    let c = entry_for(&ranking, "C");
    assert_eq!((c.1, c.2, c.3), (3, 0, 2));
}

#[test]
fn empty_team_names_are_excluded_from_standings() {
    let rounds = vec![round("1", "1", &[("A", 100), ("", 80)])];
    let ranking = rank_teams(rounds);
    assert_eq!(ranking.len(), 1);
    assert_eq!(ranking[0].0, "A");
}
