//! The scoring engine: replay a confirmed round's events in order against
//! per-team score accumulators, the per-round active-quizzer ledger, and the
//! global per-quizzer statistic tables.
//!
//! Scoring rules, per event: a correct tossup is worth 20 team points, with a
//! 10-point quiz-out bonus on a quizzer's fourth correct answer without error
//! and a 10-point bonus when a team's third or fourth distinct quizzer scores
//! their first correct answer; an incorrect tossup costs 10 points when it is
//! the quizzer's third error or the question number is 16 or higher; a
//! correct bonus is worth 10 points; an incorrect bonus is worth nothing.
use vstd::prelude::*;
use vstd::string::StrSliceExecFns;
use vstd::string::StringExecFns;
use crate::strutil::str_eq;
use crate::strutil::strs_view;
use crate::strutil::trim_quotes;
use crate::strutil::trim_quotes_spec;
use crate::strutil::parse_usize_or_zero;
use crate::strutil::parse_usize_spec;
use crate::strutil::names_contain;
use crate::strutil::usize_to_string;
use crate::strutil::dec_digits;
use crate::questions::qm_has;
use crate::questions::qm_get;
use crate::questions::qm_find_exec;
use crate::questions::qmap_view;
use crate::questions::qt_index_spec;
use crate::questions::is_memory_type;
use crate::questions::question_type_index;
use crate::reconstruct::col_view;
use crate::reconstruct::col_str;
use crate::reconstruct::ecode_spec;
use crate::reconstruct::parse_event_code;
use crate::reconstruct::EventCode;
use crate::reconstruct::RecordCollection;
use crate::reconstruct::RecColView;
use crate::reconstruct::rc_view;
use crate::reconstruct::reg_view;

verus! {

/// A round of quizzing: its key, and the team names with their final scores.
pub struct Round {
    pub round_number: String,
    pub room_number: String,
    pub team_names: Vec<String>,
    pub team_scores: Vec<i32>,
}

/// The mathematical content of a round result.
#[verifier::ext_equal]
pub ghost struct RoundModel {
    pub round: Seq<char>,
    pub room: Seq<char>,
    pub names: Seq<Seq<char>>,
    pub scores: Seq<int>,
}

/// View of a score list as integers.
pub open spec fn scores_view(v: Seq<i32>) -> Seq<int> {
    Seq::new(v.len(), |i: int| v[i] as int)
}

/// View of a round result.
pub open spec fn round_model(r: Round) -> RoundModel {
    RoundModel {
        round: r.round_number@,
        room: r.room_number@,
        names: strs_view(r.team_names@),
        scores: scores_view(r.team_scores@),
    }
}

/// View of a list of round results.
pub open spec fn rounds_view(v: Seq<Round>) -> Seq<RoundModel> {
    Seq::new(v.len(), |i: int| round_model(v[i]))
}

/// One team's scoring state within a round: its name, its running score,
/// and the active-quizzer ledger of (name, correct count, incorrect count).
pub struct TeamStat {
    pub team_name: String,
    pub team_score: i32,
    pub active_quizzers: Vec<(String, u32, u32)>,
}

/// The mathematical content of a team's scoring state.
#[verifier::ext_equal]
pub ghost struct TeamModel {
    pub name: Seq<char>,
    pub score: int,
    pub actives: Seq<(Seq<char>, int, int)>,
}

/// View of a ledger.
pub open spec fn actives_view(v: Seq<(String, u32, u32)>) -> Seq<(Seq<char>, int, int)> {
    Seq::new(v.len(), |i: int| (v[i].0@, v[i].1 as int, v[i].2 as int))
}

/// View of a team's scoring state.
pub open spec fn team_model(t: TeamStat) -> TeamModel {
    TeamModel { name: t.team_name@, score: t.team_score as int, actives: actives_view(t.active_quizzers@) }
}

/// View of the per-round team list.
pub open spec fn teams_model(v: Seq<TeamStat>) -> Seq<TeamModel> {
    Seq::new(v.len(), |i: int| team_model(v[i]))
}

/// View of a statistic table as integers.
pub open spec fn tbl_model(v: Seq<Vec<u32>>) -> Seq<Seq<int>> {
    Seq::new(v.len(), |i: int| Seq::new(v[i]@.len(), |j: int| v[i]@[j] as int))
}

/// The global scoring state threaded through all rounds: the four statistic
/// tables, the round identifiers missing from the question-type map, and
/// the warnings collected so far.
#[verifier::ext_equal]
pub ghost struct ScoreState {
    pub attempts: Seq<Seq<int>>,
    pub correct: Seq<Seq<int>>,
    pub bonus_attempts: Seq<Seq<int>>,
    pub bonus: Seq<Seq<int>>,
    pub missing: Seq<Seq<char>>,
    pub warns: Seq<Seq<char>>,
}

/// Position of the first quizzer of this name, or 0 when unknown.
pub open spec fn qpos_from(qn: Seq<(Seq<char>, Seq<char>)>, name: Seq<char>, i: int) -> int
    decreases qn.len() - i,
{
    if i < 0 || i >= qn.len() {
        0
    } else if qn[i].0 == name {
        i
    } else {
        qpos_from(qn, name, i + 1)
    }
}

/// Position of the first ledger entry of this name, or -1 when absent.
pub open spec fn apos_from(acts: Seq<(Seq<char>, int, int)>, name: Seq<char>, i: int) -> int
    decreases acts.len() - i,
{
    if i < 0 || i >= acts.len() {
        -1
    } else if acts[i].0 == name {
        i
    } else {
        apos_from(acts, name, i + 1)
    }
}

/// How many ledger entries have a positive correct count, among the first `k`.
pub open spec fn count_active(acts: Seq<(Seq<char>, int, int)>, k: int) -> int
    decreases k,
{
    if k <= 0 {
        0
    } else {
        count_active(acts, k - 1) + (if acts[k - 1].1 > 0 {
            1int
        } else {
            0int
        })
    }
}

/// Whether any team's ledger holds an entry of this name.
pub open spec fn any_team_tracks(teams: Seq<TeamModel>, name: Seq<char>) -> bool {
    exists|i: int| 0 <= i < teams.len() && apos_from(teams[i].actives, name, 0) >= 0
}

/// Add one to a table cell, when it is in range.
pub open spec fn bump(t: Seq<Seq<int>>, qi: int, j: int) -> Seq<Seq<int>> {
    if 0 <= qi < t.len() && 0 <= j < t[qi].len() {
        t.update(qi, t[qi].update(j, t[qi][j] + 1))
    } else {
        t
    }
}

/// Add one to the cell of the resolved category, and to the memory
/// aggregate cell when the category counts toward it.
pub open spec fn bump2(t: Seq<Seq<int>>, qi: int, ti: int, mem: bool) -> Seq<Seq<int>> {
    if mem {
        bump(bump(t, qi, ti), qi, 8)
    } else {
        bump(t, qi, ti)
    }
}

/// The warning recorded when a record names a team slot beyond the roster.
pub open spec fn team_added_warn(tn: int, room: Seq<char>, round: Seq<char>) -> Seq<char> {
    "Warning: Team number "@ + dec_digits(tn) + " added mid-round in room "@ + room + " round "@
        + round + ". This should not happen."@
}

/// The category letter of a question: unresolved (`/`) when the round is
/// missing from the map, the mapped letter when the 0-based index is in
/// range, and the general letter `G` otherwise.
pub open spec fn resolve_qt(qmap: Seq<(Seq<char>, Seq<char>)>, round: Seq<char>, qnum: int) -> char {
    if !qm_has(qmap, round) {
        '/'
    } else if qnum < qm_get(qmap, round).len() {
        qm_get(qmap, round)[qnum]
    } else {
        'G'
    }
}

/// A fresh team created for a slot reference beyond the roster, named after
/// the quizzer on the record.
pub open spec fn synth_team(name: Seq<char>) -> TeamModel {
    TeamModel { name: name, score: 0, actives: Seq::empty() }
}

/// How one scoring record advances the round: the statistic tables, the
/// missing-round list and the warnings in `st`, and the team states in
/// `teams`.
pub open spec fn score_step(
    st: ScoreState,
    teams: Seq<TeamModel>,
    cols: Seq<Seq<char>>,
    rc_round: Seq<char>,
    rc_room: Seq<char>,
    qmap: Seq<(Seq<char>, Seq<char>)>,
    qnames: Seq<(Seq<char>, Seq<char>)>,
) -> (ScoreState, Seq<TeamModel>) {
    let tn = parse_usize_spec(col_view(cols, 8));
    let name = col_view(cols, 7);
    let qnum1 = parse_usize_spec(trim_quotes_spec(col_view(cols, 5)));
    let qnum = if qnum1 == 0 {
        0
    } else {
        qnum1 - 1
    };
    let qi = qpos_from(qnames, name, 0);
    let missing1 = if !qm_has(qmap, rc_round) && !names_contain(st.missing, rc_round) {
        st.missing.push(rc_round)
    } else {
        st.missing
    };
    let qt = resolve_qt(qmap, rc_round, qnum);
    let mem = is_memory_type(qt);
    let ti = qt_index_spec(qt);
    let st1 = ScoreState { missing: missing1, ..st };
    match ecode_spec(col_view(cols, 10)) {
        EventCode::Correct => {
            let st2 = ScoreState {
                attempts: bump2(st1.attempts, qi, ti, mem),
                correct: bump2(st1.correct, qi, ti, mem),
                ..st1
            };
            if tn < teams.len() {
                let t = teams[tn];
                let ai = apos_from(t.actives, name, 0);
                let acts2 = if ai < 0 {
                    t.actives.push((name, 1, 0))
                } else {
                    t.actives.update(ai, (t.actives[ai].0, t.actives[ai].1 + 1, t.actives[ai].2))
                };
                let quiz_out: int = if ai >= 0 && t.actives[ai].1 + 1 == 4 && t.actives[ai].2 == 0 {
                    10
                } else {
                    0
                };
                let ai2 = apos_from(acts2, name, 0);
                let third: int = if count_active(acts2, acts2.len() as int) >= 3 && 0 <= ai2
                    < acts2.len() && acts2[ai2].1 == 1 {
                    10
                } else {
                    0
                };
                (
                    st2,
                    teams.update(
                        tn,
                        TeamModel { score: t.score + 20 + quiz_out + third, actives: acts2, ..t },
                    ),
                )
            } else {
                (
                    ScoreState { warns: st2.warns.push(team_added_warn(tn, rc_room, rc_round)), ..st2 },
                    teams.push(synth_team(name)),
                )
            }
        },
        EventCode::Incorrect => {
            let st2 = ScoreState { attempts: bump2(st1.attempts, qi, ti, mem), ..st1 };
            if tn < teams.len() {
                let t = teams[tn];
                let ai = apos_from(t.actives, name, 0);
                if ai >= 0 {
                    let acts2 = t.actives.update(
                        ai,
                        (t.actives[ai].0, t.actives[ai].1, t.actives[ai].2 + 1),
                    );
                    let penalty: int = if t.actives[ai].2 + 1 == 3 || qnum >= 15 {
                        10
                    } else {
                        0
                    };
                    (st2, teams.update(tn, TeamModel { score: t.score - penalty, actives: acts2, ..t }))
                } else {
                    let penalty: int = if qnum >= 15 {
                        10
                    } else {
                        0
                    };
                    let acts2 = t.actives.push((name, 0, 1));
                    (st2, teams.update(tn, TeamModel { score: t.score - penalty, actives: acts2, ..t }))
                }
            } else {
                (
                    ScoreState { warns: st2.warns.push(team_added_warn(tn, rc_room, rc_round)), ..st2 },
                    teams.push(synth_team(name)),
                )
            }
        },
        EventCode::BonusCorrect => {
            let st2 = ScoreState {
                bonus_attempts: bump2(st1.bonus_attempts, qi, ti, mem),
                bonus: bump2(st1.bonus, qi, ti, mem),
                ..st1
            };
            let res = if tn < teams.len() {
                let t = teams[tn];
                (st2, teams.update(tn, TeamModel { score: t.score + 10, ..t }))
            } else {
                (
                    ScoreState { warns: st2.warns.push(team_added_warn(tn, rc_room, rc_round)), ..st2 },
                    teams.push(synth_team(name)),
                )
            };
            let teams3 = if !any_team_tracks(res.1, name) && tn < res.1.len() {
                let t = res.1[tn];
                res.1.update(tn, TeamModel { actives: t.actives.push((name, 0, 0)), ..t })
            } else {
                res.1
            };
            (res.0, teams3)
        },
        EventCode::BonusIncorrect => {
            (ScoreState { bonus_attempts: bump2(st1.bonus_attempts, qi, ti, mem), ..st1 }, teams)
        },
        EventCode::TeamName => {
            if teams.len() <= tn {
                (st1, teams.push(synth_team(name)))
            } else {
                (st1, teams.update(tn, synth_team(name)))
            }
        },
        _ => (st1, teams),
    }
}

/// The state after the first `k` records of one round.
pub open spec fn score_records(
    st: ScoreState,
    teams: Seq<TeamModel>,
    recs: Seq<Seq<Seq<char>>>,
    k: int,
    rc_round: Seq<char>,
    rc_room: Seq<char>,
    qmap: Seq<(Seq<char>, Seq<char>)>,
    qnames: Seq<(Seq<char>, Seq<char>)>,
) -> (ScoreState, Seq<TeamModel>)
    decreases k,
{
    if k <= 0 {
        (st, teams)
    } else {
        let prev = score_records(st, teams, recs, k - 1, rc_round, rc_room, qmap, qnames);
        score_step(prev.0, prev.1, recs[k - 1], rc_round, rc_room, qmap, qnames)
    }
}

/// The roster of a confirmed round as fresh team states with zero scores.
pub open spec fn init_teams(ts: Seq<(Seq<char>, Seq<Seq<char>>)>) -> Seq<TeamModel> {
    Seq::new(ts.len(), |i: int| TeamModel { name: ts[i].0, score: 0, actives: Seq::empty() })
}

/// Score one confirmed round: the new global state and its round result.
pub open spec fn score_round(
    st: ScoreState,
    rc: RecColView,
    qmap: Seq<(Seq<char>, Seq<char>)>,
    qnames: Seq<(Seq<char>, Seq<char>)>,
) -> (ScoreState, RoundModel) {
    let res = score_records(
        st,
        init_teams(rc.teams),
        rc.records,
        rc.records.len() as int,
        rc.round,
        rc.room,
        qmap,
        qnames,
    );
    (
        res.0,
        RoundModel {
            round: rc.round,
            room: rc.room,
            names: Seq::new(rc.teams.len(), |i: int| rc.teams[i].0),
            scores: Seq::new(res.1.len(), |i: int| res.1[i].score),
        },
    )
}

/// Score the first `k` rounds of the registry.
pub open spec fn score_all(
    reg: Seq<(Seq<char>, RecColView)>,
    k: int,
    st: ScoreState,
    qmap: Seq<(Seq<char>, Seq<char>)>,
    qnames: Seq<(Seq<char>, Seq<char>)>,
) -> (ScoreState, Seq<RoundModel>)
    decreases k,
{
    if k <= 0 {
        (st, Seq::empty())
    } else {
        let prev = score_all(reg, k - 1, st, qmap, qnames);
        let r = score_round(prev.0, reg[k - 1].1, qmap, qnames);
        (r.0, prev.1.push(r.1))
    }
}

/// The rendering of the missing-round list in the aggregate warning.
pub open spec fn skipped_list(m: Seq<Seq<char>>, k: int) -> Seq<char>
    decreases k,
{
    if k <= 0 {
        Seq::empty()
    } else if k == 1 {
        seq!['"'] + m[0] + seq!['"']
    } else {
        skipped_list(m, k - 1) + seq![',', ' '] + seq!['"'] + m[k - 1] + seq!['"']
    }
}

/// The warnings appended when some rounds had no question set.
pub open spec fn missing_warns(w: Seq<Seq<char>>, missing: Seq<Seq<char>>) -> Seq<Seq<char>> {
    if missing.len() > 0 {
        w.push(
            "Warning: Some rounds are missing question sets! These questions will be treated as general!"@,
        ).push("Skipped Rounds: ["@ + skipped_list(missing, missing.len() as int) + seq![']']).push(
            "Round names must match between QuizMachine and the question set files!"@,
        )
    } else {
        w
    }
}

/// The total number of buffered records in the first `k` registry entries.
pub open spec fn total_records(reg: Seq<(Seq<char>, RecColView)>, k: int) -> int
    decreases k,
{
    if k <= 0 {
        0
    } else {
        total_records(reg, k - 1) + reg[k - 1].1.records.len()
    }
}

/// The cap on buffered records that keeps every counter in machine range.
pub open spec fn max_total_records() -> int {
    16777216
}

/// Every cell of the table is at most `b`, and every row has nine columns.
pub open spec fn tbl_ok(t: Seq<Seq<int>>, b: int) -> bool {
    forall|i: int| 0 <= i < t.len() ==> (#[trigger] t[i]).len() == 9 && (forall|j: int|
        0 <= j < 9 ==> 0 <= #[trigger] t[i][j] <= b)
}

/// All four tables are within bounds.
pub open spec fn tables_ok(st: ScoreState, b: int) -> bool {
    tbl_ok(st.attempts, b) && tbl_ok(st.correct, b) && tbl_ok(st.bonus_attempts, b) && tbl_ok(
        st.bonus,
        b,
    )
}

/// Every ledger counter is within the bound.
pub open spec fn acts_ok(acts: Seq<(Seq<char>, int, int)>, c: int) -> bool {
    forall|j: int|
        0 <= j < acts.len() ==> 0 <= (#[trigger] acts[j]).1 <= c && 0 <= acts[j].2 <= c
}

/// The team's score and ledger counters are within the bound.
pub open spec fn team_ok(t: TeamModel, c: int) -> bool {
    -40 * c <= t.score <= 40 * c && acts_ok(t.actives, c)
}

/// Every team's score and ledger counters are bounded by the number of
/// records processed in the round.
pub open spec fn teams_ok(teams: Seq<TeamModel>, c: int) -> bool {
    forall|i: int| 0 <= i < teams.len() ==> team_ok(#[trigger] teams[i], c)
}

proof fn lemma_bump_ok(t: Seq<Seq<int>>, qi: int, j: int, b: int)
    requires
        tbl_ok(t, b),
        b >= 0,
    ensures
        tbl_ok(bump(t, qi, j), b + 1),
{
}

proof fn lemma_bump2_ok(t: Seq<Seq<int>>, qi: int, ti: int, mem: bool, b: int)
    requires
        tbl_ok(t, b),
        b >= 0,
        0 <= ti < 9,
    ensures
        tbl_ok(bump2(t, qi, ti, mem), b + 2),
{
    lemma_bump_ok(t, qi, ti, b);
    if mem {
        lemma_bump_ok(bump(t, qi, ti), qi, 8, b + 1);
    } else {
        assert(tbl_ok(bump(t, qi, ti), b + 1));
        let t1 = bump(t, qi, ti);
        assert forall|i: int| 0 <= i < t1.len() implies (#[trigger] t1[i]).len() == 9 && (forall|
            j: int,
        |
            0 <= j < 9 ==> 0 <= #[trigger] t1[i][j] <= b + 2) by {
            assert(t1[i].len() == 9);
            assert(forall|j: int| 0 <= j < 9 ==> 0 <= #[trigger] t1[i][j] <= b + 1);
        }
    }
}

/// One step keeps every counter within its grown bound.
pub proof fn lemma_step_ok(
    st: ScoreState,
    teams: Seq<TeamModel>,
    cols: Seq<Seq<char>>,
    rc_round: Seq<char>,
    rc_room: Seq<char>,
    qmap: Seq<(Seq<char>, Seq<char>)>,
    qnames: Seq<(Seq<char>, Seq<char>)>,
    b: int,
    c: int,
)
    requires
        tables_ok(st, b),
        teams_ok(teams, c),
        b >= 0,
        c >= 0,
    ensures
        tables_ok(score_step(st, teams, cols, rc_round, rc_room, qmap, qnames).0, b + 2),
        teams_ok(score_step(st, teams, cols, rc_round, rc_room, qmap, qnames).1, c + 1),
{
    let tn = parse_usize_spec(col_view(cols, 8));
    let name = col_view(cols, 7);
    let qnum1 = parse_usize_spec(trim_quotes_spec(col_view(cols, 5)));
    let qnum = if qnum1 == 0 {
        0int
    } else {
        qnum1 - 1
    };
    let qi = qpos_from(qnames, name, 0);
    let qt = resolve_qt(qmap, rc_round, qnum);
    let mem = is_memory_type(qt);
    let ti = qt_index_spec(qt);
    assert(0 <= ti < 9);
    lemma_bump2_ok(st.attempts, qi, ti, mem, b);
    lemma_bump2_ok(st.correct, qi, ti, mem, b);
    lemma_bump2_ok(st.bonus_attempts, qi, ti, mem, b);
    lemma_bump2_ok(st.bonus, qi, ti, mem, b);
    lemma_teams_ok_mono(teams, c, c + 1);
    match ecode_spec(col_view(cols, 10)) {
        EventCode::Correct => {
            if tn < teams.len() {
                let t = teams[tn];
                assert(team_ok(t, c));
                let ai = apos_from(t.actives, name, 0);
                lemma_apos_bounds(t.actives, name, 0);
                let acts2 = if ai < 0 {
                    t.actives.push((name, 1, 0))
                } else {
                    t.actives.update(ai, (t.actives[ai].0, t.actives[ai].1 + 1, t.actives[ai].2))
                };
                assert(acts_ok(acts2, c + 1)) by {
                    assert(acts_ok(t.actives, c));
                    assert forall|j: int| 0 <= j < acts2.len() implies 0 <= (
                    #[trigger] acts2[j]).1 <= c + 1 && 0 <= acts2[j].2 <= c + 1 by {
                        if j < t.actives.len() {
                            assert(0 <= t.actives[j].1 <= c && 0 <= t.actives[j].2 <= c);
                        }
                    }
                }
                let newt = score_step(st, teams, cols, rc_round, rc_room, qmap, qnames).1[tn as int];
                assert(newt.actives == acts2);
                assert(team_ok(newt, c + 1));
                lemma_teams_ok_update(teams, c + 1, tn, newt);
            } else {
                lemma_teams_ok_push(teams, c + 1, synth_team(name));
            }
        },
        EventCode::Incorrect => {
            if tn < teams.len() {
                let t = teams[tn];
                assert(team_ok(t, c));
                let ai = apos_from(t.actives, name, 0);
                lemma_apos_bounds(t.actives, name, 0);
                let acts2 = if ai >= 0 {
                    t.actives.update(ai, (t.actives[ai].0, t.actives[ai].1, t.actives[ai].2 + 1))
                } else {
                    t.actives.push((name, 0, 1))
                };
                assert(acts_ok(acts2, c + 1)) by {
                    assert(acts_ok(t.actives, c));
                    assert forall|j: int| 0 <= j < acts2.len() implies 0 <= (
                    #[trigger] acts2[j]).1 <= c + 1 && 0 <= acts2[j].2 <= c + 1 by {
                        if j < t.actives.len() {
                            assert(0 <= t.actives[j].1 <= c && 0 <= t.actives[j].2 <= c);
                        }
                    }
                }
                let newt = score_step(st, teams, cols, rc_round, rc_room, qmap, qnames).1[tn as int];
                assert(newt.actives == acts2);
                assert(team_ok(newt, c + 1));
                lemma_teams_ok_update(teams, c + 1, tn, newt);
            } else {
                lemma_teams_ok_push(teams, c + 1, synth_team(name));
            }
        },
        EventCode::BonusCorrect => {
            let mid = if tn < teams.len() {
                teams.update(tn, TeamModel { score: teams[tn].score + 10, ..teams[tn] })
            } else {
                teams.push(synth_team(name))
            };
            if tn < teams.len() {
                assert(team_ok(teams[tn], c));
                assert(team_ok(mid[tn as int], c + 1));
                lemma_teams_ok_update(teams, c + 1, tn, mid[tn as int]);
            } else {
                lemma_teams_ok_push(teams, c + 1, synth_team(name));
            }
            assert(teams_ok(mid, c + 1));
            if !any_team_tracks(mid, name) && tn < mid.len() {
                let t = mid[tn as int];
                assert(team_ok(t, c + 1));
                let t2 = TeamModel { actives: t.actives.push((name, 0, 0)), ..t };
                assert(acts_ok(t2.actives, c + 1)) by {
                    assert forall|j: int| 0 <= j < t2.actives.len() implies 0 <= (
                    #[trigger] t2.actives[j]).1 <= c + 1 && 0 <= t2.actives[j].2 <= c + 1 by {
                        if j < t.actives.len() {
                            assert(0 <= t.actives[j].1 <= c + 1 && 0 <= t.actives[j].2 <= c + 1);
                        }
                    }
                }
                lemma_teams_ok_update(mid, c + 1, tn, t2);
            }
        },
        EventCode::BonusIncorrect => {
        },
        EventCode::TeamName => {
            if teams.len() <= tn {
                lemma_teams_ok_push(teams, c + 1, synth_team(name));
            } else {
                lemma_teams_ok_update(teams, c + 1, tn, synth_team(name));
            }
        },
        _ => {
        },
    }
}

proof fn lemma_apos_bounds(acts: Seq<(Seq<char>, int, int)>, name: Seq<char>, i: int)
    ensures
        apos_from(acts, name, i) == -1 || (i <= apos_from(acts, name, i) < acts.len()
            && acts[apos_from(acts, name, i)].0 == name),
    decreases acts.len() - i,
{
    if 0 <= i < acts.len() && acts[i].0 != name {
        lemma_apos_bounds(acts, name, i + 1);
    }
}

proof fn lemma_teams_ok_mono(teams: Seq<TeamModel>, c: int, c2: int)
    requires
        teams_ok(teams, c),
        c <= c2,
        c >= 0,
    ensures
        teams_ok(teams, c2),
{
    assert forall|i: int| 0 <= i < teams.len() implies team_ok(#[trigger] teams[i], c2) by {
        assert(team_ok(teams[i], c));
        vstd::arithmetic::mul::lemma_mul_inequality(c, c2, 40);
    }
}

proof fn lemma_teams_ok_update(teams: Seq<TeamModel>, c: int, tn: int, t: TeamModel)
    requires
        teams_ok(teams, c),
        0 <= tn < teams.len(),
        team_ok(t, c),
    ensures
        teams_ok(teams.update(tn, t), c),
{
    assert forall|i: int| 0 <= i < teams.update(tn, t).len() implies team_ok(
        #[trigger] teams.update(tn, t)[i],
        c,
    ) by {
        if i != tn {
            assert(teams.update(tn, t)[i] == teams[i]);
            assert(team_ok(teams[i], c));
        }
    }
}

proof fn lemma_teams_ok_push(teams: Seq<TeamModel>, c: int, t: TeamModel)
    requires
        teams_ok(teams, c),
        team_ok(t, c),
    ensures
        teams_ok(teams.push(t), c),
{
    assert forall|i: int| 0 <= i < teams.push(t).len() implies team_ok(
        #[trigger] teams.push(t)[i],
        c,
    ) by {
        if i < teams.len() {
            assert(teams.push(t)[i] == teams[i]);
            assert(team_ok(teams[i], c));
        } else {
            assert(teams.push(t)[i] == t);
        }
    }
}

/// Position of the first quizzer of this name in the confirmed list, or 0.
fn find_quizzer_index(qnames: &Vec<(String, String)>, name: &str) -> (r: usize)
    ensures
        r as int == qpos_from(crate::reconstruct::pairs_view(qnames@), name@, 0),
        r as int <= qnames@.len(),
{
    let ghost qv = crate::reconstruct::pairs_view(qnames@);
    let mut i: usize = 0;
    while i < qnames.len()
        invariant
            i <= qnames@.len(),
            qv == crate::reconstruct::pairs_view(qnames@),
            qpos_from(qv, name@, 0) == qpos_from(qv, name@, i as int),
        decreases qnames@.len() - i,
    {
        if str_eq(qnames[i].0.as_str(), name) {
            assert(qv[i as int].0 == name@);
            return i;
        }
        assert(qv[i as int].0 != name@);
        i += 1;
    }
    0
}

/// Position of the first ledger entry of this name, if any.
fn active_pos_exec(acts: &Vec<(String, u32, u32)>, name: &str) -> (r: Option<usize>)
    ensures
        (match r {
            Some(j) => apos_from(actives_view(acts@), name@, 0) == j as int && (j as int)
                < acts@.len(),
            None => apos_from(actives_view(acts@), name@, 0) == -1,
        }),
{
    let ghost av = actives_view(acts@);
    let mut i: usize = 0;
    while i < acts.len()
        invariant
            i <= acts@.len(),
            av == actives_view(acts@),
            apos_from(av, name@, 0) == apos_from(av, name@, i as int),
        decreases acts@.len() - i,
    {
        if str_eq(acts[i].0.as_str(), name) {
            assert(av[i as int].0 == name@);
            return Some(i);
        }
        assert(av[i as int].0 != name@);
        i += 1;
    }
    None
}

/// How many ledger entries have a positive correct count.
fn count_active_exec(acts: &Vec<(String, u32, u32)>) -> (r: usize)
    ensures
        r as int == count_active(actives_view(acts@), acts@.len() as int),
{
    let ghost av = actives_view(acts@);
    let mut cnt: usize = 0;
    let mut i: usize = 0;
    while i < acts.len()
        invariant
            i <= acts@.len(),
            av == actives_view(acts@),
            cnt as int == count_active(av, i as int),
            cnt <= i,
        decreases acts@.len() - i,
    {
        if acts[i].1 > 0 {
            assert(av[i as int].1 > 0);
            cnt += 1;
        } else {
            assert(!(av[i as int].1 > 0));
        }
        i += 1;
    }
    cnt
}

/// Whether any team's ledger holds an entry of this name.
fn any_team_tracks_exec(teams: &Vec<TeamStat>, name: &str) -> (r: bool)
    ensures
        r == any_team_tracks(teams_model(teams@), name@),
{
    let ghost tv = teams_model(teams@);
    let mut i: usize = 0;
    while i < teams.len()
        invariant
            i <= teams@.len(),
            tv == teams_model(teams@),
            forall|k: int| 0 <= k < i ==> apos_from(tv[k].actives, name@, 0) == -1,
        decreases teams@.len() - i,
    {
        assert(tv[i as int].actives == actives_view(teams@[i as int].active_quizzers@));
        match active_pos_exec(&teams[i].active_quizzers, name) {
            Some(_) => {
                assert(apos_from(tv[i as int].actives, name@, 0) >= 0);
                return true;
            },
            None => {},
        }
        i += 1;
    }
    false
}

/// Add one to a table cell, when it is in range.
fn bump_exec(tbl: &mut Vec<Vec<u32>>, qi: usize, j: usize)
    requires
        tbl_ok(tbl_model(old(tbl)@), u32::MAX as int - 1),
    ensures
        tbl_model(final(tbl)@) == bump(tbl_model(old(tbl)@), qi as int, j as int),
{
    let ghost tv = tbl_model(tbl@);
    if qi < tbl.len() {
        let mut row = tbl.remove(qi);
        assert(tv[qi as int].len() == row@.len());
        if j < row.len() {
            let v = row[j];
            assert(v as int == tv[qi as int][j as int]);
            assert(v < u32::MAX);
            crate::strutil::vec_set(&mut row, j, v + 1);
            tbl.insert(qi, row);
            proof {
                assert(tbl_model(tbl@) =~~= bump(tv, qi as int, j as int));
            }
        } else {
            tbl.insert(qi, row);
            proof {
                assert(tbl_model(tbl@) =~~= tv);
                assert(bump(tv, qi as int, j as int) == tv);
            }
        }
    } else {
        proof {
            assert(bump(tv, qi as int, j as int) == tv);
        }
    }
}

/// Add one to the category cell and, for a memory category, to the
/// aggregate cell.
fn bump2_exec(tbl: &mut Vec<Vec<u32>>, qi: usize, ti: usize, mem: bool)
    requires
        tbl_ok(tbl_model(old(tbl)@), u32::MAX as int - 2),
        ti < 9,
    ensures
        tbl_model(final(tbl)@) == bump2(tbl_model(old(tbl)@), qi as int, ti as int, mem),
{
    let ghost tv = tbl_model(tbl@);
    proof {
        lemma_bump_ok(tv, qi as int, ti as int, u32::MAX as int - 2);
    }
    bump_exec(tbl, qi, ti);
    if mem {
        bump_exec(tbl, qi, 8);
    }
}

/// Replay one scoring record against the tables, the missing-round list,
/// the warnings, and the round's team states.
#[verifier::loop_isolation(false)]
#[verifier::rlimit(100)]
fn score_step_exec(
    attempts: &mut Vec<Vec<u32>>,
    correct_answers: &mut Vec<Vec<u32>>,
    bonus_attempts: &mut Vec<Vec<u32>>,
    bonus: &mut Vec<Vec<u32>>,
    missing: &mut Vec<String>,
    warns: &mut Vec<String>,
    teams: &mut Vec<TeamStat>,
    rec: &Vec<String>,
    rc_round: &String,
    rc_room: &String,
    question_types: &Vec<(String, Vec<char>)>,
    quizzer_names: &Vec<(String, String)>,
    cbound: Ghost<int>,
)
    requires
        tbl_ok(tbl_model(old(attempts)@), u32::MAX as int - 2),
        tbl_ok(tbl_model(old(correct_answers)@), u32::MAX as int - 2),
        tbl_ok(tbl_model(old(bonus_attempts)@), u32::MAX as int - 2),
        tbl_ok(tbl_model(old(bonus)@), u32::MAX as int - 2),
        teams_ok(teams_model(old(teams)@), cbound@),
        0 <= cbound@,
        40 * cbound@ + 40 <= i32::MAX as int,
        cbound@ + 1 <= u32::MAX as int,
    ensures
        ({
            let st0 = ScoreState {
                attempts: tbl_model(old(attempts)@),
                correct: tbl_model(old(correct_answers)@),
                bonus_attempts: tbl_model(old(bonus_attempts)@),
                bonus: tbl_model(old(bonus)@),
                missing: strs_view(old(missing)@),
                warns: strs_view(old(warns)@),
            };
            let res = score_step(
                st0,
                teams_model(old(teams)@),
                strs_view(rec@),
                rc_round@,
                rc_room@,
                qmap_view(question_types@),
                crate::reconstruct::pairs_view(quizzer_names@),
            );
            tbl_model(final(attempts)@) == res.0.attempts && tbl_model(final(correct_answers)@)
                == res.0.correct && tbl_model(final(bonus_attempts)@) == res.0.bonus_attempts
                && tbl_model(final(bonus)@) == res.0.bonus && strs_view(final(missing)@)
                == res.0.missing && strs_view(final(warns)@) == res.0.warns && teams_model(
                final(teams)@,
            ) == res.1
        }),
{
    let ghost st0 = ScoreState {
        attempts: tbl_model(attempts@),
        correct: tbl_model(correct_answers@),
        bonus_attempts: tbl_model(bonus_attempts@),
        bonus: tbl_model(bonus@),
        missing: strs_view(missing@),
        warns: strs_view(warns@),
    };
    let ghost tv0 = teams_model(teams@);
    let ghost cols = strs_view(rec@);
    let ghost qmv = qmap_view(question_types@);
    let ghost qnv = crate::reconstruct::pairs_view(quizzer_names@);
    let ghost res = score_step(st0, tv0, cols, rc_round@, rc_room@, qmv, qnv);
    let ecode = parse_event_code(col_str(rec, 10));
    let team_number = parse_usize_or_zero(col_str(rec, 8));
    let name = col_str(rec, 7);
    let tq = trim_quotes(col_str(rec, 5));
    let q1 = parse_usize_or_zero(tq.as_str());
    let question_number: usize = if q1 == 0 {
        0
    } else {
        q1 - 1
    };
    let quizzer_index = find_quizzer_index(quizzer_names, name);
    let ghost qnum = {
        let v = parse_usize_spec(trim_quotes_spec(col_view(cols, 5)));
        if v == 0 {
            0int
        } else {
            v - 1
        }
    };
    proof {
        assert(question_number as int == qnum);
    }
    let round_idx = qm_find_exec(question_types, rc_round.as_str());
    proof {
        crate::questions::lemma_qm_find_bounds(qmv, rc_round@, 0);
    }
    if round_idx.is_none() {
        if !crate::strutil::vec_contains_str(missing, rc_round.as_str()) {
            let ghost m0 = strs_view(missing@);
            missing.push(rc_round.clone());
            proof {
                assert(strs_view(missing@) =~~= m0.push(rc_round@));
            }
        }
    }
    let ghost missing1 = if !qm_has(qmv, rc_round@) && !names_contain(st0.missing, rc_round@) {
        st0.missing.push(rc_round@)
    } else {
        st0.missing
    };
    proof {
        assert(strs_view(missing@) == missing1);
    }
    let qt: char = match round_idx {
        None => '/',
        Some(jj) => {
            let row = &question_types[jj].1;
            proof {
                assert(qmv[jj as int].1 == row@);
                assert(row@ == qm_get(qmv, rc_round@));
            }
            if question_number < row.len() {
                row[question_number]
            } else {
                'G'
            }
        },
    };
    proof {
        assert(qt == resolve_qt(qmv, rc_round@, qnum));
    }
    let mem = qt == 'Q' || qt == 'R' || qt == 'V';
    let ti = question_type_index(qt);
    match ecode {
        EventCode::Correct => {
            bump2_exec(attempts, quizzer_index, ti, mem);
            bump2_exec(correct_answers, quizzer_index, ti, mem);
            if team_number < teams.len() {
                proof {
                    assert(team_ok(tv0[team_number as int], cbound@));
                }
                let t = teams.remove(team_number);
                let TeamStat { team_name, team_score, active_quizzers } = t;
                let mut team_score = team_score;
                let mut active_quizzers = active_quizzers;
                let ghost av0 = actives_view(active_quizzers@);
                proof {
                    assert(tv0[team_number as int] == TeamModel {
                        name: team_name@,
                        score: team_score as int,
                        actives: av0,
                    });
                }
                team_score = team_score + 20;
                match active_pos_exec(&active_quizzers, name) {
                    None => {
                        active_quizzers.push((String::from_str(name), 1, 0));
                        proof {
                            assert(actives_view(active_quizzers@) =~~= av0.push((name@, 1int, 0int)));
                        }
                    },
                    Some(ai) => {
                        let entry = active_quizzers.remove(ai);
                        let (n0, c0, e0) = entry;
                        proof {
                            assert(av0[ai as int] == (n0@, c0 as int, e0 as int));
                            assert(acts_ok(av0, cbound@));
                            assert(c0 as int <= cbound@);
                        }
                        let c1 = c0 + 1;
                        if c1 == 4 && e0 == 0 {
                            team_score = team_score + 10;
                        }
                        active_quizzers.insert(ai, (n0, c1, e0));
                        proof {
                            assert(actives_view(active_quizzers@) =~~= av0.update(
                                ai as int,
                                (av0[ai as int].0, av0[ai as int].1 + 1, av0[ai as int].2),
                            ));
                        }
                    },
                }
                let cnt = count_active_exec(&active_quizzers);
                if cnt >= 3 {
                    match active_pos_exec(&active_quizzers, name) {
                        Some(ai2) => {
                            if active_quizzers[ai2].1 == 1 {
                                team_score = team_score + 10;
                            }
                        },
                        None => {},
                    }
                }
                teams.insert(team_number, TeamStat { team_name, team_score, active_quizzers });
                proof {
                    assert(teams_model(teams@) =~~= res.1);
                }
            } else {
                teams.push(
                    TeamStat {
                        team_name: String::from_str(name),
                        team_score: 0,
                        active_quizzers: Vec::new(),
                    },
                );
                push_team_added_warn(warns, team_number, rc_room, rc_round);
                proof {
                    assert(teams_model(teams@) =~~= tv0.push(synth_team(name@)));
                    assert(teams_model(teams@) =~~= res.1);
                }
            }
        },
        EventCode::Incorrect => {
            bump2_exec(attempts, quizzer_index, ti, mem);
            if team_number < teams.len() {
                proof {
                    assert(team_ok(tv0[team_number as int], cbound@));
                }
                let t = teams.remove(team_number);
                let TeamStat { team_name, team_score, active_quizzers } = t;
                let mut team_score = team_score;
                let mut active_quizzers = active_quizzers;
                let ghost av0 = actives_view(active_quizzers@);
                proof {
                    assert(tv0[team_number as int] == TeamModel {
                        name: team_name@,
                        score: team_score as int,
                        actives: av0,
                    });
                }
                match active_pos_exec(&active_quizzers, name) {
                    Some(ai) => {
                        let entry = active_quizzers.remove(ai);
                        let (n0, c0, e0) = entry;
                        proof {
                            assert(av0[ai as int] == (n0@, c0 as int, e0 as int));
                            assert(acts_ok(av0, cbound@));
                            assert(e0 as int <= cbound@);
                        }
                        let e1 = e0 + 1;
                        if e1 == 3 || question_number >= 15 {
                            team_score = team_score - 10;
                        }
                        active_quizzers.insert(ai, (n0, c0, e1));
                        proof {
                            assert(actives_view(active_quizzers@) =~~= av0.update(
                                ai as int,
                                (av0[ai as int].0, av0[ai as int].1, av0[ai as int].2 + 1),
                            ));
                        }
                    },
                    None => {
                        if question_number >= 15 {
                            team_score = team_score - 10;
                        }
                        active_quizzers.push((String::from_str(name), 0, 1));
                        proof {
                            assert(actives_view(active_quizzers@) =~~= av0.push((name@, 0int, 1int)));
                        }
                    },
                }
                teams.insert(team_number, TeamStat { team_name, team_score, active_quizzers });
                proof {
                    assert(teams_model(teams@) =~~= res.1);
                }
            } else {
                teams.push(
                    TeamStat {
                        team_name: String::from_str(name),
                        team_score: 0,
                        active_quizzers: Vec::new(),
                    },
                );
                push_team_added_warn(warns, team_number, rc_room, rc_round);
                proof {
                    assert(teams_model(teams@) =~~= res.1);
                }
            }
        },
        EventCode::BonusCorrect => {
            bump2_exec(bonus_attempts, quizzer_index, ti, mem);
            bump2_exec(bonus, quizzer_index, ti, mem);
            if team_number < teams.len() {
                proof {
                    assert(team_ok(tv0[team_number as int], cbound@));
                }
                let t = teams.remove(team_number);
                let TeamStat { team_name, team_score, active_quizzers } = t;
                proof {
                    assert(tv0[team_number as int] == TeamModel {
                        name: team_name@,
                        score: team_score as int,
                        actives: actives_view(active_quizzers@),
                    });
                }
                let team_score = team_score + 10;
                teams.insert(team_number, TeamStat { team_name, team_score, active_quizzers });
            } else {
                teams.push(
                    TeamStat {
                        team_name: String::from_str(name),
                        team_score: 0,
                        active_quizzers: Vec::new(),
                    },
                );
                push_team_added_warn(warns, team_number, rc_room, rc_round);
            }
            let ghost mid = if parse_usize_spec(col_view(cols, 8)) < tv0.len() {
                tv0.update(
                    team_number as int,
                    TeamModel {
                        score: tv0[team_number as int].score + 10,
                        ..tv0[team_number as int]
                    },
                )
            } else {
                tv0.push(synth_team(name@))
            };
            proof {
                assert(teams_model(teams@) =~~= mid);
            }
            if !any_team_tracks_exec(teams, name) && team_number < teams.len() {
                let t = teams.remove(team_number);
                let TeamStat { team_name, team_score, mut active_quizzers } = t;
                let ghost avm = actives_view(active_quizzers@);
                proof {
                    assert(mid[team_number as int] == TeamModel {
                        name: team_name@,
                        score: team_score as int,
                        actives: avm,
                    });
                }
                active_quizzers.push((String::from_str(name), 0, 0));
                proof {
                    assert(actives_view(active_quizzers@) =~~= avm.push((name@, 0int, 0int)));
                }
                teams.insert(team_number, TeamStat { team_name, team_score, active_quizzers });
            }
            proof {
                assert(teams_model(teams@) =~~= res.1);
            }
        },
        EventCode::BonusIncorrect => {
            bump2_exec(bonus_attempts, quizzer_index, ti, mem);
        },
        EventCode::TeamName => {
            if teams.len() <= team_number {
                teams.push(
                    TeamStat {
                        team_name: String::from_str(name),
                        team_score: 0,
                        active_quizzers: Vec::new(),
                    },
                );
                proof {
                    assert(teams_model(teams@) =~~= tv0.push(synth_team(name@)));
                }
            } else {
                let _dropped = teams.remove(team_number);
                teams.insert(
                    team_number,
                    TeamStat {
                        team_name: String::from_str(name),
                        team_score: 0,
                        active_quizzers: Vec::new(),
                    },
                );
                proof {
                    assert(teams_model(teams@) =~~= tv0.update(team_number as int, synth_team(name@)));
                }
            }
        },
        _ => {},
    }
    proof {
        assert(tbl_model(attempts@) == res.0.attempts);
        assert(tbl_model(correct_answers@) == res.0.correct);
        assert(tbl_model(bonus_attempts@) == res.0.bonus_attempts);
        assert(tbl_model(bonus@) == res.0.bonus);
        assert(strs_view(missing@) == res.0.missing);
        assert(strs_view(warns@) == res.0.warns);
        assert(teams_model(teams@) == res.1);
    }
}

/// Record the warning for a team slot reference beyond the roster.
fn push_team_added_warn(warns: &mut Vec<String>, tn: usize, rc_room: &String, rc_round: &String)
    ensures
        strs_view(final(warns)@) == strs_view(old(warns)@).push(
            team_added_warn(tn as int, rc_room@, rc_round@),
        ),
{
    let mut msg = String::from_str("Warning: Team number ");
    let num = usize_to_string(tn);
    msg.append(num.as_str());
    msg.append(" added mid-round in room ");
    msg.append(rc_room.as_str());
    msg.append(" round ");
    msg.append(rc_round.as_str());
    msg.append(". This should not happen.");
    proof {
        assert(msg@ =~= team_added_warn(tn as int, rc_room@, rc_round@));
    }
    let ghost w0 = strs_view(warns@);
    warns.push(msg);
    proof {
        assert(strs_view(warns@) =~~= w0.push(team_added_warn(tn as int, rc_room@, rc_round@)));
    }
}

/// The per-round fold keeps every counter within its grown bound.
pub proof fn lemma_records_ok(
    st: ScoreState,
    teams: Seq<TeamModel>,
    recs: Seq<Seq<Seq<char>>>,
    k: int,
    rc_round: Seq<char>,
    rc_room: Seq<char>,
    qmap: Seq<(Seq<char>, Seq<char>)>,
    qnames: Seq<(Seq<char>, Seq<char>)>,
    b: int,
    c: int,
)
    requires
        tables_ok(st, b),
        teams_ok(teams, c),
        b >= 0,
        c >= 0,
        k >= 0,
    ensures
        tables_ok(score_records(st, teams, recs, k, rc_round, rc_room, qmap, qnames).0, b + 2 * k),
        teams_ok(score_records(st, teams, recs, k, rc_round, rc_room, qmap, qnames).1, c + k),
    decreases k,
{
    if k > 0 {
        lemma_records_ok(st, teams, recs, k - 1, rc_round, rc_room, qmap, qnames, b, c);
        let prev = score_records(st, teams, recs, k - 1, rc_round, rc_room, qmap, qnames);
        lemma_step_ok(
            prev.0,
            prev.1,
            recs[k - 1],
            rc_round,
            rc_room,
            qmap,
            qnames,
            b + 2 * (k - 1),
            c + k - 1,
        );
        assert(tables_ok(score_records(st, teams, recs, k, rc_round, rc_room, qmap, qnames).0, b + 2
            * k));
    }
}

proof fn lemma_total_records_nonneg(reg: Seq<(Seq<char>, RecColView)>, k: int)
    ensures
        total_records(reg, k) >= 0,
    decreases k,
{
    if k > 0 {
        lemma_total_records_nonneg(reg, k - 1);
    }
}

proof fn lemma_total_records_mono(reg: Seq<(Seq<char>, RecColView)>, a: int, b: int)
    requires
        a <= b,
    ensures
        total_records(reg, a) <= total_records(reg, b),
    decreases b - a,
{
    if a < b {
        lemma_total_records_mono(reg, a, b - 1);
    }
}

proof fn lemma_tbl_ok_mono(t: Seq<Seq<int>>, b: int, b2: int)
    requires
        tbl_ok(t, b),
        b <= b2,
    ensures
        tbl_ok(t, b2),
{
    assert forall|i: int| 0 <= i < t.len() implies (#[trigger] t[i]).len() == 9 && (forall|j: int|
        0 <= j < 9 ==> 0 <= #[trigger] t[i][j] <= b2) by {
        assert(t[i].len() == 9);
        assert(forall|j: int| 0 <= j < 9 ==> 0 <= #[trigger] t[i][j] <= b);
    }
}

/// Replay every confirmed round of the registry, in order: the four
/// per-quizzer statistic tables are updated in place, one `Round` with the
/// final team scores is appended per registry entry, and the warnings for
/// rounds with no question set are appended at the end.
#[verifier::loop_isolation(false)]
#[verifier::rlimit(100)]
pub fn update_arrays(
    warns: &mut Vec<String>,
    records: Vec<(String, RecordCollection)>,
    quizzer_names: &Vec<(String, String)>,
    question_types: Vec<(String, Vec<char>)>,
    attempts: &mut Vec<Vec<u32>>,
    correct_answers: &mut Vec<Vec<u32>>,
    bonus_attempts: &mut Vec<Vec<u32>>,
    bonus: &mut Vec<Vec<u32>>,
    rounds: &mut Vec<Round>,
)
    requires
        total_records(reg_view(records@), records@.len() as int) <= max_total_records(),
        tbl_ok(tbl_model(old(attempts)@), u32::MAX as int - 2 * max_total_records()),
        tbl_ok(tbl_model(old(correct_answers)@), u32::MAX as int - 2 * max_total_records()),
        tbl_ok(tbl_model(old(bonus_attempts)@), u32::MAX as int - 2 * max_total_records()),
        tbl_ok(tbl_model(old(bonus)@), u32::MAX as int - 2 * max_total_records()),
    ensures
        ({
            let st0 = ScoreState {
                attempts: tbl_model(old(attempts)@),
                correct: tbl_model(old(correct_answers)@),
                bonus_attempts: tbl_model(old(bonus_attempts)@),
                bonus: tbl_model(old(bonus)@),
                missing: Seq::empty(),
                warns: strs_view(old(warns)@),
            };
            let res = score_all(
                reg_view(records@),
                records@.len() as int,
                st0,
                qmap_view(question_types@),
                crate::reconstruct::pairs_view(quizzer_names@),
            );
            tbl_model(final(attempts)@) == res.0.attempts && tbl_model(final(correct_answers)@)
                == res.0.correct && tbl_model(final(bonus_attempts)@) == res.0.bonus_attempts
                && tbl_model(final(bonus)@) == res.0.bonus && rounds_view(final(rounds)@)
                == rounds_view(old(rounds)@) + res.1 && strs_view(final(warns)@) == missing_warns(
                res.0.warns,
                res.0.missing,
            )
        }),
{
    let ghost regv = reg_view(records@);
    let ghost qmv = qmap_view(question_types@);
    let ghost qnv = crate::reconstruct::pairs_view(quizzer_names@);
    let ghost st0 = ScoreState {
        attempts: tbl_model(attempts@),
        correct: tbl_model(correct_answers@),
        bonus_attempts: tbl_model(bonus_attempts@),
        bonus: tbl_model(bonus@),
        missing: Seq::empty(),
        warns: strs_view(warns@),
    };
    let ghost base = u32::MAX as int - 2 * max_total_records();
    let mut missing: Vec<String> = Vec::new();
    let ghost r0 = rounds_view(rounds@);
    proof {
        assert(strs_view(missing@) =~~= Seq::<Seq<char>>::empty());
        assert(rounds_view(rounds@) =~~= r0 + score_all(regv, 0, st0, qmv, qnv).1);
    }
    let mut r: usize = 0;
    while r < records.len()
        invariant
            r <= records@.len(),
            regv == reg_view(records@),
            qmv == qmap_view(question_types@),
            qnv == crate::reconstruct::pairs_view(quizzer_names@),
            ({
                let cur = score_all(regv, r as int, st0, qmv, qnv);
                tbl_model(attempts@) == cur.0.attempts && tbl_model(correct_answers@)
                    == cur.0.correct && tbl_model(bonus_attempts@) == cur.0.bonus_attempts
                    && tbl_model(bonus@) == cur.0.bonus && strs_view(missing@) == cur.0.missing
                    && strs_view(warns@) == cur.0.warns && rounds_view(rounds@) == r0 + cur.1
            }),
            tbl_ok(tbl_model(attempts@), base + 2 * total_records(regv, r as int)),
            tbl_ok(tbl_model(correct_answers@), base + 2 * total_records(regv, r as int)),
            tbl_ok(tbl_model(bonus_attempts@), base + 2 * total_records(regv, r as int)),
            tbl_ok(tbl_model(bonus@), base + 2 * total_records(regv, r as int)),
        decreases records@.len() - r,
    {
        let ghost cur = score_all(regv, r as int, st0, qmv, qnv);
        let ghost rcm = regv[r as int].1;
        let rc = &records[r].1;
        proof {
            assert(rc_view(*rc) == rcm);
            lemma_total_records_nonneg(regv, r as int);
            lemma_total_records_mono(regv, r as int + 1, regv.len() as int);
            lemma_total_records_nonneg(regv, r as int + 1);
        }
        let mut teams: Vec<TeamStat> = Vec::new();
        proof {
            assert(teams_model(teams@) =~~= init_teams(rcm.teams).take(0));
        }
        let mut b: usize = 0;
        while b < rc.teams.len()
            invariant
                b <= rc.teams@.len(),
                rc_view(*rc) == rcm,
                teams_model(teams@) == init_teams(rcm.teams).take(b as int),
            decreases rc.teams@.len() - b,
        {
            let ghost tprev = teams_model(teams@);
            teams.push(
                TeamStat {
                    team_name: rc.teams[b].0.clone(),
                    team_score: 0,
                    active_quizzers: Vec::new(),
                },
            );
            proof {
                assert(rcm.teams[b as int].0 == rc.teams@[b as int].0@);
                assert(teams_model(teams@) =~~= tprev.push(
                    TeamModel {
                        name: rcm.teams[b as int].0,
                        score: 0,
                        actives: Seq::empty(),
                    },
                ));
                assert(teams_model(teams@) =~~= init_teams(rcm.teams).take(b as int + 1));
            }
            b += 1;
        }
        proof {
            assert(init_teams(rcm.teams).take(rcm.teams.len() as int) =~~= init_teams(rcm.teams));
            assert(teams_ok(teams_model(teams@), 0)) by {
                assert forall|i: int| 0 <= i < teams_model(teams@).len() implies team_ok(
                    #[trigger] teams_model(teams@)[i],
                    0,
                ) by {
                    assert(teams_model(teams@)[i] == init_teams(rcm.teams)[i]);
                }
            }
        }
        let mut i: usize = 0;
        while i < rc.records.len()
            invariant
                i <= rc.records@.len(),
                rc_view(*rc) == rcm,
                regv == reg_view(records@),
                qmv == qmap_view(question_types@),
                qnv == crate::reconstruct::pairs_view(quizzer_names@),
                ({
                    let mid = score_records(
                        cur.0,
                        init_teams(rcm.teams),
                        rcm.records,
                        i as int,
                        rcm.round,
                        rcm.room,
                        qmv,
                        qnv,
                    );
                    tbl_model(attempts@) == mid.0.attempts && tbl_model(correct_answers@)
                        == mid.0.correct && tbl_model(bonus_attempts@) == mid.0.bonus_attempts
                        && tbl_model(bonus@) == mid.0.bonus && strs_view(missing@) == mid.0.missing
                        && strs_view(warns@) == mid.0.warns && teams_model(teams@) == mid.1
                }),
                tbl_ok(
                    tbl_model(attempts@),
                    base + 2 * total_records(regv, r as int) + 2 * i,
                ),
                tbl_ok(
                    tbl_model(correct_answers@),
                    base + 2 * total_records(regv, r as int) + 2 * i,
                ),
                tbl_ok(
                    tbl_model(bonus_attempts@),
                    base + 2 * total_records(regv, r as int) + 2 * i,
                ),
                tbl_ok(
                    tbl_model(bonus@),
                    base + 2 * total_records(regv, r as int) + 2 * i,
                ),
                teams_ok(teams_model(teams@), i as int),
            decreases rc.records@.len() - i,
        {
            let ghost mid = score_records(
                cur.0,
                init_teams(rcm.teams),
                rcm.records,
                i as int,
                rcm.round,
                rcm.room,
                qmv,
                qnv,
            );
            proof {
                assert(total_records(regv, r as int + 1) == total_records(regv, r as int)
                    + rcm.records.len());
                assert(total_records(regv, r as int) + i < total_records(regv, regv.len() as int));
                lemma_tbl_ok_mono(
                    tbl_model(attempts@),
                    base + 2 * total_records(regv, r as int) + 2 * i,
                    u32::MAX as int - 2,
                );
                lemma_tbl_ok_mono(
                    tbl_model(correct_answers@),
                    base + 2 * total_records(regv, r as int) + 2 * i,
                    u32::MAX as int - 2,
                );
                lemma_tbl_ok_mono(
                    tbl_model(bonus_attempts@),
                    base + 2 * total_records(regv, r as int) + 2 * i,
                    u32::MAX as int - 2,
                );
                lemma_tbl_ok_mono(
                    tbl_model(bonus@),
                    base + 2 * total_records(regv, r as int) + 2 * i,
                    u32::MAX as int - 2,
                );
                assert(40 * (i as int) + 40 <= i32::MAX as int) by {
                    assert(i as int <= max_total_records());
                }
            }
            let rec = &rc.records[i];
            proof {
                assert(strs_view(rec@) == rcm.records[i as int]);
            }
            score_step_exec(
                attempts,
                correct_answers,
                bonus_attempts,
                bonus,
                &mut missing,
                warns,
                &mut teams,
                rec,
                &rc.round,
                &rc.room,
                &question_types,
                quizzer_names,
                Ghost(i as int),
            );
            proof {
                let mid2 = score_records(
                    cur.0,
                    init_teams(rcm.teams),
                    rcm.records,
                    i as int + 1,
                    rcm.round,
                    rcm.room,
                    qmv,
                    qnv,
                );
                assert(mid2 == score_step(mid.0, mid.1, rcm.records[i as int], rcm.round, rcm.room, qmv, qnv));
                lemma_step_ok(mid.0, mid.1, rcm.records[i as int], rcm.round, rcm.room, qmv, qnv, base
                    + 2 * total_records(regv, r as int) + 2 * i, i as int);
            }
            i += 1;
        }
        let mut names: Vec<String> = Vec::new();
        let mut b2: usize = 0;
        while b2 < rc.teams.len()
            invariant
                b2 <= rc.teams@.len(),
                rc_view(*rc) == rcm,
                strs_view(names@) == Seq::new(rcm.teams.len(), |k: int| rcm.teams[k].0).take(
                    b2 as int,
                ),
            decreases rc.teams@.len() - b2,
        {
            let ghost nprev = strs_view(names@);
            names.push(rc.teams[b2].0.clone());
            proof {
                assert(strs_view(names@) =~~= nprev.push(rcm.teams[b2 as int].0));
                assert(strs_view(names@) =~~= Seq::new(rcm.teams.len(), |k: int| rcm.teams[k].0).take(
                    b2 as int + 1,
                ));
            }
            b2 += 1;
        }
        let mut scores: Vec<i32> = Vec::new();
        let mut b3: usize = 0;
        while b3 < teams.len()
            invariant
                b3 <= teams@.len(),
                scores_view(scores@) == Seq::new(teams_model(teams@).len(), |k: int|
                    teams_model(teams@)[k].score).take(b3 as int),
            decreases teams@.len() - b3,
        {
            let ghost sprev = scores_view(scores@);
            let sc = teams[b3].team_score;
            proof {
                assert(teams_model(teams@)[b3 as int].score == sc as int);
            }
            scores.push(sc);
            proof {
                assert(scores_view(scores@) =~~= sprev.push(sc as int));
                assert(scores_view(scores@) =~~= Seq::new(teams_model(teams@).len(), |k: int|
                    teams_model(teams@)[k].score).take(b3 as int + 1));
            }
            b3 += 1;
        }
        let newround = Round {
            round_number: rc.round.clone(),
            room_number: rc.room.clone(),
            team_names: names,
            team_scores: scores,
        };
        let ghost rprev = rounds_view(rounds@);
        rounds.push(newround);
        proof {
            let sr = score_round(cur.0, rcm, qmv, qnv);
            assert(Seq::new(rcm.teams.len(), |k: int| rcm.teams[k].0).take(rcm.teams.len() as int)
                =~~= sr.1.names);
            assert(Seq::new(teams_model(teams@).len(), |k: int| teams_model(teams@)[k].score).take(
                teams_model(teams@).len() as int,
            ) =~~= sr.1.scores);
            assert(rounds_view(rounds@) =~~= rprev.push(sr.1));
            assert(score_all(regv, r as int + 1, st0, qmv, qnv).1 =~~= cur.1.push(sr.1));
            assert(rounds_view(rounds@) =~~= r0 + score_all(regv, r as int + 1, st0, qmv, qnv).1);
            lemma_tbl_ok_mono(
                tbl_model(attempts@),
                base + 2 * total_records(regv, r as int) + 2 * rcm.records.len(),
                base + 2 * total_records(regv, r as int + 1),
            );
            lemma_tbl_ok_mono(
                tbl_model(correct_answers@),
                base + 2 * total_records(regv, r as int) + 2 * rcm.records.len(),
                base + 2 * total_records(regv, r as int + 1),
            );
            lemma_tbl_ok_mono(
                tbl_model(bonus_attempts@),
                base + 2 * total_records(regv, r as int) + 2 * rcm.records.len(),
                base + 2 * total_records(regv, r as int + 1),
            );
            lemma_tbl_ok_mono(
                tbl_model(bonus@),
                base + 2 * total_records(regv, r as int) + 2 * rcm.records.len(),
                base + 2 * total_records(regv, r as int + 1),
            );
        }
        r += 1;
    }
    let ghost res = score_all(regv, regv.len() as int, st0, qmv, qnv);
    if missing.len() > 0 {
        warns.push(
            String::from_str(
                "Warning: Some rounds are missing question sets! These questions will be treated as general!",
            ),
        );
        let mut msg = String::from_str("Skipped Rounds: [");
        let ghost mv = strs_view(missing@);
        let mut k: usize = 0;
        while k < missing.len()
            invariant
                k <= missing@.len(),
                mv == strs_view(missing@),
                msg@ == "Skipped Rounds: ["@ + skipped_list(mv, k as int),
            decreases missing@.len() - k,
        {
            if k > 0 {
                msg.append(", ");
            }
            msg.append("\"");
            msg.append(missing[k].as_str());
            msg.append("\"");
            proof {
                reveal_strlit(", ");
                reveal_strlit("\"");
                assert(msg@ =~= "Skipped Rounds: ["@ + skipped_list(mv, k as int + 1));
            }
            k += 1;
        }
        msg.append("]");
        proof {
            reveal_strlit("]");
            assert(msg@ =~= "Skipped Rounds: ["@ + skipped_list(mv, mv.len() as int) + seq![']']);
        }
        warns.push(msg);
        warns.push(
            String::from_str(
                "Round names must match between QuizMachine and the question set files!",
            ),
        );
        proof {
            assert(strs_view(warns@) =~~= missing_warns(res.0.warns, res.0.missing));
        }
    } else {
        proof {
            assert(res.0.missing.len() == 0);
            assert(strs_view(warns@) =~~= missing_warns(res.0.warns, res.0.missing));
        }
    }
}

} // verus!
