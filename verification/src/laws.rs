//! Proved laws of the scoring and ranking engines.
use vstd::prelude::*;
use crate::strutil::trim_quotes_spec;
use crate::strutil::parse_usize_spec;
use crate::scoring::ScoreState;
use crate::scoring::TeamModel;
use crate::scoring::score_step;
use crate::scoring::score_records;
use crate::scoring::score_all;
use crate::scoring::apos_from;
use crate::scoring::count_active;
use crate::scoring::RoundModel;
use crate::ranking::scored;
use crate::ranking::wins_of;
use crate::ranking::losses_of;
use crate::ranking::total_of;
use crate::ranking::pair_sum;
use crate::ranking::row_wins;
use crate::ranking::row_losses;
use crate::ranking::lt_fn;
use crate::ranking::gt_fn;
use crate::ranking::wins_fn;
use crate::ranking::losses_fn;
use crate::ranking::total_fn;
use crate::reconstruct::col_view;
use crate::reconstruct::ecode_spec;
use crate::reconstruct::EventCode;

verus! {

/// Scoring is deterministic: the same state, records, question-type map
/// and quizzer list always yield the same tables, warnings and scores.
pub proof fn lemma_scoring_deterministic(
    reg1: Seq<(Seq<char>, crate::reconstruct::RecColView)>,
    reg2: Seq<(Seq<char>, crate::reconstruct::RecColView)>,
    k: int,
    st1: ScoreState,
    st2: ScoreState,
    qmap1: Seq<(Seq<char>, Seq<char>)>,
    qmap2: Seq<(Seq<char>, Seq<char>)>,
    qnames1: Seq<(Seq<char>, Seq<char>)>,
    qnames2: Seq<(Seq<char>, Seq<char>)>,
)
    requires
        reg1 == reg2,
        st1 == st2,
        qmap1 == qmap2,
        qnames1 == qnames2,
    ensures
        score_all(reg1, k, st1, qmap1, qnames1) == score_all(reg2, k, st2, qmap2, qnames2),
{
}

/// An incorrect answer at 1-based question number 16 or later always costs
/// the team 10 points, even when it is the quizzer's first error.
pub proof fn lemma_incorrect_at_sixteen_deducts(
    st: ScoreState,
    teams: Seq<TeamModel>,
    cols: Seq<Seq<char>>,
    rc_round: Seq<char>,
    rc_room: Seq<char>,
    qmap: Seq<(Seq<char>, Seq<char>)>,
    qnames: Seq<(Seq<char>, Seq<char>)>,
)
    requires
        ecode_spec(col_view(cols, 10)) == EventCode::Incorrect,
        parse_usize_spec(trim_quotes_spec(col_view(cols, 5))) >= 16,
        parse_usize_spec(col_view(cols, 8)) < teams.len(),
    ensures
        ({
            let tn = parse_usize_spec(col_view(cols, 8));
            let res = score_step(st, teams, cols, rc_round, rc_room, qmap, qnames);
            res.1.len() == teams.len() && res.1[tn].score == teams[tn].score - 10
        }),
{
}

/// Below question 16, exactly the third incorrect answer by a quizzer
/// deducts 10 points; the first, second, and any past the third deduct
/// nothing.
pub proof fn lemma_third_incorrect_deducts(
    st: ScoreState,
    teams: Seq<TeamModel>,
    cols: Seq<Seq<char>>,
    rc_round: Seq<char>,
    rc_room: Seq<char>,
    qmap: Seq<(Seq<char>, Seq<char>)>,
    qnames: Seq<(Seq<char>, Seq<char>)>,
)
    requires
        ecode_spec(col_view(cols, 10)) == EventCode::Incorrect,
        1 <= parse_usize_spec(trim_quotes_spec(col_view(cols, 5))) <= 15,
        parse_usize_spec(col_view(cols, 8)) < teams.len(),
    ensures
        ({
            let tn = parse_usize_spec(col_view(cols, 8));
            let name = col_view(cols, 7);
            let ai = apos_from(teams[tn].actives, name, 0);
            let res = score_step(st, teams, cols, rc_round, rc_room, qmap, qnames);
            res.1.len() == teams.len() && res.1[tn].score == teams[tn].score - (if ai >= 0
                && teams[tn].actives[ai].2 + 1 == 3 {
                10int
            } else {
                0int
            })
        }),
{
}

/// Whether every record of the sequence is a correct tossup answer by
/// quizzer `q` against team slot `tn`.
pub open spec fn all_correct_by(recs: Seq<Seq<Seq<char>>>, q: Seq<char>, tn: int) -> bool {
    forall|i: int|
        0 <= i < recs.len() ==> ecode_spec(col_view(#[trigger] recs[i], 10)) == EventCode::Correct
            && col_view(recs[i], 7) == q && parse_usize_spec(col_view(recs[i], 8)) == tn
}

/// Four consecutive correct answers by the same quizzer, with no errors in
/// between, are worth `4 * 20 + 10`: the quiz-out bonus fires exactly once,
/// on the fourth.
pub proof fn lemma_quiz_out_bonus(
    st: ScoreState,
    teams: Seq<TeamModel>,
    recs: Seq<Seq<Seq<char>>>,
    q: Seq<char>,
    tn: int,
    rc_round: Seq<char>,
    rc_room: Seq<char>,
    qmap: Seq<(Seq<char>, Seq<char>)>,
    qnames: Seq<(Seq<char>, Seq<char>)>,
)
    requires
        recs.len() == 4,
        all_correct_by(recs, q, tn),
        0 <= tn < teams.len(),
        teams[tn].actives =~= Seq::<(Seq<char>, int, int)>::empty(),
    ensures
        ({
            let res = score_records(st, teams, recs, 4, rc_round, rc_room, qmap, qnames);
            res.1.len() == teams.len() && res.1[tn].score == teams[tn].score + 90
        }),
{
    let r1 = score_records(st, teams, recs, 1, rc_round, rc_room, qmap, qnames);
    let r2 = score_records(st, teams, recs, 2, rc_round, rc_room, qmap, qnames);
    let r3 = score_records(st, teams, recs, 3, rc_round, rc_room, qmap, qnames);
    let r4 = score_records(st, teams, recs, 4, rc_round, rc_room, qmap, qnames);
    let a1 = seq![(q, 1int, 0int)];
    let a2 = seq![(q, 2int, 0int)];
    let a3 = seq![(q, 3int, 0int)];
    let a4 = seq![(q, 4int, 0int)];
    assert(ecode_spec(col_view(recs[0], 10)) == EventCode::Correct && col_view(recs[0], 7) == q
        && parse_usize_spec(col_view(recs[0], 8)) == tn);
    assert(ecode_spec(col_view(recs[1], 10)) == EventCode::Correct && col_view(recs[1], 7) == q
        && parse_usize_spec(col_view(recs[1], 8)) == tn);
    assert(ecode_spec(col_view(recs[2], 10)) == EventCode::Correct && col_view(recs[2], 7) == q
        && parse_usize_spec(col_view(recs[2], 8)) == tn);
    assert(ecode_spec(col_view(recs[3], 10)) == EventCode::Correct && col_view(recs[3], 7) == q
        && parse_usize_spec(col_view(recs[3], 8)) == tn);
    assert(apos_from(teams[tn].actives, q, 0) == -1);
    assert(score_records(st, teams, recs, 0, rc_round, rc_room, qmap, qnames) == (st, teams));
    assert(r1 == score_step(st, teams, recs[0], rc_round, rc_room, qmap, qnames));
    assert(r1.1[tn].actives =~= a1 && r1.1[tn].score == teams[tn].score + 20) by {
        assert(teams[tn].actives.push((q, 1int, 0int)) =~= a1);
        assert(apos_from(a1, q, 0) == 0);
        assert(count_active(a1, 0) == 0);
        assert(count_active(a1, 1) == 1);
    }
    assert(r1.1.len() == teams.len());
    assert(r2.1[tn].actives =~= a2 && r2.1[tn].score == teams[tn].score + 40) by {
        assert(apos_from(a1, q, 0) == 0);
        assert(a1.update(0, (a1[0].0, a1[0].1 + 1, a1[0].2)) =~= a2);
        assert(apos_from(a2, q, 0) == 0);
        assert(count_active(a2, 0) == 0);
        assert(count_active(a2, 1) == 1);
    }
    assert(r2.1.len() == teams.len());
    assert(r3.1[tn].actives =~= a3 && r3.1[tn].score == teams[tn].score + 60) by {
        assert(apos_from(a2, q, 0) == 0);
        assert(a2.update(0, (a2[0].0, a2[0].1 + 1, a2[0].2)) =~= a3);
        assert(apos_from(a3, q, 0) == 0);
        assert(count_active(a3, 0) == 0);
        assert(count_active(a3, 1) == 1);
    }
    assert(r3.1.len() == teams.len());
    assert(r4.1[tn].actives =~= a4 && r4.1[tn].score == teams[tn].score + 90) by {
        assert(apos_from(a3, q, 0) == 0);
        assert(a3.update(0, (a3[0].0, a3[0].1 + 1, a3[0].2)) =~= a4);
        assert(a3[0].1 + 1 == 4 && a3[0].2 == 0);
        assert(apos_from(a4, q, 0) == 0);
        assert(count_active(a4, 0) == 0);
        assert(count_active(a4, 1) == 1);
    }
    assert(r4.1.len() == teams.len());
}

/// Whether every record of the sequence is an incorrect tossup answer by
/// quizzer `q` against team slot `tn`, at a 1-based question number below 16.
pub open spec fn all_incorrect_by(recs: Seq<Seq<Seq<char>>>, q: Seq<char>, tn: int) -> bool {
    forall|i: int|
        0 <= i < recs.len() ==> ecode_spec(col_view(#[trigger] recs[i], 10))
            == EventCode::Incorrect && col_view(recs[i], 7) == q && parse_usize_spec(
            col_view(recs[i], 8),
        ) == tn && 1 <= parse_usize_spec(trim_quotes_spec(col_view(recs[i], 5))) <= 15
}

/// A round of `k` incorrect answers below question 16 by one quizzer costs
/// the team 10 points exactly when the run reaches three: the first and
/// second deduct nothing, the third deducts 10, and every later one
/// deducts nothing more.
pub proof fn lemma_third_incorrect_run(
    st: ScoreState,
    teams: Seq<TeamModel>,
    recs: Seq<Seq<Seq<char>>>,
    q: Seq<char>,
    tn: int,
    k: int,
    rc_round: Seq<char>,
    rc_room: Seq<char>,
    qmap: Seq<(Seq<char>, Seq<char>)>,
    qnames: Seq<(Seq<char>, Seq<char>)>,
)
    requires
        0 <= k <= recs.len(),
        all_incorrect_by(recs, q, tn),
        0 <= tn < teams.len(),
        teams[tn].actives =~= Seq::<(Seq<char>, int, int)>::empty(),
    ensures
        ({
            let res = score_records(st, teams, recs, k, rc_round, rc_room, qmap, qnames);
            res.1.len() == teams.len() && res.1[tn].actives =~= (if k == 0 {
                Seq::<(Seq<char>, int, int)>::empty()
            } else {
                seq![(q, 0int, k)]
            }) && res.1[tn].score == teams[tn].score - (if k >= 3 {
                10int
            } else {
                0int
            })
        }),
    decreases k,
{
    if k == 0 {
        assert(score_records(st, teams, recs, 0, rc_round, rc_room, qmap, qnames) == (st, teams));
    } else {
        lemma_third_incorrect_run(st, teams, recs, q, tn, k - 1, rc_round, rc_room, qmap, qnames);
        let prev = score_records(st, teams, recs, k - 1, rc_round, rc_room, qmap, qnames);
        let res = score_records(st, teams, recs, k, rc_round, rc_room, qmap, qnames);
        assert(res == score_step(prev.0, prev.1, recs[k - 1], rc_round, rc_room, qmap, qnames));
        assert(ecode_spec(col_view(recs[k - 1], 10)) == EventCode::Incorrect && col_view(
            recs[k - 1],
            7,
        ) == q && parse_usize_spec(col_view(recs[k - 1], 8)) == tn && 1 <= parse_usize_spec(
            trim_quotes_spec(col_view(recs[k - 1], 5)),
        ) <= 15);
        if k == 1 {
            assert(apos_from(prev.1[tn].actives, q, 0) == -1);
            assert(prev.1[tn].actives.push((q, 0int, 1int)) =~= seq![(q, 0int, 1int)]);
        } else {
            let a = seq![(q, 0int, k - 1)];
            assert(prev.1[tn].actives =~= a);
            assert(apos_from(a, q, 0) == 0);
            assert(a.update(0, (a[0].0, a[0].1, a[0].2 + 1)) =~= seq![(q, 0int, k)]);
            assert(a[0].2 + 1 == 3 <==> k == 3);
        }
    }
}

proof fn lemma_pair_sum_remove(
    s: Seq<(Seq<char>, int)>,
    f: spec_fn((Seq<char>, int)) -> int,
    j: int,
)
    requires
        0 <= j < s.len(),
    ensures
        pair_sum(s, f) == f(s[j]) + pair_sum(s.remove(j), f),
    decreases s.len(),
{
    if j == s.len() - 1 {
        assert(s.remove(j) =~= s.drop_last());
    } else {
        assert(s.remove(j).drop_last() =~= s.drop_last().remove(j));
        lemma_pair_sum_remove(s.drop_last(), f, j);
        assert(s.remove(j).last() == s.last());
    }
}

proof fn lemma_pair_sum_perm(
    s1: Seq<(Seq<char>, int)>,
    s2: Seq<(Seq<char>, int)>,
    f: spec_fn((Seq<char>, int)) -> int,
)
    requires
        s1.to_multiset() == s2.to_multiset(),
    ensures
        pair_sum(s1, f) == pair_sum(s2, f),
    decreases s1.len(),
{
    broadcast use vstd::seq_lib::group_to_multiset_ensures;
    broadcast use vstd::multiset::group_multiset_axioms;

    if s1.len() > 0 {
        let x = s1.last();
        assert(s1.to_multiset().count(x) > 0) by {
            assert(s1.contains(x));
        }
        assert(s2.contains(x));
        let j = choose|j: int| 0 <= j < s2.len() && s2[j] == x;
        lemma_pair_sum_remove(s2, f, j);
        assert(s1.drop_last().push(x) =~= s1);
        assert(s1.drop_last().to_multiset().insert(x) == s1.to_multiset());
        assert(s1.drop_last().to_multiset() =~= s1.to_multiset().remove(x));
        assert(s2.remove(j).to_multiset() == s2.to_multiset().remove(x));
        lemma_pair_sum_perm(s1.drop_last(), s2.remove(j), f);
    } else {
        assert(s2.len() == 0) by {
            assert(s1.to_multiset().len() == 0);
            assert(s2.to_multiset().len() == s2.len());
        }
    }
}

proof fn lemma_pair_sum_ext(
    s: Seq<(Seq<char>, int)>,
    f: spec_fn((Seq<char>, int)) -> int,
    g: spec_fn((Seq<char>, int)) -> int,
)
    requires
        forall|i: int| 0 <= i < s.len() ==> #[trigger] f(s[i]) == g(s[i]),
    ensures
        pair_sum(s, f) == pair_sum(s, g),
    decreases s.len(),
{
    if s.len() > 0 {
        assert(forall|i: int| 0 <= i < s.drop_last().len() ==> #[trigger] f(s.drop_last()[i]) == g(
            s.drop_last()[i],
        )) by {
            assert(forall|i: int| 0 <= i < s.len() - 1 ==> s.drop_last()[i] == s[i]);
        }
        lemma_pair_sum_ext(s.drop_last(), f, g);
        assert(f(s.last()) == g(s.last()));
    }
}

/// Permuting the order in which teams are listed within each round's record
/// changes neither any team's total wins and losses nor its total score.
/// The companion `crate::ranking::lemma_ledger_permutation_invariant` shows
/// the same for the head-to-head sums the tie-break reads.
pub proof fn lemma_ranking_permutation_invariant(
    rs1: Seq<RoundModel>,
    rs2: Seq<RoundModel>,
    n: Seq<char>,
    k: int,
)
    requires
        rs1.len() == rs2.len(),
        0 <= k <= rs1.len(),
        forall|t: int|
            0 <= t < rs1.len() ==> scored(#[trigger] rs2[t]).to_multiset() == scored(
                rs1[t],
            ).to_multiset(),
    ensures
        wins_of(rs1, n, k) == wins_of(rs2, n, k),
        losses_of(rs1, n, k) == losses_of(rs2, n, k),
        total_of(rs1, n, k) == total_of(rs2, n, k),
    decreases k,
{
    broadcast use vstd::seq_lib::group_to_multiset_ensures;

    if k > 0 {
        lemma_ranking_permutation_invariant(rs1, rs2, n, k - 1);
        let sa = scored(rs1[k - 1]);
        let sb = scored(rs2[k - 1]);
        assert(sa.to_multiset().len() == sa.len() && sb.to_multiset().len() == sb.len());
        assert(sa.len() == sb.len());
        lemma_pair_sum_perm(sa, sb, total_fn(n));
        if sa.len() >= 2 {
            assert forall|i: int| 0 <= i < sb.len() implies #[trigger] wins_fn(sb, n)(sb[i])
                == wins_fn(sa, n)(sb[i]) by {
                lemma_pair_sum_perm(sa, sb, lt_fn(sb[i].1));
            }
            lemma_pair_sum_ext(sb, wins_fn(sb, n), wins_fn(sa, n));
            lemma_pair_sum_perm(sa, sb, wins_fn(sa, n));
            assert(row_wins(sa, n) == row_wins(sb, n));
            assert forall|i: int| 0 <= i < sb.len() implies #[trigger] losses_fn(sb, n)(sb[i])
                == losses_fn(sa, n)(sb[i]) by {
                lemma_pair_sum_perm(sa, sb, gt_fn(sb[i].1));
            }
            lemma_pair_sum_ext(sb, losses_fn(sb, n), losses_fn(sa, n));
            lemma_pair_sum_perm(sa, sb, losses_fn(sa, n));
            assert(row_losses(sa, n) == row_losses(sb, n));
        }
    }
}

} // verus!
