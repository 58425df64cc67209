//! The full batch pipeline: question-set tables, record filtering, round
//! reconstruction, scoring, ranking, and the two result tables.
use vstd::prelude::*;
use vstd::string::StrSliceExecFns;
use vstd::string::StringExecFns;
use crate::strutil::strs_view;
use crate::strutil::recs_view;
use crate::strutil::trim_quotes;
use crate::strutil::trim_quotes_spec;
use crate::strutil::dec_digits;
use crate::strutil::int_digits;
use crate::strutil::u32_to_string;
use crate::strutil::i32_to_string;
use crate::strutil::string_from_chars;
use crate::questions::get_question_types_by_round;
use crate::questions::merge_docs;
use crate::questions::qt_index_spec;
use crate::questions::question_type_index;
use crate::reconstruct::filter_records;
use crate::reconstruct::filter_fold;
use crate::reconstruct::get_quizzer_names;
use crate::reconstruct::recon_final;
use crate::reconstruct::pairs_view;
use crate::scoring::Round;
use crate::scoring::RoundModel;
use crate::scoring::rounds_view;
use crate::scoring::round_model;
use crate::scoring::update_arrays;
use crate::scoring::score_all;
use crate::scoring::ScoreState;
use crate::scoring::tbl_model;
use crate::scoring::tbl_ok;
use crate::scoring::total_records;
use crate::scoring::max_total_records;
use crate::scoring::missing_warns;
use crate::ranking::rank_teams;
use crate::ranking::rank_output_ok;
use crate::ranking::scores_bounded;
use crate::ranking::total_scored;
use crate::ranking::max_scored_entries;

verus! {

/// The category letters in display order.
pub open spec fn sorted_types() -> Seq<char> {
    seq!['A', 'G', 'I', 'M', 'Q', 'R', 'S', 'V', 'X']
}

/// Whether the letter list holds the letter.
pub open spec fn chars_contain(ts: Seq<char>, c: char) -> bool {
    exists|i: int| 0 <= i < ts.len() && ts[i] == c
}

fn chars_contain_exec(ts: &Vec<char>, c: char) -> (r: bool)
    ensures
        r == chars_contain(ts@, c),
{
    let mut i: usize = 0;
    while i < ts.len()
        invariant
            i <= ts@.len(),
            forall|k: int| 0 <= k < i ==> ts@[k] != c,
        decreases ts@.len() - i,
    {
        if ts[i] == c {
            return true;
        }
        i += 1;
    }
    false
}

/// One header segment of the per-quizzer table.
pub open spec fn header_seg(qt: char, delim: Seq<char>) -> Seq<char> {
    seq![qt] + " Attempted"@ + delim + seq![qt] + " Correct"@ + delim + seq![qt]
        + " Bonuses Attempted"@ + delim + seq![qt] + " Bonuses Correct"@ + delim
}

/// The header cells for the first `k` display categories: only requested
/// categories appear.
pub open spec fn header_cells(types: Seq<char>, delim: Seq<char>, k: int) -> Seq<char>
    decreases k,
{
    if k <= 0 {
        Seq::empty()
    } else {
        header_cells(types, delim, k - 1) + (if chars_contain(types, sorted_types()[k - 1]) {
            header_seg(sorted_types()[k - 1], delim)
        } else {
            Seq::<char>::empty()
        })
    }
}

#[verifier::loop_isolation(false)]
fn header_cells_exec(types: &Vec<char>, delim: &String) -> (r: String)
    ensures
        r@ == header_cells(types@, delim@, 9),
{
    let sorted: Vec<char> = vec!['A', 'G', 'I', 'M', 'Q', 'R', 'S', 'V', 'X'];
    proof {
        assert(sorted@ =~= sorted_types());
    }
    let mut out = String::new();
    proof {
        assert(out@ =~= header_cells(types@, delim@, 0));
    }
    let mut k: usize = 0;
    while k < 9
        invariant
            k <= 9,
            sorted@ == sorted_types(),
            out@ == header_cells(types@, delim@, k as int),
        decreases 9 - k,
    {
        let qt = sorted[k];
        if chars_contain_exec(types, qt) {
            let qts = string_from_chars(&vec![qt]);
            proof {
                assert(qts@ =~= seq![sorted_types()[k as int]]);
            }
            out.append(qts.as_str());
            out.append(" Attempted");
            out.append(delim.as_str());
            out.append(qts.as_str());
            out.append(" Correct");
            out.append(delim.as_str());
            out.append(qts.as_str());
            out.append(" Bonuses Attempted");
            out.append(delim.as_str());
            out.append(qts.as_str());
            out.append(" Bonuses Correct");
            out.append(delim.as_str());
            proof {
                assert(out@ =~= header_cells(types@, delim@, k as int + 1));
            }
        } else {
            proof {
                assert(out@ =~= header_cells(types@, delim@, k as int + 1));
            }
        }
        k += 1;
    }
    out
}

/// The integer view of one statistic row.
pub open spec fn row_m(v: Seq<u32>) -> Seq<int> {
    Seq::new(v.len(), |j: int| v[j] as int)
}

/// The four counter cells of one quizzer for one category.
pub open spec fn quad_cells(
    a: Seq<int>,
    c: Seq<int>,
    ba: Seq<int>,
    b: Seq<int>,
    idx: int,
    delim: Seq<char>,
) -> Seq<char> {
    dec_digits(a[idx]) + delim + dec_digits(c[idx]) + delim + dec_digits(ba[idx]) + delim
        + dec_digits(b[idx]) + delim
}

/// The data cells of one quizzer row for the first `k` display categories;
/// with an empty request every category appears.
pub open spec fn row_cells(
    a: Seq<int>,
    c: Seq<int>,
    ba: Seq<int>,
    b: Seq<int>,
    types: Seq<char>,
    delim: Seq<char>,
    k: int,
) -> Seq<char>
    decreases k,
{
    if k <= 0 {
        Seq::empty()
    } else {
        row_cells(a, c, ba, b, types, delim, k - 1) + (if types.len() == 0 || chars_contain(
            types,
            sorted_types()[k - 1],
        ) {
            quad_cells(a, c, ba, b, qt_index_spec(sorted_types()[k - 1]), delim)
        } else {
            Seq::<char>::empty()
        })
    }
}

#[verifier::loop_isolation(false)]
fn row_cells_exec(
    a: &Vec<u32>,
    c: &Vec<u32>,
    ba: &Vec<u32>,
    b: &Vec<u32>,
    types: &Vec<char>,
    delim: &String,
) -> (r: String)
    requires
        a@.len() == 9,
        c@.len() == 9,
        ba@.len() == 9,
        b@.len() == 9,
    ensures
        r@ == row_cells(row_m(a@), row_m(c@), row_m(ba@), row_m(b@), types@, delim@, 9),
{
    let sorted: Vec<char> = vec!['A', 'G', 'I', 'M', 'Q', 'R', 'S', 'V', 'X'];
    proof {
        assert(sorted@ =~= sorted_types());
    }
    let mut out = String::new();
    proof {
        assert(out@ =~= row_cells(row_m(a@), row_m(c@), row_m(ba@), row_m(b@), types@, delim@, 0));
    }
    let mut k: usize = 0;
    while k < 9
        invariant
            k <= 9,
            sorted@ == sorted_types(),
            out@ == row_cells(row_m(a@), row_m(c@), row_m(ba@), row_m(b@), types@, delim@, k as int),
        decreases 9 - k,
    {
        let qt = sorted[k];
        if types.len() == 0 || chars_contain_exec(types, qt) {
            let idx = question_type_index(qt);
            let c1 = u32_to_string(a[idx]);
            out.append(c1.as_str());
            out.append(delim.as_str());
            let c2 = u32_to_string(c[idx]);
            out.append(c2.as_str());
            out.append(delim.as_str());
            let c3 = u32_to_string(ba[idx]);
            out.append(c3.as_str());
            out.append(delim.as_str());
            let c4 = u32_to_string(b[idx]);
            out.append(c4.as_str());
            out.append(delim.as_str());
            proof {
                assert(out@ =~= row_cells(
                    row_m(a@),
                    row_m(c@),
                    row_m(ba@),
                    row_m(b@),
                    types@,
                    delim@,
                    k as int + 1,
                ));
            }
        } else {
            proof {
                assert(out@ =~= row_cells(
                    row_m(a@),
                    row_m(c@),
                    row_m(ba@),
                    row_m(b@),
                    types@,
                    delim@,
                    k as int + 1,
                ));
            }
        }
        k += 1;
    }
    out
}

/// The first `i` rows of the per-quizzer table.
pub open spec fn quizzer_rows(
    qn: Seq<(Seq<char>, Seq<char>)>,
    a: Seq<Seq<int>>,
    c: Seq<Seq<int>>,
    ba: Seq<Seq<int>>,
    b: Seq<Seq<int>>,
    types: Seq<char>,
    delim: Seq<char>,
    i: int,
) -> Seq<char>
    decreases i,
{
    if i <= 0 {
        Seq::empty()
    } else {
        quizzer_rows(qn, a, c, ba, b, types, delim, i - 1) + trim_quotes_spec(qn[i - 1].0) + delim
            + trim_quotes_spec(qn[i - 1].1) + delim + row_cells(
            a[i - 1],
            c[i - 1],
            ba[i - 1],
            b[i - 1],
            types,
            delim,
            9,
        ) + seq!['\n']
    }
}

/// The whole per-quizzer statistics table.
pub open spec fn individual_results_spec(
    qn: Seq<(Seq<char>, Seq<char>)>,
    a: Seq<Seq<int>>,
    c: Seq<Seq<int>>,
    ba: Seq<Seq<int>>,
    b: Seq<Seq<int>>,
    types: Seq<char>,
    delim: Seq<char>,
) -> Seq<char> {
    "Quizzer"@ + delim + "Team"@ + delim + header_cells(types, delim, 9) + seq!['\n']
        + quizzer_rows(qn, a, c, ba, b, types, delim, qn.len() as int)
}

/// Build the per-quizzer statistics table: a header of the requested
/// categories, then one row per quizzer with attempted, correct,
/// bonus-attempted and bonus-correct counters per category.
#[verifier::loop_isolation(false)]
pub fn build_individual_results(
    quizzer_names: Vec<(String, String)>,
    attempts: Vec<Vec<u32>>,
    correct_answers: Vec<Vec<u32>>,
    bonus_attempts: Vec<Vec<u32>>,
    bonus: Vec<Vec<u32>>,
    types: Vec<char>,
    delim: String,
) -> (r: String)
    requires
        attempts@.len() == quizzer_names@.len(),
        correct_answers@.len() == quizzer_names@.len(),
        bonus_attempts@.len() == quizzer_names@.len(),
        bonus@.len() == quizzer_names@.len(),
        forall|i: int| 0 <= i < quizzer_names@.len() ==> (#[trigger] attempts@[i])@.len() == 9,
        forall|i: int| 0 <= i < quizzer_names@.len() ==> (#[trigger] correct_answers@[i])@.len() == 9,
        forall|i: int| 0 <= i < quizzer_names@.len() ==> (#[trigger] bonus_attempts@[i])@.len() == 9,
        forall|i: int| 0 <= i < quizzer_names@.len() ==> (#[trigger] bonus@[i])@.len() == 9,
    ensures
        r@ == individual_results_spec(
            pairs_view(quizzer_names@),
            tbl_model(attempts@),
            tbl_model(correct_answers@),
            tbl_model(bonus_attempts@),
            tbl_model(bonus@),
            types@,
            delim@,
        ),
{
    let ghost qv = pairs_view(quizzer_names@);
    let ghost am = tbl_model(attempts@);
    let ghost cm = tbl_model(correct_answers@);
    let ghost bam = tbl_model(bonus_attempts@);
    let ghost bm = tbl_model(bonus@);
    let mut out = String::new();
    out.append("Quizzer");
    out.append(delim.as_str());
    out.append("Team");
    out.append(delim.as_str());
    let hc = header_cells_exec(&types, &delim);
    out.append(hc.as_str());
    out.append("\n");
    let ghost head = "Quizzer"@ + delim@ + "Team"@ + delim@ + header_cells(types@, delim@, 9)
        + seq!['\n'];
    proof {
        reveal_strlit("\n");
        assert(out@ =~= head + quizzer_rows(qv, am, cm, bam, bm, types@, delim@, 0));
    }
    let mut i: usize = 0;
    while i < quizzer_names.len()
        invariant
            i <= quizzer_names@.len(),
            out@ == head + quizzer_rows(qv, am, cm, bam, bm, types@, delim@, i as int),
        decreases quizzer_names@.len() - i,
    {
        let nm = trim_quotes(quizzer_names[i].0.as_str());
        out.append(nm.as_str());
        out.append(delim.as_str());
        let tm = trim_quotes(quizzer_names[i].1.as_str());
        out.append(tm.as_str());
        out.append(delim.as_str());
        let cells = row_cells_exec(
            &attempts[i],
            &correct_answers[i],
            &bonus_attempts[i],
            &bonus[i],
            &types,
            &delim,
        );
        out.append(cells.as_str());
        out.append("\n");
        proof {
            reveal_strlit("\n");
            assert(row_m(attempts@[i as int]@) =~= am[i as int]);
            assert(row_m(correct_answers@[i as int]@) =~= cm[i as int]);
            assert(row_m(bonus_attempts@[i as int]@) =~= bam[i as int]);
            assert(row_m(bonus@[i as int]@) =~= bm[i as int]);
            assert(out@ =~= head + quizzer_rows(qv, am, cm, bam, bm, types@, delim@, i as int + 1));
        }
        i += 1;
    }
    out
}

/// The per-round breakdown lines of one round.
pub open spec fn round_block(r: RoundModel, delim: Seq<char>, i: int) -> Seq<char>
    decreases i,
{
    if i <= 0 {
        Seq::empty()
    } else {
        round_block(r, delim, i - 1) + r.names[i - 1] + delim + seq![' '] + int_digits(
            r.scores[i - 1],
        ) + seq!['\n']
    }
}

/// The per-round breakdown of the first `k` rounds.
pub open spec fn rounds_blocks(rs: Seq<RoundModel>, delim: Seq<char>, k: int) -> Seq<char>
    decreases k,
{
    if k <= 0 {
        Seq::empty()
    } else {
        rounds_blocks(rs, delim, k - 1) + "Room: "@ + rs[k - 1].room + delim + " Round: "@ + rs[k
            - 1].round + seq!['\n'] + round_block(rs[k - 1], delim, rs[k - 1].names.len() as int)
            + seq!['\n']
    }
}

#[verifier::loop_isolation(false)]
fn round_block_exec(round: &Round, delim: &String) -> (r: String)
    requires
        round.team_scores@.len() >= round.team_names@.len(),
    ensures
        r@ == round_block(round_model(*round), delim@, round_model(*round).names.len() as int),
{
    let ghost m = round_model(*round);
    let mut out = String::new();
    proof {
        assert(out@ =~= round_block(m, delim@, 0));
    }
    let mut t: usize = 0;
    while t < round.team_names.len()
        invariant
            t <= round.team_names@.len(),
            m == round_model(*round),
            round.team_scores@.len() >= round.team_names@.len(),
            out@ == round_block(m, delim@, t as int),
        decreases round.team_names@.len() - t,
    {
        out.append(round.team_names[t].as_str());
        out.append(delim.as_str());
        out.append(" ");
        let sc = i32_to_string(round.team_scores[t]);
        out.append(sc.as_str());
        out.append("\n");
        proof {
            reveal_strlit(" ");
            reveal_strlit("\n");
            assert(out@ =~= round_block(m, delim@, t as int + 1));
        }
        t += 1;
    }
    out
}

/// The standing rows for the first `i` ranked teams.
pub open spec fn rank_rows(
    rk: Seq<(String, u32, u32, u32, i32)>,
    delim: Seq<char>,
    i: int,
) -> Seq<char>
    decreases i,
{
    if i <= 0 {
        Seq::empty()
    } else {
        rank_rows(rk, delim, i - 1) + trim_quotes_spec(rk[i - 1].0@) + delim + dec_digits(
            rk[i - 1].1 as int,
        ) + delim + dec_digits(rk[i - 1].2 as int) + delim + dec_digits(rk[i - 1].3 as int) + delim
            + int_digits(rk[i - 1].4 as int) + seq!['\n']
    }
}

#[verifier::loop_isolation(false)]
fn rank_rows_exec(rankings: &Vec<(String, u32, u32, u32, i32)>, delim: &String) -> (r: String)
    ensures
        r@ == rank_rows(rankings@, delim@, rankings@.len() as int),
{
    let ghost rk = rankings@;
    let mut out = String::new();
    proof {
        assert(out@ =~= rank_rows(rk, delim@, 0));
    }
    let mut i: usize = 0;
    while i < rankings.len()
        invariant
            i <= rk.len(),
            rankings@ == rk,
            out@ == rank_rows(rk, delim@, i as int),
        decreases rk.len() - i,
    {
        let nm = trim_quotes(rankings[i].0.as_str());
        out.append(nm.as_str());
        out.append(delim.as_str());
        let c1 = u32_to_string(rankings[i].1);
        out.append(c1.as_str());
        out.append(delim.as_str());
        let c2 = u32_to_string(rankings[i].2);
        out.append(c2.as_str());
        out.append(delim.as_str());
        let c3 = u32_to_string(rankings[i].3);
        out.append(c3.as_str());
        out.append(delim.as_str());
        let c4 = i32_to_string(rankings[i].4);
        out.append(c4.as_str());
        out.append("\n");
        proof {
            reveal_strlit("\n");
            assert(out@ =~= rank_rows(rk, delim@, i as int + 1));
        }
        i += 1;
    }
    out
}

/// The whole team standings table, around the given ranking.
pub open spec fn team_results_spec(
    rs: Seq<RoundModel>,
    delim: Seq<char>,
    display_rounds: bool,
    rk: Seq<(String, u32, u32, u32, i32)>,
) -> Seq<char> {
    (if display_rounds {
        "Individual Round Results\n\n"@ + rounds_blocks(rs, delim, rs.len() as int) + seq!['\n']
    } else {
        Seq::<char>::empty()
    }) + "Team Results\n\n"@
        + "Teams are ranked first by number of losses, then by number of wins, then by head-to-head record. \n\n"@
        + "Name"@ + delim + "Placement"@ + delim + "Wins"@ + delim + "Losses"@ + delim
        + "Total Score\n"@ + rank_rows(rk, delim, rk.len() as int)
}

/// Build the team standings table: optionally a per-round breakdown, then
/// the final ranking with placement, wins, losses and total score per team.
/// The warnings list is passed through unchanged.
#[verifier::loop_isolation(false)]
pub fn build_team_results(
    warns: &mut Vec<String>,
    rounds: Vec<Round>,
    delim: String,
    display_rounds: bool,
) -> (r: String)
    requires
        scores_bounded(rounds_view(rounds@)),
        total_scored(rounds_view(rounds@), rounds@.len() as int) <= max_scored_entries(),
        forall|k: int|
            0 <= k < rounds@.len() ==> (#[trigger] rounds@[k]).team_scores@.len()
                >= rounds@[k].team_names@.len(),
    ensures
        final(warns)@ == old(warns)@,
        exists|rk: Seq<(String, u32, u32, u32, i32)>|
            rank_output_ok(rounds_view(rounds@), rk) && r@ == team_results_spec(
                rounds_view(rounds@),
                delim@,
                display_rounds,
                rk,
            ),
{
    let ghost rv = rounds_view(rounds@);
    let mut out = String::new();
    if display_rounds {
        out.append("Individual Round Results\n\n");
        let ghost p0 = "Individual Round Results\n\n"@;
        proof {
            assert(out@ =~= p0 + rounds_blocks(rv, delim@, 0));
        }
        let mut k: usize = 0;
        while k < rounds.len()
            invariant
                k <= rounds@.len(),
                rv == rounds_view(rounds@),
                out@ == p0 + rounds_blocks(rv, delim@, k as int),
            decreases rounds@.len() - k,
        {
            let round = &rounds[k];
            proof {
                assert(round_model(*round) == rv[k as int]);
            }
            out.append("Room: ");
            out.append(round.room_number.as_str());
            out.append(delim.as_str());
            out.append(" Round: ");
            out.append(round.round_number.as_str());
            out.append("\n");
            let blk = round_block_exec(round, &delim);
            out.append(blk.as_str());
            out.append("\n");
            proof {
                reveal_strlit("\n");
                assert(out@ =~= p0 + rounds_blocks(rv, delim@, k as int + 1));
            }
            k += 1;
        }
        out.append("\n");
        proof {
            reveal_strlit("\n");
        }
    }
    let ghost block = out@;
    proof {
        assert(block =~= (if display_rounds {
            "Individual Round Results\n\n"@ + rounds_blocks(rv, delim@, rv.len() as int) + seq![
                '\n',
            ]
        } else {
            Seq::<char>::empty()
        }));
    }
    let rankings = rank_teams(rounds);
    let ghost rk = rankings@;
    out.append("Team Results\n\n");
    out.append(
        "Teams are ranked first by number of losses, then by number of wins, then by head-to-head record. \n\n",
    );
    out.append("Name");
    out.append(delim.as_str());
    out.append("Placement");
    out.append(delim.as_str());
    out.append("Wins");
    out.append(delim.as_str());
    out.append("Losses");
    out.append(delim.as_str());
    out.append("Total Score\n");
    let rows = rank_rows_exec(&rankings, &delim);
    out.append(rows.as_str());
    proof {
        assert(out@ =~= team_results_spec(rv, delim@, display_rounds, rk));
    }
    out
}

/// A statistic table of `n` all-zero rows, one column per category.
pub open spec fn zero_tbl(n: int) -> Seq<Seq<int>> {
    Seq::new(n as nat, |i: int| Seq::new(9, |j: int| 0int))
}

#[verifier::loop_isolation(false)]
fn zero_table(n: usize) -> (t: Vec<Vec<u32>>)
    ensures
        tbl_model(t@) == zero_tbl(n as int),
        tbl_ok(tbl_model(t@), 0),
{
    let mut t: Vec<Vec<u32>> = Vec::new();
    proof {
        assert(tbl_model(t@) =~~= zero_tbl(0));
    }
    let mut i: usize = 0;
    while i < n
        invariant
            i <= n,
            tbl_model(t@) == zero_tbl(i as int),
        decreases n - i,
    {
        let ghost tb = tbl_model(t@);
        let row: Vec<u32> = vec![0, 0, 0, 0, 0, 0, 0, 0, 0];
        proof {
            assert(row@.len() == 9);
            assert(forall|j: int| 0 <= j < 9 ==> row@[j] == 0);
        }
        t.push(row);
        proof {
            let tm = tbl_model(t@);
            assert forall|x: int| 0 <= x < tm.len() implies tm[x] == zero_tbl(i as int + 1)[x] by {
                if x < i {
                    assert(tm[x] =~= tb[x]);
                    assert(tb[x] == zero_tbl(i as int)[x]);
                    assert(zero_tbl(i as int)[x] =~= zero_tbl(i as int + 1)[x]);
                } else {
                    assert(tm[x] =~= zero_tbl(i as int + 1)[x]);
                }
            }
            assert(tbl_model(t@) =~= zero_tbl(i as int + 1));
        }
        i += 1;
    }
    proof {
        assert(tbl_ok(zero_tbl(n as int), 0));
    }
    t
}

/// Whether a table has `n` rows of nine columns.
pub open spec fn tbl_shape(t: Seq<Seq<int>>, n: int) -> bool {
    t.len() == n && forall|i: int| 0 <= i < t.len() ==> (#[trigger] t[i]).len() == 9
}

proof fn lemma_step_shape(
    st: ScoreState,
    teams: Seq<crate::scoring::TeamModel>,
    cols: Seq<Seq<char>>,
    rc_round: Seq<char>,
    rc_room: Seq<char>,
    qmap: Seq<(Seq<char>, Seq<char>)>,
    qnames: Seq<(Seq<char>, Seq<char>)>,
    n: int,
)
    requires
        tbl_shape(st.attempts, n),
        tbl_shape(st.correct, n),
        tbl_shape(st.bonus_attempts, n),
        tbl_shape(st.bonus, n),
    ensures
        ({
            let res = crate::scoring::score_step(st, teams, cols, rc_round, rc_room, qmap, qnames);
            tbl_shape(res.0.attempts, n) && tbl_shape(res.0.correct, n) && tbl_shape(
                res.0.bonus_attempts,
                n,
            ) && tbl_shape(res.0.bonus, n) && res.1.len() >= teams.len()
        }),
{
}

proof fn lemma_records_shape(
    st: ScoreState,
    teams: Seq<crate::scoring::TeamModel>,
    recs: Seq<Seq<Seq<char>>>,
    k: int,
    rc_round: Seq<char>,
    rc_room: Seq<char>,
    qmap: Seq<(Seq<char>, Seq<char>)>,
    qnames: Seq<(Seq<char>, Seq<char>)>,
    n: int,
)
    requires
        tbl_shape(st.attempts, n),
        tbl_shape(st.correct, n),
        tbl_shape(st.bonus_attempts, n),
        tbl_shape(st.bonus, n),
        k >= 0,
    ensures
        ({
            let res = crate::scoring::score_records(
                st,
                teams,
                recs,
                k,
                rc_round,
                rc_room,
                qmap,
                qnames,
            );
            tbl_shape(res.0.attempts, n) && tbl_shape(res.0.correct, n) && tbl_shape(
                res.0.bonus_attempts,
                n,
            ) && tbl_shape(res.0.bonus, n) && res.1.len() >= teams.len()
        }),
    decreases k,
{
    if k > 0 {
        lemma_records_shape(st, teams, recs, k - 1, rc_round, rc_room, qmap, qnames, n);
        let prev = crate::scoring::score_records(
            st,
            teams,
            recs,
            k - 1,
            rc_round,
            rc_room,
            qmap,
            qnames,
        );
        lemma_step_shape(prev.0, prev.1, recs[k - 1], rc_round, rc_room, qmap, qnames, n);
    }
}

/// The scoring pass keeps the table shape, and every produced round has at
/// least as many scores as team names.
proof fn lemma_score_all_shape(
    reg: Seq<(Seq<char>, crate::reconstruct::RecColView)>,
    k: int,
    st: ScoreState,
    qmap: Seq<(Seq<char>, Seq<char>)>,
    qnames: Seq<(Seq<char>, Seq<char>)>,
    n: int,
)
    requires
        tbl_shape(st.attempts, n),
        tbl_shape(st.correct, n),
        tbl_shape(st.bonus_attempts, n),
        tbl_shape(st.bonus, n),
        k >= 0,
    ensures
        ({
            let res = score_all(reg, k, st, qmap, qnames);
            tbl_shape(res.0.attempts, n) && tbl_shape(res.0.correct, n) && tbl_shape(
                res.0.bonus_attempts,
                n,
            ) && tbl_shape(res.0.bonus, n) && res.1.len() == k && (forall|i: int|
                0 <= i < k ==> (#[trigger] res.1[i]).scores.len() >= res.1[i].names.len())
        }),
    decreases k,
{
    if k > 0 {
        lemma_score_all_shape(reg, k - 1, st, qmap, qnames, n);
        let prev = score_all(reg, k - 1, st, qmap, qnames);
        let rc = reg[k - 1].1;
        lemma_records_shape(
            prev.0,
            crate::scoring::init_teams(rc.teams),
            rc.records,
            rc.records.len() as int,
            rc.round,
            rc.room,
            qmap,
            qnames,
            n,
        );
    }
}

/// The warning pushed when the tournament filter drops every record.
pub open spec fn nofilter_msg(tourn: Seq<char>) -> Seq<char> {
    "Warning: No records found for tournament "@ + tourn
}

/// Index of the first requested category letter that is not a known
/// category; -1 when all are known.
pub open spec fn first_invalid(types: Seq<char>, i: int) -> int
    decreases types.len() - i,
{
    if i < 0 || i >= types.len() {
        -1
    } else if !chars_contain(crate::question_type_letters(), types[i]) {
        i
    } else {
        first_invalid(types, i + 1)
    }
}

/// The error for a request naming an unknown category letter.
pub open spec fn invalid_type_msg(c: char) -> Seq<char> {
    "Error: Invalid question type '"@ + seq![c] + "'."@
}

/// The mathematical content of a whole pipeline run.
#[verifier::ext_equal]
pub ghost struct QperfModel {
    /// The merged round-to-categories table.
    pub qmap: Seq<(Seq<char>, Seq<char>)>,
    /// The reconstruction of the filtered records.
    pub fin: crate::reconstruct::ReconState,
    /// The scoring state and per-round results.
    pub sc: (ScoreState, Seq<RoundModel>),
    /// All warnings of the run.
    pub warns: Seq<Seq<char>>,
}

/// The pipeline on given documents and records: question-set tables, the
/// tournament filter, round reconstruction, and scoring.
pub open spec fn qperf_model(
    docs: Seq<Seq<char>>,
    recs: Seq<Seq<Seq<char>>>,
    tourn: Seq<char>,
) -> QperfModel {
    let md = merge_docs(docs, docs.len() as int);
    let filtered = filter_fold(recs, tourn, recs.len() as int);
    let w1 = md.1 + (if filtered.len() == 0 && recs.len() > 0 {
        seq![nofilter_msg(tourn)]
    } else {
        Seq::<Seq<char>>::empty()
    });
    let fin = recon_final(filtered, w1);
    let n = fin.confirmed_quizzers.len() as int;
    let st0 = ScoreState {
        attempts: zero_tbl(n),
        correct: zero_tbl(n),
        bonus_attempts: zero_tbl(n),
        bonus: zero_tbl(n),
        missing: Seq::empty(),
        warns: fin.warns,
    };
    let sc = score_all(fin.confirmed, fin.confirmed.len() as int, st0, md.0, fin.confirmed_quizzers);
    QperfModel { qmap: md.0, fin: fin, sc: sc, warns: missing_warns(sc.0.warns, sc.0.missing) }
}

/// Run the whole pipeline on pre-read question-set documents and event
/// records: build the question-type tables, filter the records, reconstruct
/// and score the confirmed rounds, rank the teams, and render both result
/// tables. The bounds in the preconditions are machine limits that keep
/// every counter within its integer type.
#[verifier::loop_isolation(false)]
#[verifier::rlimit(100)]
pub fn qperf_core(
    question_set_docs: Vec<String>,
    quiz_records: Vec<Vec<String>>,
    types: Vec<char>,
    delim: String,
    tourn: String,
    display_rounds: bool,
) -> (r: Result<(Vec<String>, String), String>)
    requires
        ({
            let m = qperf_model(
                strs_view(question_set_docs@),
                recs_view(quiz_records@),
                tourn@,
            );
            total_records(m.fin.confirmed, m.fin.confirmed.len() as int) <= max_total_records()
                && scores_bounded(m.sc.1) && total_scored(m.sc.1, m.sc.1.len() as int)
                <= max_scored_entries()
        }),
    ensures
        ({
            let m = qperf_model(
                strs_view(question_set_docs@),
                recs_view(quiz_records@),
                tourn@,
            );
            let fi = first_invalid(types@, 0);
            match r {
                Err(e) => fi >= 0 && e@ == invalid_type_msg(types@[fi]),
                Ok((warns, out)) => fi == -1 && strs_view(warns@) == m.warns && (exists|
                    rk: Seq<(String, u32, u32, u32, i32)>,
                |
                    rank_output_ok(m.sc.1, rk) && out@ == individual_results_spec(
                        m.fin.confirmed_quizzers,
                        m.sc.0.attempts,
                        m.sc.0.correct,
                        m.sc.0.bonus_attempts,
                        m.sc.0.bonus,
                        types@,
                        delim@,
                    ) + seq!['\n'] + team_results_spec(m.sc.1, delim@, display_rounds, rk)),
            }
        }),
{
    let ghost dv = strs_view(question_set_docs@);
    let ghost rv = recs_view(quiz_records@);
    let ghost m = qperf_model(dv, rv, tourn@);
    let known: Vec<char> = crate::get_question_types();
    let mut ti: usize = 0;
    while ti < types.len()
        invariant
            ti <= types@.len(),
            known@ == crate::question_type_letters(),
            first_invalid(types@, 0) == first_invalid(types@, ti as int),
        decreases types@.len() - ti,
    {
        let c = types[ti];
        if !chars_contain_exec(&known, c) {
            let mut msg = String::from_str("Error: Invalid question type '");
            let cs = string_from_chars(&vec![c]);
            msg.append(cs.as_str());
            msg.append("'.");
            proof {
                assert(!chars_contain(crate::question_type_letters(), types@[ti as int]));
                assert(first_invalid(types@, ti as int) == ti as int);
                assert(msg@ =~= invalid_type_msg(types@[ti as int]));
            }
            return Err(msg);
        }
        proof {
            assert(chars_contain(crate::question_type_letters(), types@[ti as int]));
        }
        ti += 1;
    }
    proof {
        assert(first_invalid(types@, 0) == -1);
    }
    let mut warns: Vec<String> = Vec::new();
    proof {
        assert(strs_view(warns@) =~~= Seq::<Seq<char>>::empty());
    }
    let qmap = get_question_types_by_round(&question_set_docs, &mut warns);
    proof {
        assert(strs_view(warns@) =~= merge_docs(dv, dv.len() as int).1);
    }
    let count_records = quiz_records.len();
    let filtered = filter_records(quiz_records, tourn.clone());
    proof {
        assert(recs_view(filtered@) == filter_fold(rv, tourn@, rv.len() as int));
    }
    if filtered.len() == 0 && count_records > 0 {
        let mut msg = String::from_str("Warning: No records found for tournament ");
        msg.append(tourn.as_str());
        let ghost w0 = strs_view(warns@);
        proof {
            assert(msg@ =~= nofilter_msg(tourn@));
        }
        warns.push(msg);
        proof {
            assert(strs_view(warns@) =~= w0.push(nofilter_msg(tourn@)));
        }
    }
    let ghost w1 = merge_docs(dv, dv.len() as int).1 + (if filter_fold(
        rv,
        tourn@,
        rv.len() as int,
    ).len() == 0 && rv.len() > 0 {
        seq![nofilter_msg(tourn@)]
    } else {
        Seq::<Seq<char>>::empty()
    });
    proof {
        assert(strs_view(warns@) =~= w1);
    }
    let reconstructed = get_quizzer_names(filtered, &mut warns);
    let quizzer_names = reconstructed.0;
    let collections = reconstructed.1;
    proof {
        assert(pairs_view(quizzer_names@) == m.fin.confirmed_quizzers);
        assert(crate::reconstruct::reg_view(collections@) == m.fin.confirmed);
        assert(strs_view(warns@) == m.fin.warns);
    }
    let n = quizzer_names.len();
    let mut attempts = zero_table(n);
    let mut correct_answers = zero_table(n);
    let mut bonus_attempts = zero_table(n);
    let mut bonus = zero_table(n);
    let mut rounds: Vec<Round> = Vec::new();
    proof {
        assert(tbl_ok(zero_tbl(n as int), 0));
    }
    update_arrays(
        &mut warns,
        collections,
        &quizzer_names,
        qmap,
        &mut attempts,
        &mut correct_answers,
        &mut bonus_attempts,
        &mut bonus,
        &mut rounds,
    );
    proof {
        assert(tbl_model(attempts@) == m.sc.0.attempts);
        assert(tbl_model(correct_answers@) == m.sc.0.correct);
        assert(tbl_model(bonus_attempts@) == m.sc.0.bonus_attempts);
        assert(tbl_model(bonus@) == m.sc.0.bonus);
        assert(rounds_view(rounds@) =~= m.sc.1);
        assert(strs_view(warns@) == m.warns);
        lemma_score_all_shape(
            m.fin.confirmed,
            m.fin.confirmed.len() as int,
            ScoreState {
                attempts: zero_tbl(n as int),
                correct: zero_tbl(n as int),
                bonus_attempts: zero_tbl(n as int),
                bonus: zero_tbl(n as int),
                missing: Seq::empty(),
                warns: m.fin.warns,
            },
            m.qmap,
            m.fin.confirmed_quizzers,
            n as int,
        );
        assert forall|i: int| 0 <= i < rounds@.len() implies (
        #[trigger] rounds@[i]).team_scores@.len() >= rounds@[i].team_names@.len() by {
            assert(m.sc.1[i].scores.len() >= m.sc.1[i].names.len());
        }
        assert(attempts@.len() == n && correct_answers@.len() == n && bonus_attempts@.len() == n
            && bonus@.len() == n);
        assert forall|i: int| 0 <= i < quizzer_names@.len() implies (
        #[trigger] attempts@[i])@.len() == 9 by {
            assert(m.sc.0.attempts[i].len() == 9);
            assert(tbl_model(attempts@)[i].len() == attempts@[i]@.len());
        }
        assert forall|i: int| 0 <= i < quizzer_names@.len() implies (
        #[trigger] correct_answers@[i])@.len() == 9 by {
            assert(m.sc.0.correct[i].len() == 9);
            assert(tbl_model(correct_answers@)[i].len() == correct_answers@[i]@.len());
        }
        assert forall|i: int| 0 <= i < quizzer_names@.len() implies (
        #[trigger] bonus_attempts@[i])@.len() == 9 by {
            assert(m.sc.0.bonus_attempts[i].len() == 9);
            assert(tbl_model(bonus_attempts@)[i].len() == bonus_attempts@[i]@.len());
        }
        assert forall|i: int| 0 <= i < quizzer_names@.len() implies (#[trigger] bonus@[i])@.len()
            == 9 by {
            assert(m.sc.0.bonus[i].len() == 9);
            assert(tbl_model(bonus@)[i].len() == bonus@[i]@.len());
        }
    }
    let result = build_individual_results(
        quizzer_names,
        attempts,
        correct_answers,
        bonus_attempts,
        bonus,
        types,
        delim.clone(),
    );
    let team_result = build_team_results(&mut warns, rounds, delim, display_rounds);
    let mut out = result;
    out.append("\n");
    out.append(team_result.as_str());
    proof {
        reveal_strlit("\n");
    }
    Ok((warns, out))
}

/// Run the pipeline with its default settings: every category, a comma
/// delimiter, no tournament filter and no per-round breakdown.
pub fn qperformance(question_set_docs: Vec<String>, quiz_records: Vec<Vec<String>>) -> (r: Result<
    (Vec<String>, String),
    String,
>)
    requires
        ({
            let m = qperf_model(strs_view(question_set_docs@), recs_view(quiz_records@), ""@);
            total_records(m.fin.confirmed, m.fin.confirmed.len() as int) <= max_total_records()
                && scores_bounded(m.sc.1) && total_scored(m.sc.1, m.sc.1.len() as int)
                <= max_scored_entries()
        }),
    ensures
        ({
            let m = qperf_model(strs_view(question_set_docs@), recs_view(quiz_records@), ""@);
            match r {
                Err(_) => false,
                Ok((warns, out)) => strs_view(warns@) == m.warns && (exists|
                    rk: Seq<(String, u32, u32, u32, i32)>,
                |
                    rank_output_ok(m.sc.1, rk) && out@ == individual_results_spec(
                        m.fin.confirmed_quizzers,
                        m.sc.0.attempts,
                        m.sc.0.correct,
                        m.sc.0.bonus_attempts,
                        m.sc.0.bonus,
                        crate::question_type_letters(),
                        ","@,
                    ) + seq!['\n'] + team_results_spec(m.sc.1, ","@, false, rk)),
            }
        }),
{
    let types = crate::get_question_types();
    let delim = String::from_str(",");
    let tourn = String::new();
    proof {
        reveal_strlit(",");
        reveal_strlit("");
        assert(tourn@ =~= ""@);
        let ts = crate::question_type_letters();
        assert(chars_contain(ts, 'A')) by {
            assert(ts[0] == 'A');
        }
        assert(chars_contain(ts, 'G')) by {
            assert(ts[1] == 'G');
        }
        assert(chars_contain(ts, 'I')) by {
            assert(ts[2] == 'I');
        }
        assert(chars_contain(ts, 'Q')) by {
            assert(ts[3] == 'Q');
        }
        assert(chars_contain(ts, 'R')) by {
            assert(ts[4] == 'R');
        }
        assert(chars_contain(ts, 'S')) by {
            assert(ts[5] == 'S');
        }
        assert(chars_contain(ts, 'X')) by {
            assert(ts[6] == 'X');
        }
        assert(chars_contain(ts, 'V')) by {
            assert(ts[7] == 'V');
        }
        assert(chars_contain(ts, 'M')) by {
            assert(ts[8] == 'M');
        }
        assert(first_invalid(ts, 9) == -1);
        assert(first_invalid(ts, 8) == -1);
        assert(first_invalid(ts, 7) == -1);
        assert(first_invalid(ts, 6) == -1);
        assert(first_invalid(ts, 5) == -1);
        assert(first_invalid(ts, 4) == -1);
        assert(first_invalid(ts, 3) == -1);
        assert(first_invalid(ts, 2) == -1);
        assert(first_invalid(ts, 1) == -1);
        assert(first_invalid(ts, 0) == -1);
    }
    let r = qperf_core(question_set_docs, quiz_records, types, delim, tourn, false);
    proof {
        assert(r is Ok);
    }
    r
}

} // verus!