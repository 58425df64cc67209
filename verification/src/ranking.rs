//! The ranking engine: total wins and losses per team, a symmetric
//! head-to-head ledger per team pair, and the final placement sort.
//!
//! Teams are ranked by fewer losses, then more wins, then the accumulated
//! head-to-head score against the specific comparison opponent; residual
//! ties keep a stable relative order.
use vstd::prelude::*;
use vstd::string::StrSliceExecFns;
use vstd::string::StringExecFns;
use crate::strutil::str_eq;
use crate::strutil::str_le;
use crate::strutil::lex_le;
use crate::strutil::lemma_lex_le_total;
use crate::strutil::names_contain;
use crate::strutil::strs_view;
use crate::scoring::Round;
use crate::scoring::RoundModel;
use crate::scoring::rounds_view;
use crate::scoring::round_model;

verus! {

/// A scored team occurrence: a team name and its score in one round.
pub open spec fn scored_prefix(r: RoundModel, k: int) -> Seq<(Seq<char>, int)>
    decreases k,
{
    if k <= 0 {
        Seq::empty()
    } else {
        let p = scored_prefix(r, k - 1);
        if r.names[k - 1].len() > 0 {
            p.push((r.names[k - 1], r.scores[k - 1]))
        } else {
            p
        }
    }
}

/// The length of the shorter of the name and score lists.
pub open spec fn paired_len(r: RoundModel) -> int {
    if r.names.len() <= r.scores.len() {
        r.names.len() as int
    } else {
        r.scores.len() as int
    }
}

/// The non-empty-named (team, score) pairs of a round, in listed order.
pub open spec fn scored(r: RoundModel) -> Seq<(Seq<char>, int)> {
    scored_prefix(r, paired_len(r))
}

/// The sum of `f` over the pairs of a sequence.
pub open spec fn pair_sum(s: Seq<(Seq<char>, int)>, f: spec_fn((Seq<char>, int)) -> int) -> int
    decreases s.len(),
{
    if s.len() == 0 {
        0
    } else {
        pair_sum(s.drop_last(), f) + f(s.last())
    }
}

/// One where the score is below `x`, as a summand.
pub open spec fn lt_fn(x: int) -> spec_fn((Seq<char>, int)) -> int {
    |p: (Seq<char>, int)| if p.1 < x { 1int } else { 0int }
}

/// One where the score is above `x`, as a summand.
pub open spec fn gt_fn(x: int) -> spec_fn((Seq<char>, int)) -> int {
    |p: (Seq<char>, int)| if p.1 > x { 1int } else { 0int }
}

/// How many occurrences score strictly less than `x`.
pub open spec fn count_lt(s: Seq<(Seq<char>, int)>, x: int) -> int {
    pair_sum(s, lt_fn(x))
}

/// How many occurrences score strictly more than `x`.
pub open spec fn count_gt(s: Seq<(Seq<char>, int)>, x: int) -> int {
    pair_sum(s, gt_fn(x))
}

/// The wins an occurrence of team `n` gains, as a summand.
pub open spec fn wins_fn(s: Seq<(Seq<char>, int)>, n: Seq<char>) -> spec_fn((Seq<char>, int)) -> int {
    |p: (Seq<char>, int)| if p.0 == n { count_lt(s, p.1) } else { 0int }
}

/// The losses an occurrence of team `n` gains, as a summand.
pub open spec fn losses_fn(s: Seq<(Seq<char>, int)>, n: Seq<char>) -> spec_fn((Seq<char>, int)) -> int {
    |p: (Seq<char>, int)| if p.0 == n { count_gt(s, p.1) } else { 0int }
}

/// The score an occurrence of team `n` adds to its total, as a summand.
pub open spec fn total_fn(n: Seq<char>) -> spec_fn((Seq<char>, int)) -> int {
    |p: (Seq<char>, int)| if p.0 == n { p.1 } else { 0int }
}

/// The wins team `n` gains in a round with these scored occurrences: one
/// for each occurrence it beats, for each of its own occurrences.
pub open spec fn row_wins(s: Seq<(Seq<char>, int)>, n: Seq<char>) -> int {
    pair_sum(s, wins_fn(s, n))
}

/// The losses team `n` gains in a round with these scored occurrences.
pub open spec fn row_losses(s: Seq<(Seq<char>, int)>, n: Seq<char>) -> int {
    pair_sum(s, losses_fn(s, n))
}

/// Total wins of team `n` over the first `k` rounds; a round with fewer
/// than two scored teams grants none.
pub open spec fn wins_of(rs: Seq<RoundModel>, n: Seq<char>, k: int) -> int
    decreases k,
{
    if k <= 0 {
        0
    } else {
        wins_of(rs, n, k - 1) + (if scored(rs[k - 1]).len() >= 2 {
            row_wins(scored(rs[k - 1]), n)
        } else {
            0int
        })
    }
}

/// Total losses of team `n` over the first `k` rounds.
pub open spec fn losses_of(rs: Seq<RoundModel>, n: Seq<char>, k: int) -> int
    decreases k,
{
    if k <= 0 {
        0
    } else {
        losses_of(rs, n, k - 1) + (if scored(rs[k - 1]).len() >= 2 {
            row_losses(scored(rs[k - 1]), n)
        } else {
            0int
        })
    }
}

/// Total score of team `n` over the first `k` rounds, over every scored
/// occurrence of its name.
pub open spec fn total_of(rs: Seq<RoundModel>, n: Seq<char>, k: int) -> int
    decreases k,
{
    if k <= 0 {
        0
    } else {
        total_of(rs, n, k - 1) + pair_sum(scored(rs[k - 1]), total_fn(n))
    }
}

/// The distinct scored team names of the first `k` rounds, in order of
/// first appearance.
pub open spec fn add_names(acc: Seq<Seq<char>>, s: Seq<(Seq<char>, int)>, j: int) -> Seq<Seq<char>>
    decreases j,
{
    if j <= 0 {
        acc
    } else {
        let prev = add_names(acc, s, j - 1);
        if names_contain(prev, s[j - 1].0) {
            prev
        } else {
            prev.push(s[j - 1].0)
        }
    }
}

/// The distinct scored team names of the first `k` rounds.
pub open spec fn collect_names(rs: Seq<RoundModel>, k: int) -> Seq<Seq<char>>
    decreases k,
{
    if k <= 0 {
        Seq::empty()
    } else {
        let prev = collect_names(rs, k - 1);
        add_names(prev, scored(rs[k - 1]), scored(rs[k - 1]).len() as int)
    }
}

/// The canonical (first, second) order of a team-name pair.
pub open spec fn canon_pair(a: Seq<char>, b: Seq<char>) -> (Seq<char>, Seq<char>) {
    if lex_le(a, b) {
        (a, b)
    } else {
        (b, a)
    }
}

/// Index of the ledger entry with this canonical key, from `i`; -1 if none.
pub open spec fn led_find_from(
    led: Seq<((Seq<char>, Seq<char>), (int, int))>,
    key: (Seq<char>, Seq<char>),
    i: int,
) -> int
    decreases led.len() - i,
{
    if i < 0 || i >= led.len() {
        -1
    } else if led[i].0 == key {
        i
    } else {
        led_find_from(led, key, i + 1)
    }
}

/// The contribution of one encounter between two scored occurrences: both
/// scores, pinned to the canonical slots of the pair (for a repeated name,
/// the larger score goes to the first slot).
pub open spec fn encounter(p: (Seq<char>, int), q: (Seq<char>, int)) -> (
    (Seq<char>, Seq<char>),
    (int, int),
) {
    if p.0 == q.0 {
        ((p.0, q.0), (if p.1 >= q.1 { p.1 } else { q.1 }, if p.1 >= q.1 { q.1 } else { p.1 }))
    } else if lex_le(p.0, q.0) {
        ((p.0, q.0), (p.1, q.1))
    } else {
        ((q.0, p.0), (q.1, p.1))
    }
}

/// Record one encounter in the ledger: the pair's slots accumulate.
pub open spec fn ledger_add(
    led: Seq<((Seq<char>, Seq<char>), (int, int))>,
    p: (Seq<char>, int),
    q: (Seq<char>, int),
) -> Seq<((Seq<char>, Seq<char>), (int, int))> {
    let c = encounter(p, q);
    let j = led_find_from(led, c.0, 0);
    if j >= 0 {
        led.update(j, (c.0, (led[j].1.0 + c.1.0, led[j].1.1 + c.1.1)))
    } else {
        led.push(c)
    }
}

/// The encounters one round records: one for a two-team round, all three
/// pairs for a three-team round, none otherwise.
pub open spec fn round_ledger(
    led: Seq<((Seq<char>, Seq<char>), (int, int))>,
    s: Seq<(Seq<char>, int)>,
) -> Seq<((Seq<char>, Seq<char>), (int, int))> {
    if s.len() == 2 {
        ledger_add(led, s[0], s[1])
    } else if s.len() == 3 {
        ledger_add(ledger_add(ledger_add(led, s[0], s[1]), s[0], s[2]), s[1], s[2])
    } else {
        led
    }
}

/// The head-to-head ledger of the first `k` rounds.
pub open spec fn ledger_of(rs: Seq<RoundModel>, k: int) -> Seq<((Seq<char>, Seq<char>), (int, int))>
    decreases k,
{
    if k <= 0 {
        Seq::empty()
    } else {
        round_ledger(ledger_of(rs, k - 1), scored(rs[k - 1]))
    }
}

/// The accumulated slots stored under a key, zero when the pair was never
/// recorded.
pub open spec fn slots_of(
    led: Seq<((Seq<char>, Seq<char>), (int, int))>,
    key: (Seq<char>, Seq<char>),
) -> (int, int) {
    let j = led_find_from(led, key, 0);
    if j >= 0 {
        led[j].1
    } else {
        (0int, 0int)
    }
}

/// The accumulated head-to-head scores of `na` and `nb`, in that order,
/// read from the ledger; zero for a pair never recorded.
pub open spec fn h2h_for(
    led: Seq<((Seq<char>, Seq<char>), (int, int))>,
    na: Seq<char>,
    nb: Seq<char>,
) -> (int, int) {
    let key = canon_pair(na, nb);
    let slots = slots_of(led, key);
    if na == key.0 {
        slots
    } else {
        (slots.1, slots.0)
    }
}

/// The primary ranking key order: fewer losses first, then more wins.
pub open spec fn key_le_entry(a: (String, u32, u32, u32, i32), b: (String, u32, u32, u32, i32)) -> bool {
    (a.3 as int) < (b.3 as int) || ((a.3 as int) == (b.3 as int) && (a.2 as int) >= (b.2 as int))
}

/// Whether entry `a` may stand before entry `b`: strictly better on the
/// primary keys, or tied with a head-to-head total at least the opponent's.
pub open spec fn rank_le_entry(
    a: (String, u32, u32, u32, i32),
    b: (String, u32, u32, u32, i32),
    led: Seq<((Seq<char>, Seq<char>), (int, int))>,
) -> bool {
    if (a.3 as int) != (b.3 as int) {
        (a.3 as int) < (b.3 as int)
    } else if (a.2 as int) != (b.2 as int) {
        (a.2 as int) > (b.2 as int)
    } else {
        let hh = h2h_for(led, a.0@, b.0@);
        hh.1 <= hh.0
    }
}

proof fn lemma_led_find_bounds(
    led: Seq<((Seq<char>, Seq<char>), (int, int))>,
    key: (Seq<char>, Seq<char>),
    i: int,
)
    ensures
        led_find_from(led, key, i) == -1 || (i <= led_find_from(led, key, i) < led.len()
            && led[led_find_from(led, key, i)].0 == key),
    decreases led.len() - i,
{
    if 0 <= i < led.len() && led[i].0 != key {
        lemma_led_find_bounds(led, key, i + 1);
    }
}

/// Entries with distinct names compare both ways or one way: the order is
/// total on them.
pub proof fn lemma_rank_le_total(
    a: (String, u32, u32, u32, i32),
    b: (String, u32, u32, u32, i32),
    led: Seq<((Seq<char>, Seq<char>), (int, int))>,
)
    requires
        a.0@ != b.0@,
    ensures
        rank_le_entry(a, b, led) || rank_le_entry(b, a, led),
{
    if (a.3 as int) == (b.3 as int) && (a.2 as int) == (b.2 as int) {
        lemma_lex_le_total(a.0@, b.0@);
        let key = canon_pair(a.0@, b.0@);
        let key2 = canon_pair(b.0@, a.0@);
        assert(key == key2) by {
            if lex_le(a.0@, b.0@) && lex_le(b.0@, a.0@) {
                crate::strutil::lemma_lex_le_antisymmetric(a.0@, b.0@);
            }
        }
        let hab = h2h_for(led, a.0@, b.0@);
        let hba = h2h_for(led, b.0@, a.0@);
        assert(hab.0 == hba.1 && hab.1 == hba.0);
    }
}

/// All scores of every round lie within the machine cap.
pub open spec fn scores_bounded(rs: Seq<RoundModel>) -> bool {
    forall|k: int, i: int|
        0 <= k < rs.len() && 0 <= i < rs[k].scores.len() ==> -400000 <= #[trigger] rs[k].scores[i]
            <= 400000
}

/// The total number of scored occurrences in the first `k` rounds.
pub open spec fn total_scored(rs: Seq<RoundModel>, k: int) -> int
    decreases k,
{
    if k <= 0 {
        0
    } else {
        total_scored(rs, k - 1) + scored(rs[k - 1]).len()
    }
}

/// The cap on scored occurrences that keeps every counter in machine range.
pub open spec fn max_scored_entries() -> int {
    5000
}

/// View of an executable scored list.
pub open spec fn spairs_view(v: Seq<(String, i32)>) -> Seq<(Seq<char>, int)> {
    Seq::new(v.len(), |i: int| (v[i].0@, v[i].1 as int))
}

/// View of an executable ledger.
pub open spec fn ledger_view(v: Seq<((String, String), (i32, i32))>) -> Seq<
    ((Seq<char>, Seq<char>), (int, int)),
> {
    Seq::new(v.len(), |i: int| ((v[i].0.0@, v[i].0.1@), (v[i].1.0 as int, v[i].1.1 as int)))
}

/// Every ledger slot magnitude is at most `b`.
pub open spec fn ledger_ok(led: Seq<((Seq<char>, Seq<char>), (int, int))>, b: int) -> bool {
    forall|j: int|
        0 <= j < led.len() ==> -b <= (#[trigger] led[j]).1.0 <= b && -b <= led[j].1.1 <= b
}

proof fn lemma_pair_sum_bound(s: Seq<(Seq<char>, int)>, f: spec_fn((Seq<char>, int)) -> int, lo: int, hi: int)
    requires
        forall|i: int| 0 <= i < s.len() ==> lo <= #[trigger] f(s[i]) <= hi,
        lo <= 0 <= hi,
    ensures
        lo * s.len() <= pair_sum(s, f) <= hi * s.len(),
    decreases s.len(),
{
    if s.len() == 0 {
    } else {
        assert(forall|i: int| 0 <= i < s.drop_last().len() ==> lo <= #[trigger] f(
            s.drop_last()[i],
        ) <= hi) by {
            assert(forall|i: int| 0 <= i < s.len() - 1 ==> s.drop_last()[i] == s[i]);
        }
        lemma_pair_sum_bound(s.drop_last(), f, lo, hi);
        assert(lo <= f(s.last()) <= hi);
        assert(lo * (s.len() - 1) + lo == lo * s.len() && hi * (s.len() - 1) + hi == hi * s.len())
            by (nonlinear_arith);
    }
}

proof fn lemma_scored_len_le_total(rs: Seq<RoundModel>, k: int)
    requires
        0 <= k < rs.len(),
    ensures
        scored(rs[k]).len() <= total_scored(rs, k + 1),
        total_scored(rs, k + 1) >= 0,
{
    lemma_total_scored_mono(rs, 0, k);
    assert(total_scored(rs, 0) == 0);
}

proof fn lemma_total_scored_mono(rs: Seq<RoundModel>, a: int, b: int)
    requires
        a <= b,
    ensures
        total_scored(rs, a) <= total_scored(rs, b),
    decreases b - a,
{
    if a < b {
        lemma_total_scored_mono(rs, a, b - 1);
    }
}

/// Every scored occurrence in a round keeps the score bounds of the round.
proof fn lemma_scored_prefix_bounded(r: RoundModel, k: int, cap: int)
    requires
        forall|i: int| 0 <= i < r.scores.len() ==> -cap <= #[trigger] r.scores[i] <= cap,
        k <= paired_len(r),
    ensures
        forall|i: int|
            0 <= i < scored_prefix(r, k).len() ==> -cap <= (#[trigger] scored_prefix(r, k)[i]).1
                <= cap,
    decreases k,
{
    if k > 0 {
        lemma_scored_prefix_bounded(r, k - 1, cap);
        assert forall|i: int| 0 <= i < scored_prefix(r, k).len() implies -cap <= (
        #[trigger] scored_prefix(r, k)[i]).1 <= cap by {
            if i < scored_prefix(r, k - 1).len() {
                assert(scored_prefix(r, k)[i] == scored_prefix(r, k - 1)[i]);
            }
        }
    }
}

/// The wins tally over `k` rounds stays within the machine bound.
proof fn lemma_wins_of_bound(rs: Seq<RoundModel>, n: Seq<char>, k: int)
    requires
        0 <= k <= rs.len(),
        total_scored(rs, rs.len() as int) <= max_scored_entries(),
    ensures
        0 <= wins_of(rs, n, k) <= 5000 * total_scored(rs, k),
        0 <= losses_of(rs, n, k) <= 5000 * total_scored(rs, k),
    decreases k,
{
    if k > 0 {
        lemma_wins_of_bound(rs, n, k - 1);
        let s = scored(rs[k - 1]);
        lemma_scored_len_le_total(rs, k - 1);
        lemma_total_scored_mono(rs, k, rs.len() as int);
        assert(s.len() <= 5000);
        assert forall|i: int| 0 <= i < s.len() implies 0 <= #[trigger] wins_fn(s, n)(s[i])
            <= s.len() by {
            lemma_pair_sum_bound(s, lt_fn(s[i].1), 0, 1);
        }
        lemma_pair_sum_bound(s, wins_fn(s, n), 0, s.len() as int);
        assert forall|i: int| 0 <= i < s.len() implies 0 <= #[trigger] losses_fn(s, n)(s[i])
            <= s.len() by {
            lemma_pair_sum_bound(s, gt_fn(s[i].1), 0, 1);
        }
        lemma_pair_sum_bound(s, losses_fn(s, n), 0, s.len() as int);
        assert(row_wins(s, n) <= s.len() * s.len());
        assert(row_losses(s, n) <= s.len() * s.len());
        assert(s.len() * s.len() <= 5000 * s.len()) by (nonlinear_arith)
            requires s.len() <= 5000;
        assert(5000 * total_scored(rs, k - 1) + 5000 * s.len() == 5000 * total_scored(rs, k))
            by (nonlinear_arith)
            requires total_scored(rs, k) == total_scored(rs, k - 1) + s.len();
    }
}

/// The total-score tally over `k` rounds stays within the machine bound.
proof fn lemma_total_of_bound(rs: Seq<RoundModel>, n: Seq<char>, k: int)
    requires
        0 <= k <= rs.len(),
        total_scored(rs, rs.len() as int) <= max_scored_entries(),
        scores_bounded(rs),
    ensures
        -400000 * total_scored(rs, k) <= total_of(rs, n, k) <= 400000 * total_scored(rs, k),
    decreases k,
{
    if k > 0 {
        lemma_total_of_bound(rs, n, k - 1);
        let s = scored(rs[k - 1]);
        lemma_scored_prefix_bounded(rs[k - 1], paired_len(rs[k - 1]), 400000);
        assert forall|i: int| 0 <= i < s.len() implies -400000 <= #[trigger] total_fn(n)(s[i])
            <= 400000 by {
            assert(-400000 <= s[i].1 <= 400000);
        }
        lemma_pair_sum_bound(s, total_fn(n), -400000, 400000);
        assert(-400000 * total_scored(rs, k - 1) + -400000 * s.len() == -400000 * total_scored(
            rs,
            k,
        ) && 400000 * total_scored(rs, k - 1) + 400000 * s.len() == 400000 * total_scored(rs, k))
            by (nonlinear_arith)
            requires total_scored(rs, k) == total_scored(rs, k - 1) + s.len();
    }
}

proof fn lemma_ledger_ok_mono(led: Seq<((Seq<char>, Seq<char>), (int, int))>, b: int, b2: int)
    requires
        ledger_ok(led, b),
        b <= b2,
    ensures
        ledger_ok(led, b2),
{
}

/// The scored occurrences of a round: its non-empty-named teams with their
/// scores, in listed order.
#[verifier::loop_isolation(false)]
fn scored_exec(r: &Round) -> (sv: Vec<(String, i32)>)
    ensures
        spairs_view(sv@) == scored(round_model(*r)),
{
    let rm = if r.team_names.len() <= r.team_scores.len() {
        r.team_names.len()
    } else {
        r.team_scores.len()
    };
    let ghost m = round_model(*r);
    proof {
        assert(rm as int == paired_len(m));
    }
    let mut sv: Vec<(String, i32)> = Vec::new();
    proof {
        assert(spairs_view(sv@) =~~= scored_prefix(m, 0));
    }
    let mut t: usize = 0;
    while t < rm
        invariant
            t <= rm,
            rm as int == paired_len(m),
            m == round_model(*r),
            spairs_view(sv@) == scored_prefix(m, t as int),
        decreases rm - t,
    {
        proof {
            assert(m.names[t as int] == r.team_names@[t as int]@);
        }
        if !r.team_names[t].as_str().is_empty() {
            let ghost prev = spairs_view(sv@);
            sv.push((r.team_names[t].clone(), r.team_scores[t]));
            proof {
                assert(spairs_view(sv@) =~~= prev.push((m.names[t as int], m.scores[t as int])));
            }
        }
        t += 1;
    }
    sv
}

/// How many occurrences of the round score strictly less than `x`.
#[verifier::loop_isolation(false)]
fn count_lt_exec(sv: &Vec<(String, i32)>, x: i32) -> (r: usize)
    ensures
        r as int == count_lt(spairs_view(sv@), x as int),
        r <= sv@.len(),
{
    let ghost sp = spairs_view(sv@);
    let mut cnt: usize = 0;
    let mut j: usize = 0;
    while j < sv.len()
        invariant
            j <= sv@.len(),
            sp == spairs_view(sv@),
            cnt as int == pair_sum(sp.take(j as int), lt_fn(x as int)),
            cnt <= j,
        decreases sv@.len() - j,
    {
        proof {
            assert(sp.take(j as int + 1).drop_last() =~= sp.take(j as int));
            assert(sp.take(j as int + 1).last() == sp[j as int]);
        }
        if sv[j].1 < x {
            cnt += 1;
        }
        j += 1;
    }
    proof {
        assert(sp.take(sp.len() as int) =~= sp);
    }
    cnt
}

/// How many occurrences of the round score strictly more than `x`.
#[verifier::loop_isolation(false)]
fn count_gt_exec(sv: &Vec<(String, i32)>, x: i32) -> (r: usize)
    ensures
        r as int == count_gt(spairs_view(sv@), x as int),
        r <= sv@.len(),
{
    let ghost sp = spairs_view(sv@);
    let mut cnt: usize = 0;
    let mut j: usize = 0;
    while j < sv.len()
        invariant
            j <= sv@.len(),
            sp == spairs_view(sv@),
            cnt as int == pair_sum(sp.take(j as int), gt_fn(x as int)),
            cnt <= j,
        decreases sv@.len() - j,
    {
        proof {
            assert(sp.take(j as int + 1).drop_last() =~= sp.take(j as int));
            assert(sp.take(j as int + 1).last() == sp[j as int]);
        }
        if sv[j].1 > x {
            cnt += 1;
        }
        j += 1;
    }
    proof {
        assert(sp.take(sp.len() as int) =~= sp);
    }
    cnt
}

/// The canonical order of two team names: the lexicographically smaller
/// first.
pub fn generate_matchup_key(team_a: &str, team_b: &str) -> (r: (String, String))
    ensures
        (r.0@, r.1@) == canon_pair(team_a@, team_b@),
{
    if str_le(team_a, team_b) {
        (String::from_str(team_a), String::from_str(team_b))
    } else {
        (String::from_str(team_b), String::from_str(team_a))
    }
}

/// Index of the ledger entry with this key, if any.
fn led_find_exec(led: &Vec<((String, String), (i32, i32))>, k0: &str, k1: &str) -> (r: Option<
    usize,
>)
    ensures
        (match r {
            Some(j) => led_find_from(ledger_view(led@), (k0@, k1@), 0) == j as int && (j as int)
                < led@.len(),
            None => led_find_from(ledger_view(led@), (k0@, k1@), 0) == -1,
        }),
{
    let ghost lv = ledger_view(led@);
    let mut i: usize = 0;
    while i < led.len()
        invariant
            i <= led@.len(),
            lv == ledger_view(led@),
            led_find_from(lv, (k0@, k1@), 0) == led_find_from(lv, (k0@, k1@), i as int),
        decreases led@.len() - i,
    {
        if str_eq(led[i].0.0.as_str(), k0) && str_eq(led[i].0.1.as_str(), k1) {
            assert(lv[i as int].0 == (k0@, k1@));
            return Some(i);
        }
        assert(lv[i as int].0 != (k0@, k1@));
        i += 1;
    }
    None
}

/// Every ledger slot leaves room for one more encounter.
pub open spec fn ledger_room(led: Seq<((Seq<char>, Seq<char>), (int, int))>) -> bool {
    ledger_ok(led, i32::MAX as int - 400000)
}

/// Adding one encounter grows every slot magnitude by at most the score cap.
pub proof fn lemma_ledger_add_ok(
    led: Seq<((Seq<char>, Seq<char>), (int, int))>,
    p: (Seq<char>, int),
    q: (Seq<char>, int),
    b: int,
)
    requires
        ledger_ok(led, b),
        b >= 0,
        -400000 <= p.1 <= 400000,
        -400000 <= q.1 <= 400000,
    ensures
        ledger_ok(ledger_add(led, p, q), b + 400000),
{
    lemma_led_find_bounds(led, encounter(p, q).0, 0);
}

/// Record one head-to-head encounter between two teams: both scores
/// accumulate into the pair's canonically ordered ledger slots.
#[verifier::loop_isolation(false)]
pub fn handle_matchup(
    head_to_head: &mut Vec<((String, String), (i32, i32))>,
    team_a: &str,
    team_b: &str,
    score_a: i32,
    score_b: i32,
)
    requires
        ledger_room(ledger_view(old(head_to_head)@)),
        -400000 <= score_a <= 400000,
        -400000 <= score_b <= 400000,
    ensures
        ledger_view(final(head_to_head)@) == ledger_add(
            ledger_view(old(head_to_head)@),
            (team_a@, score_a as int),
            (team_b@, score_b as int),
        ),
{
    let ghost lv = ledger_view(head_to_head@);
    let ghost c = encounter((team_a@, score_a as int), (team_b@, score_b as int));
    let (key, slots): ((String, String), (i32, i32)) = if str_eq(team_a, team_b) {
        let k = (String::from_str(team_a), String::from_str(team_b));
        if score_a >= score_b {
            (k, (score_a, score_b))
        } else {
            (k, (score_b, score_a))
        }
    } else if str_le(team_a, team_b) {
        ((String::from_str(team_a), String::from_str(team_b)), (score_a, score_b))
    } else {
        ((String::from_str(team_b), String::from_str(team_a)), (score_b, score_a))
    };
    proof {
        assert((key.0@, key.1@) == c.0);
        assert((slots.0 as int, slots.1 as int) == c.1);
    }
    match led_find_exec(head_to_head, key.0.as_str(), key.1.as_str()) {
        Some(j) => {
            let entry = head_to_head.remove(j);
            proof {
                assert(lv[j as int] == ((entry.0.0@, entry.0.1@), (entry.1.0 as int, entry.1.1
                    as int)));
                assert(-(i32::MAX as int - 400000) <= entry.1.0 as int <= i32::MAX as int
                    - 400000);
                assert(-(i32::MAX as int - 400000) <= entry.1.1 as int <= i32::MAX as int
                    - 400000);
            }
            let ns = (entry.1.0 + slots.0, entry.1.1 + slots.1);
            head_to_head.insert(j, (key, ns));
            proof {
                assert(ledger_view(head_to_head@) =~~= lv.update(
                    j as int,
                    (c.0, (lv[j as int].1.0 + c.1.0, lv[j as int].1.1 + c.1.1)),
                ));
            }
        },
        None => {
            head_to_head.push((key, slots));
            proof {
                assert(ledger_view(head_to_head@) =~~= lv.push(c));
            }
        },
    }
}

/// Whether entry `a` may stand at or before entry `b` under the ranking
/// order, reading the head-to-head ledger for the final tie-break.
fn rank_le_exec(
    a: &(String, u32, u32, u32, i32),
    b: &(String, u32, u32, u32, i32),
    head_to_head: &Vec<((String, String), (i32, i32))>,
) -> (r: bool)
    ensures
        r == rank_le_entry(*a, *b, ledger_view(head_to_head@)),
{
    if a.3 != b.3 {
        a.3 < b.3
    } else if a.2 != b.2 {
        a.2 > b.2
    } else {
        let key = generate_matchup_key(a.0.as_str(), b.0.as_str());
        let slots: (i32, i32) = match led_find_exec(head_to_head, key.0.as_str(), key.1.as_str()) {
            Some(j) => {
                proof {
                    lemma_led_find_bounds(ledger_view(head_to_head@), (key.0@, key.1@), 0);
                }
                head_to_head[j].1
            },
            None => (0, 0),
        };
        let (ha, hb): (i32, i32) = if str_eq(a.0.as_str(), key.0.as_str()) {
            slots
        } else {
            (slots.1, slots.0)
        };
        hb <= ha
    }
}

/// An entry allowed before another is at least as good on the primary keys.
proof fn lemma_rank_le_implies_key_le(
    a: (String, u32, u32, u32, i32),
    b: (String, u32, u32, u32, i32),
    led: Seq<((Seq<char>, Seq<char>), (int, int))>,
)
    requires
        rank_le_entry(a, b, led),
    ensures
        key_le_entry(a, b),
{
}

/// Adjacent ordering under the ranking comparator yields global ordering
/// on the primary keys.
proof fn lemma_adjacent_key_sorted(
    v: Seq<(String, u32, u32, u32, i32)>,
    led: Seq<((Seq<char>, Seq<char>), (int, int))>,
    i: int,
    j: int,
)
    requires
        forall|k: int| 0 <= k < v.len() - 1 ==> rank_le_entry(#[trigger] v[k], v[k + 1], led),
        0 <= i < j < v.len(),
    ensures
        key_le_entry(v[i], v[j]),
    decreases j - i,
{
    if i + 1 == j {
        lemma_rank_le_implies_key_le(v[i], v[j], led);
    } else {
        lemma_adjacent_key_sorted(v, led, i, j - 1);
        lemma_rank_le_implies_key_le(v[j - 1], v[j], led);
    }
}

/// Pairwise distinct entry names.
pub open spec fn distinct_names(v: Seq<(String, u32, u32, u32, i32)>) -> bool {
    forall|i: int, j: int| 0 <= i < j < v.len() ==> (#[trigger] v[i]).0@ != (#[trigger] v[j]).0@
}

/// Sort the ranking entries by the comparator: fewer losses, more wins,
/// then the head-to-head tie-break; ties keep a stable relative order.
#[verifier::loop_isolation(false)]
fn sort_entries(
    v: &mut Vec<(String, u32, u32, u32, i32)>,
    head_to_head: &Vec<((String, String), (i32, i32))>,
)
    requires
        distinct_names(old(v)@),
    ensures
        final(v)@.to_multiset() == old(v)@.to_multiset(),
        final(v)@.len() == old(v)@.len(),
        distinct_names(final(v)@),
        forall|k: int|
            0 <= k < final(v)@.len() - 1 ==> rank_le_entry(
                #[trigger] final(v)@[k],
                final(v)@[k + 1],
                ledger_view(head_to_head@),
            ),
{
    broadcast use vstd::seq_lib::group_to_multiset_ensures;

    let ghost led = ledger_view(head_to_head@);
    let ghost v0 = v@;
    let mut i: usize = 1;
    while i < v.len()
        invariant
            1 <= i <= v@.len() || v@.len() == 0,
            v@.len() == v0.len(),
            v@.to_multiset() == v0.to_multiset(),
            distinct_names(v@),
            forall|k: int| 0 <= k < i - 1 ==> rank_le_entry(#[trigger] v@[k], v@[k + 1], led),
        decreases v@.len() - i,
    {
        let mut j: usize = i;
        while j > 0 && !rank_le_exec(&v[j - 1], &v[j], head_to_head)
            invariant
                0 <= j <= i < v@.len(),
                v@.len() == v0.len(),
                v@.to_multiset() == v0.to_multiset(),
                distinct_names(v@),
                forall|k: int|
                    0 <= k < i && k != j - 1 ==> rank_le_entry(#[trigger] v@[k], v@[k + 1], led),
                0 < j < i ==> rank_le_entry(v@[j - 1], v@[j + 1], led),
            decreases j,
        {
            let ghost vold = v@;
            proof {
                assert(vold[j - 1].0@ != vold[j as int].0@);
                lemma_rank_le_total(vold[j - 1], vold[j as int], led);
            }
            let x = v.remove(j);
            v.insert(j - 1, x);
            proof {
                assert(v@ =~= vold.update(j - 1, vold[j as int]).update(j as int, vold[j - 1]));
                assert(v@.to_multiset() == vold.to_multiset()) by {
                    assert(vold.remove(j as int).to_multiset() == vold.to_multiset().remove(
                        vold[j as int],
                    ));
                    assert(vold.remove(j as int).insert(j - 1, vold[j as int]).to_multiset()
                        == vold.remove(j as int).to_multiset().insert(vold[j as int]));
                    assert(vold.to_multiset().remove(vold[j as int]).insert(vold[j as int]) =~= vold.to_multiset());
                }
                assert(distinct_names(v@)) by {
                    assert forall|p: int, q: int| 0 <= p < q < v@.len() implies (
                    #[trigger] v@[p]).0@ != (#[trigger] v@[q]).0@ by {
                        let p2: int = if p == j - 1 {
                            j as int
                        } else if p == j {
                            j - 1
                        } else {
                            p
                        };
                        let q2: int = if q == j - 1 {
                            j as int
                        } else if q == j {
                            j - 1
                        } else {
                            q
                        };
                        assert(v@[p] == vold[p2] && v@[q] == vold[q2]);
                        if p2 < q2 {
                            assert(vold[p2].0@ != vold[q2].0@);
                        } else {
                            assert(vold[q2].0@ != vold[p2].0@);
                        }
                    }
                }
            }
            j -= 1;
        }
        i += 1;
    }
    proof {
        if v@.len() > 0 {
            assert(forall|k: int|
                0 <= k < v@.len() - 1 ==> rank_le_entry(#[trigger] v@[k], v@[k + 1], led));
        }
    }
}

proof fn lemma_add_names_len(acc: Seq<Seq<char>>, s: Seq<(Seq<char>, int)>, j: int)
    requires
        j >= 0,
    ensures
        add_names(acc, s, j).len() <= acc.len() + j,
    decreases j,
{
    if j > 0 {
        lemma_add_names_len(acc, s, j - 1);
    }
}

proof fn lemma_collect_names_len(rs: Seq<RoundModel>, k: int)
    requires
        0 <= k,
    ensures
        collect_names(rs, k).len() <= total_scored(rs, k),
    decreases k,
{
    if k > 0 {
        lemma_collect_names_len(rs, k - 1);
        lemma_add_names_len(collect_names(rs, k - 1), scored(rs[k - 1]), scored(rs[k - 1]).len() as int);
    }
}

proof fn lemma_add_names_distinct(acc: Seq<Seq<char>>, s: Seq<(Seq<char>, int)>, j: int)
    requires
        j >= 0,
        forall|p: int, q: int| 0 <= p < q < acc.len() ==> acc[p] != acc[q],
    ensures
        forall|p: int, q: int|
            0 <= p < q < add_names(acc, s, j).len() ==> add_names(acc, s, j)[p] != add_names(
                acc,
                s,
                j,
            )[q],
        forall|p: int| 0 <= p < acc.len() ==> add_names(acc, s, j)[p] == acc[p],
        add_names(acc, s, j).len() >= acc.len(),
    decreases j,
{
    if j > 0 {
        lemma_add_names_distinct(acc, s, j - 1);
        let prev = add_names(acc, s, j - 1);
        if !names_contain(prev, s[j - 1].0) {
            let pushed = prev.push(s[j - 1].0);
            assert forall|p: int, q: int| 0 <= p < q < pushed.len() implies #[trigger] pushed[p]
                != #[trigger] pushed[q] by {
                if q < prev.len() {
                    assert(prev[p] != prev[q]);
                } else {
                    assert(!(exists|t: int| 0 <= t < prev.len() && prev[t] == s[j - 1].0));
                    assert(pushed[p] == prev[p]);
                }
            }
        }
    }
}

/// The per-round and running tallies of one team.
#[verifier::loop_isolation(false)]
#[verifier::rlimit(100)]
fn compute_tallies(
    scoreds: &Vec<Vec<(String, i32)>>,
    rv: Ghost<Seq<RoundModel>>,
    n: &str,
) -> (r: (u32, u32, i32))
    requires
        scoreds@.len() == rv@.len(),
        forall|k: int| 0 <= k < rv@.len() ==> spairs_view((#[trigger] scoreds@[k])@) == scored(rv@[k]),
        scores_bounded(rv@),
        total_scored(rv@, rv@.len() as int) <= max_scored_entries(),
    ensures
        r.0 as int == wins_of(rv@, n@, rv@.len() as int),
        r.1 as int == losses_of(rv@, n@, rv@.len() as int),
        r.2 as int == total_of(rv@, n@, rv@.len() as int),
{
    let mut w: u32 = 0;
    let mut l: u32 = 0;
    let mut tt: i32 = 0;
    let mut k: usize = 0;
    while k < scoreds.len()
        invariant
            k <= rv@.len(),
            w as int == wins_of(rv@, n@, k as int),
            l as int == losses_of(rv@, n@, k as int),
            tt as int == total_of(rv@, n@, k as int),
        decreases rv@.len() - k,
    {
        let sv = &scoreds[k];
        let ghost sp = scored(rv@[k as int]);
        proof {
            assert(sp == spairs_view(sv@));
            lemma_scored_len_le_total(rv@, k as int);
            lemma_total_scored_mono(rv@, k as int + 1, rv@.len() as int);
            assert(sp.len() <= 5000);
            lemma_scored_prefix_bounded(rv@[k as int], paired_len(rv@[k as int]), 400000);
            assert(sp.take(0) =~= Seq::<(Seq<char>, int)>::empty());
        }
        let mut row_w: usize = 0;
        let mut row_l: usize = 0;
        let mut row_t: i32 = 0;
        let mut j: usize = 0;
        while j < sv.len()
            invariant
                j <= sv@.len(),
                sp == spairs_view(sv@),
                sp.len() <= 5000,
                forall|i: int| 0 <= i < sp.len() ==> -400000 <= (#[trigger] sp[i]).1 <= 400000,
                row_w as int == pair_sum(sp.take(j as int), wins_fn(sp, n@)),
                row_l as int == pair_sum(sp.take(j as int), losses_fn(sp, n@)),
                row_t as int == pair_sum(sp.take(j as int), total_fn(n@)),
                row_w as int <= j * sp.len(),
                row_l as int <= j * sp.len(),
                -400000 * j <= row_t as int <= 400000 * j,
            decreases sv@.len() - j,
        {
            proof {
                assert(sp.take(j as int + 1).drop_last() =~= sp.take(j as int));
                assert(sp.take(j as int + 1).last() == sp[j as int]);
                assert((j as int + 1) * sp.len() == j * sp.len() + sp.len()) by (nonlinear_arith);
                assert(j * sp.len() <= 5000 * sp.len()) by (nonlinear_arith)
                    requires j <= 5000, sp.len() >= 0;
                assert(j as int <= 5000);
            }
            if str_eq(sv[j].0.as_str(), n) {
                let c = count_lt_exec(sv, sv[j].1);
                let g = count_gt_exec(sv, sv[j].1);
                proof {
                    assert(wins_fn(sp, n@)(sp[j as int]) == c as int);
                    assert(losses_fn(sp, n@)(sp[j as int]) == g as int);
                    assert(total_fn(n@)(sp[j as int]) == sp[j as int].1);
                    assert(-400000 <= sp[j as int].1 <= 400000);
                }
                row_w = row_w + c;
                row_l = row_l + g;
                row_t = row_t + sv[j].1;
            } else {
                proof {
                    assert(wins_fn(sp, n@)(sp[j as int]) == 0);
                    assert(losses_fn(sp, n@)(sp[j as int]) == 0);
                    assert(total_fn(n@)(sp[j as int]) == 0);
                }
            }
            j += 1;
        }
        proof {
            assert(sp.take(sp.len() as int) =~= sp);
            lemma_wins_of_bound(rv@, n@, k as int);
            lemma_wins_of_bound(rv@, n@, k as int + 1);
            lemma_total_of_bound(rv@, n@, k as int);
            lemma_total_of_bound(rv@, n@, k as int + 1);
            assert(5000 * total_scored(rv@, k as int + 1) <= 25000000);
            assert(400000 * total_scored(rv@, k as int + 1) <= 2000000000);
            lemma_total_scored_mono(rv@, 0, k as int);
            lemma_total_scored_mono(rv@, 0, k as int + 1);
        }
        if sv.len() >= 2 {
            w = w + (row_w as u32);
            l = l + (row_l as u32);
        }
        tt = tt + row_t;
        k += 1;
    }
    (w, l, tt)
}

/// The distinct names collected from the rounds are pairwise distinct.
proof fn lemma_collect_names_distinct(rs: Seq<RoundModel>, k: int)
    requires
        0 <= k,
    ensures
        forall|p: int, q: int|
            0 <= p < q < collect_names(rs, k).len() ==> collect_names(rs, k)[p] != collect_names(
                rs,
                k,
            )[q],
    decreases k,
{
    if k > 0 {
        lemma_collect_names_distinct(rs, k - 1);
        lemma_add_names_distinct(
            collect_names(rs, k - 1),
            scored(rs[k - 1]),
            scored(rs[k - 1]).len() as int,
        );
    }
}

/// What one encounter adds to the slots stored under a key.
pub open spec fn enc_delta(
    c: ((Seq<char>, Seq<char>), (int, int)),
    key: (Seq<char>, Seq<char>),
) -> (int, int) {
    if c.0 == key {
        c.1
    } else {
        (0int, 0int)
    }
}

/// What one round's encounters add to the slots stored under a key.
pub open spec fn round_delta(s: Seq<(Seq<char>, int)>, key: (Seq<char>, Seq<char>)) -> (int, int) {
    if s.len() == 2 {
        enc_delta(encounter(s[0], s[1]), key)
    } else if s.len() == 3 {
        let d1 = enc_delta(encounter(s[0], s[1]), key);
        let d2 = enc_delta(encounter(s[0], s[2]), key);
        let d3 = enc_delta(encounter(s[1], s[2]), key);
        (d1.0 + d2.0 + d3.0, d1.1 + d2.1 + d3.1)
    } else {
        (0int, 0int)
    }
}

/// The encounter of two occurrences does not depend on their order.
proof fn lemma_encounter_symmetric(p: (Seq<char>, int), q: (Seq<char>, int))
    ensures
        encounter(p, q) == encounter(q, p),
{
    if p.0 != q.0 {
        lemma_lex_le_total(p.0, q.0);
        if lex_le(p.0, q.0) && lex_le(q.0, p.0) {
            crate::strutil::lemma_lex_le_antisymmetric(p.0, q.0);
        }
    }
}

proof fn lemma_find_after_update(
    led: Seq<((Seq<char>, Seq<char>), (int, int))>,
    j: int,
    v: (int, int),
    key: (Seq<char>, Seq<char>),
    i: int,
)
    requires
        0 <= j < led.len(),
    ensures
        led_find_from(led.update(j, (led[j].0, v)), key, i) == led_find_from(led, key, i),
    decreases led.len() - i,
{
    let led2 = led.update(j, (led[j].0, v));
    if 0 <= i < led.len() {
        assert(led2[i].0 == led[i].0);
        if led[i].0 != key {
            lemma_find_after_update(led, j, v, key, i + 1);
        }
    }
}

proof fn lemma_find_after_push(
    led: Seq<((Seq<char>, Seq<char>), (int, int))>,
    e: ((Seq<char>, Seq<char>), (int, int)),
    key: (Seq<char>, Seq<char>),
    i: int,
)
    requires
        0 <= i <= led.len(),
    ensures
        led_find_from(led.push(e), key, i) == (if led_find_from(led, key, i) >= 0 {
            led_find_from(led, key, i)
        } else if key == e.0 {
            led.len() as int
        } else {
            -1
        }),
    decreases led.len() - i,
{
    if i < led.len() {
        assert(led.push(e)[i] == led[i]);
        if led[i].0 != key {
            lemma_find_after_push(led, e, key, i + 1);
        }
    } else {
        assert(led.push(e)[i] == e);
        if e.0 != key {
            assert(led_find_from(led.push(e), key, i + 1) == -1);
        }
    }
}

/// Recording one encounter adds its scores to the slots of its pair and
/// leaves every other pair's slots unchanged.
proof fn lemma_slots_after_add(
    led: Seq<((Seq<char>, Seq<char>), (int, int))>,
    p: (Seq<char>, int),
    q: (Seq<char>, int),
    key: (Seq<char>, Seq<char>),
)
    ensures
        ({
            let d = enc_delta(encounter(p, q), key);
            slots_of(ledger_add(led, p, q), key) == (
                slots_of(led, key).0 + d.0,
                slots_of(led, key).1 + d.1,
            )
        }),
{
    let c = encounter(p, q);
    let j = led_find_from(led, c.0, 0);
    lemma_led_find_bounds(led, c.0, 0);
    lemma_led_find_bounds(led, key, 0);
    if j >= 0 {
        let led2 = led.update(j, (c.0, (led[j].1.0 + c.1.0, led[j].1.1 + c.1.1)));
        assert(led2 =~= led.update(j, (led[j].0, (led[j].1.0 + c.1.0, led[j].1.1 + c.1.1))));
        lemma_find_after_update(led, j, (led[j].1.0 + c.1.0, led[j].1.1 + c.1.1), key, 0);
        if key == c.0 {
            assert(led_find_from(led, key, 0) == j) by {
                assert(led[j].0 == c.0);
            }
        } else {
            let jj = led_find_from(led, key, 0);
            if jj >= 0 {
                assert(led[jj].0 == key && led[j].0 == c.0);
                assert(jj != j);
                assert(led2[jj] == led[jj]);
            }
        }
    } else {
        let led2 = led.push(c);
        lemma_find_after_push(led, c, key, 0);
        if key == c.0 {
            assert(led2[led.len() as int] == c);
        } else {
            let jj = led_find_from(led, key, 0);
            if jj >= 0 {
                assert(led2[jj] == led[jj]);
            }
        }
    }
}

/// One round's encounters add its delta to the slots of every pair.
proof fn lemma_slots_after_round(
    led: Seq<((Seq<char>, Seq<char>), (int, int))>,
    s: Seq<(Seq<char>, int)>,
    key: (Seq<char>, Seq<char>),
)
    ensures
        slots_of(round_ledger(led, s), key) == (
            slots_of(led, key).0 + round_delta(s, key).0,
            slots_of(led, key).1 + round_delta(s, key).1,
        ),
{
    if s.len() == 2 {
        lemma_slots_after_add(led, s[0], s[1], key);
    } else if s.len() == 3 {
        lemma_slots_after_add(led, s[0], s[1], key);
        lemma_slots_after_add(ledger_add(led, s[0], s[1]), s[0], s[2], key);
        lemma_slots_after_add(ledger_add(ledger_add(led, s[0], s[1]), s[0], s[2]), s[1], s[2], key);
    }
}

proof fn lemma_ms2_arrangements(s: Seq<(Seq<char>, int)>, t: Seq<(Seq<char>, int)>)
    requires
        s.len() == 2,
        t.len() == 2,
        s.to_multiset() == t.to_multiset(),
    ensures
        (t[0] == s[0] && t[1] == s[1]) || (t[0] == s[1] && t[1] == s[0]),
{
    broadcast use vstd::seq_lib::group_to_multiset_ensures;

    assert(t.contains(t[0]));
    assert(s.to_multiset().count(t[0]) > 0);
    assert(s.contains(t[0]));
    let j = choose|j: int| 0 <= j < s.len() && s[j] == t[0];
    assert(t.remove(0).to_multiset() == t.to_multiset().remove(t[0]));
    assert(s.remove(j).to_multiset() == s.to_multiset().remove(s[j]));
    let s2 = s.remove(j);
    let t2 = t.remove(0);
    assert(s2.to_multiset() == t2.to_multiset());
    assert(t2 =~= seq![t[1]]);
    let other: int = if j == 0 {
        1
    } else {
        0
    };
    assert(s2 =~= seq![s[other]]);
    assert(t2[0] == t[1]);
    assert(t2.contains(t[1]));
    assert(s2.to_multiset().count(t[1]) > 0);
    assert(s2.contains(t[1]));
    let w = choose|w: int| 0 <= w < s2.len() && s2[w] == t[1];
    assert(s2[w] == s[other]);
    assert(s[other] == t[1]);
}

proof fn lemma_ms3_arrangements(s: Seq<(Seq<char>, int)>, t: Seq<(Seq<char>, int)>)
    requires
        s.len() == 3,
        t.len() == 3,
        s.to_multiset() == t.to_multiset(),
    ensures
        (t[0] == s[0] && t[1] == s[1] && t[2] == s[2]) || (t[0] == s[0] && t[1] == s[2] && t[2]
            == s[1]) || (t[0] == s[1] && t[1] == s[0] && t[2] == s[2]) || (t[0] == s[1] && t[1]
            == s[2] && t[2] == s[0]) || (t[0] == s[2] && t[1] == s[0] && t[2] == s[1]) || (t[0]
            == s[2] && t[1] == s[1] && t[2] == s[0]),
{
    broadcast use vstd::seq_lib::group_to_multiset_ensures;

    assert(t.contains(t[0]));
    assert(s.to_multiset().count(t[0]) > 0);
    assert(s.contains(t[0]));
    let j = choose|j: int| 0 <= j < s.len() && s[j] == t[0];
    assert(t.remove(0).to_multiset() == t.to_multiset().remove(t[0]));
    assert(s.remove(j).to_multiset() == s.to_multiset().remove(s[j]));
    let s2 = s.remove(j);
    let t2 = t.remove(0);
    assert(t2 =~= seq![t[1], t[2]]);
    if j == 0 {
        assert(s2 =~= seq![s[1], s[2]]);
        lemma_ms2_arrangements(s2, t2);
    } else if j == 1 {
        assert(s2 =~= seq![s[0], s[2]]);
        lemma_ms2_arrangements(s2, t2);
    } else {
        assert(s2 =~= seq![s[0], s[1]]);
        lemma_ms2_arrangements(s2, t2);
    }
}

/// A round's slot delta depends only on which occurrences the round holds,
/// not on their listed order.
proof fn lemma_round_delta_permutation(
    s: Seq<(Seq<char>, int)>,
    t: Seq<(Seq<char>, int)>,
    key: (Seq<char>, Seq<char>),
)
    requires
        s.to_multiset() == t.to_multiset(),
    ensures
        round_delta(s, key) == round_delta(t, key),
{
    broadcast use vstd::seq_lib::group_to_multiset_ensures;

    assert(s.to_multiset().len() == s.len());
    assert(t.to_multiset().len() == t.len());
    assert(s.len() == t.len());
    if s.len() == 2 {
        lemma_ms2_arrangements(s, t);
        lemma_encounter_symmetric(s[0], s[1]);
    } else if s.len() == 3 {
        lemma_ms3_arrangements(s, t);
        lemma_encounter_symmetric(s[0], s[1]);
        lemma_encounter_symmetric(s[0], s[2]);
        lemma_encounter_symmetric(s[1], s[2]);
    }
}

/// Permuting the order in which teams are listed within each round's record
/// leaves every pair's accumulated head-to-head sums unchanged.
pub proof fn lemma_ledger_permutation_invariant(
    rs1: Seq<RoundModel>,
    rs2: Seq<RoundModel>,
    na: Seq<char>,
    nb: Seq<char>,
    k: int,
)
    requires
        rs1.len() == rs2.len(),
        0 <= k <= rs1.len(),
        forall|q: int|
            0 <= q < rs1.len() ==> scored(#[trigger] rs2[q]).to_multiset() == scored(
                rs1[q],
            ).to_multiset(),
    ensures
        h2h_for(ledger_of(rs1, k), na, nb) == h2h_for(ledger_of(rs2, k), na, nb),
{
    let key = canon_pair(na, nb);
    lemma_ledger_slots_permutation(rs1, rs2, key, k);
}

proof fn lemma_ledger_slots_permutation(
    rs1: Seq<RoundModel>,
    rs2: Seq<RoundModel>,
    key: (Seq<char>, Seq<char>),
    k: int,
)
    requires
        rs1.len() == rs2.len(),
        0 <= k <= rs1.len(),
        forall|q: int|
            0 <= q < rs1.len() ==> scored(#[trigger] rs2[q]).to_multiset() == scored(
                rs1[q],
            ).to_multiset(),
    ensures
        slots_of(ledger_of(rs1, k), key) == slots_of(ledger_of(rs2, k), key),
    decreases k,
{
    if k > 0 {
        lemma_ledger_slots_permutation(rs1, rs2, key, k - 1);
        lemma_slots_after_round(ledger_of(rs1, k - 1), scored(rs1[k - 1]), key);
        lemma_slots_after_round(ledger_of(rs2, k - 1), scored(rs2[k - 1]), key);
        lemma_round_delta_permutation(scored(rs1[k - 1]), scored(rs2[k - 1]), key);
    }
}

/// The names of the result entries.
pub open spec fn entry_names(v: Seq<(String, u32, u32, u32, i32)>) -> Seq<Seq<char>> {
    Seq::new(v.len(), |i: int| v[i].0@)
}

/// A correct result entry: its name is one of the scored team names, and
/// it carries that team's total wins, losses and score.
pub open spec fn entry_ok(rs: Seq<RoundModel>, e: (String, u32, u32, u32, i32)) -> bool {
    names_contain(collect_names(rs, rs.len() as int), e.0@) && e.2 as int == wins_of(
        rs,
        e.0@,
        rs.len() as int,
    ) && e.3 as int == losses_of(rs, e.0@, rs.len() as int) && e.4 as int == total_of(
        rs,
        e.0@,
        rs.len() as int,
    )
}

/// What `rank_teams` promises of its result: one entry per distinct
/// scored team name, each carrying that team's tallies and its 1-based
/// placement, sorted by the ranking order.
pub open spec fn rank_output_ok(rv: Seq<RoundModel>, out: Seq<(String, u32, u32, u32, i32)>) -> bool {
    let names = collect_names(rv, rv.len() as int);
    let led = ledger_of(rv, rv.len() as int);
    out.len() == names.len() && distinct_names(out) && (forall|i: int|
        0 <= i < out.len() ==> entry_ok(rv, #[trigger] out[i]) && out[i].1 as int == i + 1) && (
    forall|i: int, j: int| 0 <= i < j < out.len() ==> key_le_entry(out[i], out[j])) && (forall|
        i: int,
    | 0 <= i < out.len() - 1 ==> rank_le_entry(#[trigger] out[i], out[i + 1], led))
}

/// Rank the teams of all rounds: one entry per distinct non-empty team
/// name, as (name, placement, wins, losses, total score), sorted by fewer
/// losses, then more wins, then the head-to-head tie-break, with 1-based
/// placements. The two score caps are machine limits that keep every
/// counter within its integer type.
#[verifier::loop_isolation(false)]
#[verifier::rlimit(100)]
pub fn rank_teams(rounds: Vec<Round>) -> (r: Vec<(String, u32, u32, u32, i32)>)
    requires
        scores_bounded(rounds_view(rounds@)),
        total_scored(rounds_view(rounds@), rounds@.len() as int) <= max_scored_entries(),
    ensures
        rank_output_ok(rounds_view(rounds@), r@),
{
    let ghost rvx = rounds_view(rounds@);
    broadcast use vstd::seq_lib::group_to_multiset_ensures;

    let ghost rv = rounds_view(rounds@);
    let mut scoreds: Vec<Vec<(String, i32)>> = Vec::new();
    let mut k: usize = 0;
    while k < rounds.len()
        invariant
            k <= rounds@.len(),
            rv == rounds_view(rounds@),
            scoreds@.len() == k,
            forall|t: int| 0 <= t < k ==> spairs_view((#[trigger] scoreds@[t])@) == scored(rv[t]),
        decreases rounds@.len() - k,
    {
        proof {
            assert(round_model(rounds@[k as int]) == rv[k as int]);
        }
        let sv = scored_exec(&rounds[k]);
        scoreds.push(sv);
        k += 1;
    }
    let mut names: Vec<String> = Vec::new();
    proof {
        assert(strs_view(names@) =~~= collect_names(rv, 0));
    }
    let mut k2: usize = 0;
    while k2 < scoreds.len()
        invariant
            k2 <= rv.len(),
            scoreds@.len() == rv.len(),
            forall|t: int| 0 <= t < rv.len() ==> spairs_view((#[trigger] scoreds@[t])@) == scored(rv[t]),
            strs_view(names@) == collect_names(rv, k2 as int),
        decreases rv.len() - k2,
    {
        let sv = &scoreds[k2];
        let ghost sp = scored(rv[k2 as int]);
        let ghost acc0 = collect_names(rv, k2 as int);
        let mut j: usize = 0;
        while j < sv.len()
            invariant
                j <= sv@.len(),
                sp == spairs_view(sv@),
                strs_view(names@) == add_names(acc0, sp, j as int),
            decreases sv@.len() - j,
        {
            if !crate::strutil::vec_contains_str(&names, sv[j].0.as_str()) {
                let ghost prev = strs_view(names@);
                names.push(sv[j].0.clone());
                proof {
                    assert(strs_view(names@) =~~= prev.push(sp[j as int].0));
                }
            }
            j += 1;
        }
        k2 += 1;
    }
    let ghost namesv = collect_names(rv, rv.len() as int);
    let mut h2h: Vec<((String, String), (i32, i32))> = Vec::new();
    proof {
        assert(ledger_view(h2h@) =~~= ledger_of(rv, 0));
        assert(ledger_ok(ledger_of(rv, 0), 400000 * total_scored(rv, 0)));
    }
    let mut k3: usize = 0;
    while k3 < scoreds.len()
        invariant
            k3 <= rv.len(),
            scoreds@.len() == rv.len(),
            forall|t: int| 0 <= t < rv.len() ==> spairs_view((#[trigger] scoreds@[t])@) == scored(rv[t]),
            ledger_view(h2h@) == ledger_of(rv, k3 as int),
            ledger_ok(ledger_view(h2h@), 400000 * total_scored(rv, k3 as int)),
        decreases rv.len() - k3,
    {
        let sv = &scoreds[k3];
        let ghost sp = scored(rv[k3 as int]);
        let ghost b0 = 400000 * total_scored(rv, k3 as int);
        let ghost lv0 = ledger_view(h2h@);
        proof {
            lemma_scored_len_le_total(rv, k3 as int);
            lemma_total_scored_mono(rv, k3 as int + 1, rv.len() as int);
            lemma_total_scored_mono(rv, 0, k3 as int);
            lemma_scored_prefix_bounded(rv[k3 as int], paired_len(rv[k3 as int]), 400000);
        }
        if sv.len() == 2 {
            proof {
                assert(sp[0] == (sv@[0].0@, sv@[0].1 as int));
                assert(sp[1] == (sv@[1].0@, sv@[1].1 as int));
                lemma_ledger_ok_mono(ledger_view(h2h@), b0, i32::MAX as int - 400000);
            }
            handle_matchup(&mut h2h, sv[0].0.as_str(), sv[1].0.as_str(), sv[0].1, sv[1].1);
            proof {
                lemma_ledger_add_ok(lv0, sp[0], sp[1], b0);
                lemma_ledger_ok_mono(
                    ledger_view(h2h@),
                    b0 + 400000,
                    400000 * total_scored(rv, k3 as int + 1),
                );
            }
        } else if sv.len() == 3 {
            proof {
                assert(sp[0] == (sv@[0].0@, sv@[0].1 as int));
                assert(sp[1] == (sv@[1].0@, sv@[1].1 as int));
                assert(sp[2] == (sv@[2].0@, sv@[2].1 as int));
                lemma_ledger_ok_mono(ledger_view(h2h@), b0, i32::MAX as int - 400000);
            }
            handle_matchup(&mut h2h, sv[0].0.as_str(), sv[1].0.as_str(), sv[0].1, sv[1].1);
            proof {
                lemma_ledger_add_ok(lv0, sp[0], sp[1], b0);
                lemma_ledger_ok_mono(ledger_view(h2h@), b0 + 400000, i32::MAX as int - 400000);
            }
            handle_matchup(&mut h2h, sv[0].0.as_str(), sv[2].0.as_str(), sv[0].1, sv[2].1);
            proof {
                lemma_ledger_add_ok(ledger_add(lv0, sp[0], sp[1]), sp[0], sp[2], b0 + 400000);
                lemma_ledger_ok_mono(ledger_view(h2h@), b0 + 800000, i32::MAX as int - 400000);
            }
            handle_matchup(&mut h2h, sv[1].0.as_str(), sv[2].0.as_str(), sv[1].1, sv[2].1);
            proof {
                lemma_ledger_add_ok(
                    ledger_add(ledger_add(lv0, sp[0], sp[1]), sp[0], sp[2]),
                    sp[1],
                    sp[2],
                    b0 + 800000,
                );
                lemma_ledger_ok_mono(
                    ledger_view(h2h@),
                    b0 + 1200000,
                    400000 * total_scored(rv, k3 as int + 1),
                );
            }
        } else {
            proof {
                lemma_ledger_ok_mono(
                    ledger_view(h2h@),
                    b0,
                    400000 * total_scored(rv, k3 as int + 1),
                );
            }
        }
        k3 += 1;
    }
    let mut ranking: Vec<(String, u32, u32, u32, i32)> = Vec::new();
    proof {
        lemma_collect_names_distinct(rv, rv.len() as int);
    }
    let mut ni: usize = 0;
    while ni < names.len()
        invariant
            ni <= names@.len(),
            strs_view(names@) == namesv,
            scoreds@.len() == rv.len(),
            forall|t: int| 0 <= t < rv.len() ==> spairs_view((#[trigger] scoreds@[t])@) == scored(rv[t]),
            ranking@.len() == ni,
            forall|t: int|
                0 <= t < ni ==> entry_ok(rv, #[trigger] ranking@[t]) && ranking@[t].0@ == namesv[t],
        decreases names@.len() - ni,
    {
        let n = &names[ni];
        proof {
            assert(n@ == namesv[ni as int]);
            assert(names_contain(namesv, n@));
        }
        let tallies = compute_tallies(&scoreds, Ghost(rv), n.as_str());
        ranking.push((n.clone(), 0u32, tallies.0, tallies.1, tallies.2));
        ni += 1;
    }
    proof {
        assert(distinct_names(ranking@)) by {
            assert forall|p: int, q: int| 0 <= p < q < ranking@.len() implies (
            #[trigger] ranking@[p]).0@ != (#[trigger] ranking@[q]).0@ by {
                assert(ranking@[p].0@ == namesv[p] && ranking@[q].0@ == namesv[q]);
            }
        }
    }
    let ghost pre = ranking@;
    sort_entries(&mut ranking, &h2h);
    proof {
        assert forall|t: int| 0 <= t < ranking@.len() implies entry_ok(rv, #[trigger] ranking@[t])
            by {
            assert(ranking@.to_multiset().count(ranking@[t]) > 0);
            assert(pre.contains(ranking@[t]));
            let j = choose|j: int| 0 <= j < pre.len() && pre[j] == ranking@[t];
            assert(entry_ok(rv, pre[j]));
        }
    }
    let ghost sorted = ranking@;
    let mut out: Vec<(String, u32, u32, u32, i32)> = Vec::new();
    proof {
        lemma_collect_names_len(rv, rv.len() as int);
    }
    let mut p: usize = 0;
    while p < ranking.len()
        invariant
            p <= ranking@.len(),
            ranking@ == sorted,
            sorted.len() == namesv.len(),
            namesv.len() <= 5000,
            out@.len() == p,
            forall|t: int|
                0 <= t < p ==> (#[trigger] out@[t]).0@ == sorted[t].0@ && out@[t].1 as int == t + 1
                    && out@[t].2 == sorted[t].2 && out@[t].3 == sorted[t].3 && out@[t].4
                    == sorted[t].4,
        decreases ranking@.len() - p,
    {
        let e = &ranking[p];
        out.push((e.0.clone(), (p + 1) as u32, e.2, e.3, e.4));
        p += 1;
    }
    proof {
        let led = ledger_of(rv, rv.len() as int);
        assert forall|i: int| 0 <= i < out@.len() implies entry_ok(rv, #[trigger] out@[i])
            && out@[i].1 as int == i + 1 by {
            assert(entry_ok(rv, sorted[i]));
            assert(out@[i].0@ == sorted[i].0@);
        }
        assert forall|i: int| 0 <= i < out@.len() - 1 implies rank_le_entry(
            #[trigger] out@[i],
            out@[i + 1],
            led,
        ) by {
            assert(rank_le_entry(sorted[i], sorted[i + 1], led));
        }
        assert forall|i: int, j: int| 0 <= i < j < out@.len() implies key_le_entry(
            out@[i],
            out@[j],
        ) by {
            lemma_adjacent_key_sorted(sorted, led, i, j);
        }
        assert(distinct_names(out@)) by {
            assert forall|i: int, j: int| 0 <= i < j < out@.len() implies (
            #[trigger] out@[i]).0@ != (#[trigger] out@[j]).0@ by {
                assert(sorted[i].0@ != sorted[j].0@);
            }
        }
    }
    out
}

} // verus!
