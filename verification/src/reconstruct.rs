//! Round reconstruction: grouping the flat event log into confirmed rounds.
//!
//! Records are ordered lists of string columns. A round is the run of
//! records that share a (room, round) key; it is kept only when a scoring
//! event occurred in it, which discards leftover practice declarations.
use vstd::prelude::*;
use vstd::string::StrSliceExecFns;
use vstd::string::StringExecFns;
use crate::strutil::str_eq;
use crate::strutil::strs_view;
use crate::strutil::recs_view;
use crate::strutil::trim_quotes;
use crate::strutil::trim_quotes_spec;
use crate::strutil::trim_quotes_end;
use crate::strutil::trim_back;
use crate::strutil::parse_usize_or_zero;
use crate::strutil::parse_usize_spec;
use crate::strutil::names_contain;

verus! {

/// The column at index `i`, or the empty string when the record is short.
pub open spec fn col_view(r: Seq<Seq<char>>, i: int) -> Seq<char> {
    if 0 <= i < r.len() {
        r[i]
    } else {
        Seq::empty()
    }
}

/// The column at index `i` of a record, or empty when out of range.
pub fn col_str<'a>(r: &'a Vec<String>, i: usize) -> (s: &'a str)
    ensures
        s@ == col_view(strs_view(r@), i as int),
{
    if i < r.len() {
        r[i].as_str()
    } else {
        proof {
            reveal_strlit("");
            assert(""@ =~= Seq::<char>::empty());
        }
        ""
    }
}

/// The event code tokens of the log format.
#[derive(Clone, Copy, PartialEq, Eq, Structural)]
pub enum EventCode {
    /// `'TC'`: a quizzer answered a tossup correctly.
    Correct,
    /// `'TE'`: a quizzer answered a tossup incorrectly.
    Incorrect,
    /// `'BC'`: a quizzer answered a bonus correctly.
    BonusCorrect,
    /// `'BE'`: a quizzer answered a bonus incorrectly.
    BonusIncorrect,
    /// `'TN'`: a team name was declared.
    TeamName,
    /// `'QN'`: a quizzer name was declared.
    QuizzerName,
    /// `'RM'`: a room marker.
    RoomMarker,
    /// Any other token.
    Other,
}

pub open spec fn tc_code() -> Seq<char> {
    seq!['\'', 'T', 'C', '\'']
}

pub open spec fn te_code() -> Seq<char> {
    seq!['\'', 'T', 'E', '\'']
}

pub open spec fn bc_code() -> Seq<char> {
    seq!['\'', 'B', 'C', '\'']
}

pub open spec fn be_code() -> Seq<char> {
    seq!['\'', 'B', 'E', '\'']
}

pub open spec fn tn_code() -> Seq<char> {
    seq!['\'', 'T', 'N', '\'']
}

pub open spec fn qn_code() -> Seq<char> {
    seq!['\'', 'Q', 'N', '\'']
}

pub open spec fn rm_code() -> Seq<char> {
    seq!['\'', 'R', 'M', '\'']
}

/// The event code named by a column value.
pub open spec fn ecode_spec(s: Seq<char>) -> EventCode {
    if s == tc_code() {
        EventCode::Correct
    } else if s == te_code() {
        EventCode::Incorrect
    } else if s == bc_code() {
        EventCode::BonusCorrect
    } else if s == be_code() {
        EventCode::BonusIncorrect
    } else if s == tn_code() {
        EventCode::TeamName
    } else if s == qn_code() {
        EventCode::QuizzerName
    } else if s == rm_code() {
        EventCode::RoomMarker
    } else {
        EventCode::Other
    }
}

/// Decode an event code column.
pub fn parse_event_code(s: &str) -> (e: EventCode)
    ensures
        e == ecode_spec(s@),
{
    proof {
        reveal_strlit("'TC'");
        reveal_strlit("'TE'");
        reveal_strlit("'BC'");
        reveal_strlit("'BE'");
        reveal_strlit("'TN'");
        reveal_strlit("'QN'");
        reveal_strlit("'RM'");
        assert("'TC'"@ =~= tc_code());
        assert("'TE'"@ =~= te_code());
        assert("'BC'"@ =~= bc_code());
        assert("'BE'"@ =~= be_code());
        assert("'TN'"@ =~= tn_code());
        assert("'QN'"@ =~= qn_code());
        assert("'RM'"@ =~= rm_code());
    }
    if str_eq(s, "'TC'") {
        EventCode::Correct
    } else if str_eq(s, "'TE'") {
        EventCode::Incorrect
    } else if str_eq(s, "'BC'") {
        EventCode::BonusCorrect
    } else if str_eq(s, "'BE'") {
        EventCode::BonusIncorrect
    } else if str_eq(s, "'TN'") {
        EventCode::TeamName
    } else if str_eq(s, "'QN'") {
        EventCode::QuizzerName
    } else if str_eq(s, "'RM'") {
        EventCode::RoomMarker
    } else {
        EventCode::Other
    }
}

/// Whether the event code is in the whitelist the record filter keeps.
pub open spec fn whitelisted(e: EventCode) -> bool {
    e != EventCode::Other
}

/// Whether the record passes the tournament filter and the code whitelist.
pub open spec fn keeps_record(r: Seq<Seq<char>>, tourn: Seq<char>) -> bool {
    (tourn.len() == 0 || tourn == col_view(r, 1)) && whitelisted(ecode_spec(col_view(r, 10)))
}

/// The records kept by the filter, among the first `k`.
pub open spec fn filter_fold(rs: Seq<Seq<Seq<char>>>, tourn: Seq<char>, k: int) -> Seq<
    Seq<Seq<char>>,
>
    decreases k,
{
    if k <= 0 {
        Seq::empty()
    } else {
        let prev = filter_fold(rs, tourn, k - 1);
        if keeps_record(rs[k - 1], tourn) {
            prev.push(rs[k - 1])
        } else {
            prev
        }
    }
}

/// Keep only the records of the given tournament (all of them when the
/// filter is empty) whose event code is in the whitelist.
#[verifier::loop_isolation(false)]
pub fn filter_records(records: Vec<Vec<String>>, tourn: String) -> (r: Vec<Vec<String>>)
    ensures
        recs_view(r@) == filter_fold(recs_view(records@), tourn@, records@.len() as int),
{
    let ghost rv = recs_view(records@);
    let mut out: Vec<Vec<String>> = Vec::new();
    proof {
        assert(recs_view(out@) =~= Seq::<Seq<Seq<char>>>::empty());
    }
    let mut i: usize = 0;
    while i < records.len()
        invariant
            i <= records@.len(),
            rv == recs_view(records@),
            recs_view(out@) == filter_fold(rv, tourn@, i as int),
        decreases records@.len() - i,
    {
        let rec = &records[i];
        assert(strs_view(rec@) == rv[i as int]);
        let tourn_ok = tourn.as_str().is_empty() || str_eq(tourn.as_str(), col_str(rec, 1));
        let code = parse_event_code(col_str(rec, 10));
        let keep = tourn_ok && !matches!(code, EventCode::Other);
        assert(keep == keeps_record(rv[i as int], tourn@));
        if keep {
            let copy = rec.clone();
            assert(strs_view(copy@) =~= rv[i as int]);
            out.push(copy);
            proof {
                assert(recs_view(out@) =~= filter_fold(rv, tourn@, i as int).push(rv[i as int]));
            }
        }
        i += 1;
    }
    out
}

/// Whether a record's (room, round) columns differ from the current key.
pub open spec fn new_round_spec(round: Seq<char>, room: Seq<char>, cols: Seq<Seq<char>>) -> bool {
    round != col_view(cols, 4) || room != col_view(cols, 3)
}

/// Whether the record starts a new round: its room or round column differs
/// from the current key.
pub fn check_new_round(round: &String, room: &String, columns: &Vec<String>) -> (r: bool)
    ensures
        r == new_round_spec(round@, room@, strs_view(columns@)),
{
    !str_eq(round.as_str(), col_str(columns, 4)) || !str_eq(room.as_str(), col_str(columns, 3))
}

/// A pair of single quotes: a quoted empty name.
pub open spec fn empty_quoted() -> Seq<char> {
    seq!['\'', '\'']
}

/// Whether a name is worth keeping: neither empty nor a quoted empty string.
pub open spec fn keep_name(n: Seq<char>) -> bool {
    n != Seq::<char>::empty() && n != empty_quoted()
}

/// Whether the string is an empty or quoted-empty name.
pub fn is_blank_name(s: &str) -> (r: bool)
    ensures
        r == !keep_name(s@),
{
    proof {
        reveal_strlit("''");
        assert("''"@ =~= empty_quoted());
    }
    if s.is_empty() {
        proof {
            assert(s@ =~= Seq::<char>::empty());
        }
        true
    } else {
        str_eq(s, "''")
    }
}

/// One confirmed round: its key columns, its roster of team slots (a team
/// name and the quizzers by seat), and its buffered scoring records.
pub struct RecordCollection {
    pub room: String,
    pub round: String,
    pub teams: Vec<(String, Vec<String>)>,
    pub records: Vec<Vec<String>>,
}

/// View of a roster: names and seat lists as character sequences.
pub open spec fn teams_view(ts: Seq<(String, Vec<String>)>) -> Seq<(Seq<char>, Seq<Seq<char>>)> {
    Seq::new(ts.len(), |i: int| (ts[i].0@, strs_view(ts[i].1@)))
}

/// View of a list of (quizzer, team) name pairs.
pub open spec fn pairs_view(v: Seq<(String, String)>) -> Seq<(Seq<char>, Seq<char>)> {
    Seq::new(v.len(), |i: int| (v[i].0@, v[i].1@))
}

/// The mathematical content of one confirmed round.
#[verifier::ext_equal]
pub ghost struct RecColView {
    pub room: Seq<char>,
    pub round: Seq<char>,
    pub teams: Seq<(Seq<char>, Seq<Seq<char>>)>,
    pub records: Seq<Seq<Seq<char>>>,
}

/// View of a confirmed round.
pub open spec fn rc_view(rc: RecordCollection) -> RecColView {
    RecColView {
        room: rc.room@,
        round: rc.round@,
        teams: teams_view(rc.teams@),
        records: recs_view(rc.records@),
    }
}

/// View of the confirmed-round registry.
pub open spec fn reg_view(m: Seq<(String, RecordCollection)>) -> Seq<(Seq<char>, RecColView)> {
    Seq::new(m.len(), |i: int| (m[i].0@, rc_view(m[i].1)))
}

/// Whether some quizzer of this name is already confirmed.
pub open spec fn quizzer_known(cq: Seq<(Seq<char>, Seq<char>)>, q: Seq<char>) -> bool {
    exists|i: int| 0 <= i < cq.len() && cq[i].0 == q
}

/// Add the first `j` seats of a team to the confirmed (quizzer, team) pairs:
/// a named quizzer not yet confirmed is recorded with this team's name.
pub open spec fn add_quizzers(
    cq: Seq<(Seq<char>, Seq<char>)>,
    t: (Seq<char>, Seq<Seq<char>>),
    j: int,
) -> Seq<(Seq<char>, Seq<char>)>
    decreases j,
{
    if j <= 0 {
        cq
    } else {
        let prev = add_quizzers(cq, t, j - 1);
        if !quizzer_known(prev, t.1[j - 1]) && keep_name(t.1[j - 1]) {
            prev.push((t.1[j - 1], t.0))
        } else {
            prev
        }
    }
}

/// Record the first `i` teams of a roster in the confirmed team and
/// quizzer registries.
pub open spec fn confirm_all(
    ct: Seq<Seq<char>>,
    cq: Seq<(Seq<char>, Seq<char>)>,
    teams: Seq<(Seq<char>, Seq<Seq<char>>)>,
    i: int,
) -> (Seq<Seq<char>>, Seq<(Seq<char>, Seq<char>)>)
    decreases i,
{
    if i <= 0 {
        (ct, cq)
    } else {
        let prev = confirm_all(ct, cq, teams, i - 1);
        let t = teams[i - 1];
        let ct2 = if names_contain(prev.0, t.0) {
            prev.0
        } else {
            prev.0.push(t.0)
        };
        (ct2, add_quizzers(prev.1, t, t.1.len() as int))
    }
}

/// Drop blank names from the first `j` seats.
pub open spec fn prune_quizzers(qs: Seq<Seq<char>>, j: int) -> Seq<Seq<char>>
    decreases j,
{
    if j <= 0 {
        Seq::empty()
    } else {
        let prev = prune_quizzers(qs, j - 1);
        if keep_name(qs[j - 1]) {
            prev.push(qs[j - 1])
        } else {
            prev
        }
    }
}

/// Drop blank-named team slots and blank seats from the first `i` slots.
pub open spec fn prune_teams(ts: Seq<(Seq<char>, Seq<Seq<char>>)>, i: int) -> Seq<
    (Seq<char>, Seq<Seq<char>>),
>
    decreases i,
{
    if i <= 0 {
        Seq::empty()
    } else {
        let prev = prune_teams(ts, i - 1);
        if keep_name(ts[i - 1].0) {
            prev.push((ts[i - 1].0, prune_quizzers(ts[i - 1].1, ts[i - 1].1.len() as int)))
        } else {
            prev
        }
    }
}

/// Index of the first registry entry with the given key, from `i`; -1 if none.
pub open spec fn reg_find_from(m: Seq<(Seq<char>, RecColView)>, k: Seq<char>, i: int) -> int
    decreases m.len() - i,
{
    if i < 0 || i >= m.len() {
        -1
    } else if m[i].0 == k {
        i
    } else {
        reg_find_from(m, k, i + 1)
    }
}

/// The warning recorded when a round key is registered twice.
pub open spec fn dup_round_warn(k: Seq<char>) -> Seq<char> {
    "Warning: Duplicate round number: "@ + k + ", overwriting!"@
}

/// Register a confirmed round: an already-present key is replaced, with a
/// warning; the entry itself goes to the end of the registry.
pub open spec fn reg_register(
    conf: Seq<(Seq<char>, RecColView)>,
    warns: Seq<Seq<char>>,
    key: Seq<char>,
    rc: RecColView,
) -> (Seq<(Seq<char>, RecColView)>, Seq<Seq<char>>) {
    let j = reg_find_from(conf, key, 0);
    if j >= 0 {
        (conf.remove(j).push((key, rc)), warns.push(dup_round_warn(key)))
    } else {
        (conf.push((key, rc)), warns)
    }
}

/// The whole state of the reconstruction scan.
#[verifier::ext_equal]
pub ghost struct ReconState {
    /// The roster of the in-progress round.
    pub round_teams: Seq<(Seq<char>, Seq<Seq<char>>)>,
    /// The round column of the current key.
    pub round_str: Seq<char>,
    /// The room column of the current key.
    pub room_str: Seq<char>,
    /// All confirmed (quizzer, team) pairs, in order of first confirmation.
    pub confirmed_quizzers: Seq<(Seq<char>, Seq<char>)>,
    /// All confirmed team names, in order of first confirmation.
    pub confirmed_teams: Seq<Seq<char>>,
    /// Whether a scoring event occurred since the last boundary.
    pub action: bool,
    /// The registry of confirmed rounds.
    pub confirmed: Seq<(Seq<char>, RecColView)>,
    /// The scoring records buffered for the in-progress round.
    pub candidates: Seq<Seq<Seq<char>>>,
    /// The registry key of the in-progress round.
    pub match_str: Seq<char>,
    /// The warnings collected so far.
    pub warns: Seq<Seq<char>>,
}

/// The scan state before any record, with the warnings already collected.
pub open spec fn recon_init(w0: Seq<Seq<char>>) -> ReconState {
    ReconState {
        round_teams: Seq::empty(),
        round_str: Seq::empty(),
        room_str: Seq::empty(),
        confirmed_quizzers: Seq::empty(),
        confirmed_teams: Seq::empty(),
        action: false,
        confirmed: Seq::empty(),
        candidates: Seq::empty(),
        match_str: Seq::empty(),
        warns: w0,
    }
}

/// Close the in-progress round: when a scoring event occurred, confirm its
/// roster, prune blank slots and seats, and register it; either way the
/// action flag resets.
pub open spec fn finalize_state(st: ReconState) -> ReconState {
    if st.action {
        let conf = confirm_all(
            st.confirmed_teams,
            st.confirmed_quizzers,
            st.round_teams,
            st.round_teams.len() as int,
        );
        let teams2 = prune_teams(st.round_teams, st.round_teams.len() as int);
        let rc = RecColView {
            room: st.room_str,
            round: st.round_str,
            teams: teams2,
            records: st.candidates,
        };
        let reg = reg_register(st.confirmed, st.warns, st.match_str, rc);
        ReconState {
            confirmed_teams: conf.0,
            confirmed_quizzers: conf.1,
            round_teams: teams2,
            confirmed: reg.0,
            warns: reg.1,
            action: false,
            ..st
        }
    } else {
        ReconState { action: false, ..st }
    }
}

/// Cross a round boundary: close the previous round, reset the buffers and
/// adopt the new (room, round) key and registry key.
pub open spec fn boundary_step(st: ReconState, cols: Seq<Seq<char>>) -> ReconState {
    let st1 = finalize_state(st);
    ReconState {
        candidates: Seq::empty(),
        round_teams: Seq::empty(),
        match_str: seq!['R', 'm'] + trim_quotes_spec(col_view(cols, 3)) + seq!['R', 'd']
            + trim_quotes_spec(col_view(cols, 4)),
        room_str: col_view(cols, 3),
        round_str: col_view(cols, 4),
        ..st1
    }
}

/// Grow a roster with blank team slots to at least `n` entries.
pub open spec fn grow_teams(ts: Seq<(Seq<char>, Seq<Seq<char>>)>, n: int) -> Seq<
    (Seq<char>, Seq<Seq<char>>),
> {
    if ts.len() >= n {
        ts
    } else {
        ts + Seq::new((n - ts.len()) as nat, |j: int| (Seq::<char>::empty(), Seq::<Seq<char>>::empty()))
    }
}

/// Grow a seat list with blank names to at least `n` entries.
pub open spec fn grow_seats(qs: Seq<Seq<char>>, n: int) -> Seq<Seq<char>> {
    if qs.len() >= n {
        qs
    } else {
        qs + Seq::new((n - qs.len()) as nat, |j: int| Seq::<char>::empty())
    }
}

/// A team-name declaration: the slot's name is set, overwriting any prior
/// name but keeping its seats, growing the roster as needed.
pub open spec fn tn_update(
    ts: Seq<(Seq<char>, Seq<Seq<char>>)>,
    tn: int,
    name: Seq<char>,
) -> Seq<(Seq<char>, Seq<Seq<char>>)> {
    let ts1 = grow_teams(ts, tn + 1);
    ts1.update(tn, (name, ts1[tn].1))
}

/// A quizzer-name declaration: the seat of the slot is set to the name,
/// growing roster and seat list as needed.
pub open spec fn qn_update(
    ts: Seq<(Seq<char>, Seq<Seq<char>>)>,
    tn: int,
    sn: int,
    name: Seq<char>,
) -> Seq<(Seq<char>, Seq<Seq<char>>)> {
    let ts1 = if ts.len() <= tn {
        grow_teams(ts, tn + 1).update(tn, (Seq::<char>::empty(), Seq::<Seq<char>>::empty()))
    } else {
        ts
    };
    let t = ts1[tn];
    ts1.update(tn, (t.0, grow_seats(t.1, sn + 1).update(sn, name)))
}

/// How one record advances the scan.
pub open spec fn recon_step(st: ReconState, cols: Seq<Seq<char>>) -> ReconState {
    let st1 = if new_round_spec(st.round_str, st.room_str, cols) {
        boundary_step(st, cols)
    } else {
        st
    };
    let name = col_view(cols, 7);
    let tn = parse_usize_spec(trim_quotes_spec(col_view(cols, 8)));
    let sn = parse_usize_spec(trim_back(col_view(cols, 9)));
    match ecode_spec(col_view(cols, 10)) {
        EventCode::TeamName => ReconState {
            round_teams: tn_update(st1.round_teams, tn, name),
            ..st1
        },
        EventCode::QuizzerName => ReconState {
            round_teams: qn_update(st1.round_teams, tn, sn, name),
            ..st1
        },
        EventCode::Correct => ReconState { action: true, candidates: st1.candidates.push(cols), ..st1 },
        EventCode::Incorrect => ReconState {
            action: true,
            candidates: st1.candidates.push(cols),
            ..st1
        },
        EventCode::BonusCorrect => ReconState {
            action: true,
            candidates: st1.candidates.push(cols),
            ..st1
        },
        EventCode::BonusIncorrect => ReconState {
            action: true,
            candidates: st1.candidates.push(cols),
            ..st1
        },
        _ => st1,
    }
}

/// The scan state after the first `k` records.
pub open spec fn recon_fold(rs: Seq<Seq<Seq<char>>>, w0: Seq<Seq<char>>, k: int) -> ReconState
    decreases k,
{
    if k <= 0 {
        recon_init(w0)
    } else {
        recon_step(recon_fold(rs, w0, k - 1), rs[k - 1])
    }
}

/// The finished scan: all records, then the trailing round closed by the
/// same confirmation rule as an in-stream boundary.
pub open spec fn recon_final(rs: Seq<Seq<Seq<char>>>, w0: Seq<Seq<char>>) -> ReconState {
    finalize_state(recon_fold(rs, w0, rs.len() as int))
}

/// Whether a quizzer with these characters is already confirmed.
fn pairs_contain_key(v: &Vec<(String, String)>, q: &str) -> (r: bool)
    ensures
        r == quizzer_known(pairs_view(v@), q@),
{
    let mut i: usize = 0;
    while i < v.len()
        invariant
            i <= v@.len(),
            forall|k: int| 0 <= k < i ==> pairs_view(v@)[k].0 != q@,
        decreases v@.len() - i,
    {
        if str_eq(v[i].0.as_str(), q) {
            assert(pairs_view(v@)[i as int].0 == q@);
            return true;
        }
        assert(pairs_view(v@)[i as int].0 != q@);
        i += 1;
    }
    false
}

/// Confirm the roster when a scoring event occurred since the last boundary:
/// team names and named quizzers join the confirmed registries once each.
/// The action flag resets either way; the result says whether the roster
/// was confirmed.
#[verifier::loop_isolation(false)]
pub fn check_valid_round(
    round_teams: &Vec<(String, Vec<String>)>,
    confirmed_teams: &mut Vec<String>,
    confirmed_quizzers: &mut Vec<(String, String)>,
    action: &mut bool,
) -> (valid: bool)
    ensures
        valid == *old(action),
        *final(action) == false,
        ({
            let res = confirm_all(
                strs_view(old(confirmed_teams)@),
                pairs_view(old(confirmed_quizzers)@),
                teams_view(round_teams@),
                teams_view(round_teams@).len() as int,
            );
            if *old(action) {
                strs_view(final(confirmed_teams)@) == res.0 && pairs_view(
                    final(confirmed_quizzers)@,
                ) == res.1
            } else {
                final(confirmed_teams)@ == old(confirmed_teams)@ && final(confirmed_quizzers)@
                    == old(confirmed_quizzers)@
            }
        }),
{
    let ghost tv = teams_view(round_teams@);
    let ghost ct0 = strs_view(confirmed_teams@);
    let ghost cq0 = pairs_view(confirmed_quizzers@);
    let mut valid = false;
    if *action {
        let mut i: usize = 0;
        while i < round_teams.len()
            invariant
                i <= round_teams@.len(),
                tv == teams_view(round_teams@),
                strs_view(confirmed_teams@) == confirm_all(ct0, cq0, tv, i as int).0,
                pairs_view(confirmed_quizzers@) == confirm_all(ct0, cq0, tv, i as int).1,
            decreases round_teams@.len() - i,
        {
            let ghost prev = confirm_all(ct0, cq0, tv, i as int);
            let team = &round_teams[i];
            assert(tv[i as int] == (team.0@, strs_view(team.1@)));
            if !crate::strutil::vec_contains_str(confirmed_teams, team.0.as_str()) {
                let nm = team.0.clone();
                let ghost c0 = strs_view(confirmed_teams@);
                confirmed_teams.push(nm);
                proof {
                    assert(strs_view(confirmed_teams@) =~= c0.push(team.0@));
                }
            }
            let mut j: usize = 0;
            while j < team.1.len()
                invariant
                    j <= team.1@.len(),
                    tv == teams_view(round_teams@),
                    tv[i as int].1 == strs_view(team.1@),
                    pairs_view(confirmed_quizzers@) == add_quizzers(prev.1, tv[i as int], j as int),
                decreases team.1@.len() - j,
            {
                let q = &team.1[j];
                assert(tv[i as int].1[j as int] == q@);
                if !pairs_contain_key(confirmed_quizzers, q.as_str()) && !is_blank_name(q.as_str())
                {
                    let entry = (q.clone(), team.0.clone());
                    let ghost p0 = pairs_view(confirmed_quizzers@);
                    confirmed_quizzers.push(entry);
                    proof {
                        assert(pairs_view(confirmed_quizzers@) =~= p0.push((q@, team.0@)));
                    }
                }
                j += 1;
            }
            i += 1;
        }
        valid = true;
    }
    *action = false;
    valid
}

/// Drop blank-named team slots, and blank seats from the kept slots.
#[verifier::loop_isolation(false)]
fn prune_round_teams(rt: &mut Vec<(String, Vec<String>)>)
    ensures
        teams_view(final(rt)@) == prune_teams(teams_view(old(rt)@), teams_view(old(rt)@).len() as int),
{
    let ghost tv = teams_view(rt@);
    let mut out: Vec<(String, Vec<String>)> = Vec::new();
    proof {
        assert(teams_view(out@) =~= Seq::<(Seq<char>, Seq<Seq<char>>)>::empty());
    }
    let mut i: usize = 0;
    while i < rt.len()
        invariant
            i <= rt@.len(),
            tv == teams_view(rt@),
            teams_view(out@) == prune_teams(tv, i as int),
        decreases rt@.len() - i,
    {
        let team = &rt[i];
        assert(tv[i as int] == (team.0@, strs_view(team.1@)));
        if !is_blank_name(team.0.as_str()) {
            let mut seats: Vec<String> = Vec::new();
            proof {
                assert(strs_view(seats@) =~= Seq::<Seq<char>>::empty());
            }
            let mut j: usize = 0;
            while j < team.1.len()
                invariant
                    j <= team.1@.len(),
                    tv[i as int].1 == strs_view(team.1@),
                    strs_view(seats@) == prune_quizzers(tv[i as int].1, j as int),
                decreases team.1@.len() - j,
            {
                let q = &team.1[j];
                assert(tv[i as int].1[j as int] == q@);
                if !is_blank_name(q.as_str()) {
                    let ghost s0 = strs_view(seats@);
                    seats.push(q.clone());
                    proof {
                        assert(strs_view(seats@) =~= s0.push(q@));
                    }
                }
                j += 1;
            }
            let ghost o0 = teams_view(out@);
            out.push((team.0.clone(), seats));
            proof {
                assert(teams_view(out@) =~= o0.push(
                    (tv[i as int].0, prune_quizzers(tv[i as int].1, tv[i as int].1.len() as int)),
                ));
            }
        }
        i += 1;
    }
    *rt = out;
}

/// Register a confirmed round under its key, replacing and warning on a
/// repeated key.
#[verifier::loop_isolation(false)]
fn reg_put(
    reg: &mut Vec<(String, RecordCollection)>,
    warns: &mut Vec<String>,
    key: String,
    rc: RecordCollection,
)
    ensures
        ({
            let res = reg_register(
                reg_view(old(reg)@),
                strs_view(old(warns)@),
                key@,
                rc_view(rc),
            );
            reg_view(final(reg)@) == res.0 && strs_view(final(warns)@) == res.1
        }),
{
    let ghost mv = reg_view(reg@);
    let mut found: Option<usize> = None;
    let mut i: usize = 0;
    while i < reg.len() && found.is_none()
        invariant
            i <= reg@.len(),
            mv == reg_view(reg@),
            (match found {
                Some(j) => reg_find_from(mv, key@, 0) == j as int && (j as int) < mv.len(),
                None => reg_find_from(mv, key@, 0) == reg_find_from(mv, key@, i as int),
            }),
        decreases reg@.len() - i,
    {
        if str_eq(reg[i].0.as_str(), key.as_str()) {
            assert(mv[i as int].0 == key@);
            found = Some(i);
        } else {
            assert(mv[i as int].0 != key@);
        }
        i += 1;
    }
    match found {
        Some(j) => {
            let mut msg = String::from_str("Warning: Duplicate round number: ");
            msg.append(key.as_str());
            msg.append(", overwriting!");
            proof {
                assert(msg@ =~= dup_round_warn(key@));
            }
            let ghost w0 = strs_view(warns@);
            warns.push(msg);
            proof {
                assert(strs_view(warns@) =~= w0.push(dup_round_warn(key@)));
            }
            reg.remove(j);
            let ghost m1 = reg_view(reg@);
            proof {
                assert(m1 =~= mv.remove(j as int));
            }
            reg.push((key, rc));
            proof {
                assert(reg_view(reg@) =~= m1.push((key@, rc_view(rc))));
            }
        },
        None => {
            proof {
                assert(reg_find_from(mv, key@, 0) == -1);
            }
            reg.push((key, rc));
            proof {
                assert(reg_view(reg@) =~= mv.push((key@, rc_view(rc))));
            }
        },
    }
}

/// Set a team slot to a declared name, growing the roster with blank slots.
#[verifier::loop_isolation(false)]
fn set_team(rt: &mut Vec<(String, Vec<String>)>, tn: usize, name: String)
    ensures
        teams_view(final(rt)@) == tn_update(teams_view(old(rt)@), tn as int, name@),
{
    let ghost tv0 = teams_view(rt@);
    while rt.len() <= tn
        invariant
            teams_view(rt@) == grow_teams(tv0, rt@.len() as int),
            rt@.len() >= tv0.len(),
            tv0.len() > tn ==> rt@.len() == tv0.len(),
            tv0.len() <= tn ==> rt@.len() <= tn + 1,
        decreases tn + 1 - rt@.len(),
    {
        let ghost cur = teams_view(rt@);
        rt.push((String::new(), Vec::new()));
        proof {
            assert(teams_view(rt@) =~~= cur.push(
                (Seq::<char>::empty(), Seq::<Seq<char>>::empty()),
            ));
            assert(teams_view(rt@) =~~= grow_teams(tv0, rt@.len() as int));
        }
    }
    let ghost grown = teams_view(rt@);
    proof {
        if tv0.len() > tn {
            assert(grown =~~= tv0);
            assert(grow_teams(tv0, tn as int + 1) =~~= tv0);
        } else {
            assert(rt@.len() == tn + 1);
        }
        assert(grown =~~= grow_teams(tv0, tn as int + 1));
    }
    let slot = rt.remove(tn);
    let (prior_name, seats) = slot;
    proof {
        assert(grown[tn as int] == (prior_name@, strs_view(seats@)));
    }
    rt.insert(tn, (name, seats));
    proof {
        assert(teams_view(rt@) =~~= grown.update(tn as int, (name@, grown[tn as int].1)));
    }
}

/// Set a seat of a team slot to a declared quizzer name, growing the roster
/// and the seat list as needed.
#[verifier::loop_isolation(false)]
fn set_seat(rt: &mut Vec<(String, Vec<String>)>, tn: usize, sn: usize, name: String)
    ensures
        teams_view(final(rt)@) == qn_update(teams_view(old(rt)@), tn as int, sn as int, name@),
{
    let ghost tv0 = teams_view(rt@);
    if rt.len() <= tn {
        while rt.len() <= tn
            invariant
                teams_view(rt@) == grow_teams(tv0, rt@.len() as int),
                tv0.len() <= rt@.len() <= tn + 1,
            decreases tn + 1 - rt@.len(),
        {
            let ghost cur = teams_view(rt@);
            rt.push((String::new(), Vec::new()));
            proof {
                assert(teams_view(rt@) =~~= cur.push(
                    (Seq::<char>::empty(), Seq::<Seq<char>>::empty()),
                ));
                assert(teams_view(rt@) =~~= grow_teams(tv0, rt@.len() as int));
            }
        }
        proof {
            assert(rt@.len() == tn + 1);
            assert(teams_view(rt@) =~~= grow_teams(tv0, tn as int + 1));
        }
        crate::strutil::vec_set(rt, tn, (String::new(), Vec::new()));
        proof {
            assert(teams_view(rt@) =~~= grow_teams(tv0, tn as int + 1).update(
                tn as int,
                (Seq::<char>::empty(), Seq::<Seq<char>>::empty()),
            ));
        }
    }
    let ghost ts1 = teams_view(rt@);
    let team = rt.remove(tn);
    let (team_name, mut seats) = team;
    let ghost qs0 = strs_view(seats@);
    let ghost tname = team_name@;
    proof {
        assert(ts1[tn as int] == (tname, qs0));
    }
    while seats.len() <= sn
        invariant
            strs_view(seats@) == grow_seats(qs0, seats@.len() as int),
            seats@.len() >= qs0.len(),
            qs0.len() > sn ==> seats@.len() == qs0.len(),
            qs0.len() <= sn ==> seats@.len() <= sn + 1,
        decreases sn + 1 - seats@.len(),
    {
        let ghost cur = strs_view(seats@);
        seats.push(String::new());
        proof {
            assert(strs_view(seats@) =~~= cur.push(Seq::<char>::empty()));
            assert(strs_view(seats@) =~~= grow_seats(qs0, seats@.len() as int));
        }
    }
    proof {
        if qs0.len() > sn {
            assert(strs_view(seats@) =~~= qs0);
            assert(grow_seats(qs0, sn as int + 1) =~~= qs0);
        } else {
            assert(seats@.len() == sn + 1);
        }
        assert(strs_view(seats@) =~~= grow_seats(qs0, sn as int + 1));
    }
    crate::strutil::vec_set(&mut seats, sn, name);
    proof {
        assert(strs_view(seats@) =~~= grow_seats(qs0, sn as int + 1).update(sn as int, name@));
    }
    rt.insert(tn, (team_name, seats));
    proof {
        assert(teams_view(rt@) =~~= ts1.update(
            tn as int,
            (tname, grow_seats(qs0, sn as int + 1).update(sn as int, name@)),
        ));
        let ts1s = if tv0.len() <= tn {
            grow_teams(tv0, tn as int + 1).update(
                tn as int,
                (Seq::<char>::empty(), Seq::<Seq<char>>::empty()),
            )
        } else {
            tv0
        };
        assert(ts1 =~~= ts1s);
        assert(ts1s[tn as int] == ts1[tn as int]);
        assert(tname == ts1s[tn as int].0);
        assert(qs0 == ts1s[tn as int].1);
        assert(teams_view(rt@) =~~= qn_update(tv0, tn as int, sn as int, name@));
    }
}

/// Scan the filtered records in order, reconstruct the rounds, confirm those
/// that saw a scoring event, and return the confirmed (quizzer, team) pairs
/// with the registry of confirmed rounds. Warnings on repeated round keys
/// are appended to `warns`.
#[verifier::loop_isolation(false)]
pub fn get_quizzer_names(records: Vec<Vec<String>>, warns: &mut Vec<String>) -> (r: (
    Vec<(String, String)>,
    Vec<(String, RecordCollection)>,
))
    ensures
        ({
            let fin = recon_final(recs_view(records@), strs_view(old(warns)@));
            pairs_view(r.0@) == fin.confirmed_quizzers && reg_view(r.1@) == fin.confirmed
                && strs_view(final(warns)@) == fin.warns
        }),
{
    let ghost rv = recs_view(records@);
    let ghost w0 = strs_view(warns@);
    let mut round_teams: Vec<(String, Vec<String>)> = Vec::new();
    let mut round_string = String::new();
    let mut room_string = String::new();
    let mut confirmed_quizzers: Vec<(String, String)> = Vec::new();
    let mut confirmed_teams: Vec<String> = Vec::new();
    let mut action = false;
    let mut confirmed_records: Vec<(String, RecordCollection)> = Vec::new();
    let mut candidate_records: Vec<Vec<String>> = Vec::new();
    let mut match_string = String::new();
    proof {
        assert(teams_view(round_teams@) =~= recon_init(w0).round_teams);
        assert(pairs_view(confirmed_quizzers@) =~= recon_init(w0).confirmed_quizzers);
        assert(strs_view(confirmed_teams@) =~= recon_init(w0).confirmed_teams);
        assert(reg_view(confirmed_records@) =~= recon_init(w0).confirmed);
        assert(recs_view(candidate_records@) =~= recon_init(w0).candidates);
    }
    let mut i: usize = 0;
    while i < records.len()
        invariant
            i <= records@.len(),
            rv == recs_view(records@),
            teams_view(round_teams@) == recon_fold(rv, w0, i as int).round_teams,
            round_string@ == recon_fold(rv, w0, i as int).round_str,
            room_string@ == recon_fold(rv, w0, i as int).room_str,
            pairs_view(confirmed_quizzers@) == recon_fold(rv, w0, i as int).confirmed_quizzers,
            strs_view(confirmed_teams@) == recon_fold(rv, w0, i as int).confirmed_teams,
            action == recon_fold(rv, w0, i as int).action,
            reg_view(confirmed_records@) == recon_fold(rv, w0, i as int).confirmed,
            recs_view(candidate_records@) == recon_fold(rv, w0, i as int).candidates,
            match_string@ == recon_fold(rv, w0, i as int).match_str,
            strs_view(warns@) == recon_fold(rv, w0, i as int).warns,
        decreases records@.len() - i,
    {
        let ghost st0 = recon_fold(rv, w0, i as int);
        let record = &records[i];
        let ghost cols = rv[i as int];
        proof {
            assert(strs_view(record@) == cols);
        }
        if check_new_round(&round_string, &room_string, record) {
            let ghost stf = finalize_state(st0);
            if check_valid_round(
                &round_teams,
                &mut confirmed_teams,
                &mut confirmed_quizzers,
                &mut action,
            ) {
                prune_round_teams(&mut round_teams);
                let rc = RecordCollection {
                    room: room_string.clone(),
                    round: round_string.clone(),
                    teams: round_teams,
                    records: candidate_records,
                };
                round_teams = Vec::new();
                candidate_records = Vec::new();
                proof {
                    assert(rc_view(rc) =~= RecColView {
                        room: st0.room_str,
                        round: st0.round_str,
                        teams: prune_teams(st0.round_teams, st0.round_teams.len() as int),
                        records: st0.candidates,
                    });
                }
                reg_put(&mut confirmed_records, warns, match_string.clone(), rc);
            } else {
                round_teams = Vec::new();
                candidate_records = Vec::new();
            }
            proof {
                assert(teams_view(round_teams@) =~= Seq::<(Seq<char>, Seq<Seq<char>>)>::empty());
                assert(recs_view(candidate_records@) =~= Seq::<Seq<Seq<char>>>::empty());
                assert(reg_view(confirmed_records@) == stf.confirmed);
                assert(strs_view(warns@) == stf.warns);
            }
            let mut ms = String::from_str("Rm");
            let t3 = trim_quotes(col_str(record, 3));
            ms.append(t3.as_str());
            ms.append("Rd");
            let t4 = trim_quotes(col_str(record, 4));
            ms.append(t4.as_str());
            proof {
                reveal_strlit("Rm");
                reveal_strlit("Rd");
                assert("Rm"@ =~= seq!['R', 'm']);
                assert("Rd"@ =~= seq!['R', 'd']);
                assert(ms@ =~= boundary_step(st0, cols).match_str);
            }
            match_string = ms;
            room_string = String::from_str(col_str(record, 3));
            round_string = String::from_str(col_str(record, 4));
        }
        let ghost st1 = if new_round_spec(st0.round_str, st0.room_str, cols) {
            boundary_step(st0, cols)
        } else {
            st0
        };
        proof {
            assert(teams_view(round_teams@) == st1.round_teams);
            assert(round_string@ == st1.round_str);
            assert(room_string@ == st1.room_str);
            assert(recs_view(candidate_records@) == st1.candidates);
            assert(match_string@ == st1.match_str);
        }
        let ecode = parse_event_code(col_str(record, 10));
        let name = String::from_str(col_str(record, 7));
        let tq = trim_quotes(col_str(record, 8));
        let team_number = parse_usize_or_zero(tq.as_str());
        let sq = trim_quotes_end(col_str(record, 9));
        let seat_number = parse_usize_or_zero(sq.as_str());
        proof {
            assert(team_number as int == parse_usize_spec(trim_quotes_spec(col_view(cols, 8))));
            assert(seat_number as int == parse_usize_spec(trim_back(col_view(cols, 9))));
        }
        match ecode {
            EventCode::TeamName => {
                set_team(&mut round_teams, team_number, name);
            },
            EventCode::QuizzerName => {
                set_seat(&mut round_teams, team_number, seat_number, name);
            },
            EventCode::Correct | EventCode::Incorrect | EventCode::BonusCorrect
                | EventCode::BonusIncorrect => {
                action = true;
                let ghost c0 = recs_view(candidate_records@);
                candidate_records.push(record.clone());
                proof {
                    assert(recs_view(candidate_records@) =~= c0.push(cols));
                }
            },
            _ => {},
        }
        proof {
            let stn = recon_step(st0, cols);
            assert(teams_view(round_teams@) == stn.round_teams);
            assert(recon_fold(rv, w0, i as int + 1) == stn);
        }
        i += 1;
    }
    let ghost stl = recon_fold(rv, w0, rv.len() as int);
    if check_valid_round(
        &round_teams,
        &mut confirmed_teams,
        &mut confirmed_quizzers,
        &mut action,
    ) {
        prune_round_teams(&mut round_teams);
        let rc = RecordCollection {
            room: room_string,
            round: round_string,
            teams: round_teams,
            records: candidate_records,
        };
        proof {
            assert(rc_view(rc) =~= RecColView {
                room: stl.room_str,
                round: stl.round_str,
                teams: prune_teams(stl.round_teams, stl.round_teams.len() as int),
                records: stl.candidates,
            });
        }
        reg_put(&mut confirmed_records, warns, match_string, rc);
    }
    proof {
        let fin = recon_final(rv, w0);
        assert(reg_view(confirmed_records@) == fin.confirmed);
        assert(strs_view(warns@) == fin.warns);
        assert(pairs_view(confirmed_quizzers@) == fin.confirmed_quizzers);
    }
    (confirmed_quizzers, confirmed_records)
}

/// Every confirmed round in the registry holds at least one scoring record:
/// a round whose roster saw no scoring event is never registered.
pub proof fn lemma_confirmed_rounds_have_action(rs: Seq<Seq<Seq<char>>>, w0: Seq<Seq<char>>)
    ensures
        forall|j: int|
            0 <= j < recon_final(rs, w0).confirmed.len() ==> recon_final(
                rs,
                w0,
            ).confirmed[j].1.records.len() >= 1,
{
    lemma_fold_confirmed_nonempty(rs, w0, rs.len() as int);
    let st = recon_fold(rs, w0, rs.len() as int);
    lemma_finalize_confirmed_nonempty(st);
}

/// The reconstruction invariant: buffered records are nonempty whenever the
/// action flag is set, and every registered round has a nonempty buffer.
pub open spec fn recon_inv(st: ReconState) -> bool {
    (st.action ==> st.candidates.len() >= 1) && (forall|j: int|
        0 <= j < st.confirmed.len() ==> st.confirmed[j].1.records.len() >= 1)
}

proof fn lemma_finalize_confirmed_nonempty(st: ReconState)
    requires
        recon_inv(st),
    ensures
        recon_inv(finalize_state(st)),
{
    if st.action {
        let stf = finalize_state(st);
        let j = reg_find_from(st.confirmed, st.match_str, 0);
        if j >= 0 {
            lemma_reg_find_bounds(st.confirmed, st.match_str, 0);
            assert forall|k: int| 0 <= k < stf.confirmed.len() implies stf.confirmed[k].1.records.len()
                >= 1 by {
                if k < stf.confirmed.len() - 1 {
                    assert(stf.confirmed[k] == st.confirmed.remove(j)[k]);
                }
            }
        }
    }
}

proof fn lemma_reg_find_bounds(m: Seq<(Seq<char>, RecColView)>, k: Seq<char>, i: int)
    ensures
        reg_find_from(m, k, i) == -1 || (i <= reg_find_from(m, k, i) < m.len()),
    decreases m.len() - i,
{
    if 0 <= i < m.len() && m[i].0 != k {
        lemma_reg_find_bounds(m, k, i + 1);
    }
}

proof fn lemma_fold_confirmed_nonempty(rs: Seq<Seq<Seq<char>>>, w0: Seq<Seq<char>>, k: int)
    ensures
        recon_inv(recon_fold(rs, w0, k)),
    decreases k,
{
    if k > 0 {
        lemma_fold_confirmed_nonempty(rs, w0, k - 1);
        let st = recon_fold(rs, w0, k - 1);
        let cols = rs[k - 1];
        if new_round_spec(st.round_str, st.room_str, cols) {
            lemma_finalize_confirmed_nonempty(st);
        }
    }
}

} // verus!
