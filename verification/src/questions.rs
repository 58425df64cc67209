//! Parsing of question-set documents and the question type tables.
//!
//! A question-set document interleaves `SET #<id>` markers with question
//! text segments separated by `\tab` tokens; the category letter of each
//! question is the second-to-last character of every other segment.
use vstd::prelude::*;
use vstd::string::StrSliceExecFns;
use vstd::string::StringExecFns;
use crate::strutil::str_eq;
use crate::strutil::strs_view;

verus! {

/// Category letter to statistic-table column: `A G I Q R S X V M` in order;
/// any other letter falls back to the first column.
pub open spec fn qt_index_spec(c: char) -> int {
    if c == 'A' {
        0
    } else if c == 'G' {
        1
    } else if c == 'I' {
        2
    } else if c == 'Q' {
        3
    } else if c == 'R' {
        4
    } else if c == 'S' {
        5
    } else if c == 'X' {
        6
    } else if c == 'V' {
        7
    } else if c == 'M' {
        8
    } else {
        0
    }
}

/// Whether the category letter counts toward the memory aggregate.
pub open spec fn is_memory_type(c: char) -> bool {
    c == 'Q' || c == 'R' || c == 'V'
}

/// The statistic-table column of a category letter.
pub fn question_type_index(c: char) -> (i: usize)
    ensures
        i == qt_index_spec(c),
        i < 9,
{
    if c == 'A' {
        0
    } else if c == 'G' {
        1
    } else if c == 'I' {
        2
    } else if c == 'Q' {
        3
    } else if c == 'R' {
        4
    } else if c == 'S' {
        5
    } else if c == 'X' {
        6
    } else if c == 'V' {
        7
    } else if c == 'M' {
        8
    } else {
        0
    }
}

/// View of a round-to-categories table as pairs of character sequences.
pub open spec fn qmap_view(m: Seq<(String, Vec<char>)>) -> Seq<(Seq<char>, Seq<char>)> {
    Seq::new(m.len(), |i: int| (m[i].0@, m[i].1@))
}

/// Index of the first entry with the given key, scanning from `i`; -1 if none.
pub open spec fn qm_find_from(m: Seq<(Seq<char>, Seq<char>)>, k: Seq<char>, i: int) -> int
    decreases m.len() - i,
{
    if i < 0 || i >= m.len() {
        -1
    } else if m[i].0 == k {
        i
    } else {
        qm_find_from(m, k, i + 1)
    }
}

/// Whether the table has an entry with the given key.
pub open spec fn qm_has(m: Seq<(Seq<char>, Seq<char>)>, k: Seq<char>) -> bool {
    qm_find_from(m, k, 0) >= 0
}

/// The categories stored under the given key (the first matching entry).
pub open spec fn qm_get(m: Seq<(Seq<char>, Seq<char>)>, k: Seq<char>) -> Seq<char> {
    m[qm_find_from(m, k, 0)].1
}

/// Store a value under a key: replace the first matching entry, else append.
pub open spec fn qm_put(
    m: Seq<(Seq<char>, Seq<char>)>,
    k: Seq<char>,
    v: Seq<char>,
) -> Seq<(Seq<char>, Seq<char>)> {
    let j = qm_find_from(m, k, 0);
    if j >= 0 {
        m.update(j, (k, v))
    } else {
        m.push((k, v))
    }
}

pub proof fn lemma_qm_find_bounds(m: Seq<(Seq<char>, Seq<char>)>, k: Seq<char>, i: int)
    ensures
        qm_find_from(m, k, i) == -1 || (i <= qm_find_from(m, k, i) < m.len()
            && m[qm_find_from(m, k, i)].0 == k),
    decreases m.len() - i,
{
    if 0 <= i < m.len() && m[i].0 != k {
        lemma_qm_find_bounds(m, k, i + 1);
    }
}

/// Find the index of a key in the table.
pub fn qm_find_exec(m: &Vec<(String, Vec<char>)>, k: &str) -> (r: Option<usize>)
    ensures
        (match r {
            Some(j) => qm_find_from(qmap_view(m@), k@, 0) == j as int,
            None => qm_find_from(qmap_view(m@), k@, 0) == -1,
        }),
{
    let ghost mv = qmap_view(m@);
    let mut i: usize = 0;
    while i < m.len()
        invariant
            i <= m@.len(),
            mv == qmap_view(m@),
            qm_find_from(mv, k@, 0) == qm_find_from(mv, k@, i as int),
        decreases m@.len() - i,
    {
        if str_eq(m[i].0.as_str(), k) {
            assert(mv[i as int].0 == k@);
            return Some(i);
        }
        assert(mv[i as int].0 != k@);
        i += 1;
    }
    None
}

/// Store a value under a key in the table, replacing any existing entry.
pub fn qm_put_exec(m: &mut Vec<(String, Vec<char>)>, k: String, v: Vec<char>)
    ensures
        qmap_view(final(m)@) == qm_put(qmap_view(old(m)@), k@, v@),
{
    let ghost mv = qmap_view(m@);
    match qm_find_exec(m, k.as_str()) {
        Some(j) => {
            proof {
                lemma_qm_find_bounds(mv, k@, 0);
            }
            m.remove(j);
            m.insert(j, (k, v));
            proof {
                assert(qmap_view(m@) =~= mv.update(j as int, (k@, v@)));
            }
        },
        None => {
            m.push((k, v));
            proof {
                assert(qmap_view(m@) =~= mv.push((k@, v@)));
            }
        },
    }
}

/// The `\tab` separator token of the document format.
pub open spec fn tab_pat() -> Seq<char> {
    seq!['\\', 't', 'a', 'b']
}

/// Whether pattern `p` occurs in `s` at position `i`.
pub open spec fn match_at(s: Seq<char>, p: Seq<char>, i: int) -> bool {
    0 <= i && i + p.len() <= s.len() && s.subrange(i, i + p.len()) == p
}

/// First position at or after `i` where `p` occurs in `s`; -1 if none.
pub open spec fn first_match_from(s: Seq<char>, p: Seq<char>, i: int) -> int
    decreases s.len() - i,
{
    if i < 0 || p.len() <= 0 || i + p.len() > s.len() {
        -1
    } else if match_at(s, p, i) {
        i
    } else {
        first_match_from(s, p, i + 1)
    }
}

/// The segments of `s` delimited by non-overlapping occurrences of `p`,
/// scanned left to right.
pub open spec fn split_by(s: Seq<char>, p: Seq<char>) -> Seq<Seq<char>>
    recommends
        p.len() > 0,
    decreases s.len(),
{
    let fm = first_match_from(s, p, 0);
    if 0 <= fm && p.len() > 0 && fm + p.len() <= s.len() {
        seq![s.take(fm)] + split_by(s.skip(fm + p.len()), p)
    } else {
        seq![s]
    }
}

proof fn lemma_fmf_step(s: Seq<char>, p: Seq<char>, a: int, b: int)
    requires
        0 <= a <= b,
        forall|k: int| a <= k < b ==> !match_at(s, p, k),
    ensures
        first_match_from(s, p, a) == first_match_from(s, p, b),
    decreases b - a,
{
    if a < b {
        if a + p.len() > s.len() {
            assert(b + p.len() > s.len());
            assert(first_match_from(s, p, a) == -1);
            lemma_fmf_none(s, p, b);
        } else {
            lemma_fmf_step(s, p, a + 1, b);
        }
    }
}

proof fn lemma_fmf_none(s: Seq<char>, p: Seq<char>, i: int)
    requires
        i >= 0,
        i + p.len() > s.len(),
    ensures
        first_match_from(s, p, i) == -1,
{
}

proof fn lemma_match_skip(s: Seq<char>, p: Seq<char>, seg: int, j: int)
    requires
        0 <= seg <= s.len(),
        0 <= j,
    ensures
        match_at(s.skip(seg), p, j) == match_at(s, p, seg + j),
{
    if j + p.len() <= s.skip(seg).len() {
        assert(s.skip(seg).subrange(j, j + p.len()) =~= s.subrange(seg + j, seg + j + p.len()));
    }
}

proof fn lemma_fmf_skip(s: Seq<char>, p: Seq<char>, seg: int, j: int)
    requires
        0 <= seg <= s.len(),
        0 <= j,
    ensures
        first_match_from(s.skip(seg), p, j) == (if first_match_from(s, p, seg + j) >= 0 {
            first_match_from(s, p, seg + j) - seg
        } else {
            -1
        }),
    decreases s.len() - j - seg,
{
    lemma_match_skip(s, p, seg, j);
    if p.len() > 0 && j + p.len() <= s.skip(seg).len() && !match_at(s.skip(seg), p, j) {
        lemma_fmf_skip(s, p, seg, j + 1);
    }
}

/// Split a string on each occurrence of the `\tab` token.
#[verifier::loop_isolation(false)]
pub fn split_tab(s: &str) -> (parts: Vec<String>)
    ensures
        strs_view(parts@) == split_by(s@, tab_pat()),
{
    let n = s.unicode_len();
    let mut parts: Vec<String> = Vec::new();
    let mut seg: usize = 0;
    let mut i: usize = 0;
    proof {
        assert(s@.skip(0) =~= s@);
        assert(strs_view(parts@) =~= Seq::<Seq<char>>::empty());
        assert(strs_view(parts@) + split_by(s@, tab_pat()) =~= split_by(s@, tab_pat()));
    }
    while n >= 4 && i <= n - 4
        invariant
            seg <= i <= n,
            n == s@.len(),
            forall|k: int| seg <= k < i ==> !match_at(s@, tab_pat(), k),
            split_by(s@, tab_pat()) == strs_view(parts@) + split_by(s@.skip(seg as int), tab_pat()),
        decreases n - i,
    {
        let is_match = s.get_char(i) == '\\' && s.get_char(i + 1) == 't' && s.get_char(i + 2)
            == 'a' && s.get_char(i + 3) == 'b';
        proof {
            if is_match {
                assert(s@.subrange(i as int, i as int + 4) =~= tab_pat());
                assert(match_at(s@, tab_pat(), i as int));
            } else {
                assert(s@.subrange(i as int, i as int + 4)[0] == s@[i as int]);
                assert(s@.subrange(i as int, i as int + 4)[1] == s@[i as int + 1]);
                assert(s@.subrange(i as int, i as int + 4)[2] == s@[i as int + 2]);
                assert(s@.subrange(i as int, i as int + 4)[3] == s@[i as int + 3]);
                assert(!match_at(s@, tab_pat(), i as int));
            }
        }
        if is_match {
            let part = s.substring_char(seg, i);
            let owned = part.to_owned();
            proof {
                let tail = s@.skip(seg as int);
                lemma_fmf_step(s@, tab_pat(), seg as int, i as int);
                lemma_fmf_skip(s@, tab_pat(), seg as int, 0);
                assert(first_match_from(tail, tab_pat(), 0) == i - seg);
                assert(tail.take(i - seg) =~= s@.subrange(seg as int, i as int));
                assert(tail.skip(i - seg + 4) =~= s@.skip(i as int + 4));
                assert(split_by(tail, tab_pat()) == seq![owned@] + split_by(
                    s@.skip(i as int + 4),
                    tab_pat(),
                ));
                assert(strs_view(parts@.push(owned)) =~= strs_view(parts@) + seq![owned@]);
                assert(strs_view(parts@.push(owned)) + split_by(s@.skip(i as int + 4), tab_pat())
                    =~= strs_view(parts@) + (seq![owned@] + split_by(
                    s@.skip(i as int + 4),
                    tab_pat(),
                )));
            }
            parts.push(owned);
            seg = i + 4;
            i = i + 4;
        } else {
            i += 1;
        }
    }
    let last = s.substring_char(seg, n);
    let owned = last.to_owned();
    proof {
        let tail = s@.skip(seg as int);
        assert forall|k: int| seg <= k < s@.len() implies !match_at(s@, tab_pat(), k) by {
            if k + 4 <= s@.len() {
                assert(k < i);
            }
        }
        lemma_fmf_step(s@, tab_pat(), seg as int, s@.len() as int);
        lemma_fmf_none(s@, tab_pat(), s@.len() as int);
        lemma_fmf_skip(s@, tab_pat(), seg as int, 0);
        assert(first_match_from(tail, tab_pat(), 0) == -1);
        assert(split_by(tail, tab_pat()) == seq![tail]);
        assert(owned@ == tail);
        assert(strs_view(parts@.push(owned)) =~= strs_view(parts@) + seq![tail]);
    }
    parts.push(owned);
    parts
}

/// Whether the character is an ASCII letter or digit.
pub open spec fn is_alnum(c: char) -> bool {
    (48 <= (c as u32) <= 57) || (65 <= (c as u32) <= 90) || (97 <= (c as u32) <= 122)
}

/// The `SET #` marker prefix.
pub open spec fn set_marker_pat() -> Seq<char> {
    seq!['S', 'E', 'T', ' ', '#']
}

/// Whether a `SET #<id>` marker starts at position `i`.
pub open spec fn marker_at(s: Seq<char>, i: int) -> bool {
    0 <= i && i + 6 <= s.len() && s.subrange(i, i + 5) == set_marker_pat() && is_alnum(s[i + 5])
}

/// First position at or after `i` where a marker starts; -1 if none.
pub open spec fn first_marker_from(s: Seq<char>, i: int) -> int
    decreases s.len() - i,
{
    if i < 0 || i + 6 > s.len() {
        -1
    } else if marker_at(s, i) {
        i
    } else {
        first_marker_from(s, i + 1)
    }
}

/// End of the alphanumeric run that starts at position `j`.
pub open spec fn alnum_end(s: Seq<char>, j: int) -> int
    decreases s.len() - j,
{
    if 0 <= j < s.len() && is_alnum(s[j]) {
        alnum_end(s, j + 1)
    } else {
        j
    }
}

/// The identifier captured by the first `SET #<id>` marker in the string,
/// if any: the maximal alphanumeric run following the marker prefix.
pub open spec fn find_marker_spec(s: Seq<char>) -> Option<Seq<char>> {
    let fm = first_marker_from(s, 0);
    if fm >= 0 {
        Some(s.subrange(fm + 5, alnum_end(s, fm + 5)))
    } else {
        None
    }
}

/// View of an optional string.
pub open spec fn opt_str_view(r: Option<String>) -> Option<Seq<char>> {
    match r {
        Some(s) => Some(s@),
        None => None,
    }
}

/// Relies on `regex::Regex::captures` with the pattern `SET #([A-Za-z0-9]+)`:
/// it yields the leftmost occurrence of the marker, and the greedy capture
/// group is the maximal alphanumeric run after the `SET #` prefix.
#[verifier::external_body]
fn find_set_marker(part: &str) -> (r: Option<String>)
    ensures
        opt_str_view(r) == find_marker_spec(part@),
{
    let re = regex::Regex::new("SET #([A-Za-z0-9]+)").unwrap();
    re.captures(part).map(|caps| caps.get(1).unwrap().as_str().to_string())
}

/// State of the question-set document scan: the table built so far, the
/// round identifier of the current set, and its category letters.
pub ghost struct QParseState {
    pub qmap: Seq<(Seq<char>, Seq<char>)>,
    pub round: Seq<char>,
    pub qtypes: Seq<char>,
}

/// How one segment advances the scan: a marker closes the previous set
/// (when it has collected any letters) and opens a new one; every other
/// segment (even index, more than one character) contributes the letter
/// that is its second-to-last character.
pub open spec fn qparse_step(st: QParseState, part: Seq<char>, idx: int) -> QParseState {
    let st1 = match find_marker_spec(part) {
        Some(id) => QParseState {
            qmap: if st.qtypes.len() > 0 {
                qm_put(st.qmap, st.round, st.qtypes)
            } else {
                st.qmap
            },
            round: seq!['\''] + id + seq!['\''],
            qtypes: Seq::empty(),
        },
        None => st,
    };
    if idx % 2 == 0 && part.len() > 1 {
        QParseState { qtypes: st1.qtypes.push(part[part.len() - 2]), ..st1 }
    } else {
        st1
    }
}

/// The scan state after the first `k` segments.
pub open spec fn qparse_fold(parts: Seq<Seq<char>>, k: int) -> QParseState
    decreases k,
{
    if k <= 0 {
        QParseState { qmap: Seq::empty(), round: Seq::empty(), qtypes: Seq::empty() }
    } else {
        qparse_step(qparse_fold(parts, k - 1), parts[k - 1], k - 1)
    }
}

/// The finished table of one document: the scan over all its segments,
/// with the trailing set stored unconditionally.
pub open spec fn qparse_doc(content: Seq<char>) -> Seq<(Seq<char>, Seq<char>)> {
    let parts = split_by(content, tab_pat());
    let st = qparse_fold(parts, parts.len() as int);
    qm_put(st.qmap, st.round, st.qtypes)
}

/// A pair of single quotes: the shape of an empty quoted identifier.
pub open spec fn empty_quoted() -> Seq<char> {
    seq!['\'', '\'']
}

/// The warnings the malformed-document check emits: one for each entry
/// whose round identifier is an empty quoted string.
pub open spec fn rtf_warns(m: Seq<(Seq<char>, Seq<char>)>, k: int) -> Seq<Seq<char>>
    decreases k,
{
    if k <= 0 {
        Seq::empty()
    } else {
        rtf_warns(m, k - 1) + (if m[k - 1].0 == empty_quoted() {
            seq![
                "Warning: RTF question set file might have been formatted incorrectly. Please use only the original RTF files!"@,
            ]
        } else {
            Seq::<Seq<char>>::empty()
        })
    }
}

/// Parse one question-set document into a round-to-categories table,
/// warning when a round identifier came out empty.
#[verifier::loop_isolation(false)]
pub fn parse_question_sets(content: &str, warns: &mut Vec<String>) -> (m: Vec<(String, Vec<char>)>)
    ensures
        qmap_view(m@) == qparse_doc(content@),
        strs_view(final(warns)@) == strs_view(old(warns)@) + rtf_warns(
            qparse_doc(content@),
            qparse_doc(content@).len() as int,
        ),
{
    let parts = split_tab(content);
    let ghost pv = strs_view(parts@);
    let mut qmap: Vec<(String, Vec<char>)> = Vec::new();
    let mut round = String::new();
    let mut qtypes: Vec<char> = Vec::new();
    let mut i: usize = 0;
    while i < parts.len()
        invariant
            i <= parts@.len(),
            pv == strs_view(parts@),
            qmap_view(qmap@) == qparse_fold(pv, i as int).qmap,
            round@ == qparse_fold(pv, i as int).round,
            qtypes@ == qparse_fold(pv, i as int).qtypes,
        decreases parts@.len() - i,
    {
        let part = &parts[i];
        assert(part@ == pv[i as int]);
        match find_set_marker(part.as_str()) {
            Some(id) => {
                if qtypes.len() > 0 {
                    let key = round.clone();
                    let vals = qtypes.clone();
                    assert(vals@ =~= qtypes@);
                    qm_put_exec(&mut qmap, key, vals);
                }
                let mut nr = String::new();
                nr.append("'");
                nr.append(id.as_str());
                nr.append("'");
                proof {
                    reveal_strlit("'");
                    assert(nr@ =~= seq!['\''] + id@ + seq!['\'']);
                }
                round = nr;
                qtypes = Vec::new();
            },
            None => {},
        }
        if i % 2 == 0 {
            let plen = part.unicode_len();
            if plen > 1 {
                let c = part.get_char(plen - 2);
                qtypes.push(c);
            }
        }
        proof {
            assert(qparse_fold(pv, i as int + 1) == qparse_step(
                qparse_fold(pv, i as int),
                pv[i as int],
                i as int,
            ));
        }
        i += 1;
    }
    proof {
        assert(qparse_fold(pv, pv.len() as int).qmap == qparse_fold(pv, i as int).qmap);
    }
    qm_put_exec(&mut qmap, round, qtypes);
    let ghost fm = qparse_doc(content@);
    assert(qmap_view(qmap@) == fm);
    let mut k: usize = 0;
    while k < qmap.len()
        invariant
            k <= qmap@.len(),
            qmap_view(qmap@) == fm,
            strs_view(warns@) == strs_view(old(warns)@) + rtf_warns(fm, k as int),
        decreases qmap@.len() - k,
    {
        proof {
            reveal_strlit("''");
        }
        if str_eq(qmap[k].0.as_str(), "''") {
            let msg = String::from_str(
                "Warning: RTF question set file might have been formatted incorrectly. Please use only the original RTF files!",
            );
            proof {
                assert(fm[k as int].0 == empty_quoted()) by {
                    assert(qmap@[k as int].0@ == "''"@);
                    assert("''"@ =~= empty_quoted());
                }
                assert(strs_view(warns@.push(msg)) =~= strs_view(warns@) + seq![msg@]);
                assert(strs_view(old(warns)@) + rtf_warns(fm, k as int + 1) =~= (strs_view(
                    old(warns)@,
                ) + rtf_warns(fm, k as int)) + seq![msg@]);
            }
            warns.push(msg);
        } else {
            proof {
                assert(fm[k as int].0 != empty_quoted()) by {
                    assert(qmap@[k as int].0@ != "''"@);
                    assert("''"@ =~= empty_quoted());
                }
                assert(rtf_warns(fm, k as int + 1) =~= rtf_warns(fm, k as int));
            }
        }
        k += 1;
    }
    qmap
}

/// The warning recorded when a later document repeats a round identifier.
pub open spec fn dup_set_warn(k: Seq<char>) -> Seq<char> {
    "Warning: Duplicate question set number: "@ + k + ", using only the first."@
}

/// How one parsed entry joins the merged table: a repeated round identifier
/// is dropped with a warning, keeping the first occurrence.
pub open spec fn merge_entry(
    acc: (Seq<(Seq<char>, Seq<char>)>, Seq<Seq<char>>),
    e: (Seq<char>, Seq<char>),
) -> (Seq<(Seq<char>, Seq<char>)>, Seq<Seq<char>>) {
    if qm_has(acc.0, e.0) {
        (acc.0, acc.1.push(dup_set_warn(e.0)))
    } else {
        (acc.0.push(e), acc.1)
    }
}

/// The merged table and warnings after the first `k` entries of one document.
pub open spec fn merge_doc(
    acc: (Seq<(Seq<char>, Seq<char>)>, Seq<Seq<char>>),
    m: Seq<(Seq<char>, Seq<char>)>,
    k: int,
) -> (Seq<(Seq<char>, Seq<char>)>, Seq<Seq<char>>)
    decreases k,
{
    if k <= 0 {
        acc
    } else {
        merge_entry(merge_doc(acc, m, k - 1), m[k - 1])
    }
}

/// The merged table and warnings after the first `k` documents.
pub open spec fn merge_docs(
    docs: Seq<Seq<char>>,
    k: int,
) -> (Seq<(Seq<char>, Seq<char>)>, Seq<Seq<char>>)
    decreases k,
{
    if k <= 0 {
        (Seq::empty(), Seq::empty())
    } else {
        let acc = merge_docs(docs, k - 1);
        let m = qparse_doc(docs[k - 1]);
        let acc1 = (acc.0, acc.1 + rtf_warns(m, m.len() as int));
        merge_doc(acc1, m, m.len() as int)
    }
}

/// Build the round-to-categories table from all question-set documents,
/// keeping the first table seen for a repeated round identifier.
#[verifier::loop_isolation(false)]
pub fn get_question_types_by_round(docs: &Vec<String>, warns: &mut Vec<String>) -> (m: Vec<
    (String, Vec<char>),
>)
    ensures
        qmap_view(m@) == merge_docs(strs_view(docs@), docs@.len() as int).0,
        strs_view(final(warns)@) == strs_view(old(warns)@) + merge_docs(
            strs_view(docs@),
            docs@.len() as int,
        ).1,
{
    let ghost dv = strs_view(docs@);
    let mut out: Vec<(String, Vec<char>)> = Vec::new();
    let mut d: usize = 0;
    while d < docs.len()
        invariant
            d <= docs@.len(),
            dv == strs_view(docs@),
            qmap_view(out@) == merge_docs(dv, d as int).0,
            strs_view(warns@) == strs_view(old(warns)@) + merge_docs(dv, d as int).1,
        decreases docs@.len() - d,
    {
        assert(docs@[d as int]@ == dv[d as int]);
        let parsed = parse_question_sets(docs[d].as_str(), warns);
        let ghost pm = qparse_doc(dv[d as int]);
        let ghost acc1 = (merge_docs(dv, d as int).0, merge_docs(dv, d as int).1 + rtf_warns(
            pm,
            pm.len() as int,
        ));
        proof {
            assert(strs_view(warns@) =~= strs_view(old(warns)@) + acc1.1);
        }
        let mut e: usize = 0;
        while e < parsed.len()
            invariant
                e <= parsed@.len(),
                qmap_view(parsed@) == pm,
                qmap_view(out@) == merge_doc(acc1, pm, e as int).0,
                strs_view(warns@) == strs_view(old(warns)@) + merge_doc(acc1, pm, e as int).1,
            decreases parsed@.len() - e,
        {
            let ghost accx = merge_doc(acc1, pm, e as int);
            let key = &parsed[e].0;
            assert(pm[e as int] == (key@, parsed@[e as int].1@));
            match qm_find_exec(&out, key.as_str()) {
                Some(_) => {
                    proof {
                        lemma_qm_find_bounds(qmap_view(out@), key@, 0);
                        assert(qm_has(accx.0, pm[e as int].0));
                    }
                    let mut msg = String::from_str("Warning: Duplicate question set number: ");
                    msg.append(key.as_str());
                    msg.append(", using only the first.");
                    proof {
                        assert(msg@ =~= dup_set_warn(key@));
                    }
                    let ghost wv0 = strs_view(warns@);
                    warns.push(msg);
                    proof {
                        assert(strs_view(warns@) =~= wv0.push(dup_set_warn(key@)));
                        assert(strs_view(warns@) =~= strs_view(old(warns)@) + accx.1.push(
                            dup_set_warn(key@),
                        ));
                    }
                },
                None => {
                    proof {
                        assert(!qm_has(accx.0, pm[e as int].0));
                    }
                    let entry = (parsed[e].0.clone(), parsed[e].1.clone());
                    assert(entry.1@ =~= parsed@[e as int].1@);
                    out.push(entry);
                    proof {
                        assert(qmap_view(out@) =~= accx.0.push(pm[e as int]));
                    }
                },
            }
            e += 1;
        }
        proof {
            assert(merge_doc(acc1, pm, pm.len() as int) == merge_docs(dv, d as int + 1));
        }
        d += 1;
    }
    out
}

} // verus!
