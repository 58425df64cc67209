//! Verified utilities over strings and character sequences: equality,
//! lexicographic order, quote trimming, decimal parsing and rendering.
use vstd::prelude::*;
use vstd::string::StrSliceExecFns;
use vstd::string::StringExecFns;

verus! {

/// View of a sequence of strings as a sequence of character sequences.
pub open spec fn strs_view(v: Seq<String>) -> Seq<Seq<char>> {
    Seq::new(v.len(), |i: int| v[i]@)
}

/// View of a record list: each record is its list of string columns.
pub open spec fn recs_view(v: Seq<Vec<String>>) -> Seq<Seq<Seq<char>>> {
    Seq::new(v.len(), |i: int| strs_view(v[i]@))
}

/// Whether two strings hold the same characters.
pub fn str_eq(a: &str, b: &str) -> (r: bool)
    ensures
        r == (a@ == b@),
{
    let alen = a.unicode_len();
    let blen = b.unicode_len();
    if alen != blen {
        return false;
    }
    let mut i: usize = 0;
    while i < alen
        invariant
            alen == a@.len(),
            blen == b@.len(),
            alen == blen,
            i <= alen,
            forall|k: int| 0 <= k < i ==> a@[k] == b@[k],
        decreases alen - i,
    {
        if a.get_char(i) != b.get_char(i) {
            return false;
        }
        i += 1;
    }
    proof {
        assert(a@ =~= b@);
    }
    true
}

/// Lexicographic order on character sequences, by character code.
pub open spec fn lex_le(a: Seq<char>, b: Seq<char>) -> bool
    decreases a.len(),
{
    if a.len() == 0 {
        true
    } else if b.len() == 0 {
        false
    } else if (a[0] as u32) < (b[0] as u32) {
        true
    } else if (a[0] as u32) > (b[0] as u32) {
        false
    } else {
        lex_le(a.skip(1), b.skip(1))
    }
}

/// `lex_le` is total: of any two sequences, one is less than or equal.
pub proof fn lemma_lex_le_total(a: Seq<char>, b: Seq<char>)
    ensures
        lex_le(a, b) || lex_le(b, a),
    decreases a.len(),
{
    if a.len() > 0 && b.len() > 0 && (a[0] as u32) == (b[0] as u32) {
        lemma_lex_le_total(a.skip(1), b.skip(1));
    }
}

/// If each sequence is lexicographically at most the other, they are equal.
pub proof fn lemma_lex_le_antisymmetric(a: Seq<char>, b: Seq<char>)
    requires
        lex_le(a, b),
        lex_le(b, a),
    ensures
        a == b,
    decreases a.len(),
{
    if a.len() > 0 && b.len() > 0 {
        assert((a[0] as u32) == (b[0] as u32));
        assert(a[0] == b[0]) by {
            char_cast_injective(a[0], b[0]);
        }
        lemma_lex_le_antisymmetric(a.skip(1), b.skip(1));
        assert(a =~= seq![a[0]] + a.skip(1));
        assert(b =~= seq![b[0]] + b.skip(1));
    }
}

proof fn char_cast_injective(c1: char, c2: char)
    requires
        c1 as u32 == c2 as u32,
    ensures
        c1 == c2,
{
}

/// Whether string `a` is lexicographically at most `b`.
pub fn str_le(a: &str, b: &str) -> (r: bool)
    ensures
        r == lex_le(a@, b@),
{
    let alen = a.unicode_len();
    let blen = b.unicode_len();
    proof {
        assert(a@.skip(0) =~= a@);
        assert(b@.skip(0) =~= b@);
    }
    let mut i: usize = 0;
    while i < alen && i < blen
        invariant
            alen == a@.len(),
            blen == b@.len(),
            i <= alen,
            i <= blen,
            lex_le(a@, b@) == lex_le(a@.skip(i as int), b@.skip(i as int)),
        decreases alen - i,
    {
        let ca = a.get_char(i);
        let cb = b.get_char(i);
        proof {
            assert(a@.skip(i as int)[0] == a@[i as int]);
            assert(b@.skip(i as int)[0] == b@[i as int]);
            assert(a@.skip(i as int).skip(1) =~= a@.skip(i as int + 1));
            assert(b@.skip(i as int).skip(1) =~= b@.skip(i as int + 1));
        }
        if (ca as u32) < (cb as u32) {
            return true;
        }
        if (ca as u32) > (cb as u32) {
            return false;
        }
        i += 1;
    }
    if i >= alen {
        proof {
            assert(a@.skip(i as int).len() == 0);
        }
        true
    } else {
        proof {
            assert(b@.skip(i as int).len() == 0);
            assert(a@.skip(i as int).len() > 0);
        }
        false
    }
}

/// Drop every leading single-quote character.
pub open spec fn trim_front(s: Seq<char>) -> Seq<char>
    decreases s.len(),
{
    if s.len() > 0 && s[0] == '\'' {
        trim_front(s.skip(1))
    } else {
        s
    }
}

/// Drop every trailing single-quote character.
pub open spec fn trim_back(s: Seq<char>) -> Seq<char>
    decreases s.len(),
{
    if s.len() > 0 && s[s.len() - 1] == '\'' {
        trim_back(s.take(s.len() - 1))
    } else {
        s
    }
}

/// What `str::trim_matches('\'')` leaves: quotes stripped from both ends.
pub open spec fn trim_quotes_spec(s: Seq<char>) -> Seq<char> {
    trim_back(trim_front(s))
}

proof fn lemma_trim_front_at(s: Seq<char>, lo: int)
    requires
        0 <= lo <= s.len(),
        forall|k: int| 0 <= k < lo ==> s[k] == '\'',
        lo == s.len() || s[lo] != '\'',
    ensures
        trim_front(s) == s.skip(lo),
    decreases lo,
{
    if lo == 0 {
        assert(s.skip(0) =~= s);
    } else {
        assert(s[0] == '\'');
        lemma_trim_front_at(s.skip(1), lo - 1);
        assert(s.skip(1).skip(lo - 1) =~= s.skip(lo));
    }
}

proof fn lemma_trim_back_at(s: Seq<char>, hi: int)
    requires
        0 <= hi <= s.len(),
        forall|k: int| hi <= k < s.len() ==> s[k] == '\'',
        hi == 0 || s[hi - 1] != '\'',
    ensures
        trim_back(s) == s.take(hi),
    decreases s.len() - hi,
{
    if hi == s.len() {
        assert(s.take(hi) =~= s);
    } else {
        assert(s[s.len() - 1] == '\'');
        lemma_trim_back_at(s.take(s.len() - 1), hi);
        assert(s.take(s.len() - 1).take(hi) =~= s.take(hi));
    }
}

/// `str::trim_matches('\'')` as a verified function.
pub fn trim_quotes(s: &str) -> (r: String)
    ensures
        r@ == trim_quotes_spec(s@),
{
    let n = s.unicode_len();
    let mut lo: usize = 0;
    while lo < n && s.get_char(lo) == '\''
        invariant
            n == s@.len(),
            lo <= n,
            forall|k: int| 0 <= k < lo ==> s@[k] == '\'',
        decreases n - lo,
    {
        lo += 1;
    }
    proof {
        lemma_trim_front_at(s@, lo as int);
    }
    let mut hi: usize = n;
    while hi > lo && s.get_char(hi - 1) == '\''
        invariant
            n == s@.len(),
            lo <= hi <= n,
            forall|k: int| hi <= k < n ==> s@[k] == '\'',
        decreases hi,
    {
        hi -= 1;
    }
    proof {
        let t = s@.skip(lo as int);
        assert(forall|k: int| hi - lo <= k < t.len() ==> t[k] == s@[k + lo]);
        if hi > lo {
            assert(t[hi - lo - 1] == s@[hi - 1]);
        }
        lemma_trim_back_at(t, hi - lo);
        assert(t.take(hi - lo) =~= s@.subrange(lo as int, hi as int));
    }
    let part = s.substring_char(lo, hi);
    part.to_owned()
}

/// What `str::trim_end_matches('\'')` leaves: quotes stripped from the end.
pub fn trim_quotes_end(s: &str) -> (r: String)
    ensures
        r@ == trim_back(s@),
{
    let n = s.unicode_len();
    let mut hi: usize = n;
    while hi > 0 && s.get_char(hi - 1) == '\''
        invariant
            n == s@.len(),
            hi <= n,
            forall|k: int| hi <= k < n ==> s@[k] == '\'',
        decreases hi,
    {
        hi -= 1;
    }
    proof {
        lemma_trim_back_at(s@, hi as int);
        assert(s@.take(hi as int) =~= s@.subrange(0, hi as int));
    }
    let part = s.substring_char(0, hi);
    part.to_owned()
}

/// Whether a character is a decimal digit.
pub open spec fn is_digit(c: char) -> bool {
    48 <= (c as u32) <= 57
}

/// Whether the sequence is one or more decimal digits.
pub open spec fn all_digits(s: Seq<char>) -> bool {
    s.len() > 0 && forall|i: int| 0 <= i < s.len() ==> is_digit(s[i])
}

/// The value of a digit sequence read in base ten.
pub open spec fn digits_val(s: Seq<char>) -> int
    decreases s.len(),
{
    if s.len() == 0 {
        0
    } else {
        digits_val(s.take(s.len() - 1)) * 10 + ((s[s.len() - 1] as u32) - 48)
    }
}

proof fn lemma_digits_val_nonneg(s: Seq<char>)
    requires
        forall|i: int| 0 <= i < s.len() ==> is_digit(s[i]),
    ensures
        digits_val(s) >= 0,
    decreases s.len(),
{
    if s.len() > 0 {
        lemma_digits_val_nonneg(s.take(s.len() - 1));
    }
}

proof fn lemma_digits_val_mono(s: Seq<char>, k: int)
    requires
        forall|i: int| 0 <= i < s.len() ==> is_digit(s[i]),
        0 <= k <= s.len(),
    ensures
        digits_val(s) >= digits_val(s.take(k)),
    decreases s.len() - k,
{
    if k < s.len() {
        lemma_digits_val_mono(s, k + 1);
        let t = s.take(k + 1);
        assert(t.take(k) =~= s.take(k));
        lemma_digits_val_nonneg(s.take(k));
        assert(digits_val(t) == digits_val(s.take(k)) * 10 + ((s[k] as u32) - 48));
    } else {
        assert(s.take(k) =~= s);
    }
}

/// What `str::parse::<usize>()` with a fallback of zero yields: the numeric
/// value when the string is an optional plus sign followed by digits and the
/// value fits in `usize`, and zero otherwise.
pub open spec fn parse_usize_spec(s: Seq<char>) -> int {
    let body = if s.len() > 0 && s[0] == '+' {
        s.skip(1)
    } else {
        s
    };
    if all_digits(body) && 0 <= digits_val(body) <= usize::MAX {
        digits_val(body)
    } else {
        0
    }
}

/// Parse a decimal `usize`, yielding zero for malformed or overflowing input.
#[verifier::loop_isolation(false)]
pub fn parse_usize_or_zero(s: &str) -> (r: usize)
    ensures
        r as int == parse_usize_spec(s@),
{
    let n = s.unicode_len();
    let start: usize = if n > 0 && s.get_char(0) == '+' {
        1
    } else {
        0
    };
    let ghost body = if s@.len() > 0 && s@[0] == '+' {
        s@.skip(1)
    } else {
        s@
    };
    proof {
        assert(body.len() == n - start);
        assert(forall|k: int| 0 <= k < body.len() ==> body[k] == s@[k + start]);
    }
    if start >= n {
        return 0;
    }
    let mut i: usize = start;
    let mut acc: usize = 0;
    while i < n
        invariant
            n == s@.len(),
            start <= i <= n,
            start < n,
            body.len() == n - start,
            forall|k: int| 0 <= k < body.len() ==> body[k] == s@[k + start],
            forall|k: int| 0 <= k < i - start ==> is_digit(body[k]),
            acc as int == digits_val(body.take(i - start)),
        decreases n - i,
    {
        let c = s.get_char(i);
        let cu = c as u32;
        if cu < 48 || cu > 57 {
            proof {
                assert(body[i - start] == s@[i as int]);
                assert(!is_digit(body[i - start]));
                assert(!all_digits(body));
            }
            return 0;
        }
        let d = (cu - 48) as usize;
        assert(d <= 9);
        let limit = (usize::MAX - d) / 10;
        proof {
            let mx = usize::MAX as int;
            vstd::arithmetic::div_mod::lemma_fundamental_div_mod(mx - d, 10);
            vstd::arithmetic::div_mod::lemma_mod_bound(mx - d, 10);
        }
        if acc > limit {
            proof {
                let t = body.take(i - start + 1);
                assert(t.take(t.len() - 1) =~= body.take(i - start));
                assert(t[t.len() - 1] == body[i - start]);
                vstd::arithmetic::mul::lemma_mul_inequality(
                    limit as int + 1,
                    acc as int,
                    10,
                );
                assert(digits_val(t) == acc as int * 10 + d);
                assert(digits_val(t) > usize::MAX);
                if all_digits(body) {
                    lemma_digits_val_mono(body, i - start + 1);
                    assert(digits_val(body) > usize::MAX);
                }
            }
            return 0;
        }
        proof {
            let t = body.take(i - start + 1);
            assert(t.take(t.len() - 1) =~= body.take(i - start));
            assert(t[t.len() - 1] == body[i - start]);
            vstd::arithmetic::mul::lemma_mul_inequality(acc as int, limit as int, 10);
            assert(acc as int * 10 + d <= usize::MAX);
        }
        acc = acc * 10 + d;
        i += 1;
    }
    proof {
        assert(body.take(n - start) =~= body);
        assert(all_digits(body));
    }
    acc
}

/// The decimal digit character for a value below ten.
pub open spec fn digit_char(d: int) -> char {
    if d == 0 {
        '0'
    } else if d == 1 {
        '1'
    } else if d == 2 {
        '2'
    } else if d == 3 {
        '3'
    } else if d == 4 {
        '4'
    } else if d == 5 {
        '5'
    } else if d == 6 {
        '6'
    } else if d == 7 {
        '7'
    } else if d == 8 {
        '8'
    } else {
        '9'
    }
}

/// The decimal rendering of a non-negative integer.
pub open spec fn dec_digits(n: int) -> Seq<char>
    recommends
        n >= 0,
    decreases n,
{
    if n < 10 {
        seq![digit_char(n)]
    } else {
        dec_digits(n / 10) + seq![digit_char(n % 10)]
    }
}

/// The decimal rendering of an integer, with a leading minus when negative.
pub open spec fn int_digits(n: int) -> Seq<char> {
    if n < 0 {
        seq!['-'] + dec_digits(-n)
    } else {
        dec_digits(n)
    }
}

fn digit_char_exec(d: usize) -> (c: char)
    requires
        d < 10,
    ensures
        c == digit_char(d as int),
{
    if d == 0 {
        '0'
    } else if d == 1 {
        '1'
    } else if d == 2 {
        '2'
    } else if d == 3 {
        '3'
    } else if d == 4 {
        '4'
    } else if d == 5 {
        '5'
    } else if d == 6 {
        '6'
    } else if d == 7 {
        '7'
    } else if d == 8 {
        '8'
    } else {
        '9'
    }
}

/// Relies on `String: FromIterator<char>`: collecting characters yields the
/// string holding exactly those characters in order.
#[verifier::external_body]
pub fn string_from_chars(v: &Vec<char>) -> (r: String)
    ensures
        r@ == v@,
{
    v.iter().collect()
}

/// Render a `usize` in decimal.
pub fn usize_to_string(n: usize) -> (r: String)
    ensures
        r@ == dec_digits(n as int),
{
    let mut rev: Vec<char> = Vec::new();
    if n == 0 {
        rev.push('0');
        assert(rev@ =~= dec_digits(0));
        assert(rev@.reverse() =~= rev@);
    }
    let mut m = n;
    while m > 0
        invariant
            m >= 0,
            m > 0 ==> dec_digits(n as int) =~= dec_digits(m as int) + rev@.reverse(),
            m == 0 ==> dec_digits(n as int) =~= rev@.reverse(),
        decreases m,
    {
        let d = m % 10;
        let next = m / 10;
        let c = digit_char_exec(d);
        proof {
            let oldrev = rev@;
            assert(oldrev.push(c).reverse() =~= seq![c] + oldrev.reverse());
            if next == 0 {
                assert(m < 10);
                assert(dec_digits(m as int) == seq![digit_char(m as int)]);
                assert(dec_digits(n as int) =~= seq![c] + oldrev.reverse());
            } else {
                assert(m >= 10);
                assert(dec_digits(m as int) == dec_digits(m as int / 10) + seq![
                    digit_char(m as int % 10),
                ]);
                assert(dec_digits(n as int) =~= dec_digits(next as int) + (seq![c]
                    + oldrev.reverse()));
            }
        }
        rev.push(c);
        m = next;
    }
    let mut out: Vec<char> = Vec::new();
    let total = rev.len();
    let mut k: usize = 0;
    while k < total
        invariant
            total == rev@.len(),
            k <= total,
            out@ =~= rev@.reverse().take(k as int),
        decreases total - k,
    {
        let c = rev[total - 1 - k];
        proof {
            assert(rev@.reverse()[k as int] == rev@[total - 1 - k]);
            assert(out@.push(c) =~= rev@.reverse().take(k as int + 1));
        }
        out.push(c);
        k += 1;
    }
    proof {
        assert(rev@.reverse().take(total as int) =~= rev@.reverse());
    }
    string_from_chars(&out)
}

/// Render an `i32` in decimal, with a leading minus when negative.
pub fn i32_to_string(n: i32) -> (r: String)
    ensures
        r@ == int_digits(n as int),
{
    if n >= 0 {
        usize_to_string(n as usize)
    } else {
        let wide: i64 = n as i64;
        let mag: usize = (-wide) as usize;
        assert(mag as int == -(n as int));
        let digits = usize_to_string(mag);
        let mut s = String::new();
        s.append("-");
        proof {
            reveal_strlit("-");
            assert(s@ =~= seq!['-']);
        }
        s.append(digits.as_str());
        proof {
            assert(s@ =~= int_digits(n as int));
        }
        s
    }
}

/// Render a `u32` in decimal.
pub fn u32_to_string(n: u32) -> (r: String)
    ensures
        r@ == dec_digits(n as int),
{
    usize_to_string(n as usize)
}

/// Replace the element at an index of a vector.
pub fn vec_set<T>(v: &mut Vec<T>, i: usize, x: T)
    requires
        i < old(v)@.len(),
    ensures
        final(v)@ == old(v)@.update(i as int, x),
{
    let ghost v0 = v@;
    v.remove(i);
    v.insert(i, x);
    proof {
        assert(v@ =~= v0.update(i as int, x));
    }
}

/// Whether a sequence of names holds the given name.
pub open spec fn names_contain(s: Seq<Seq<char>>, n: Seq<char>) -> bool {
    exists|i: int| 0 <= i < s.len() && s[i] == n
}

/// Whether a string list holds a string with the given characters.
pub fn vec_contains_str(v: &Vec<String>, s: &str) -> (r: bool)
    ensures
        r == names_contain(strs_view(v@), s@),
{
    let mut i: usize = 0;
    while i < v.len()
        invariant
            i <= v@.len(),
            forall|k: int| 0 <= k < i ==> strs_view(v@)[k] != s@,
        decreases v@.len() - i,
    {
        if str_eq(v[i].as_str(), s) {
            assert(strs_view(v@)[i as int] == s@);
            return true;
        }
        i += 1;
    }
    false
}

} // verus!
