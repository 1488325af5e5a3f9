//! Number literals: the JSON number grammar, the wider float-literal grammar
//! (`str::parse::<f64>` on digits, signs, dots and exponents), and whether a
//! literal's value is too large for a finite `f64`.

use vstd::prelude::*;
use crate::numeric::{digits_value, is_digit, lemma_digits_value_grows, lemma_digits_value_nonneg};
use crate::text::{chars_of, sub_chars};

verus! {

/// The 309 decimal digits of 2^1024 - 2^970, the least value that rounds to
/// infinity as an `f64` (the midpoint between `f64::MAX` and 2^1024, which
/// rounds to the even neighbour 2^1024).
pub const F64_OVERFLOW_DIGITS: &'static str = "179769313486231580793728971405303415079934132710037826936173778980444968292764750946649017977587207096330286416692887910946555547851940402630657488671505820681908902000708383676273854845817711531764475730270069855571366959622842914819860834936475292719074168444365510704342711559699508093042880177904174497792";

/// End of the run of digits of `s` starting at `i`.
pub open spec fn digits_end(s: Seq<char>, i: int) -> int
    decreases s.len() - i,
{
    if 0 <= i < s.len() && is_digit(s[i]) {
        digits_end(s, i + 1)
    } else {
        i
    }
}

/// Every character between `i` and the end of its run of digits is a digit.
pub proof fn lemma_digits_end(s: Seq<char>, i: int)
    requires
        0 <= i <= s.len(),
    ensures
        i <= digits_end(s, i) <= s.len(),
        forall|k: int| i <= k < digits_end(s, i) ==> is_digit(#[trigger] s[k]),
    decreases s.len() - i,
{
    if i < s.len() && is_digit(s[i]) {
        lemma_digits_end(s, i + 1);
    }
}

/// `i`, moved past one sign character if there is one.
pub open spec fn after_sign(s: Seq<char>, i: int) -> int {
    if 0 <= i < s.len() && (s[i] == '+' || s[i] == '-') {
        i + 1
    } else {
        i
    }
}

/// Whether `s[from..]` is a complete exponent part (`e` or `E`, an optional
/// sign, one or more digits) or empty.
pub open spec fn exponent_ok(s: Seq<char>, from: int) -> bool {
    if from == s.len() {
        true
    } else if s[from] == 'e' || s[from] == 'E' {
        let f = after_sign(s, from + 1);
        let g = digits_end(s, f);
        g > f && g == s.len()
    } else {
        false
    }
}

/// The pieces of a float literal: where its integer digits, fraction digits
/// and exponent part start and end.
pub struct FloatParts {
    pub int_start: int,
    pub int_end: int,
    pub frac_start: int,
    pub frac_end: int,
}

pub open spec fn float_parts(s: Seq<char>) -> FloatParts {
    let a = after_sign(s, 0);
    let b = digits_end(s, a);
    if b < s.len() && s[b] == '.' {
        FloatParts { int_start: a, int_end: b, frac_start: b + 1, frac_end: digits_end(s, b + 1) }
    } else {
        FloatParts { int_start: a, int_end: b, frac_start: b, frac_end: b }
    }
}

/// Whether `s` is a float literal `str::parse::<f64>` accepts (among texts of
/// digits, signs, dots and exponent letters): an optional sign, digits with
/// an optional fraction (at least one digit on one side of the dot), then an
/// optional exponent.
pub open spec fn float_literal_ok(s: Seq<char>) -> bool {
    let p = float_parts(s);
    (p.int_end > p.int_start || p.frac_end > p.frac_start) && exponent_ok(s, p.frac_end)
}

/// Whether `s` is a JSON number literal: an optional `-`, `0` or digits not
/// starting with `0`, an optional `.` with digits, an optional exponent.
pub open spec fn json_number_ok(s: Seq<char>) -> bool {
    let a = if s.len() > 0 && s[0] == '-' { 1int } else { 0 };
    let b = digits_end(s, a);
    let int_ok = b > a && (s[a] != '0' || b == a + 1);
    if !int_ok {
        false
    } else if b < s.len() && s[b] == '.' {
        let d = digits_end(s, b + 1);
        d > b + 1 && exponent_ok(s, d)
    } else {
        exponent_ok(s, b)
    }
}

/// The exponent of a float literal (0 when it has none).
pub open spec fn exponent_value(s: Seq<char>, from: int) -> int {
    if from < s.len() {
        let f = after_sign(s, from + 1);
        let v = digits_value(s.subrange(f, s.len() as int));
        if s[from + 1] == '-' { -v } else { v }
    } else {
        0
    }
}

/// Number of leading `'0'`s of `d`.
pub open spec fn leading_zeros(d: Seq<char>) -> int
    decreases d.len(),
{
    if d.len() > 0 && d[0] == '0' {
        1 + leading_zeros(d.drop_first())
    } else {
        0
    }
}

/// Whether `a` comes before `b` in dictionary order (both the same length).
pub open spec fn lex_less(a: Seq<char>, b: Seq<char>) -> bool
    decreases a.len(),
{
    if a.len() == 0 || b.len() == 0 {
        false
    } else if a[0] != b[0] {
        (a[0] as u32) < (b[0] as u32)
    } else {
        lex_less(a.drop_first(), b.drop_first())
    }
}

/// The first 309 characters of `d`, padded with `'0'` when shorter.
pub open spec fn first_309(d: Seq<char>) -> Seq<char> {
    if d.len() >= 309 {
        d.take(309)
    } else {
        d + Seq::new((309 - d.len()) as nat, |i: int| '0')
    }
}

/// Whether the value of the float literal `s` is at least 2^1024 - 2^970,
/// so that it rounds to infinity. With `D` the literal's significant digits
/// (integer and fraction digits, leading zeros dropped) and `K` the number
/// of digits of its integer part (`D`'s length minus the fraction's, plus
/// the exponent), that holds exactly when `K` exceeds 309, or `K` is 309 and
/// the first 309 digits of `D` (padded with zeros) are not below the
/// threshold's.
pub open spec fn float_literal_overflows(s: Seq<char>) -> bool {
    let p = float_parts(s);
    let digits = s.subrange(p.int_start, p.int_end) + s.subrange(p.frac_start, p.frac_end);
    let sig = digits.skip(leading_zeros(digits));
    let k = sig.len() - (p.frac_end - p.frac_start) + exponent_value(s, p.frac_end);
    &&& sig.len() > 0
    &&& (k > 309 || (k == 309 && !lex_less(first_309(sig), F64_OVERFLOW_DIGITS@)))
}

// ---------------------------------------------------------------------------
// Executable checks
// ---------------------------------------------------------------------------

fn is_digit_char(c: char) -> (b: bool)
    ensures
        b == is_digit(c),
{
    '0' <= c && c <= '9'
}

fn digits_end_exec(s: &Vec<char>, i: usize) -> (r: usize)
    requires
        i <= s.len(),
    ensures
        r == digits_end(s@, i as int),
        i <= r <= s.len(),
        forall|k: int| i <= k < r ==> is_digit(#[trigger] s@[k]),
    decreases s.len() - i,
{
    if i < s.len() && is_digit_char(s[i]) {
        digits_end_exec(s, i + 1)
    } else {
        i
    }
}

fn after_sign_exec(s: &Vec<char>, i: usize) -> (r: usize)
    requires
        i <= s.len(),
    ensures
        r == after_sign(s@, i as int),
        r <= s.len(),
{
    if i < s.len() && (s[i] == '+' || s[i] == '-') {
        i + 1
    } else {
        i
    }
}

fn exponent_ok_exec(s: &Vec<char>, from: usize) -> (b: bool)
    requires
        from <= s.len(),
    ensures
        b == exponent_ok(s@, from as int),
{
    if from == s.len() {
        true
    } else if s[from] == 'e' || s[from] == 'E' {
        let f = after_sign_exec(s, from + 1);
        let g = digits_end_exec(s, f);
        g > f && g == s.len()
    } else {
        false
    }
}

/// `(int_start, int_end, frac_start, frac_end)` of a float literal.
fn float_parts_exec(s: &Vec<char>) -> (r: (usize, usize, usize, usize))
    ensures
        r.0 == float_parts(s@).int_start,
        r.1 == float_parts(s@).int_end,
        r.2 == float_parts(s@).frac_start,
        r.3 == float_parts(s@).frac_end,
        r.0 <= r.1 <= r.2 <= r.3 <= s.len(),
{
    let a = after_sign_exec(s, 0);
    let b = digits_end_exec(s, a);
    if b < s.len() && s[b] == '.' {
        let d = digits_end_exec(s, b + 1);
        (a, b, b + 1, d)
    } else {
        (a, b, b, b)
    }
}

/// Whether `s` is a float literal `str::parse::<f64>` accepts.
pub fn float_literal_ok_exec(s: &Vec<char>) -> (b: bool)
    ensures
        b == float_literal_ok(s@),
{
    let (a, b, c, d) = float_parts_exec(s);
    (b > a || d > c) && exponent_ok_exec(s, d)
}

fn leading_zeros_exec(d: &Vec<char>) -> (r: usize)
    ensures
        r == leading_zeros(d@),
        r <= d.len(),
{
    let mut i: usize = 0;
    assert(d@.skip(0) =~= d@);
    while i < d.len() && d[i] == '0'
        invariant
            i <= d.len(),
            leading_zeros(d@) == i + leading_zeros(d@.skip(i as int)),
        decreases d.len() - i,
    {
        assert(d@.skip(i as int).drop_first() =~= d@.skip(i + 1));
        i = i + 1;
    }
    i
}

fn lex_less_exec(a: &Vec<char>, b: &Vec<char>) -> (r: bool)
    requires
        a.len() == b.len(),
    ensures
        r == lex_less(a@, b@),
{
    let mut i: usize = 0;
    assert(a@.skip(0) =~= a@);
    assert(b@.skip(0) =~= b@);
    while i < a.len() && a[i] == b[i]
        invariant
            a.len() == b.len(),
            i <= a.len(),
            lex_less(a@, b@) == lex_less(a@.skip(i as int), b@.skip(i as int)),
        decreases a.len() - i,
    {
        assert(a@.skip(i as int).drop_first() =~= a@.skip(i + 1));
        assert(b@.skip(i as int).drop_first() =~= b@.skip(i + 1));
        i = i + 1;
    }
    if i == a.len() {
        false
    } else {
        (a[i] as u32) < (b[i] as u32)
    }
}

fn first_309_exec(d: &Vec<char>) -> (r: Vec<char>)
    ensures
        r@ == first_309(d@),
{
    if d.len() >= 309 {
        sub_chars(d, 0, 309)
    } else {
        let mut r = sub_chars(d, 0, d.len());
        assert(r@ =~= d@);
        let ghost n = d.len();
        while r.len() < 309
            invariant
                n == d.len(),
                n <= r.len() <= 309,
                r@ =~= d@ + Seq::new((r.len() - n) as nat, |i: int| '0'),
            decreases 309 - r.len(),
        {
            r.push('0');
        }
        r
    }
}

const EXPONENT_CAP: u128 = 1_000_000_000_000_000_000_000_000_000_000;

/// The exponent of a float literal whose exponent part starts at `from`,
/// with its magnitude capped just above `EXPONENT_CAP`.
fn exponent_capped(s: &Vec<char>, from: usize) -> (e: i128)
    requires
        from <= s.len(),
        exponent_ok(s@, from as int),
    ensures
        -(EXPONENT_CAP + 1) <= e <= EXPONENT_CAP + 1,
        -EXPONENT_CAP <= exponent_value(s@, from as int) <= EXPONENT_CAP ==> e == exponent_value(
            s@,
            from as int,
        ),
        exponent_value(s@, from as int) > EXPONENT_CAP ==> e == EXPONENT_CAP + 1,
        exponent_value(s@, from as int) < -EXPONENT_CAP ==> e == -(EXPONENT_CAP + 1),
{
    if from == s.len() {
        return 0;
    }
    let f = after_sign_exec(s, from + 1);
    let neg = s[from + 1] == '-';
    let ghost digits = s@.subrange(f as int, s.len() as int);
    proof {
        lemma_digits_end(s@, f as int);
    }
    let mut acc: u128 = 0;
    let mut i = f;
    assert(digits.take(0) =~= Seq::<char>::empty());
    while i < s.len()
        invariant
            f <= i <= s.len(),
            digits == s@.subrange(f as int, s.len() as int),
            forall|k: int| 0 <= k < digits.len() ==> is_digit(#[trigger] digits[k]),
            acc <= 10 * EXPONENT_CAP + 9,
            acc <= EXPONENT_CAP ==> acc == digits_value(digits.take(i - f)),
            acc > EXPONENT_CAP ==> digits_value(digits.take(i - f)) > EXPONENT_CAP,
        decreases s.len() - i,
    {
        let c = s[i];
        assert(digits[i - f] == c);
        let v = (c as u32 - '0' as u32) as u128;
        proof {
            let e = digits.take(i - f + 1);
            assert(e.drop_last() =~= digits.take(i - f));
            assert(e.last() == c);
            assert forall|k: int| 0 <= k < digits.take(i - f).len() implies is_digit(#[trigger] digits.take(i - f)[k]) by {
                assert(digits.take(i - f)[k] == digits[k]);
            }
            lemma_digits_value_nonneg(digits.take(i - f));
        }
        if acc <= EXPONENT_CAP {
            acc = acc * 10 + v;
        }
        i = i + 1;
    }
    assert(digits.take(i - f) =~= digits);
    let m: i128 = if acc > EXPONENT_CAP { (EXPONENT_CAP + 1) as i128 } else { acc as i128 };
    if neg { -m } else { m }
}

/// Whether the value of the float literal `s` rounds to infinity as an `f64`.
pub fn float_literal_overflows_exec(s: &Vec<char>) -> (b: bool)
    requires
        float_literal_ok(s@),
    ensures
        b == float_literal_overflows(s@),
{
    let (a, b, c, d) = float_parts_exec(s);
    let ip = sub_chars(s, a, b);
    let fp = sub_chars(s, c, d);
    let mut digits = ip;
    let mut k: usize = 0;
    while k < fp.len()
        invariant
            k <= fp.len(),
            digits@ == ip@ + fp@.take(k as int),
        decreases fp.len() - k,
    {
        digits.push(fp[k]);
        assert(fp@.take(k + 1) =~= fp@.take(k as int).push(fp@[k as int]));
        k = k + 1;
    }
    assert(fp@.take(fp.len() as int) =~= fp@);
    let lz = leading_zeros_exec(&digits);
    let sig = sub_chars(&digits, lz, digits.len());
    assert(sig@ =~= digits@.skip(lz as int));
    if sig.len() == 0 {
        return false;
    }
    let e = exponent_capped(s, d);
    let kk: i128 = sig.len() as i128 - (d - c) as i128 + e;
    if kk > 309 {
        true
    } else if kk < 309 {
        false
    } else {
        let head = first_309_exec(&sig);
        let limit = chars_of(F64_OVERFLOW_DIGITS);
        proof {
            reveal_strlit("179769313486231580793728971405303415079934132710037826936173778980444968292764750946649017977587207096330286416692887910946555547851940402630657488671505820681908902000708383676273854845817711531764475730270069855571366959622842914819860834936475292719074168444365510704342711559699508093042880177904174497792");
        }
        assert(head@.len() == 309);
        assert(limit@.len() == 309);
        !lex_less_exec(&head, &limit)
    }
}

/// A name for the JSON literal `serde_json` writes for the `f64` nearest to
/// the float literal `text`.
pub uninterp spec fn float_number_text(text: Seq<char>) -> Seq<char>;

/// `str::parse::<f64>` then `serde_json::Number::from_f64` and its
/// `to_string`: the JSON literal of the `f64` nearest to `text`. The literal
/// is named, not stated; that parsing succeeds and the value is finite is
/// what `requires` asks.
#[verifier::external_body]
pub(crate) fn float_json_text(text: &str) -> (r: String)
    requires
        float_literal_ok(text@),
        !float_literal_overflows(text@),
    ensures
        r@ == float_number_text(text@),
{
    serde_json::Number::from_f64(text.parse().unwrap()).unwrap().to_string()
}

} // verus!
