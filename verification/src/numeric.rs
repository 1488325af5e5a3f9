//! Decimal integer literals: what `str::parse::<i64>` accepts and the value
//! it yields.

use vstd::prelude::*;

verus! {

pub open spec fn is_digit(c: char) -> bool {
    '0' <= c && c <= '9'
}

pub open spec fn digit_value(c: char) -> int {
    (c as u32) - ('0' as u32)
}

/// A non-empty run of ASCII digits.
pub open spec fn is_digits(d: Seq<char>) -> bool {
    d.len() > 0 && forall|i: int| 0 <= i < d.len() ==> is_digit(#[trigger] d[i])
}

/// The decimal value of a run of digits.
pub open spec fn digits_value(d: Seq<char>) -> int
    decreases d.len(),
{
    if d.len() == 0 {
        0
    } else {
        digits_value(d.drop_last()) * 10 + digit_value(d.last())
    }
}

/// The sign of an integer literal and its digits: an optional leading `-`
/// or `+`.
pub open spec fn sign_and_digits(s: Seq<char>) -> (bool, Seq<char>) {
    if s.len() > 0 && s[0] == '-' {
        (true, s.drop_first())
    } else if s.len() > 0 && s[0] == '+' {
        (false, s.drop_first())
    } else {
        (false, s)
    }
}

/// The value of the integer literal `s` (optional sign, then one or more
/// ASCII digits, nothing else), or `None` when `s` is no such literal or its
/// value does not fit an `i64`.
pub open spec fn parse_i64_spec(s: Seq<char>) -> Option<i64> {
    let (neg, d) = sign_and_digits(s);
    if !is_digits(d) {
        None
    } else {
        let v = if neg { -digits_value(d) } else { digits_value(d) };
        if i64::MIN <= v <= i64::MAX {
            Some(v as i64)
        } else {
            None
        }
    }
}

pub proof fn lemma_digits_value_nonneg(d: Seq<char>)
    requires
        forall|i: int| 0 <= i < d.len() ==> is_digit(#[trigger] d[i]),
    ensures
        digits_value(d) >= 0,
    decreases d.len(),
{
    if d.len() > 0 {
        assert forall|i: int| 0 <= i < d.drop_last().len() implies is_digit(#[trigger] d.drop_last()[i]) by {
            assert(d.drop_last()[i] == d[i]);
        }
        lemma_digits_value_nonneg(d.drop_last());
        assert(is_digit(d[d.len() - 1]));
    }
}

/// Digits appended never lower the value.
pub proof fn lemma_digits_value_grows(d: Seq<char>, i: int)
    requires
        0 <= i <= d.len(),
        forall|k: int| 0 <= k < d.len() ==> is_digit(#[trigger] d[k]),
    ensures
        digits_value(d.take(i)) <= digits_value(d),
    decreases d.len() - i,
{
    if i < d.len() {
        let e = d.take(i + 1);
        assert(e.drop_last() =~= d.take(i));
        assert(e.last() == d[i]);
        assert forall|k: int| 0 <= k < d.take(i).len() implies is_digit(#[trigger] d.take(i)[k]) by {
            assert(d.take(i)[k] == d[k]);
        }
        lemma_digits_value_nonneg(d.take(i));
        lemma_digits_value_grows(d, i + 1);
    } else {
        assert(d.take(i) =~= d);
    }
}

/// The value of the integer literal `s`, as `str::parse::<i64>` yields it.
pub fn parse_i64(s: &Vec<char>) -> (r: Option<i64>)
    ensures
        r == parse_i64_spec(s@),
{
    let mut start: usize = 0;
    let mut neg = false;
    if s.len() > 0 && s[0] == '-' {
        neg = true;
        start = 1;
    } else if s.len() > 0 && s[0] == '+' {
        start = 1;
    }
    let ghost d = s@.skip(start as int);
    assert(d == sign_and_digits(s@).1);
    assert(neg == sign_and_digits(s@).0);
    if start == s.len() {
        return None;
    }
    // The magnitude limit: 2^63 for a negative literal, 2^63 - 1 otherwise.
    let limit: u64 = if neg { 0x8000_0000_0000_0000 } else { 0x7FFF_FFFF_FFFF_FFFF };
    let mut acc: u64 = 0;
    let mut i = start;
    while i < s.len()
        invariant
            start <= i <= s.len(),
            d == s@.skip(start as int),
            d == sign_and_digits(s@).1,
            neg == sign_and_digits(s@).0,
            limit == if neg { 0x8000_0000_0000_0000u64 } else { 0x7FFF_FFFF_FFFF_FFFFu64 },
            acc <= limit,
            acc == digits_value(d.take(i - start)),
            forall|k: int| 0 <= k < i - start ==> is_digit(#[trigger] d[k]),
        decreases s.len() - i,
    {
        let c = s[i];
        assert(d[i - start] == c);
        if !('0' <= c && c <= '9') {
            assert(!is_digit(d[i - start]));
            return None;
        }
        let v = (c as u32 - '0' as u32) as u64;
        assert(v <= 9);
        proof {
            let e = d.take(i - start + 1);
            assert(e.drop_last() =~= d.take(i - start));
            assert(e.last() == c);
        }
        if acc > (limit - v) / 10 {
            proof {
                assert(acc * 10 + v > limit) by (nonlinear_arith)
                    requires
                        acc > (limit - v) / 10,
                        v <= limit;
                assert forall|k: int| 0 <= k < i - start + 1 implies is_digit(#[trigger] d[k]) by {
                }
                let ghost all_digits = forall|k: int| 0 <= k < d.len() ==> is_digit(#[trigger] d[k]);
                if all_digits {
                    lemma_digits_value_grows(d, i - start + 1);
                }
            }
            return None;
        }
        acc = acc * 10 + v;
        i = i + 1;
    }
    assert(d.take(i - start) =~= d);
    if neg {
        if acc == 0x8000_0000_0000_0000 {
            Some(i64::MIN)
        } else {
            Some(-(acc as i64))
        }
    } else {
        Some(acc as i64)
    }
}

} // verus!
