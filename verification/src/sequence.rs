//! The decimate gate: which positions of a sequence survive when one item
//! out of every N is kept.

use vstd::prelude::*;
use crate::numeric::{parse_i64, parse_i64_spec};
use crate::text::{
    chars_of, debug_quoted, debug_text, int_parse_error, int_parse_error_text, push_signed, push_text, same_chars,
    signed_decimal, string_of, trim, trim_chars,
};

verus! {

/// The stride actually used: a stride of 0 behaves as 1.
pub open spec fn effective_stride(keep_every: usize) -> int {
    if keep_every == 0 { 1 } else { keep_every as int }
}

/// Positions `0, n, 2n, ...` below `count`, for stride `n`.
pub open spec fn decimated(count: usize, keep_every: usize) -> Seq<usize> {
    let n = effective_stride(keep_every);
    Seq::new(((count + n - 1) / n) as nat, |k: int| (k * n) as usize)
}

/// The indices the decimate gate keeps out of `count` items when one item
/// of every `keep_every` is kept: `0, keep_every, 2*keep_every, ...` while
/// below `count`.
pub fn decimate_indices(count: usize, keep_every: usize) -> (r: Vec<usize>)
    ensures
        r@ == decimated(count, keep_every),
{
    let n: usize = if keep_every == 0 { 1 } else { keep_every };
    let ghost m: int = (count + n - 1) / (n as int);
    let mut r: Vec<usize> = Vec::new();
    let mut i: usize = 0;
    assert(r.len() * n == 0) by (nonlinear_arith)
        requires
            r.len() == 0;
    while i < count
        invariant
            n == effective_stride(keep_every),
            n >= 1,
            i <= count,
            i == r.len() * n || (i == count && r.len() * n >= count),
            r.len() > 0 ==> (r.len() - 1) * n < count,
            forall|k: int| 0 <= k < r.len() ==> r@[k] == k * n,
        decreases count - i,
    {
        let ghost len = r.len();
        assert(i == len * n);
        r.push(i);
        assert((len + 1) * n == len * n + n) by (nonlinear_arith);
        if n > count - i {
            i = count;
        } else {
            i = i + n;
        }
    }
    proof {
        let len = r.len() as int;
        if len == 0 {
            assert(len * n == 0) by (nonlinear_arith)
                requires
                    len == 0;
            assert(count == 0);
        } else {
            lemma_step_count(count as int, n as int, len - 1);
            lemma_step_count(count as int, n as int, len);
        }
        lemma_steps_bound(count as int, n as int);
    }
    assert(r@ =~= decimated(count, keep_every));
    r
}

proof fn lemma_steps_bound(count: int, n: int)
    requires
        count >= 0,
        n >= 1,
    ensures
        count > 0 ==> (count + n - 1) / n >= 1,
        count == 0 ==> (count + n - 1) / n == 0,
{
    assert(count > 0 ==> (count + n - 1) / n >= 1) by (nonlinear_arith)
        requires
            n >= 1,
            count >= 0;
    assert(count == 0 ==> (count + n - 1) / n == 0) by (nonlinear_arith)
        requires
            n >= 1,
            count >= 0;
}

/// `k` steps of stride `n` stay below `count` exactly while `k` is less than
/// the number of kept positions.
proof fn lemma_step_count(count: int, n: int, k: int)
    requires
        count >= 0,
        n >= 1,
        k >= 0,
    ensures
        (k * n < count) == (k < (count + n - 1) / n),
{
    assert((k * n < count) == (k < (count + n - 1) / n)) by (nonlinear_arith)
        requires
            count >= 0,
            n >= 1,
            k >= 0;
}

/// The shape of the decimated positions: stride 1 keeps every index, a
/// non-empty input always keeps index 0, consecutive kept indices are
/// exactly one stride apart, and every kept index is in range.
pub proof fn law_decimate_shape(count: usize, keep_every: usize)
    ensures
        keep_every == 1 ==> decimated(count, keep_every) =~= Seq::new(count as nat, |k: int| k as usize),
        count > 0 ==> decimated(count, keep_every).len() > 0 && decimated(count, keep_every)[0] == 0,
        forall|k: int|
            0 <= k < decimated(count, keep_every).len() - 1 ==> decimated(count, keep_every)[k + 1]
                - #[trigger] decimated(count, keep_every)[k] == effective_stride(keep_every),
        forall|k: int|
            0 <= k < decimated(count, keep_every).len() ==> decimated(count, keep_every)[k] < count,
{
    let n = effective_stride(keep_every);
    let d = decimated(count, keep_every);
    lemma_steps_bound(count as int, n);
    if keep_every == 1 {
        assert((count + n - 1) / n == count) by (nonlinear_arith)
            requires
                n == 1;
        assert forall|k: int| 0 <= k < count implies d[k] == k as usize by {
            assert(k * 1 == k);
        }
    }
    assert forall|k: int| 0 <= k < d.len() implies #[trigger] d[k] < count && d[k] == k * n by {
        lemma_step_count(count as int, n, k);
        assert(k * n >= 0) by (nonlinear_arith)
            requires
                k >= 0,
                n >= 1;
    }
    assert forall|k: int| 0 <= k < d.len() - 1 implies d[k + 1] - #[trigger] d[k] == n by {
        assert(d[k + 1] == (k + 1) * n);
        assert((k + 1) * n == k * n + n) by (nonlinear_arith);
    }
}

// ---------------------------------------------------------------------------
// The stride argument
// ---------------------------------------------------------------------------

/// Why a `--keep-every` value was refused.
#[derive(Debug)]
pub enum KeepEveryError {
    /// It is no integer (the value trimmed, and the parser's complaint).
    NotAnInteger { text: String, reason: String },
    /// It is an integer below 1.
    NotPositive { n: i64 },
}

/// The stride a `--keep-every` value asks for: 1 when it is absent;
/// otherwise the integer it spells (surrounding whitespace ignored), which
/// must be at least 1.
pub fn parse_keep_every(raw: Option<&str>) -> (r: Result<usize, KeepEveryError>)
    ensures
        match raw {
            None => r == Ok::<usize, KeepEveryError>(1),
            Some(t) => match parse_i64_spec(trim(t@)) {
                None => r matches Err(KeepEveryError::NotAnInteger { text, reason }) && text@ == trim(t@)
                    && reason@ == int_parse_error_text(trim(t@)),
                Some(n) => if n < 1 {
                    r matches Err(KeepEveryError::NotPositive { n: m }) && m == n
                } else {
                    r == Ok::<usize, KeepEveryError>(n as usize)
                },
            },
        },
{
    let t = match raw {
        None => return Ok(1),
        Some(t) => t,
    };
    let trimmed = trim_chars(&chars_of(t));
    match parse_i64(&trimmed) {
        None => {
            let text = string_of(&trimmed);
            let reason = int_parse_error(text.as_str());
            Err(KeepEveryError::NotAnInteger { text, reason })
        },
        Some(n) => {
            if n < 1 {
                Err(KeepEveryError::NotPositive { n })
            } else {
                Ok(n as usize)
            }
        },
    }
}

/// The sentence that reports a refused `--keep-every` value.
pub open spec fn keep_every_message(e: KeepEveryError) -> Seq<char> {
    match e {
        KeepEveryError::NotAnInteger { text, reason } => "--keep-every must be a positive integer, got "@
            + debug_quoted(text@) + ": "@ + reason@,
        KeepEveryError::NotPositive { n } => "--keep-every must be ≥ 1 (got "@ + signed_decimal(n as int) + ")"@,
    }
}

impl KeepEveryError {
    /// The sentence that reports this error.
    pub fn message(&self) -> (m: String)
        ensures
            m@ == keep_every_message(*self),
    {
        let mut out: Vec<char> = Vec::new();
        match self {
            KeepEveryError::NotAnInteger { text, reason } => {
                push_text(&mut out, "--keep-every must be a positive integer, got ");
                let shown = debug_text(text.as_str());
                push_text(&mut out, shown.as_str());
                push_text(&mut out, ": ");
                push_text(&mut out, reason.as_str());
            },
            KeepEveryError::NotPositive { n } => {
                push_text(&mut out, "--keep-every must be ≥ 1 (got ");
                push_signed(&mut out, *n);
                push_text(&mut out, ")");
            },
        }
        assert(out@ =~= keep_every_message(*self));
        string_of(&out)
    }
}

// ---------------------------------------------------------------------------
// The decimate operation's inputs
// ---------------------------------------------------------------------------

/// The media URN of the stream that carries the `--keep-every` value.
pub const KEEP_EVERY_URN: &'static str = "media:keep-every;numeric";

/// What an incoming stream of the decimate operation is.
#[derive(Debug, Clone, Copy, PartialEq, Eq, Structural)]
pub enum StreamRole {
    /// The `--keep-every` value.
    KeepEvery,
    /// The sequence to decimate.
    Sequence,
}

/// Why the decimate operation refused its input.
#[derive(Debug, Clone, PartialEq, Eq)]
pub enum DecimateError {
    /// A second sequence arrived (the URNs of both).
    TwoSequences { first: String, second: String },
    /// No sequence arrived.
    NoSequence,
    /// The sequence holds no item (its URN).
    EmptySequence { urn: String },
}

/// What a stream with media URN `urn` is, given the URN of the sequence
/// already received, if any: the keep-every value by its URN; any other
/// stream is the sequence, of which there is only one.
pub fn route_stream(seen: Option<&str>, urn: &str) -> (r: Result<StreamRole, DecimateError>)
    ensures
        urn@ == KEEP_EVERY_URN@ ==> r == Ok::<StreamRole, DecimateError>(StreamRole::KeepEvery),
        urn@ != KEEP_EVERY_URN@ ==> match seen {
            None => r == Ok::<StreamRole, DecimateError>(StreamRole::Sequence),
            Some(first) => r matches Err(DecimateError::TwoSequences { first: f, second: s }) && f@ == first@
                && s@ == urn@,
        },
{
    if same_chars(&chars_of(urn), &chars_of(KEEP_EVERY_URN)) {
        return Ok(StreamRole::KeepEvery);
    }
    match seen {
        None => Ok(StreamRole::Sequence),
        Some(first) => Err(DecimateError::TwoSequences { first: first.to_owned(), second: urn.to_owned() }),
    }
}

/// The positions to emit of a sequence of `total` items received under
/// media URN `urn` (if one was received), one of every `keep_every` kept:
/// refused when no sequence arrived or it holds no item.
pub fn decimate_plan(urn: Option<&str>, total: usize, keep_every: usize) -> (r: Result<Vec<usize>, DecimateError>)
    ensures
        match urn {
            None => r == Err::<Vec<usize>, DecimateError>(DecimateError::NoSequence),
            Some(u) => if total == 0 {
                r matches Err(DecimateError::EmptySequence { urn: x }) && x@ == u@
            } else {
                r matches Ok(v) && v@ == decimated(total, keep_every)
            },
        },
{
    match urn {
        None => Err(DecimateError::NoSequence),
        Some(u) => {
            if total == 0 {
                Err(DecimateError::EmptySequence { urn: u.to_owned() })
            } else {
                Ok(decimate_indices(total, keep_every))
            }
        },
    }
}

/// The sentence that reports a refused input.
pub open spec fn decimate_message(e: DecimateError) -> Seq<char> {
    match e {
        DecimateError::TwoSequences { first, second } => "decimate-sequence received two non-keep-every streams: "@
            + first@ + " and "@ + second@,
        DecimateError::NoSequence => "decimate-sequence received no input stream — missing required sequence input"@,
        DecimateError::EmptySequence { urn } => "decimate-sequence: input sequence "@ + urn@ + " was empty"@,
    }
}

impl DecimateError {
    /// The sentence that reports this error.
    pub fn message(&self) -> (m: String)
        ensures
            m@ == decimate_message(*self),
    {
        let mut out: Vec<char> = Vec::new();
        match self {
            DecimateError::TwoSequences { first, second } => {
                push_text(&mut out, "decimate-sequence received two non-keep-every streams: ");
                push_text(&mut out, first.as_str());
                push_text(&mut out, " and ");
                push_text(&mut out, second.as_str());
            },
            DecimateError::NoSequence => {
                push_text(&mut out, "decimate-sequence received no input stream — missing required sequence input");
            },
            DecimateError::EmptySequence { urn } => {
                push_text(&mut out, "decimate-sequence: input sequence ");
                push_text(&mut out, urn.as_str());
                push_text(&mut out, " was empty");
            },
        }
        assert(out@ =~= decimate_message(*self));
        string_of(&out)
    }
}

} // verus!
