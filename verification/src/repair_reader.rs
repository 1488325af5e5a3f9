//! The tolerant JSON reader, step by step, proved against the spec functions
//! of `repair`.

use vstd::prelude::*;
use vstd::utf8::{valid_utf8, decode_utf8, decode_first_scalar, length_of_first_scalar};
use crate::json::{Json, JsonValue};
use crate::number::{float_json_text, float_literal_ok, float_literal_overflows, float_literal_ok_exec, float_literal_overflows_exec};
use crate::repair::{
    ARRAY_CLOSED, ARRAY_COMMA_INSERTED, ARRAY_LEADING_COMMA, ARRAY_TRAILING_COMMA,
    BACKSLASH_DROPPED, BLOCK_COMMENT_REMOVED, BOM_REMOVED, BOOLEAN_LOWERCASED, COLON_INSERTED,
    CONTROL_ESCAPED, Cursor, EQUALS_REPLACED, ESCAPE_KEPT, Fault, KEY_QUOTED,
    LINE_COMMENT_REMOVED, MAX_DEPTH, MINUS_INFINITY_REPLACED, NON_FINITE_REPLACED,
    NULL_REPLACED, NUMBER_NORMALIZED, OBJECT_CLOSED, OBJECT_COMMA_INSERTED,
    OBJECT_LEADING_COMMA, OBJECT_TRAILING_COMMA, PLUS_REMOVED, RepairAction, RepairError,
    SINGLE_QUOTES_REPLACED, STRING_CLOSED_AT_END, STRING_CLOSED_AT_LINE, actions_view, items_json,
    members_json, lemma_array_json, lemma_object_json, array_rest, ascii_text,
    block_end, block_scan, find_key, has_bom, hex4, hex_value, ident_end, infinity_bytes,
    is_char_value, is_high_surrogate, low_escape, pair_value, is_digit_byte, is_ident_byte, is_number_byte, is_ws_byte,
    json_number_accepted, lemma_scans, line_end, moved, noted, number_end, number_outcome,
    object_rest, read_colon, read_key, read_number, read_separator, read_string, read_value,
    read_word, repair_spec, simple_escape, skip_ws, stray_comma, string_rest, upsert, ws_end,
    lemma_skip_ws_pos, in_order, lemma_in_order_push, lemma_in_order_up,
};
use crate::text::{chars_of, same_chars, string_of, text_from_utf8};

verus! {

/// Where the reader stands and the fixes it has recorded so far.
pub(crate) struct Reader {
    pub(crate) pos: usize,
    pub(crate) repairs: Vec<RepairAction>,
}

impl Reader {
    pub(crate) open spec fn cursor(&self) -> Cursor {
        Cursor { pos: self.pos as int, notes: actions_view(self.repairs@) }
    }
}

/// What a step that reads a value did: it failed as the spec says, or it
/// gave the spec's value and left the reader where the spec says.
pub(crate) open spec fn value_outcome(res: Result<JsonValue, RepairError>, r: Reader, s: Result<(Json, Cursor), Fault>) -> bool {
    match s {
        Ok((v, c)) => match res {
            Ok(x) => x.json() == v && r.cursor() == c,
            Err(_) => false,
        },
        Err(f) => match res {
            Ok(_) => false,
            Err(e) => e.fault() == f,
        },
    }
}

/// The same for a step that reads characters.
pub(crate) open spec fn chars_outcome(res: Result<Vec<char>, RepairError>, r: Reader, s: Result<(Seq<char>, Cursor), Fault>) -> bool {
    match s {
        Ok((v, c)) => match res {
            Ok(x) => x@ == v && r.cursor() == c,
            Err(_) => false,
        },
        Err(f) => match res {
            Ok(_) => false,
            Err(e) => e.fault() == f,
        },
    }
}

/// `char::from_u32`: the character with number `i`, unless `i` is a
/// surrogate or above 0x10FFFF.
pub assume_specification[ char::from_u32 ](i: u32) -> (r: Option<char>)
    ensures
        r == (if is_char_value(i as int) { Some(i as char) } else { None }),
;

/// `serde_json::from_str::<serde_json::Number>`: whether a strict JSON
/// reader takes `text` as a number. What it accepts is named, not stated.
#[verifier::external_body]
fn json_number_parses(text: &str) -> (r: bool)
    ensures
        r == json_number_accepted(text@),
{
    serde_json::from_str::<serde_json::Number>(text).is_ok()
}

pub(crate) fn note(r: &mut Reader, at: usize, what: &str)
    ensures
        final(r).cursor() == noted(old(r).cursor(), at as int, what@),
        final(r).pos == old(r).pos,
        in_order(old(r).cursor().notes, at as int) ==> in_order(final(r).cursor().notes, at as int),
{
    r.repairs.push(RepairAction { position: at, what: what.to_owned() });
    proof {
        assert(actions_view(r.repairs@) =~= actions_view(old(r).repairs@).push((at as int, what@)));
        if in_order(old(r).cursor().notes, at as int) {
            lemma_in_order_push(old(r).cursor().notes, at as int, what@);
        }
    }
}

fn is_ws_byte_exec(c: u8) -> (r: bool)
    ensures
        r == is_ws_byte(c),
{
    c == 32 || c == 9 || c == 10 || c == 13
}

fn is_ident_byte_exec(c: u8) -> (r: bool)
    ensures
        r == is_ident_byte(c),
{
    (48 <= c && c <= 57) || (65 <= c && c <= 90) || (97 <= c && c <= 122) || c == 95 || c == 36
        || c == 45 || c == 46
}

fn is_number_byte_exec(c: u8) -> (r: bool)
    ensures
        r == is_number_byte(c),
{
    (48 <= c && c <= 57) || c == 45 || c == 43 || c == 46 || c == 101 || c == 69
}

/// Whitespace and comments from the reader's position on.
pub(crate) fn pass_ws(b: &[u8], r: &mut Reader)
    requires
        old(r).pos <= b@.len(),
    ensures
        final(r).cursor() == skip_ws(b@, old(r).cursor()),
        old(r).pos <= final(r).pos <= b@.len(),
        in_order(old(r).cursor().notes, old(r).pos as int) ==> in_order(final(r).cursor().notes, final(r).pos as int),
{
    loop
        invariant
            old(r).pos <= r.pos <= b@.len(),
            skip_ws(b@, r.cursor()) == skip_ws(b@, old(r).cursor()),
            in_order(old(r).cursor().notes, old(r).pos as int) ==> in_order(r.cursor().notes, r.pos as int),
        decreases b@.len() - r.pos,
    {
        let ghost before = r.cursor();
        let mut q = r.pos;
        while q < b.len() && is_ws_byte_exec(b[q])
            invariant
                r.pos <= q <= b@.len(),
                ws_end(b@, q as int) == ws_end(b@, r.pos as int),
            decreases b@.len() - q,
        {
            q = q + 1;
        }
        assert(ws_end(b@, r.pos as int) == q);
        if q < b.len() && b.len() - q >= 2 && b[q] == 47 && b[q + 1] == 47 {
            let mut e = q + 2;
            while e < b.len() && b[e] != 10
                invariant
                    q + 2 <= e <= b@.len(),
                    line_end(b@, e as int) == line_end(b@, q + 2),
                decreases b@.len() - e,
            {
                e = e + 1;
            }
            proof {
                if in_order(r.cursor().notes, r.pos as int) {
                    lemma_in_order_up(r.cursor().notes, r.pos as int, q as int);
                }
            }
            r.pos = e;
            note(r, q, LINE_COMMENT_REMOVED);
            proof {
                if in_order(r.cursor().notes, q as int) {
                    lemma_in_order_up(r.cursor().notes, q as int, e as int);
                }
            }
        } else if q < b.len() && b.len() - q >= 2 && b[q] == 47 && b[q + 1] == 42 {
            let mut e = q + 2;
            while e < b.len() && b.len() - e >= 2 && !(b[e] == 42 && b[e + 1] == 47)
                invariant
                    q + 2 <= e <= b@.len(),
                    block_scan(b@, e as int) == block_scan(b@, q + 2),
                decreases b@.len() - e,
            {
                e = e + 1;
            }
            proof {
                if in_order(r.cursor().notes, r.pos as int) {
                    lemma_in_order_up(r.cursor().notes, r.pos as int, q as int);
                }
            }
            r.pos = if b.len() - e > 2 { e + 2 } else { b.len() };
            note(r, q, BLOCK_COMMENT_REMOVED);
            proof {
                if in_order(r.cursor().notes, q as int) {
                    lemma_in_order_up(r.cursor().notes, q as int, r.pos as int);
                }
            }
        } else {
            proof {
                if in_order(r.cursor().notes, r.pos as int) {
                    lemma_in_order_up(r.cursor().notes, r.pos as int, q as int);
                }
            }
            r.pos = q;
            return;
        }
    }
}

/// The bytes `b[lo..hi]`, each read as a character.
fn ascii_chars(b: &[u8], lo: usize, hi: usize) -> (v: Vec<char>)
    requires
        lo <= hi <= b@.len(),
    ensures
        v@ == ascii_text(b@, lo as int, hi as int),
{
    let mut v: Vec<char> = Vec::new();
    let mut i = lo;
    while i < hi
        invariant
            lo <= i <= hi <= b@.len(),
            v@ =~= ascii_text(b@, lo as int, i as int),
        decreases hi - i,
    {
        v.push(b[i] as char);
        i = i + 1;
    }
    v
}

fn hex_digit(c: u8) -> (v: i32)
    ensures
        v == hex_value(c),
{
    if 48 <= c && c <= 57 {
        (c - 48) as i32
    } else if 97 <= c && c <= 102 {
        (c - 87) as i32
    } else if 65 <= c && c <= 70 {
        (c - 55) as i32
    } else {
        -1
    }
}

fn read_hex4(b: &[u8], q: usize) -> (r: Option<u32>)
    ensures
        match hex4(b@, q as int) {
            Some(v) => r == Some(v as u32) && 0 <= v < 0x10000,
            None => r is None,
        },
{
    if q > b.len() || b.len() - q < 4 {
        return None;
    }
    if b[q] == 43 {
        let (h1, h2, h3) = (hex_digit(b[q + 1]), hex_digit(b[q + 2]), hex_digit(b[q + 3]));
        if h1 >= 0 && h2 >= 0 && h3 >= 0 {
            Some((h1 * 256 + h2 * 16 + h3) as u32)
        } else {
            None
        }
    } else {
        let (h0, h1, h2, h3) = (hex_digit(b[q]), hex_digit(b[q + 1]), hex_digit(b[q + 2]), hex_digit(b[q + 3]));
        if h0 >= 0 && h1 >= 0 && h2 >= 0 && h3 >= 0 {
            Some((h0 * 4096 + h1 * 256 + h2 * 16 + h3) as u32)
        } else {
            None
        }
    }
}

/// The low surrogate a `\u` escape at `q` denotes, if one does.
fn read_low_escape(b: &[u8], q: usize) -> (r: Option<u32>)
    ensures
        match low_escape(b@, q as int) {
            Some(w) => r == Some(w as u32) && 0xDC00 <= w <= 0xDFFF,
            None => r is None,
        },
{
    if q > b.len() || b.len() - q < 2 || b[q] != 92 || b[q + 1] != 117 {
        return None;
    }
    match read_hex4(b, q + 2) {
        Some(w) => if 0xDC00 <= w && w <= 0xDFFF {
            Some(w)
        } else {
            None
        },
        None => None,
    }
}

fn simple_escape_exec(e: u8) -> (r: Option<char>)
    ensures
        r == simple_escape(e),
{
    if e == 34 {
        Some('"')
    } else if e == 39 {
        Some('\'')
    } else if e == 92 {
        Some('\\')
    } else if e == 47 {
        Some('/')
    } else if e == 98 {
        Some('\u{8}')
    } else if e == 102 {
        Some('\u{c}')
    } else if e == 110 {
        Some('\n')
    } else if e == 114 {
        Some('\r')
    } else if e == 116 {
        Some('\t')
    } else {
        None
    }
}

/// The width of the UTF-8 sequence a leading byte starts.
fn utf8_width(c: u8) -> (w: usize)
    ensures
        c <= 0x7f ==> w == 1,
        0xc0 <= c <= 0xdf ==> w == 2,
        0xe0 <= c <= 0xef ==> w == 3,
        !(c <= 0x7f || 0xc0 <= c <= 0xdf || 0xe0 <= c <= 0xef) ==> w == 4,
{
    if c <= 0x7f {
        1
    } else if 0xc0 <= c && c <= 0xdf {
        2
    } else if 0xe0 <= c && c <= 0xef {
        3
    } else {
        4
    }
}

/// The first character of `rest`, when it is well-formed UTF-8.
fn first_scalar(rest: &[u8]) -> (r: Option<(char, usize)>)
    requires
        rest@.len() > 0,
    ensures
        r is Some <==> valid_utf8(rest@),
        r matches Some((ch, w)) ==> ch == decode_first_scalar(rest@) as char && w == length_of_first_scalar(rest@),
{
    match text_from_utf8(rest) {
        Err(_) => None,
        Ok(s) => {
            proof {
                assert(decode_utf8(rest@) == seq![decode_first_scalar(rest@) as char] + decode_utf8(
                    vstd::utf8::pop_first_scalar(rest@),
                ));
            }
            let ch = s.as_str().get_char(0);
            let w = utf8_width(rest[0]);
            Some((ch, w))
        },
    }
}

/// A string literal; the reader stands on its quote.
pub(crate) fn take_string(b: &[u8], r: &mut Reader) -> (res: Result<Vec<char>, RepairError>)
    requires
        old(r).pos < b@.len(),
        b@[old(r).pos as int] == 34 || b@[old(r).pos as int] == 39,
    ensures
        chars_outcome(res, *final(r), read_string(b@, old(r).cursor())),
        res is Ok ==> old(r).pos < final(r).pos <= b@.len(),
        res is Ok && in_order(old(r).cursor().notes, old(r).pos as int) ==> in_order(final(r).cursor().notes, final(r).pos as int),
{
    let start = r.pos;
    let quote = b[start];
    if quote == 39 {
        note(r, start, SINGLE_QUOTES_REPLACED);
    }
    r.pos = start + 1;
    let mut out: Vec<char> = Vec::new();
    let ghost target = read_string(b@, old(r).cursor());
    loop
        invariant
            start == old(r).pos,
            start < r.pos <= b@.len(),
            quote == b@[start as int],
            target == read_string(b@, old(r).cursor()),
            string_rest(b@, quote, out@, r.cursor()) == target,
            in_order(old(r).cursor().notes, old(r).pos as int) ==> in_order(r.cursor().notes, r.pos as int),
        decreases b@.len() - r.pos,
    {
        let p = r.pos;
        if p >= b.len() {
            note(r, p, STRING_CLOSED_AT_END);
            return Ok(out);
        }
        let c = b[p];
        if c == 10 {
            note(r, p, STRING_CLOSED_AT_LINE);
            return Ok(out);
        } else if c == quote {
            r.pos = p + 1;
            return Ok(out);
        } else if c == 92 {
            if p + 1 >= b.len() {
                r.pos = p + 1;
                note(r, p + 1, BACKSLASH_DROPPED);
                return Ok(out);
            }
            let e = b[p + 1];
            match simple_escape_exec(e) {
                Some(ch) => {
                    out.push(ch);
                    r.pos = p + 2;
                },
                None => {
                    if e == 117 {
                        match read_hex4(b, p + 2) {
                            Some(v) => match char::from_u32(v) {
                                Some(ch) => {
                                    out.push(ch);
                                    r.pos = p + 6;
                                },
                                None => {
                                    if v < 0xD800 || v > 0xDBFF {
                                        return Err(RepairError::InvalidEscape { position: p + 2 });
                                    }
                                    let w = match read_low_escape(b, p + 6) {
                                        Some(w) => w,
                                        None => {
                                            return Err(RepairError::InvalidEscape { position: p + 2 });
                                        },
                                    };
                                    let code = 0x10000 + (v - 0xD800) * 1024 + (w - 0xDC00);
                                    assert(code as int == pair_value(v as int, w as int));
                                    match char::from_u32(code) {
                                        Some(ch) => {
                                            out.push(ch);
                                            r.pos = p + 12;
                                        },
                                        None => {
                                            return Err(RepairError::InvalidEscape { position: p + 2 });
                                        },
                                    }
                                },
                            },
                            None => {
                                return Err(RepairError::InvalidEscape { position: p + 2 });
                            },
                        }
                    } else {
                        out.push(e as char);
                        r.pos = p + 2;
                        note(r, p + 1, ESCAPE_KEPT);
                    }
                },
            }
        } else if c < 32 {
            out.push(c as char);
            r.pos = p + 1;
            note(r, p, CONTROL_ESCAPED);
        } else if c < 128 {
            out.push(c as char);
            r.pos = p + 1;
        } else {
            let rest = vstd::slice::slice_subrange(b, p, b.len());
            match first_scalar(rest) {
                None => {
                    return Err(RepairError::InvalidUtf8 { position: p });
                },
                Some((ch, w)) => {
                    out.push(ch);
                    r.pos = p + w;
                },
            }
        }
    }
}


/// Whether the eight bytes at `e` spell `Infinity`.
fn infinity_at(b: &[u8], e: usize) -> (r: bool)
    requires
        e <= b@.len(),
    ensures
        r == (e + 8 <= b@.len() && b@.subrange(e as int, e + 8) == infinity_bytes()),
{
    if b.len() - e < 8 {
        return false;
    }
    let r = b[e] == 73 && b[e + 1] == 110 && b[e + 2] == 102 && b[e + 3] == 105 && b[e + 4] == 110
        && b[e + 5] == 105 && b[e + 6] == 116 && b[e + 7] == 121;
    proof {
        if r {
            assert(b@.subrange(e as int, e + 8) =~= infinity_bytes());
        } else {
            if b@.subrange(e as int, e + 8) == infinity_bytes() {
                assert(b@.subrange(e as int, e + 8)[0] == b@[e as int]);
                assert(b@.subrange(e as int, e + 8)[1] == b@[e + 1]);
                assert(b@.subrange(e as int, e + 8)[2] == b@[e + 2]);
                assert(b@.subrange(e as int, e + 8)[3] == b@[e + 3]);
                assert(b@.subrange(e as int, e + 8)[4] == b@[e + 4]);
                assert(b@.subrange(e as int, e + 8)[5] == b@[e + 5]);
                assert(b@.subrange(e as int, e + 8)[6] == b@[e + 6]);
                assert(b@.subrange(e as int, e + 8)[7] == b@[e + 7]);
            }
        }
    }
    r
}

/// What a number literal becomes, given whether a strict JSON reader takes
/// it (`accepted`): the value, and whether the literal was normalized; or why
/// it is no number.
pub fn number_value(text: &Vec<char>, at: usize, accepted: bool) -> (r: Result<(JsonValue, bool), RepairError>)
    ensures
        match number_outcome(text@, at as int, accepted) {
            Ok((v, normalized)) => match r {
                Ok((x, n)) => x.json() == v && n == normalized,
                Err(_) => false,
            },
            Err(f) => match r {
                Ok(_) => false,
                Err(e) => e.fault() == f,
            },
        },
{
    if accepted {
        Ok((JsonValue::Number(string_of(text)), false))
    } else if !float_literal_ok_exec(text) {
        Err(RepairError::NotANumber { text: string_of(text), position: at })
    } else if float_literal_overflows_exec(text) {
        Err(RepairError::NotFinite { text: string_of(text), position: at })
    } else {
        let literal = string_of(text);
        Ok((JsonValue::Number(float_json_text(literal.as_str())), true))
    }
}

/// A number; the reader stands on a sign or a digit.
pub(crate) fn take_number(b: &[u8], r: &mut Reader) -> (res: Result<JsonValue, RepairError>)
    requires
        old(r).pos < b@.len(),
        is_number_byte(b@[old(r).pos as int]),
    ensures
        value_outcome(res, *final(r), read_number(b@, old(r).cursor())),
        res is Ok ==> old(r).pos < final(r).pos <= b@.len(),
        res is Ok && in_order(old(r).cursor().notes, old(r).pos as int) ==> in_order(final(r).cursor().notes, final(r).pos as int),
{
    let start = r.pos;
    if b[start] == 43 {
        r.pos = start + 1;
        note(r, start, PLUS_REMOVED);
    }
    let num_start = r.pos;
    let mut e = num_start;
    while e < b.len() && is_number_byte_exec(b[e])
        invariant
            num_start <= e <= b@.len(),
            number_end(b@, e as int) == number_end(b@, num_start as int),
        decreases b@.len() - e,
    {
        e = e + 1;
    }
    let text = ascii_chars(b, num_start, e);
    if text.len() == 1 && text[0] == '-' && infinity_at(b, e) {
        proof {
            assert(text@ =~= seq!['-']);
        }
        r.pos = e + 8;
        note(r, start, MINUS_INFINITY_REPLACED);
        return Ok(JsonValue::Null);
    }
    proof {
        if text@ == seq!['-'] {
            assert(text@.len() == 1 && text@[0] == '-');
        }
    }
    let literal = string_of(&text);
    let accepted = json_number_parses(literal.as_str());
    match number_value(&text, num_start, accepted) {
        Err(err) => Err(err),
        Ok((v, normalized)) => {
            r.pos = e;
            if normalized {
                note(r, num_start, NUMBER_NORMALIZED);
            }
            proof {
                lemma_scans(b@, start + 1);
            }
            Ok(v)
        },
    }
}

/// A bare word.
pub(crate) fn take_word(b: &[u8], r: &mut Reader) -> (res: Result<JsonValue, RepairError>)
    requires
        old(r).pos < b@.len(),
    ensures
        value_outcome(res, *final(r), read_word(b@, old(r).cursor())),
        res is Ok ==> old(r).pos < final(r).pos <= b@.len(),
        res is Ok && in_order(old(r).cursor().notes, old(r).pos as int) ==> in_order(final(r).cursor().notes, final(r).pos as int),
{
    let start = r.pos;
    let mut e = start;
    while e < b.len() && is_ident_byte_exec(b[e])
        invariant
            start <= e <= b@.len(),
            ident_end(b@, e as int) == ident_end(b@, start as int),
        decreases b@.len() - e,
    {
        e = e + 1;
    }
    let w = ascii_chars(b, start, e);
    r.pos = e;
    proof {
        reveal_strlit("true");
        assert("true"@.len() > 0);
        reveal_strlit("false");
        assert("false"@.len() > 0);
        reveal_strlit("null");
        assert("null"@.len() > 0);
        reveal_strlit("True");
        assert("True"@.len() > 0);
        reveal_strlit("False");
        assert("False"@.len() > 0);
        reveal_strlit("None");
        assert("None"@.len() > 0);
        reveal_strlit("undefined");
        assert("undefined"@.len() > 0);
        reveal_strlit("NaN");
        assert("NaN"@.len() > 0);
        reveal_strlit("Infinity");
        assert("Infinity"@.len() > 0);
    }
    if same_chars(&w, &chars_of("true")) {
        Ok(JsonValue::Bool(true))
    } else if same_chars(&w, &chars_of("false")) {
        Ok(JsonValue::Bool(false))
    } else if same_chars(&w, &chars_of("null")) {
        Ok(JsonValue::Null)
    } else if same_chars(&w, &chars_of("True")) {
        note(r, start, BOOLEAN_LOWERCASED);
        Ok(JsonValue::Bool(true))
    } else if same_chars(&w, &chars_of("False")) {
        note(r, start, BOOLEAN_LOWERCASED);
        Ok(JsonValue::Bool(false))
    } else if same_chars(&w, &chars_of("None")) || same_chars(&w, &chars_of("undefined")) {
        note(r, start, NULL_REPLACED);
        Ok(JsonValue::Null)
    } else if same_chars(&w, &chars_of("NaN")) || same_chars(&w, &chars_of("Infinity")) {
        note(r, start, NON_FINITE_REPLACED);
        Ok(JsonValue::Null)
    } else if e == start {
        Err(RepairError::UnexpectedChar { position: start, found: b[start] })
    } else {
        Err(RepairError::UnknownLiteral { word: string_of(&w), position: start })
    }
}


/// The key of an object entry; the reader stands on neither `}`, `,` nor
/// the end.
fn take_key(b: &[u8], r: &mut Reader) -> (res: Result<Vec<char>, RepairError>)
    requires
        old(r).pos < b@.len(),
    ensures
        chars_outcome(res, *final(r), read_key(b@, old(r).cursor())),
        res is Ok ==> old(r).pos < final(r).pos <= b@.len(),
        res is Ok && in_order(old(r).cursor().notes, old(r).pos as int) ==> in_order(final(r).cursor().notes, final(r).pos as int),
{
    let p = r.pos;
    let c = b[p];
    if c == 34 || c == 39 {
        take_string(b, r)
    } else if is_ident_byte_exec(c) {
        let mut e = p;
        while e < b.len() && is_ident_byte_exec(b[e])
            invariant
                p <= e <= b@.len(),
                ident_end(b@, e as int) == ident_end(b@, p as int),
            decreases b@.len() - e,
        {
            e = e + 1;
        }
        proof {
            lemma_scans(b@, p + 1);
        }
        let k = ascii_chars(b, p, e);
        r.pos = e;
        note(r, p, KEY_QUOTED);
        Ok(k)
    } else {
        Err(RepairError::ExpectedKey { position: p, found: c })
    }
}

/// The separator after an object key.
fn take_colon(b: &[u8], r: &mut Reader)
    requires
        old(r).pos <= b@.len(),
    ensures
        final(r).cursor() == read_colon(b@, old(r).cursor()),
        old(r).pos <= final(r).pos <= b@.len(),
        in_order(old(r).cursor().notes, old(r).pos as int) ==> in_order(final(r).cursor().notes, final(r).pos as int),
{
    pass_ws(b, r);
    let p = r.pos;
    if p < b.len() && b[p] == 58 {
        r.pos = p + 1;
    } else if p < b.len() && b[p] == 61 {
        note(r, p, EQUALS_REPLACED);
        r.pos = p + 1;
    } else {
        note(r, p, COLON_INSERTED);
    }
}

/// What follows a member of a container closed by `close`.
fn take_separator(b: &[u8], r: &mut Reader, close: u8, missing: &str)
    requires
        old(r).pos <= b@.len(),
    ensures
        final(r).cursor() == read_separator(b@, old(r).cursor(), close, missing@),
        old(r).pos <= final(r).pos <= b@.len(),
        in_order(old(r).cursor().notes, old(r).pos as int) ==> in_order(final(r).cursor().notes, final(r).pos as int),
{
    pass_ws(b, r);
    let p = r.pos;
    if p < b.len() && b[p] != 44 && b[p] != close {
        note(r, p, missing);
    }
}

/// A stray comma at `at`, the reader just past it.
fn take_stray_comma(b: &[u8], r: &mut Reader, at: usize, close: u8, empty: bool, trailing: &str, leading: &str)
    requires
        old(r).pos <= b@.len(),
    ensures
        final(r).cursor() == stray_comma(b@, old(r).cursor(), at as int, close, empty, trailing@, leading@),
        old(r).pos <= final(r).pos <= b@.len(),
        old(r).pos == at + 1 && in_order(old(r).cursor().notes, at as int) ==> in_order(final(r).cursor().notes, final(r).pos as int),
{
    let mut probe = Reader { pos: r.pos, repairs: Vec::new() };
    pass_ws(b, &mut probe);
    let p = probe.pos;
    proof {
        lemma_skip_ws_pos(b@, probe_start(old(r).pos), old(r).cursor());
    }
    if p >= b.len() || b[p] == close {
        note(r, at, trailing);
    } else if empty {
        note(r, at, leading);
    }
    proof {
        lemma_skip_ws_pos(b@, r.cursor(), old(r).cursor());
    }
    pass_ws(b, r);
}

/// A reader at `pos` that has recorded nothing.
spec fn probe_start(pos: usize) -> Cursor {
    Cursor { pos: pos as int, notes: actions_view(Seq::<RepairAction>::empty()) }
}

/// Sets `key` to `value` among `members` (whose keys `keys` lists): in place
/// when the key is there, else at the end.
fn upsert_member(
    members: &mut Vec<(String, JsonValue)>,
    keys: &mut Vec<Vec<char>>,
    key: Vec<char>,
    value: JsonValue,
)
    requires
        old(keys)@.len() == old(members)@.len(),
        forall|i: int| 0 <= i < old(keys)@.len() ==> #[trigger] old(keys)@[i]@ == old(members)@[i].0@,
    ensures
        final(keys)@.len() == final(members)@.len(),
        forall|i: int| 0 <= i < final(keys)@.len() ==> #[trigger] final(keys)@[i]@ == final(members)@[i].0@,
        members_json(final(members)@) == upsert(members_json(old(members)@), key@, value.json()),
{
    let ghost es = members_json(members@);
    let mut i: usize = 0;
    while i < keys.len()
        invariant
            keys@.len() == members@.len(),
            forall|j: int| 0 <= j < keys@.len() ==> #[trigger] keys@[j]@ == members@[j].0@,
            keys@ == old(keys)@,
            members@ == old(members)@,
            es == members_json(members@),
            i <= keys@.len(),
            find_key(es, key@, 0) == find_key(es, key@, i as int),
        decreases keys@.len() - i,
    {
        if same_chars(&keys[i], &key) {
            assert(es[i as int].0 == key@);
            let ghost v = value.json();
            members[i] = (string_of(&key), value);
            proof {
                assert(members_json(members@) =~= es.update(i as int, (key@, v)));
            }
            return;
        }
        assert(es[i as int].0 != key@);
        i = i + 1;
    }
    let ghost v = value.json();
    members.push((string_of(&key), value));
    keys.push(key);
    proof {
        assert(members_json(members@) =~= es.push((key@, v)));
    }
}

/// A value, `depth` containers deep.
pub(crate) fn take_value(b: &[u8], r: &mut Reader, depth: usize) -> (res: Result<JsonValue, RepairError>)
    requires
        old(r).pos <= b@.len(),
    ensures
        value_outcome(res, *final(r), read_value(b@, depth as int, old(r).cursor())),
        res is Ok ==> old(r).pos < final(r).pos <= b@.len(),
        res is Ok && in_order(old(r).cursor().notes, old(r).pos as int) ==> in_order(final(r).cursor().notes, final(r).pos as int),
    decreases MAX_DEPTH + 1 - depth, 1int,
{
    if depth > MAX_DEPTH {
        return Err(RepairError::TooDeep);
    }
    pass_ws(b, r);
    let p = r.pos;
    if p >= b.len() {
        return Err(RepairError::UnexpectedEnd);
    }
    let c = b[p];
    if c == 123 {
        r.pos = p + 1;
        take_object(b, r, depth)
    } else if c == 91 {
        r.pos = p + 1;
        take_array(b, r, depth)
    } else if c == 34 || c == 39 {
        match take_string(b, r) {
            Ok(s) => Ok(JsonValue::String(string_of(&s))),
            Err(e) => Err(e),
        }
    } else if c == 45 || c == 43 || (48 <= c && c <= 57) {
        take_number(b, r)
    } else {
        take_word(b, r)
    }
}

/// The rest of an object; the reader stands just past its `{`.
fn take_object(b: &[u8], r: &mut Reader, depth: usize) -> (res: Result<JsonValue, RepairError>)
    requires
        old(r).pos <= b@.len(),
        depth <= MAX_DEPTH,
    ensures
        value_outcome(res, *final(r), object_rest(b@, depth as int, Seq::empty(), old(r).cursor())),
        res is Ok ==> old(r).pos <= final(r).pos <= b@.len(),
        res is Ok && in_order(old(r).cursor().notes, old(r).pos as int) ==> in_order(final(r).cursor().notes, final(r).pos as int),
    decreases MAX_DEPTH + 1 - depth, 0int,
{
    let mut members: Vec<(String, JsonValue)> = Vec::new();
    let mut keys: Vec<Vec<char>> = Vec::new();
    let ghost target = object_rest(b@, depth as int, Seq::empty(), old(r).cursor());
    proof {
        assert(members_json(members@) =~= Seq::empty());
    }
    loop
        invariant
            old(r).pos <= r.pos <= b@.len(),
            depth <= MAX_DEPTH,
            keys@.len() == members@.len(),
            forall|j: int| 0 <= j < keys@.len() ==> #[trigger] keys@[j]@ == members@[j].0@,
            target == object_rest(b@, depth as int, Seq::empty(), old(r).cursor()),
            object_rest(b@, depth as int, members_json(members@), r.cursor()) == target,
            in_order(old(r).cursor().notes, old(r).pos as int) ==> in_order(r.cursor().notes, r.pos as int),
        decreases b@.len() - r.pos,
    {
        let ghost es = members_json(members@);
        let ghost entry = r.cursor();
        pass_ws(b, r);
        let p = r.pos;
        if p >= b.len() {
            note(r, p, OBJECT_CLOSED);
            proof {
                lemma_object_json(members);
            }
            return Ok(JsonValue::Object(members));
        }
        if b[p] == 125 {
            r.pos = p + 1;
            proof {
                lemma_object_json(members);
            }
            return Ok(JsonValue::Object(members));
        }
        if b[p] == 44 {
            r.pos = p + 1;
            let empty = members.len() == 0;
            take_stray_comma(b, r, p, 125, empty, OBJECT_TRAILING_COMMA, OBJECT_LEADING_COMMA);
        } else {
            let key = match take_key(b, r) {
                Ok(k) => k,
                Err(e) => {
                    return Err(e);
                },
            };
            take_colon(b, r);
            let value = match take_value(b, r, depth + 1) {
                Ok(v) => v,
                Err(e) => {
                    return Err(e);
                },
            };
            upsert_member(&mut members, &mut keys, key, value);
            take_separator(b, r, 125, OBJECT_COMMA_INSERTED);
        }
    }
}

/// The rest of an array; the reader stands just past its `[`.
fn take_array(b: &[u8], r: &mut Reader, depth: usize) -> (res: Result<JsonValue, RepairError>)
    requires
        old(r).pos <= b@.len(),
        depth <= MAX_DEPTH,
    ensures
        value_outcome(res, *final(r), array_rest(b@, depth as int, Seq::empty(), old(r).cursor())),
        res is Ok ==> old(r).pos <= final(r).pos <= b@.len(),
        res is Ok && in_order(old(r).cursor().notes, old(r).pos as int) ==> in_order(final(r).cursor().notes, final(r).pos as int),
    decreases MAX_DEPTH + 1 - depth, 0int,
{
    let mut items: Vec<JsonValue> = Vec::new();
    let ghost target = array_rest(b@, depth as int, Seq::empty(), old(r).cursor());
    proof {
        assert(items_json(items@) =~= Seq::empty());
    }
    loop
        invariant
            old(r).pos <= r.pos <= b@.len(),
            depth <= MAX_DEPTH,
            target == array_rest(b@, depth as int, Seq::empty(), old(r).cursor()),
            array_rest(b@, depth as int, items_json(items@), r.cursor()) == target,
            in_order(old(r).cursor().notes, old(r).pos as int) ==> in_order(r.cursor().notes, r.pos as int),
        decreases b@.len() - r.pos,
    {
        let ghost its = items_json(items@);
        pass_ws(b, r);
        let p = r.pos;
        if p >= b.len() {
            note(r, p, ARRAY_CLOSED);
            proof {
                lemma_array_json(items);
            }
            return Ok(JsonValue::Array(items));
        }
        if b[p] == 93 {
            r.pos = p + 1;
            proof {
                lemma_array_json(items);
            }
            return Ok(JsonValue::Array(items));
        }
        if b[p] == 44 {
            r.pos = p + 1;
            let empty = items.len() == 0;
            take_stray_comma(b, r, p, 93, empty, ARRAY_TRAILING_COMMA, ARRAY_LEADING_COMMA);
        } else {
            let value = match take_value(b, r, depth + 1) {
                Ok(v) => v,
                Err(e) => {
                    return Err(e);
                },
            };
            let ghost v = value.json();
            items.push(value);
            proof {
                assert(items_json(items@) =~= its.push(v));
            }
            take_separator(b, r, 93, ARRAY_COMMA_INSERTED);
        }
    }
}

} // verus!
