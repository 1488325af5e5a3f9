//! Tolerant JSON reading: every deviation from strict JSON that the reader
//! fixes is recorded with its byte position; whatever would need a guess at
//! the data is refused with the position named.
//!
//! The reader is specified over the input's UTF-8 bytes by the spec
//! functions below (one per step of the reader), and [`repair_json`] is
//! proved to compute exactly what they describe.

use vstd::prelude::*;
use vstd::utf8::{valid_utf8, decode_first_scalar, encode_utf8, length_of_first_scalar};
use crate::json::{Json, JsonValue};
use crate::number::{float_literal_ok, float_literal_overflows, float_number_text};
use crate::repair_reader::{Reader, note, pass_ws, take_value};
use crate::text::{debug_char, debug_char_text, debug_quoted, debug_text, decimal, lossy_text, push_decimal, push_text, string_of, text_from_utf8_lossy};
use crate::transform::ascii_lower;

verus! {

/// One fix, in the order the reader made it.
#[derive(Debug, Clone, PartialEq, Eq)]
pub struct RepairAction {
    /// Byte offset in the original input where the fix applied.
    pub position: usize,
    /// What was fixed, in one sentence.
    pub what: String,
}

/// Why a document could not be repaired.
#[derive(Debug)]
pub enum RepairError {
    /// Nothing but whitespace and comments.
    Empty,
    /// More content after a complete document; `rest` holds its first
    /// (at most 20) bytes.
    TrailingContent { position: usize, rest: Vec<u8> },
    /// Containers nested deeper than [`MAX_DEPTH`].
    TooDeep,
    /// The input ended where a value was expected.
    UnexpectedEnd,
    /// An object key was expected at `position`, where byte `found` stands.
    ExpectedKey { position: usize, found: u8 },
    /// A `\u` escape whose four characters at `position` are no character.
    InvalidEscape { position: usize },
    /// The bytes from `position` on are not UTF-8.
    InvalidUtf8 { position: usize },
    /// The number literal `text` at `position` is not a number.
    NotANumber { text: String, position: usize },
    /// The number literal `text` at `position` is too large for a finite `f64`.
    NotFinite { text: String, position: usize },
    /// A value was expected at `position`, where byte `found` stands.
    UnexpectedChar { position: usize, found: u8 },
    /// The bare word `word` at `position` is no literal the reader knows.
    UnknownLiteral { word: String, position: usize },
}

/// The mathematical value of a [`RepairError`].
pub enum Fault {
    Empty,
    TrailingContent(int, Seq<u8>),
    TooDeep,
    UnexpectedEnd,
    ExpectedKey(int, u8),
    InvalidEscape(int),
    InvalidUtf8(int),
    NotANumber(Seq<char>, int),
    NotFinite(Seq<char>, int),
    UnexpectedChar(int, u8),
    UnknownLiteral(Seq<char>, int),
}

impl RepairError {
    pub open spec fn fault(&self) -> Fault {
        match self {
            RepairError::Empty => Fault::Empty,
            RepairError::TrailingContent { position, rest } => Fault::TrailingContent(*position as int, rest@),
            RepairError::TooDeep => Fault::TooDeep,
            RepairError::UnexpectedEnd => Fault::UnexpectedEnd,
            RepairError::ExpectedKey { position, found } => Fault::ExpectedKey(*position as int, *found),
            RepairError::InvalidEscape { position } => Fault::InvalidEscape(*position as int),
            RepairError::InvalidUtf8 { position } => Fault::InvalidUtf8(*position as int),
            RepairError::NotANumber { text, position } => Fault::NotANumber(text@, *position as int),
            RepairError::NotFinite { text, position } => Fault::NotFinite(text@, *position as int),
            RepairError::UnexpectedChar { position, found } => Fault::UnexpectedChar(*position as int, *found),
            RepairError::UnknownLiteral { word, position } => Fault::UnknownLiteral(word@, *position as int),
        }
    }
}

/// How deep containers may nest.
pub const MAX_DEPTH: usize = 128;

pub const BOM_REMOVED: &'static str = "removed UTF-8 byte-order mark";
pub const LINE_COMMENT_REMOVED: &'static str = "removed // comment (not JSON)";
pub const BLOCK_COMMENT_REMOVED: &'static str = "removed /* */ comment (not JSON)";
pub const OBJECT_CLOSED: &'static str = "closed unterminated object at end of input";
pub const OBJECT_TRAILING_COMMA: &'static str = "removed trailing comma in object";
pub const OBJECT_LEADING_COMMA: &'static str = "removed leading comma in object";
pub const KEY_QUOTED: &'static str = "quoted an unquoted object key";
pub const EQUALS_REPLACED: &'static str = "replaced '=' with ':' after object key";
pub const COLON_INSERTED: &'static str = "inserted missing ':' after object key";
pub const OBJECT_COMMA_INSERTED: &'static str = "inserted missing ',' between object entries";
pub const ARRAY_CLOSED: &'static str = "closed unterminated array at end of input";
pub const ARRAY_TRAILING_COMMA: &'static str = "removed trailing comma in array";
pub const ARRAY_LEADING_COMMA: &'static str = "removed leading comma in array";
pub const ARRAY_COMMA_INSERTED: &'static str = "inserted missing ',' between array items";
pub const SINGLE_QUOTES_REPLACED: &'static str = "converted single-quoted string to double-quoted";
pub const STRING_CLOSED_AT_END: &'static str = "closed unterminated string at end of input";
pub const STRING_CLOSED_AT_LINE: &'static str = "closed unterminated string at end of line";
pub const BACKSLASH_DROPPED: &'static str = "dropped dangling backslash at end of input";
pub const ESCAPE_KEPT: &'static str = "kept character after an invalid escape sequence";
pub const CONTROL_ESCAPED: &'static str = "escaped raw control character inside string";
pub const PLUS_REMOVED: &'static str = "removed leading '+' from number";
pub const MINUS_INFINITY_REPLACED: &'static str = "replaced -Infinity with null (not representable in JSON)";
pub const NUMBER_NORMALIZED: &'static str = "normalized non-standard number literal";
pub const BOOLEAN_LOWERCASED: &'static str = "lowercased Python-style boolean literal";
pub const NULL_REPLACED: &'static str = "replaced non-JSON null literal with null";
pub const NON_FINITE_REPLACED: &'static str = "replaced non-finite number literal with null";

/// The fixes, each as its position and text.
pub open spec fn actions_view(v: Seq<RepairAction>) -> Seq<(int, Seq<char>)> {
    Seq::new(v.len(), |i: int| (v[i].position as int, v[i].what@))
}

/// The values of `v`.
pub open spec fn items_json(v: Seq<JsonValue>) -> Seq<Json> {
    Seq::new(v.len(), |i: int| v[i].json())
}

/// The entries of `v`, each key with its value's value.
pub open spec fn members_json(v: Seq<(String, JsonValue)>) -> Seq<(Seq<char>, Json)> {
    Seq::new(v.len(), |i: int| (v[i].0@, v[i].1.json()))
}

pub proof fn lemma_array_json(items: Vec<JsonValue>)
    ensures
        JsonValue::Array(items).json() == Json::Array(items_json(items@)),
{
    let j = JsonValue::Array(items).json();
    assert(j->Array_0 =~= items_json(items@));
}

pub proof fn lemma_object_json(members: Vec<(String, JsonValue)>)
    ensures
        JsonValue::Object(members).json() == Json::Object(members_json(members@)),
{
    let j = JsonValue::Object(members).json();
    assert(j->Object_0 =~= members_json(members@));
}

// ---------------------------------------------------------------------------
// The reader, step by step, over the input's bytes
// ---------------------------------------------------------------------------

/// Where the reader stands and the fixes it has recorded so far.
pub struct Cursor {
    pub pos: int,
    pub notes: Seq<(int, Seq<char>)>,
}

pub open spec fn moved(c: Cursor, pos: int) -> Cursor {
    Cursor { pos, notes: c.notes }
}

pub open spec fn noted(c: Cursor, at: int, what: Seq<char>) -> Cursor {
    Cursor { pos: c.pos, notes: c.notes.push((at, what)) }
}

/// JSON whitespace: space, tab, line feed, carriage return.
pub open spec fn is_ws_byte(c: u8) -> bool {
    c == 32 || c == 9 || c == 10 || c == 13
}

pub open spec fn is_digit_byte(c: u8) -> bool {
    48 <= c <= 57
}

/// Bytes an unquoted key or bare word is made of.
pub open spec fn is_ident_byte(c: u8) -> bool {
    ||| 48 <= c <= 57
    ||| 65 <= c <= 90
    ||| 97 <= c <= 122
    ||| c == 95 || c == 36 || c == 45 || c == 46
}

/// Bytes a number literal is scanned over: digits, signs, `.`, `e`, `E`.
pub open spec fn is_number_byte(c: u8) -> bool {
    is_digit_byte(c) || c == 45 || c == 43 || c == 46 || c == 101 || c == 69
}

/// End of the run of whitespace bytes from `p`.
pub open spec fn ws_end(b: Seq<u8>, p: int) -> int
    decreases b.len() - p,
{
    if 0 <= p < b.len() && is_ws_byte(b[p]) {
        ws_end(b, p + 1)
    } else {
        p
    }
}

/// The first line feed at or after `p`, or the end.
pub open spec fn line_end(b: Seq<u8>, p: int) -> int
    decreases b.len() - p,
{
    if 0 <= p < b.len() && b[p] != 10 {
        line_end(b, p + 1)
    } else {
        p
    }
}

/// The first `*/` at or after `p` (its `*`), or the last byte when there is
/// none.
pub open spec fn block_scan(b: Seq<u8>, p: int) -> int
    decreases b.len() - p,
{
    if 0 <= p && p + 1 < b.len() && !(b[p] == 42 && b[p + 1] == 47) {
        block_scan(b, p + 1)
    } else {
        p
    }
}

/// Where a block comment whose body starts at `p` ends.
pub open spec fn block_end(b: Seq<u8>, p: int) -> int {
    let q = block_scan(b, p) + 2;
    if q < b.len() { q } else { b.len() as int }
}

/// End of the run of identifier bytes from `p`.
pub open spec fn ident_end(b: Seq<u8>, p: int) -> int
    decreases b.len() - p,
{
    if 0 <= p < b.len() && is_ident_byte(b[p]) {
        ident_end(b, p + 1)
    } else {
        p
    }
}

/// End of the run of number bytes from `p`.
pub open spec fn number_end(b: Seq<u8>, p: int) -> int
    decreases b.len() - p,
{
    if 0 <= p < b.len() && is_number_byte(b[p]) {
        number_end(b, p + 1)
    } else {
        p
    }
}

pub proof fn lemma_scans(b: Seq<u8>, p: int)
    requires
        0 <= p <= b.len(),
    ensures
        p <= ws_end(b, p) <= b.len(),
        p <= line_end(b, p) <= b.len(),
        p <= ident_end(b, p) <= b.len(),
        p <= number_end(b, p) <= b.len(),
        p <= block_scan(b, p),
        block_scan(b, p) < b.len() || block_scan(b, p) == p,
    decreases b.len() - p,
{
    if p < b.len() {
        lemma_scans(b, p + 1);
    }
}

/// The bytes `b[lo..hi]`, each read as a character.
pub open spec fn ascii_text(b: Seq<u8>, lo: int, hi: int) -> Seq<char> {
    Seq::new((hi - lo) as nat, |i: int| b[lo + i] as char)
}

/// Whitespace, `//` comments and `/* */` comments from the cursor on, each
/// comment recorded.
pub open spec fn skip_ws(b: Seq<u8>, c: Cursor) -> Cursor
    decreases b.len() - c.pos,
{
    let q = ws_end(b, c.pos);
    if 0 <= c.pos <= q && q + 1 < b.len() && b[q] == 47 && b[q + 1] == 47 {
        let e = line_end(b, q + 2);
        proof {
            lemma_scans(b, q + 2);
        }
        skip_ws(b, Cursor { pos: e, notes: c.notes.push((q, LINE_COMMENT_REMOVED@)) })
    } else if 0 <= c.pos <= q && q + 1 < b.len() && b[q] == 47 && b[q + 1] == 42 {
        let e = block_end(b, q + 2);
        proof {
            lemma_scans(b, q + 2);
        }
        skip_ws(b, Cursor { pos: e, notes: c.notes.push((q, BLOCK_COMMENT_REMOVED@)) })
    } else {
        moved(c, q)
    }
}

/// The character a one-letter escape `\e` stands for.
pub open spec fn simple_escape(e: u8) -> Option<char> {
    if e == 34 {
        Some('"')
    } else if e == 39 {
        Some('\'')
    } else if e == 92 {
        Some('\\')
    } else if e == 47 {
        Some('/')
    } else if e == 98 {
        Some('\u{8}')
    } else if e == 102 {
        Some('\u{c}')
    } else if e == 110 {
        Some('\n')
    } else if e == 114 {
        Some('\r')
    } else if e == 116 {
        Some('\t')
    } else {
        None
    }
}

/// The value of a hexadecimal digit byte, or -1.
pub open spec fn hex_value(c: u8) -> int {
    if 48 <= c <= 57 {
        c - 48
    } else if 97 <= c <= 102 {
        c - 87
    } else if 65 <= c <= 70 {
        c - 55
    } else {
        -1
    }
}

/// The number the four bytes at `q` denote, read the way
/// `u32::from_str_radix(_, 16)` reads them: four hexadecimal digits, or a
/// `+` and three.
pub open spec fn hex4(b: Seq<u8>, q: int) -> Option<int> {
    if q < 0 || q + 4 > b.len() {
        None
    } else if b[q] == 43 {
        if hex_value(b[q + 1]) >= 0 && hex_value(b[q + 2]) >= 0 && hex_value(b[q + 3]) >= 0 {
            Some(hex_value(b[q + 1]) * 256 + hex_value(b[q + 2]) * 16 + hex_value(b[q + 3]))
        } else {
            None
        }
    } else if hex_value(b[q]) >= 0 && hex_value(b[q + 1]) >= 0 && hex_value(b[q + 2]) >= 0
        && hex_value(b[q + 3]) >= 0 {
        Some(
            hex_value(b[q]) * 4096 + hex_value(b[q + 1]) * 256 + hex_value(b[q + 2]) * 16
                + hex_value(b[q + 3]),
        )
    } else {
        None
    }
}

/// Whether `v` is the number of a character (no surrogate).
pub open spec fn is_char_value(v: int) -> bool {
    0 <= v <= 0xD7FF || 0xE000 <= v <= 0x10FFFF
}

/// Whether `v` is the number of a leading (high) UTF-16 surrogate.
pub open spec fn is_high_surrogate(v: int) -> bool {
    0xD800 <= v <= 0xDBFF
}

/// Whether `v` is the number of a trailing (low) UTF-16 surrogate.
pub open spec fn is_low_surrogate(v: int) -> bool {
    0xDC00 <= v <= 0xDFFF
}

/// The number of the character a surrogate pair stands for.
pub open spec fn pair_value(high: int, low: int) -> int {
    0x10000 + (high - 0xD800) * 1024 + (low - 0xDC00)
}

/// The low surrogate a `\u` escape at `q` denotes, if one does.
pub open spec fn low_escape(b: Seq<u8>, q: int) -> Option<int> {
    if 0 <= q && q + 2 <= b.len() && b[q] == 92 && b[q + 1] == 117 {
        match hex4(b, q + 2) {
            Some(w) => if is_low_surrogate(w) {
                Some(w)
            } else {
                None
            },
            None => None,
        }
    } else {
        None
    }
}

/// The rest of a string literal closed by `quote`, its characters so far
/// being `out`.
pub open spec fn string_rest(b: Seq<u8>, quote: u8, out: Seq<char>, c: Cursor) -> Result<
    (Seq<char>, Cursor),
    Fault,
>
    decreases b.len() - c.pos,
{
    let p = c.pos;
    if p < 0 || p >= b.len() {
        Ok((out, noted(c, p, STRING_CLOSED_AT_END@)))
    } else if b[p] == 10 {
        Ok((out, noted(c, p, STRING_CLOSED_AT_LINE@)))
    } else if b[p] == quote {
        Ok((out, moved(c, p + 1)))
    } else if b[p] == 92 {
        if p + 1 >= b.len() {
            Ok((out, noted(moved(c, p + 1), p + 1, BACKSLASH_DROPPED@)))
        } else {
            let e = b[p + 1];
            if simple_escape(e) is Some {
                string_rest(b, quote, out.push(simple_escape(e)->0), moved(c, p + 2))
            } else if e == 117 {
                match hex4(b, p + 2) {
                    Some(v) => if is_char_value(v) {
                        string_rest(b, quote, out.push(v as char), moved(c, p + 6))
                    } else if is_high_surrogate(v) && low_escape(b, p + 6) is Some {
                        string_rest(
                            b,
                            quote,
                            out.push(pair_value(v, low_escape(b, p + 6)->0) as char),
                            moved(c, p + 12),
                        )
                    } else {
                        Err(Fault::InvalidEscape(p + 2))
                    },
                    None => Err(Fault::InvalidEscape(p + 2)),
                }
            } else {
                string_rest(b, quote, out.push(e as char), noted(moved(c, p + 2), p + 1, ESCAPE_KEPT@))
            }
        }
    } else if b[p] < 32 {
        string_rest(b, quote, out.push(b[p] as char), noted(moved(c, p + 1), p, CONTROL_ESCAPED@))
    } else if b[p] < 128 {
        string_rest(b, quote, out.push(b[p] as char), moved(c, p + 1))
    } else {
        let rest = b.subrange(p, b.len() as int);
        if valid_utf8(rest) {
            string_rest(
                b,
                quote,
                out.push(decode_first_scalar(rest) as char),
                moved(c, p + length_of_first_scalar(rest)),
            )
        } else {
            Err(Fault::InvalidUtf8(p))
        }
    }
}

/// A string literal at the cursor (which stands on its quote).
pub open spec fn read_string(b: Seq<u8>, c: Cursor) -> Result<(Seq<char>, Cursor), Fault> {
    let quote = b[c.pos];
    let c1 = if quote == 39 { noted(c, c.pos, SINGLE_QUOTES_REPLACED@) } else { c };
    string_rest(b, quote, Seq::empty(), moved(c1, c.pos + 1))
}

/// The bytes of `Infinity`.
pub open spec fn infinity_bytes() -> Seq<u8> {
    seq![73u8, 110u8, 102u8, 105u8, 110u8, 105u8, 116u8, 121u8]
}

/// A name for what `serde_json` makes of a number literal: whether
/// `serde_json::from_str::<serde_json::Number>` accepts it.
pub uninterp spec fn json_number_accepted(text: Seq<char>) -> bool;

/// What a number literal `text` (scanned at `at`) becomes, given whether a
/// strict JSON reader accepts it: the value and whether it was normalized.
pub open spec fn number_outcome(text: Seq<char>, at: int, accepted: bool) -> Result<(Json, bool), Fault> {
    if accepted {
        Ok((Json::Number(text), false))
    } else if !float_literal_ok(text) {
        Err(Fault::NotANumber(text, at))
    } else if float_literal_overflows(text) {
        Err(Fault::NotFinite(text, at))
    } else {
        Ok((Json::Number(float_number_text(text)), true))
    }
}

/// A number at the cursor (which stands on a sign or a digit).
pub open spec fn read_number(b: Seq<u8>, c: Cursor) -> Result<(Json, Cursor), Fault> {
    let start = c.pos;
    let c1 = if b[start] == 43 { noted(moved(c, start + 1), start, PLUS_REMOVED@) } else { c };
    let num_start = c1.pos;
    let e = number_end(b, num_start);
    let text = ascii_text(b, num_start, e);
    if text == seq!['-'] && e + 8 <= b.len() && b.subrange(e, e + 8) == infinity_bytes() {
        Ok((Json::Null, noted(moved(c1, e + 8), start, MINUS_INFINITY_REPLACED@)))
    } else {
        match number_outcome(text, num_start, json_number_accepted(text)) {
            Err(f) => Err(f),
            Ok((v, normalized)) => Ok(
                (v, if normalized { noted(moved(c1, e), num_start, NUMBER_NORMALIZED@) } else { moved(c1, e) }),
            ),
        }
    }
}

/// A bare word at the cursor.
pub open spec fn read_word(b: Seq<u8>, c: Cursor) -> Result<(Json, Cursor), Fault> {
    let start = c.pos;
    let e = ident_end(b, start);
    let w = ascii_text(b, start, e);
    let c1 = moved(c, e);
    if w == "true"@ {
        Ok((Json::Bool(true), c1))
    } else if w == "false"@ {
        Ok((Json::Bool(false), c1))
    } else if w == "null"@ {
        Ok((Json::Null, c1))
    } else if w == "True"@ {
        Ok((Json::Bool(true), noted(c1, start, BOOLEAN_LOWERCASED@)))
    } else if w == "False"@ {
        Ok((Json::Bool(false), noted(c1, start, BOOLEAN_LOWERCASED@)))
    } else if w == "None"@ || w == "undefined"@ {
        Ok((Json::Null, noted(c1, start, NULL_REPLACED@)))
    } else if w == "NaN"@ || w == "Infinity"@ {
        Ok((Json::Null, noted(c1, start, NON_FINITE_REPLACED@)))
    } else if e == start {
        Err(Fault::UnexpectedChar(start, b[start]))
    } else {
        Err(Fault::UnknownLiteral(w, start))
    }
}

/// The word at the cursor.
pub open spec fn word_at(b: Seq<u8>, c: Cursor) -> Seq<char> {
    ascii_text(b, c.pos, ident_end(b, c.pos))
}

/// Whether `w` is `true` or `false` spelt in lower case or capitalized.
pub open spec fn boolean_spelling(w: Seq<char>) -> bool {
    w == seq!['t', 'r', 'u', 'e'] || w == seq!['T', 'r', 'u', 'e'] || w == seq!['f', 'a', 'l', 's', 'e'] || w
        == seq!['F', 'a', 'l', 's', 'e']
}

/// A boolean literal keeps its truth value, whether written as JSON or
/// Python spells it: a word read as a boolean is true exactly when it
/// spells `true` in any ASCII case, and each of `true`, `True`, `false`,
/// `False` is read as a boolean. A word read is consumed whole, and a fix
/// is recorded at its start exactly when it is not JSON's own `true`,
/// `false` or `null`.
pub proof fn law_boolean_literals_keep_their_truth(b: Seq<u8>, c: Cursor)
    ensures
        boolean_spelling(word_at(b, c)) ==> read_word(b, c) is Ok && read_word(b, c)->Ok_0.0 is Bool,
        match read_word(b, c) {
            Ok((Json::Bool(x), _)) => x == (ascii_lower(word_at(b, c)) == seq!['t', 'r', 'u', 'e']),
            _ => true,
        },
        match read_word(b, c) {
            Ok((_, c2)) => c2.pos == ident_end(b, c.pos) && if word_at(b, c) == seq!['t', 'r', 'u', 'e'] || word_at(b, c)
                == seq!['f', 'a', 'l', 's', 'e'] || word_at(b, c) == seq!['n', 'u', 'l', 'l'] {
                c2.notes == c.notes
            } else {
                c2.notes.len() == c.notes.len() + 1 && c2.notes.drop_last() == c.notes && c2.notes.last().0 == c.pos
            },
            Err(_) => true,
        },
{
    reveal_strlit("true");
    reveal_strlit("false");
    reveal_strlit("True");
    reveal_strlit("False");
    reveal_strlit("null");
    reveal_strlit("None");
    reveal_strlit("undefined");
    reveal_strlit("NaN");
    reveal_strlit("Infinity");
    let w = word_at(b, c);
    assert("true"@ =~= seq!['t', 'r', 'u', 'e']);
    assert("True"@ =~= seq!['T', 'r', 'u', 'e']);
    assert("false"@ =~= seq!['f', 'a', 'l', 's', 'e']);
    assert("False"@ =~= seq!['F', 'a', 'l', 's', 'e']);
    assert(ascii_lower(seq!['t', 'r', 'u', 'e']) =~= seq!['t', 'r', 'u', 'e']);
    assert(ascii_lower(seq!['T', 'r', 'u', 'e']) =~= seq!['t', 'r', 'u', 'e']);
    assert(ascii_lower(seq!['f', 'a', 'l', 's', 'e']) =~= seq!['f', 'a', 'l', 's', 'e']);
    assert(ascii_lower(seq!['F', 'a', 'l', 's', 'e']) =~= seq!['f', 'a', 'l', 's', 'e']);
    assert(seq!['T', 'r', 'u', 'e'] != seq!['t', 'r', 'u', 'e']) by {
        assert(seq!['T', 'r', 'u', 'e'][0] != seq!['t', 'r', 'u', 'e'][0]);
    }
    assert(seq!['F', 'a', 'l', 's', 'e'] != seq!['f', 'a', 'l', 's', 'e']) by {
        assert(seq!['F', 'a', 'l', 's', 'e'][0] != seq!['f', 'a', 'l', 's', 'e'][0]);
    }
    assert(seq!['n', 'u', 'l', 'l'] != seq!['t', 'r', 'u', 'e']) by {
        assert(seq!['n', 'u', 'l', 'l'][0] != seq!['t', 'r', 'u', 'e'][0]);
    }
    assert(seq!['N', 'o', 'n', 'e'] != seq!['t', 'r', 'u', 'e']) by {
        assert(seq!['N', 'o', 'n', 'e'][0] != seq!['t', 'r', 'u', 'e'][0]);
    }
    assert(seq!['N', 'o', 'n', 'e'] != seq!['T', 'r', 'u', 'e']) by {
        assert(seq!['N', 'o', 'n', 'e'][0] != seq!['T', 'r', 'u', 'e'][0]);
    }
    assert(seq!['n', 'u', 'l', 'l'] != seq!['T', 'r', 'u', 'e']) by {
        assert(seq!['n', 'u', 'l', 'l'][0] != seq!['T', 'r', 'u', 'e'][0]);
    }
    assert("null"@ =~= seq!['n', 'u', 'l', 'l']);
    assert("None"@ =~= seq!['N', 'o', 'n', 'e']);
    assert(seq!['N', 'o', 'n', 'e'] != seq!['n', 'u', 'l', 'l']) by {
        assert(seq!['N', 'o', 'n', 'e'][0] != seq!['n', 'u', 'l', 'l'][0]);
    }
    assert("NaN"@.len() == 3 && "undefined"@.len() == 9 && "Infinity"@.len() == 8);
    match read_word(b, c) {
        Ok((_, c2)) => {
            if c2.notes.len() == c.notes.len() + 1 {
                assert(c2.notes.drop_last() =~= c.notes);
            }
        },
        Err(_) => {},
    }
}

/// Index of the entry with key `k` at or after `i`, or -1.
pub open spec fn find_key(es: Seq<(Seq<char>, Json)>, k: Seq<char>, i: int) -> int
    decreases es.len() - i,
{
    if i < 0 || i >= es.len() {
        -1
    } else if es[i].0 == k {
        i
    } else {
        find_key(es, k, i + 1)
    }
}

/// `es` with `k` set to `v`: in place when `k` is there, else at the end.
pub open spec fn upsert(es: Seq<(Seq<char>, Json)>, k: Seq<char>, v: Json) -> Seq<(Seq<char>, Json)> {
    let i = find_key(es, k, 0);
    if i >= 0 {
        es.update(i, (k, v))
    } else {
        es.push((k, v))
    }
}

/// A value at the cursor, `depth` containers deep.
pub open spec fn read_value(b: Seq<u8>, depth: int, c: Cursor) -> Result<(Json, Cursor), Fault>
    decreases MAX_DEPTH + 1 - depth, 1int, 0int,
{
    if depth > MAX_DEPTH || depth < 0 {
        Err(Fault::TooDeep)
    } else {
        let c1 = skip_ws(b, c);
        let p = c1.pos;
        if p < 0 || p >= b.len() {
            Err(Fault::UnexpectedEnd)
        } else if b[p] == 123 {
            object_rest(b, depth, Seq::empty(), moved(c1, p + 1))
        } else if b[p] == 91 {
            array_rest(b, depth, Seq::empty(), moved(c1, p + 1))
        } else if b[p] == 34 || b[p] == 39 {
            match read_string(b, c1) {
                Ok((s, c2)) => Ok((Json::Str(s), c2)),
                Err(f) => Err(f),
            }
        } else if b[p] == 45 || b[p] == 43 || is_digit_byte(b[p]) {
            read_number(b, c1)
        } else {
            read_word(b, c1)
        }
    }
}

/// The key of an object entry at the cursor (which stands on neither `}`,
/// `,` nor the end).
pub open spec fn read_key(b: Seq<u8>, c: Cursor) -> Result<(Seq<char>, Cursor), Fault> {
    let p = c.pos;
    if b[p] == 34 || b[p] == 39 {
        read_string(b, c)
    } else if is_ident_byte(b[p]) {
        let e = ident_end(b, p);
        Ok((ascii_text(b, p, e), noted(moved(c, e), p, KEY_QUOTED@)))
    } else {
        Err(Fault::ExpectedKey(p, b[p]))
    }
}

/// The separator after an object key.
pub open spec fn read_colon(b: Seq<u8>, c: Cursor) -> Cursor {
    let c1 = skip_ws(b, c);
    let p = c1.pos;
    if 0 <= p < b.len() && b[p] == 58 {
        moved(c1, p + 1)
    } else if 0 <= p < b.len() && b[p] == 61 {
        moved(noted(c1, p, EQUALS_REPLACED@), p + 1)
    } else {
        noted(c1, p, COLON_INSERTED@)
    }
}

/// What follows a member of a container closed by `close`: a comma (left
/// for the next round, which tells a separator from a trailing comma), the
/// close, the end, or else a missing comma, recorded.
pub open spec fn read_separator(b: Seq<u8>, c: Cursor, close: u8, missing: Seq<char>) -> Cursor {
    let c1 = skip_ws(b, c);
    let p = c1.pos;
    if 0 <= p < b.len() && b[p] != 44 && b[p] != close {
        noted(c1, p, missing)
    } else {
        c1
    }
}

/// A stray comma at `at` in a container closed by `close`, the cursor just
/// past it: recorded when it trails or leads, before any comment after it.
pub open spec fn stray_comma(
    b: Seq<u8>,
    c: Cursor,
    at: int,
    close: u8,
    empty: bool,
    trailing: Seq<char>,
    leading: Seq<char>,
) -> Cursor {
    let p = skip_ws(b, c).pos;
    if p < 0 || p >= b.len() || b[p] == close {
        skip_ws(b, noted(c, at, trailing))
    } else if empty {
        skip_ws(b, noted(c, at, leading))
    } else {
        skip_ws(b, c)
    }
}

/// Where whitespace and comments end does not depend on the fixes recorded.
pub proof fn lemma_skip_ws_pos(b: Seq<u8>, c: Cursor, d: Cursor)
    requires
        c.pos == d.pos,
    ensures
        skip_ws(b, c).pos == skip_ws(b, d).pos,
    decreases b.len() - c.pos,
{
    let q = ws_end(b, c.pos);
    if 0 <= c.pos <= q && q + 1 < b.len() && b[q] == 47 && b[q + 1] == 47 {
        let e = line_end(b, q + 2);
        lemma_scans(b, q + 2);
        lemma_skip_ws_pos(
            b,
            Cursor { pos: e, notes: c.notes.push((q, LINE_COMMENT_REMOVED@)) },
            Cursor { pos: e, notes: d.notes.push((q, LINE_COMMENT_REMOVED@)) },
        );
    } else if 0 <= c.pos <= q && q + 1 < b.len() && b[q] == 47 && b[q + 1] == 42 {
        let e = block_end(b, q + 2);
        lemma_scans(b, q + 2);
        lemma_skip_ws_pos(
            b,
            Cursor { pos: e, notes: c.notes.push((q, BLOCK_COMMENT_REMOVED@)) },
            Cursor { pos: e, notes: d.notes.push((q, BLOCK_COMMENT_REMOVED@)) },
        );
    }
}

/// Whether the fixes `notes` come in document order, none past `pos`.
pub open spec fn in_order(notes: Seq<(int, Seq<char>)>, pos: int) -> bool {
    &&& forall|i: int, j: int| #![trigger notes[i], notes[j]] 0 <= i < j < notes.len() ==> notes[i].0 <= notes[j].0
    &&& forall|i: int| 0 <= i < notes.len() ==> 0 <= (#[trigger] notes[i]).0 <= pos
}

/// A fix recorded at or after every earlier one keeps them in order.
pub proof fn lemma_in_order_push(notes: Seq<(int, Seq<char>)>, at: int, what: Seq<char>)
    requires
        in_order(notes, at),
        0 <= at,
    ensures
        in_order(notes.push((at, what)), at),
{
    let n2 = notes.push((at, what));
    assert forall|i: int, j: int| #![trigger n2[i], n2[j]] 0 <= i < j < n2.len() implies n2[i].0 <= n2[j].0 by {
        if j == notes.len() {
            assert(n2[i] == notes[i]);
        } else {
            assert(n2[i] == notes[i] && n2[j] == notes[j]);
        }
    }
    assert forall|i: int| 0 <= i < n2.len() implies 0 <= (#[trigger] n2[i]).0 <= at by {
        if i < notes.len() {
            assert(n2[i] == notes[i]);
        }
    }
}

/// Fixes in order up to `p` are in order up to any later position.
pub proof fn lemma_in_order_up(notes: Seq<(int, Seq<char>)>, p: int, q: int)
    requires
        in_order(notes, p),
        p <= q,
    ensures
        in_order(notes, q),
{
}

/// The rest of an object whose entries so far are `es`.
pub open spec fn object_rest(b: Seq<u8>, depth: int, es: Seq<(Seq<char>, Json)>, c: Cursor) -> Result<
    (Json, Cursor),
    Fault,
>
    decreases MAX_DEPTH + 1 - depth, 0int, b.len() - c.pos,
{
    if depth > MAX_DEPTH || depth < 0 {
        Err(Fault::TooDeep)
    } else {
        let c1 = skip_ws(b, c);
        let p = c1.pos;
        if p < 0 || p >= b.len() {
            Ok((Json::Object(es), noted(c1, p, OBJECT_CLOSED@)))
        } else if b[p] == 125 {
            Ok((Json::Object(es), moved(c1, p + 1)))
        } else if b[p] == 44 {
            let c2 = stray_comma(b, moved(c1, p + 1), p, 125, es.len() == 0, OBJECT_TRAILING_COMMA@, OBJECT_LEADING_COMMA@);
            if c.pos < c2.pos <= b.len() {
                object_rest(b, depth, es, c2)
            } else {
                Ok((Json::Object(es), c2))
            }
        } else {
            match read_key(b, c1) {
                Err(f) => Err(f),
                Ok((k, c2)) => {
                    let c3 = read_colon(b, c2);
                    match read_value(b, depth + 1, c3) {
                        Err(f) => Err(f),
                        Ok((v, c4)) => {
                            let c6 = read_separator(b, c4, 125, OBJECT_COMMA_INSERTED@);
                            let es2 = upsert(es, k, v);
                            if c.pos < c6.pos <= b.len() {
                                object_rest(b, depth, es2, c6)
                            } else {
                                Ok((Json::Object(es2), c6))
                            }
                        },
                    }
                },
            }
        }
    }
}

/// The rest of an array whose items so far are `items`.
pub open spec fn array_rest(b: Seq<u8>, depth: int, items: Seq<Json>, c: Cursor) -> Result<
    (Json, Cursor),
    Fault,
>
    decreases MAX_DEPTH + 1 - depth, 0int, b.len() - c.pos,
{
    if depth > MAX_DEPTH || depth < 0 {
        Err(Fault::TooDeep)
    } else {
        let c1 = skip_ws(b, c);
        let p = c1.pos;
        if p < 0 || p >= b.len() {
            Ok((Json::Array(items), noted(c1, p, ARRAY_CLOSED@)))
        } else if b[p] == 93 {
            Ok((Json::Array(items), moved(c1, p + 1)))
        } else if b[p] == 44 {
            let c2 = stray_comma(b, moved(c1, p + 1), p, 93, items.len() == 0, ARRAY_TRAILING_COMMA@, ARRAY_LEADING_COMMA@);
            if c.pos < c2.pos <= b.len() {
                array_rest(b, depth, items, c2)
            } else {
                Ok((Json::Array(items), c2))
            }
        } else {
            match read_value(b, depth + 1, c1) {
                Err(f) => Err(f),
                Ok((v, c2)) => {
                    let c3 = read_separator(b, c2, 93, ARRAY_COMMA_INSERTED@);
                    if c.pos < c3.pos <= b.len() {
                        array_rest(b, depth, items.push(v), c3)
                    } else {
                        Ok((Json::Array(items.push(v)), c3))
                    }
                },
            }
        }
    }
}

/// Whether `b` starts with the UTF-8 byte-order mark.
pub open spec fn has_bom(b: Seq<u8>) -> bool {
    b.len() >= 3 && b[0] == 0xEF && b[1] == 0xBB && b[2] == 0xBF
}

/// What [`repair_json`] makes of a document's bytes: its value and the
/// fixes, or why it cannot be repaired.
pub open spec fn repair_spec(b: Seq<u8>) -> Result<(Json, Seq<(int, Seq<char>)>), Fault> {
    let c0 = if has_bom(b) {
        Cursor { pos: 3, notes: seq![(0int, BOM_REMOVED@)] }
    } else {
        Cursor { pos: 0, notes: Seq::empty() }
    };
    let c1 = skip_ws(b, c0);
    if c1.pos >= b.len() {
        Err(Fault::Empty)
    } else {
        match read_value(b, 0, c1) {
            Err(f) => Err(f),
            Ok((v, c2)) => {
                let c3 = skip_ws(b, c2);
                if c3.pos < b.len() {
                    let stop = if c3.pos + 20 < b.len() { c3.pos + 20 } else { b.len() as int };
                    Err(Fault::TrailingContent(c3.pos, b.subrange(c3.pos, stop)))
                } else {
                    Ok((v, c3.notes))
                }
            },
        }
    }
}


/// Reads `input` as JSON, fixing what strict JSON refuses where the intent
/// is plain, and recording each fix with its byte position. Input that is
/// already strict JSON comes back with no fix. The fixes come in document
/// order: their positions never decrease and never pass the end of the
/// input.
pub fn repair_json(input: &str) -> (r: Result<(JsonValue, Vec<RepairAction>), RepairError>)
    ensures
        match repair_spec(encode_utf8(input@)) {
            Ok((v, notes)) => match r {
                Ok((x, acts)) => x.json() == v && actions_view(acts@) == notes,
                Err(_) => false,
            },
            Err(f) => match r {
                Ok(_) => false,
                Err(e) => e.fault() == f,
            },
        },
        match r {
            Ok((_, acts)) => in_order(actions_view(acts@), encode_utf8(input@).len() as int),
            Err(_) => true,
        },
{
    let b = input.as_bytes();
    let mut r = Reader { pos: 0, repairs: Vec::new() };
    proof {
        assert(actions_view(r.repairs@) =~= Seq::empty());
    }
    if b.len() >= 3 && b[0] == 0xEF && b[1] == 0xBB && b[2] == 0xBF {
        r.pos = 3;
        note(&mut r, 0, BOM_REMOVED);
    }
    pass_ws(b, &mut r);
    if r.pos >= b.len() {
        return Err(RepairError::Empty);
    }
    let value = match take_value(b, &mut r, 0) {
        Ok(v) => v,
        Err(e) => {
            return Err(e);
        },
    };
    pass_ws(b, &mut r);
    proof {
        lemma_in_order_up(r.cursor().notes, r.pos as int, b@.len() as int);
    }
    if r.pos < b.len() {
        let stop = if b.len() - r.pos > 20 { r.pos + 20 } else { b.len() };
        let rest = vstd::slice::slice_to_vec(vstd::slice::slice_subrange(b, r.pos, stop));
        return Err(RepairError::TrailingContent { position: r.pos, rest });
    }
    Ok((value, r.repairs))
}

// ---------------------------------------------------------------------------
// Messages
// ---------------------------------------------------------------------------

/// The sentence that reports fault `f`.
pub open spec fn repair_message(f: Fault) -> Seq<char> {
    match f {
        Fault::Empty => "repair-json: input is empty — nothing to repair"@,
        Fault::TrailingContent(p, rest) => "repair-json: trailing content at byte "@ + decimal(p as nat)
            + " after a complete JSON document — refusing to guess whether it is data (starts with "@
            + debug_quoted(lossy_text(rest)) + ")"@,
        Fault::TooDeep => "repair-json: nesting deeper than "@ + decimal(MAX_DEPTH as nat) + " levels"@,
        Fault::UnexpectedEnd => "repair-json: unexpected end of input while expecting a value"@,
        Fault::ExpectedKey(p, c) => "repair-json: expected an object key at byte "@ + decimal(p as nat)
            + " but found "@ + debug_char_text(c as char),
        Fault::InvalidEscape(p) => "repair-json: invalid \\u escape at byte "@ + decimal(p as nat),
        Fault::InvalidUtf8(p) => "repair-json: invalid UTF-8 inside string at byte "@ + decimal(p as nat),
        Fault::NotANumber(t, p) => "repair-json: '"@ + t + "' at byte "@ + decimal(p as nat) + " is not a number"@,
        Fault::NotFinite(t, p) => "repair-json: '"@ + t + "' at byte "@ + decimal(p as nat) + " is not finite"@,
        Fault::UnexpectedChar(p, c) => "repair-json: unexpected character Some("@ + debug_char_text(c as char)
            + ") at byte "@ + decimal(p as nat),
        Fault::UnknownLiteral(w, p) => "repair-json: unknown literal '"@ + w + "' at byte "@ + decimal(p as nat)
            + " — refusing to guess what it means"@,
    }
}

impl RepairError {
    /// The sentence that reports this error.
    pub fn message(&self) -> (m: String)
        ensures
            m@ == repair_message(self.fault()),
    {
        let mut out: Vec<char> = Vec::new();
        match self {
            RepairError::Empty => {
                push_text(&mut out, "repair-json: input is empty — nothing to repair");
            },
            RepairError::TrailingContent { position, rest } => {
                push_text(&mut out, "repair-json: trailing content at byte ");
                push_decimal(&mut out, *position as u128);
                push_text(&mut out, " after a complete JSON document — refusing to guess whether it is data (starts with ");
                let lossy = text_from_utf8_lossy(rest.as_slice());
                let shown = debug_text(lossy.as_str());
                push_text(&mut out, shown.as_str());
                push_text(&mut out, ")");
            },
            RepairError::TooDeep => {
                push_text(&mut out, "repair-json: nesting deeper than ");
                push_decimal(&mut out, MAX_DEPTH as u128);
                push_text(&mut out, " levels");
            },
            RepairError::UnexpectedEnd => {
                push_text(&mut out, "repair-json: unexpected end of input while expecting a value");
            },
            RepairError::ExpectedKey { position, found } => {
                push_text(&mut out, "repair-json: expected an object key at byte ");
                push_decimal(&mut out, *position as u128);
                push_text(&mut out, " but found ");
                let shown = debug_char(*found as char);
                push_text(&mut out, shown.as_str());
            },
            RepairError::InvalidEscape { position } => {
                push_text(&mut out, "repair-json: invalid \\u escape at byte ");
                push_decimal(&mut out, *position as u128);
            },
            RepairError::InvalidUtf8 { position } => {
                push_text(&mut out, "repair-json: invalid UTF-8 inside string at byte ");
                push_decimal(&mut out, *position as u128);
            },
            RepairError::NotANumber { text, position } => {
                push_text(&mut out, "repair-json: '");
                push_text(&mut out, text.as_str());
                push_text(&mut out, "' at byte ");
                push_decimal(&mut out, *position as u128);
                push_text(&mut out, " is not a number");
            },
            RepairError::NotFinite { text, position } => {
                push_text(&mut out, "repair-json: '");
                push_text(&mut out, text.as_str());
                push_text(&mut out, "' at byte ");
                push_decimal(&mut out, *position as u128);
                push_text(&mut out, " is not finite");
            },
            RepairError::UnexpectedChar { position, found } => {
                push_text(&mut out, "repair-json: unexpected character Some(");
                let shown = debug_char(*found as char);
                push_text(&mut out, shown.as_str());
                push_text(&mut out, ") at byte ");
                push_decimal(&mut out, *position as u128);
            },
            RepairError::UnknownLiteral { word, position } => {
                push_text(&mut out, "repair-json: unknown literal '");
                push_text(&mut out, word.as_str());
                push_text(&mut out, "' at byte ");
                push_decimal(&mut out, *position as u128);
                push_text(&mut out, " — refusing to guess what it means");
            },
        }
        assert(out@ =~= repair_message(self.fault()));
        string_of(&out)
    }
}

} // verus!
