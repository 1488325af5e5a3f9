//! Scalar type coercion of a content item: which target is asked for, and
//! the coercions to `string` and `boolean`, whose results are spelled out
//! exactly. The numeric targets and `object` are finished by the caller.

use vstd::prelude::*;
use vstd::utf8::{decode_utf8, encode_utf8, valid_utf8};
use crate::json::{Json, JsonValue};
use crate::json_ops::{json_text, json_to_text, number_display, number_order, number_to_text, numbers_compare};
use crate::text::{
    chars_of, push_chars, push_text, same_chars, string_of, text_from_utf8, trim, trim_chars, trim_end,
    trim_start, utf8_error_text,
};
use crate::transform::ascii_lower;
use crate::numeric::{parse_i64, parse_i64_spec};

verus! {

/// The type a content item is coerced to.
#[derive(Debug, Clone, Copy, PartialEq, Eq, Structural)]
pub enum CoerceTarget {
    String,
    Integer,
    Number,
    Boolean,
    Object,
}

/// Why a coercion was refused.
#[derive(Debug)]
pub enum CoerceError {
    /// The content is not UTF-8 (the decoding error).
    NotUtf8 { reason: String },
    /// The target type is none of the supported ones (as given).
    UnsupportedTarget { target: String },
    /// The content spells no boolean (the content, trimmed).
    NotBoolean { text: String },
}

/// The mathematical value of a [`CoerceError`].
pub enum CoerceFault {
    NotUtf8(Seq<char>),
    UnsupportedTarget(Seq<char>),
    NotBoolean(Seq<char>),
}

impl CoerceError {
    pub open spec fn fault(&self) -> CoerceFault {
        match self {
            CoerceError::NotUtf8 { reason } => CoerceFault::NotUtf8(reason@),
            CoerceError::UnsupportedTarget { target } => CoerceFault::UnsupportedTarget(target@),
            CoerceError::NotBoolean { text } => CoerceFault::NotBoolean(text@),
        }
    }
}

/// The target a type name asks for.
pub open spec fn target_of(name: Seq<char>) -> Option<CoerceTarget> {
    if name == "string"@ {
        Some(CoerceTarget::String)
    } else if name == "integer"@ {
        Some(CoerceTarget::Integer)
    } else if name == "number"@ {
        Some(CoerceTarget::Number)
    } else if name == "boolean"@ {
        Some(CoerceTarget::Boolean)
    } else if name == "object"@ {
        Some(CoerceTarget::Object)
    } else {
        None
    }
}

/// The target a type name asks for.
pub fn coerce_target(name: &str) -> (r: Option<CoerceTarget>)
    ensures
        r == target_of(name@),
{
    let n = chars_of(name);
    if same_chars(&n, &chars_of("string")) {
        Some(CoerceTarget::String)
    } else if same_chars(&n, &chars_of("integer")) {
        Some(CoerceTarget::Integer)
    } else if same_chars(&n, &chars_of("number")) {
        Some(CoerceTarget::Number)
    } else if same_chars(&n, &chars_of("boolean")) {
        Some(CoerceTarget::Boolean)
    } else if same_chars(&n, &chars_of("object")) {
        Some(CoerceTarget::Object)
    } else {
        None
    }
}

/// The value read from the content as JSON, if it was read.
pub open spec fn parsed_json(parsed: Option<&JsonValue>) -> Option<Json> {
    match parsed {
        Some(v) => Some(v.json()),
        None => None,
    }
}

// ---------------------------------------------------------------------------
// Boolean
// ---------------------------------------------------------------------------

/// The boolean a word spells: `true`, `1`, `yes`, `on` and `false`, `0`,
/// `no`, `off`, in any ASCII case, surrounding whitespace ignored.
pub open spec fn bool_word(s: Seq<char>) -> Option<bool> {
    let w = ascii_lower(trim(s));
    if w == "true"@ || w == "1"@ || w == "yes"@ || w == "on"@ {
        Some(true)
    } else if w == "false"@ || w == "0"@ || w == "no"@ || w == "off"@ {
        Some(false)
    } else {
        None
    }
}

/// The boolean a JSON number stands for: exactly 1 or exactly 0 (as
/// `serde_json` reads numbers).
pub open spec fn bool_number(t: Seq<char>) -> Option<bool> {
    if number_order(t, "1"@) == Some(0i8) {
        Some(true)
    } else if number_order(t, "0"@) == Some(0i8) {
        Some(false)
    } else {
        None
    }
}

/// The boolean content `s` (read as JSON into `parsed`, when it is JSON)
/// stands for: a JSON boolean, the numbers 1 and 0, a string spelling a
/// boolean; content that is no JSON is read as a word.
pub open spec fn boolean_of(s: Seq<char>, parsed: Option<Json>) -> Option<bool> {
    match parsed {
        Some(Json::Bool(b)) => Some(b),
        Some(Json::Number(t)) => bool_number(t),
        Some(Json::Str(inner)) => bool_word(inner),
        Some(_) => None,
        None => bool_word(s),
    }
}

/// Whether `t`, trimmed and in any ASCII case, is one of the words for true.
pub open spec fn says_true(t: Seq<char>) -> bool {
    let w = ascii_lower(trim(t));
    w == seq!['t', 'r', 'u', 'e'] || w == seq!['1'] || w == seq!['y', 'e', 's'] || w == seq!['o', 'n']
}

/// Whether `t`, trimmed and in any ASCII case, is one of the words for false.
pub open spec fn says_false(t: Seq<char>) -> bool {
    let w = ascii_lower(trim(t));
    w == seq!['f', 'a', 'l', 's', 'e'] || w == seq!['0'] || w == seq!['n', 'o'] || w == seq!['o', 'f', 'f']
}

/// Every documented boolean word is accepted, and nothing else: a string
/// (or content that is no JSON) that is, trimmed and in any ASCII case, one
/// of true, 1, yes, on coerces to true; one of false, 0, no, off to false;
/// any other string is refused. A JSON boolean is itself; null is refused.
pub proof fn law_boolean_words(s: Seq<char>, t: Seq<char>)
    ensures
        says_true(t) ==> boolean_of(s, Some(Json::Str(t))) == Some(true) && boolean_of(t, None) == Some(true),
        says_false(t) ==> boolean_of(s, Some(Json::Str(t))) == Some(false) && boolean_of(t, None) == Some(false),
        !says_true(t) && !says_false(t) ==> boolean_of(s, Some(Json::Str(t))) is None && boolean_of(t, None) is None,
        boolean_of(s, Some(Json::Bool(true))) == Some(true) && boolean_of(s, Some(Json::Bool(false))) == Some(false),
        boolean_of(s, Some(Json::Null)) is None,
{
    reveal_strlit("true");
    reveal_strlit("1");
    reveal_strlit("yes");
    reveal_strlit("on");
    reveal_strlit("false");
    reveal_strlit("0");
    reveal_strlit("no");
    reveal_strlit("off");
    let w = ascii_lower(trim(t));
    assert("true"@ =~= seq!['t', 'r', 'u', 'e']);
    assert("1"@ =~= seq!['1']);
    assert("yes"@ =~= seq!['y', 'e', 's']);
    assert("on"@ =~= seq!['o', 'n']);
    assert("false"@ =~= seq!['f', 'a', 'l', 's', 'e']);
    assert("0"@ =~= seq!['0']);
    assert("no"@ =~= seq!['n', 'o']);
    assert("off"@ =~= seq!['o', 'f', 'f']);
    assert(seq!['0'] != seq!['1']) by {
        assert(seq!['0'][0] != seq!['1'][0]);
    }
    assert(seq!['n', 'o'] != seq!['o', 'n']) by {
        assert(seq!['n', 'o'][0] != seq!['o', 'n'][0]);
    }
    assert(seq!['o', 'f', 'f'] != seq!['y', 'e', 's']) by {
        assert(seq!['o', 'f', 'f'][0] != seq!['y', 'e', 's'][0]);
    }
}

/// The text of a boolean.
pub open spec fn bool_text(b: bool) -> Seq<char> {
    if b {
        "true"@
    } else {
        "false"@
    }
}

/// `s` with ASCII capitals lowered.
fn ascii_lower_chars(s: &Vec<char>) -> (r: Vec<char>)
    ensures
        r@ == ascii_lower(s@),
{
    let mut r: Vec<char> = Vec::new();
    let mut i: usize = 0;
    while i < s.len()
        invariant
            i <= s@.len(),
            r@ =~= ascii_lower(s@).take(i as int),
        decreases s@.len() - i,
    {
        let c = s[i];
        let l = if 'A' <= c && c <= 'Z' { ((c as u32 + 32) as u8) as char } else { c };
        proof {
            if 'A' <= c && c <= 'Z' {
                assert(((c as u32 + 32) as u8) as char == ((c as u32) + 32) as char);
            }
        }
        r.push(l);
        i = i + 1;
    }
    assert(ascii_lower(s@).take(s@.len() as int) =~= ascii_lower(s@));
    r
}

/// The boolean a word spells (see [`bool_word`]).
fn bool_word_exec(s: &str) -> (r: Option<bool>)
    ensures
        r == bool_word(s@),
{
    let w = ascii_lower_chars(&trim_chars(&chars_of(s)));
    if same_chars(&w, &chars_of("true")) || same_chars(&w, &chars_of("1")) || same_chars(&w, &chars_of("yes"))
        || same_chars(&w, &chars_of("on")) {
        Some(true)
    } else if same_chars(&w, &chars_of("false")) || same_chars(&w, &chars_of("0")) || same_chars(
        &w,
        &chars_of("no"),
    ) || same_chars(&w, &chars_of("off")) {
        Some(false)
    } else {
        None
    }
}

/// The UTF-8 bytes of `s`.
fn bytes_of(s: &Vec<char>) -> (b: Vec<u8>)
    ensures
        b@ == encode_utf8(s@),
{
    let t = string_of(s);
    vstd::slice::slice_to_vec(t.as_str().as_bytes())
}

/// Coerces content `s` to a boolean, strictly: a JSON boolean; the numbers
/// 1 and 0; a string, or content that is no JSON, spelling `true`/`false`,
/// `1`/`0`, `yes`/`no` or `on`/`off` in any case. `parsed` is `s` read as
/// JSON, when it is JSON. Anything else is refused.
pub fn coerce_to_boolean(s: &str, parsed: Option<&JsonValue>) -> (r: Result<Vec<u8>, CoerceError>)
    ensures
        match boolean_of(s@, parsed_json(parsed)) {
            Some(b) => r matches Ok(x) && x@ == encode_utf8(bool_text(b)),
            None => r matches Err(e) && e.fault() == CoerceFault::NotBoolean(trim(s@)),
        },
{
    let value = match parsed {
        Some(JsonValue::Bool(b)) => Some(*b),
        Some(JsonValue::Number(t)) => {
            if numbers_compare(t.as_str(), "1") == Some(0i8) {
                Some(true)
            } else if numbers_compare(t.as_str(), "0") == Some(0i8) {
                Some(false)
            } else {
                None
            }
        },
        Some(JsonValue::String(inner)) => bool_word_exec(inner.as_str()),
        Some(_) => None,
        None => bool_word_exec(s),
    };
    match value {
        Some(b) => {
            let text = if b { chars_of("true") } else { chars_of("false") };
            Ok(bytes_of(&text))
        },
        None => Err(CoerceError::NotBoolean { text: string_of(&trim_chars(&chars_of(s))) }),
    }
}

// ---------------------------------------------------------------------------
// String
// ---------------------------------------------------------------------------

/// `t` with each double quote preceded by a backslash.
pub open spec fn quotes_escaped(t: Seq<char>) -> Seq<char>
    decreases t.len(),
{
    if t.len() == 0 {
        Seq::empty()
    } else {
        quotes_escaped(t.drop_last()) + if t.last() == '"' {
            seq!['\\', '"']
        } else {
            seq![t.last()]
        }
    }
}

/// Content `s` (read as JSON into `parsed`, when it is JSON) as a quoted
/// string: a JSON string's own characters, a number, boolean or null as
/// its JSON text, an array or object as its compact JSON text with each
/// double quote backslashed; content that is no JSON as it stands. Nothing
/// else is escaped.
pub open spec fn string_form(s: Seq<char>, parsed: Option<Json>) -> Seq<char> {
    seq!['"'] + match parsed {
        Some(Json::Str(t)) => t,
        Some(Json::Number(n)) => number_display(n),
        Some(Json::Bool(b)) => bool_text(b),
        Some(Json::Null) => "null"@,
        Some(j) => quotes_escaped(json_text(j)),
        None => s,
    } + seq!['"']
}

/// Appends `t` to `out`, each double quote preceded by a backslash.
fn push_quotes_escaped(out: &mut Vec<char>, t: &Vec<char>)
    ensures
        final(out)@ == old(out)@ + quotes_escaped(t@),
{
    let mut i: usize = 0;
    while i < t.len()
        invariant
            i <= t@.len(),
            out@ == old(out)@ + quotes_escaped(t@.take(i as int)),
        decreases t@.len() - i,
    {
        let c = t[i];
        assert(t@.take(i + 1).drop_last() =~= t@.take(i as int));
        if c == '"' {
            out.push('\\');
            out.push('"');
        } else {
            out.push(c);
        }
        assert(out@ =~= old(out)@ + quotes_escaped(t@.take(i + 1)));
        i = i + 1;
    }
    assert(t@.take(t@.len() as int) =~= t@);
}

/// Coerces content `s` to a quoted string (see [`string_form`]). `parsed`
/// is `s` read as JSON, when it is JSON.
pub fn coerce_to_string(s: &str, parsed: Option<&JsonValue>) -> (r: Vec<u8>)
    ensures
        r@ == encode_utf8(string_form(s@, parsed_json(parsed))),
{
    let mut out: Vec<char> = Vec::new();
    out.push('"');
    match parsed {
        Some(JsonValue::String(t)) => push_text(&mut out, t.as_str()),
        Some(JsonValue::Number(n)) => {
            let d = number_to_text(n.as_str());
            push_text(&mut out, d.as_str());
        },
        Some(JsonValue::Bool(b)) => {
            if *b {
                push_text(&mut out, "true");
            } else {
                push_text(&mut out, "false");
            }
        },
        Some(JsonValue::Null) => push_text(&mut out, "null"),
        Some(v) => {
            let text = json_to_text(v);
            push_quotes_escaped(&mut out, &chars_of(text.as_str()));
        },
        None => push_text(&mut out, s),
    }
    out.push('"');
    assert(out@ =~= string_form(s@, parsed_json(parsed)));
    bytes_of(&out)
}

// ---------------------------------------------------------------------------
// Integers
// ---------------------------------------------------------------------------

/// One way of reading the content as an integer.
#[derive(Debug, Clone, PartialEq, Eq)]
pub enum IntegerStep {
    /// This integer.
    Exact(i64),
    /// The text read as a floating-point number and rounded, when it reads
    /// as one.
    Round(String),
}

/// The ways of reading a content item as an integer, tried in order: the
/// integer is what the first step that gives one gives; when none does,
/// the content cannot be coerced to an integer.
#[derive(Debug)]
pub struct IntegerPlan {
    /// The content, as text.
    pub text: String,
    pub steps: Vec<IntegerStep>,
}

/// The mathematical value of an [`IntegerStep`].
pub enum IntStep {
    Exact(int),
    Round(Seq<char>),
}

pub open spec fn step_view(s: IntegerStep) -> IntStep {
    match s {
        IntegerStep::Exact(i) => IntStep::Exact(i as int),
        IntegerStep::Round(t) => IntStep::Round(t@),
    }
}

/// `t` as an integer, or failing that, rounded.
pub open spec fn int_or_round(t: Seq<char>) -> IntStep {
    match parse_i64_spec(t) {
        Some(i) => IntStep::Exact(i as int),
        None => IntStep::Round(t),
    }
}

/// The ways of reading content `s` as an integer, `parsed` being the JSON
/// it reads as, if any: a JSON number as itself (rounded unless it is an
/// integer); a JSON string as an integer, else rounded, else as the
/// content; a boolean as 1 or 0; anything else as the content trimmed, an
/// integer or rounded.
pub open spec fn integer_steps(s: Seq<char>, parsed: Option<Json>) -> Seq<IntStep> {
    match parsed {
        Some(Json::Number(n)) => seq![int_or_round(n)],
        Some(Json::Str(t)) => match parse_i64_spec(t) {
            Some(i) => seq![IntStep::Exact(i as int)],
            None => seq![IntStep::Round(t), int_or_round(trim(s))],
        },
        Some(Json::Bool(b)) => seq![IntStep::Exact(if b { 1 } else { 0 })],
        _ => seq![int_or_round(trim(s))],
    }
}

fn int_or_round_exec(t: &Vec<char>) -> (r: IntegerStep)
    ensures
        step_view(r) == int_or_round(t@),
{
    match parse_i64(t) {
        Some(i) => IntegerStep::Exact(i),
        None => IntegerStep::Round(string_of(t)),
    }
}

/// The ways of reading content `s` as an integer ([`integer_steps`]).
pub fn integer_plan(s: &str, parsed: Option<&JsonValue>) -> (r: IntegerPlan)
    ensures
        r.text@ == s@,
        r.steps@.map_values(|x: IntegerStep| step_view(x)) == integer_steps(s@, parsed_json(parsed)),
{
    let trimmed = trim_chars(&chars_of(s));
    let mut steps: Vec<IntegerStep> = Vec::new();
    match parsed {
        Some(JsonValue::Number(n)) => {
            steps.push(int_or_round_exec(&chars_of(n.as_str())));
        },
        Some(JsonValue::String(t)) => {
            match parse_i64(&chars_of(t.as_str())) {
                Some(i) => {
                    steps.push(IntegerStep::Exact(i));
                },
                None => {
                    steps.push(IntegerStep::Round(t.clone()));
                    steps.push(int_or_round_exec(&trimmed));
                },
            }
        },
        Some(JsonValue::Bool(b)) => {
            steps.push(IntegerStep::Exact(if *b { 1 } else { 0 }));
        },
        _ => {
            steps.push(int_or_round_exec(&trimmed));
        },
    }
    assert(steps@.map_values(|x: IntegerStep| step_view(x)) =~= integer_steps(s@, parsed_json(parsed)));
    IntegerPlan { text: s.to_owned(), steps }
}

/// The sentence that reports content that is no integer.
pub open spec fn no_integer_message(text: Seq<char>) -> Seq<char> {
    "Cannot coerce content to integer: '"@ + text + "'"@
}

impl IntegerPlan {
    /// The sentence that reports that no step gives an integer.
    pub fn refusal(&self) -> (m: String)
        ensures
            m@ == no_integer_message(self.text@),
    {
        let mut out: Vec<char> = Vec::new();
        push_text(&mut out, "Cannot coerce content to integer: '");
        push_text(&mut out, self.text.as_str());
        push_text(&mut out, "'");
        assert(out@ =~= no_integer_message(self.text@));
        string_of(&out)
    }
}

// ---------------------------------------------------------------------------
// Dispatch
// ---------------------------------------------------------------------------

/// What a coercion gives: the finished bytes, or, for the targets the
/// caller finishes, the content as text.
#[derive(Debug)]
pub enum Coerced {
    Bytes(Vec<u8>),
    Integer(IntegerPlan),
    Number(String),
    Object(String),
}

/// Coerces `data` to the type named `target`. The content must be UTF-8;
/// `parsed` is its text read as JSON, when it is JSON. `string` and
/// `boolean` are finished here; `integer` comes back as the ways of reading
/// an integer, whose rounding the caller finishes; for `number` and
/// `object` the content comes back as text for the caller to finish.
pub fn coerce(data: &[u8], parsed: Option<&JsonValue>, target: &str) -> (r: Result<Coerced, CoerceError>)
    ensures
        !valid_utf8(data@) ==> (r matches Err(e) && e.fault() == CoerceFault::NotUtf8(utf8_error_text(data@))),
        valid_utf8(data@) ==> {
            let s = decode_utf8(data@);
            match target_of(target@) {
                None => r matches Err(e) && e.fault() == CoerceFault::UnsupportedTarget(target@),
                Some(CoerceTarget::String) => r matches Ok(Coerced::Bytes(b)) && b@ == encode_utf8(
                    string_form(s, parsed_json(parsed)),
                ),
                Some(CoerceTarget::Boolean) => match boolean_of(s, parsed_json(parsed)) {
                    Some(b) => r matches Ok(Coerced::Bytes(x)) && x@ == encode_utf8(bool_text(b)),
                    None => r matches Err(e) && e.fault() == CoerceFault::NotBoolean(trim(s)),
                },
                Some(CoerceTarget::Integer) => r matches Ok(Coerced::Integer(p)) && p.text@ == s
                    && p.steps@.map_values(|x: IntegerStep| step_view(x)) == integer_steps(s, parsed_json(parsed)),
                Some(CoerceTarget::Number) => r matches Ok(Coerced::Number(t)) && t@ == s,
                Some(CoerceTarget::Object) => r matches Ok(Coerced::Object(t)) && t@ == s,
            }
        },
{
    let s = match text_from_utf8(data) {
        Ok(s) => s,
        Err(reason) => {
            return Err(CoerceError::NotUtf8 { reason });
        },
    };
    match coerce_target(target) {
        None => Err(CoerceError::UnsupportedTarget { target: target.to_owned() }),
        Some(CoerceTarget::String) => Ok(Coerced::Bytes(coerce_to_string(s.as_str(), parsed))),
        Some(CoerceTarget::Boolean) => match coerce_to_boolean(s.as_str(), parsed) {
            Ok(b) => Ok(Coerced::Bytes(b)),
            Err(e) => Err(e),
        },
        Some(CoerceTarget::Integer) => Ok(Coerced::Integer(integer_plan(s.as_str(), parsed))),
        Some(CoerceTarget::Number) => Ok(Coerced::Number(s)),
        Some(CoerceTarget::Object) => Ok(Coerced::Object(s)),
    }
}

// ---------------------------------------------------------------------------
// Messages
// ---------------------------------------------------------------------------

/// The sentence that reports fault `f`.
pub open spec fn coerce_message(f: CoerceFault) -> Seq<char> {
    match f {
        CoerceFault::NotUtf8(reason) => "Content is not valid UTF-8: "@ + reason,
        CoerceFault::UnsupportedTarget(t) => "Unsupported coercion target type: '"@ + t + "'"@,
        CoerceFault::NotBoolean(t) => "Cannot coerce '"@ + t
            + "' to boolean — accepted values: true/false, 1/0, yes/no, on/off (strings, case-insensitive) or the numbers 1/0"@,
    }
}

impl CoerceError {
    /// The sentence that reports this error.
    pub fn message(&self) -> (m: String)
        ensures
            m@ == coerce_message(self.fault()),
    {
        let mut out: Vec<char> = Vec::new();
        match self {
            CoerceError::NotUtf8 { reason } => {
                push_text(&mut out, "Content is not valid UTF-8: ");
                push_text(&mut out, reason.as_str());
            },
            CoerceError::UnsupportedTarget { target } => {
                push_text(&mut out, "Unsupported coercion target type: '");
                push_text(&mut out, target.as_str());
                push_text(&mut out, "'");
            },
            CoerceError::NotBoolean { text } => {
                push_text(&mut out, "Cannot coerce '");
                push_text(&mut out, text.as_str());
                push_text(
                    &mut out,
                    "' to boolean — accepted values: true/false, 1/0, yes/no, on/off (strings, case-insensitive) or the numbers 1/0",
                );
            },
        }
        assert(out@ =~= coerce_message(self.fault()));
        string_of(&out)
    }
}

// ---------------------------------------------------------------------------
// Laws
// ---------------------------------------------------------------------------

/// Coercion to boolean undoes coercion from it: a boolean coerced to a
/// string gives its name in quotes, and that JSON string coerces back to
/// the same boolean.
pub proof fn law_boolean_round_trip(b: bool, s: Seq<char>)
    ensures
        string_form(s, Some(Json::Bool(b))) == seq!['"'] + bool_text(b) + seq!['"'],
        boolean_of(seq!['"'] + bool_text(b) + seq!['"'], Some(Json::Str(bool_text(b)))) == Some(b),
{
    reveal_strlit("true");
    reveal_strlit("false");
    reveal_strlit("1");
    reveal_strlit("yes");
    reveal_strlit("on");
    let t = bool_text(b);
    assert(trim_start(t) == t);
    assert(trim_end(t) == t);
    assert(trim(t) == t);
    assert(ascii_lower(t) =~= t);
    if !b {
        assert(t != "true"@ && t != "1"@ && t != "yes"@ && t != "on"@);
    }
}

} // verus!
