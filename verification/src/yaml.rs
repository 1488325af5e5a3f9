//! YAML documents as JSON: the structure a YAML reader gives, converted to
//! the JSON value it stands for. Tags are dropped, a key that is not a
//! string is written as its YAML text, and a later key replaces an earlier
//! one.

use vstd::prelude::*;
use crate::json::{Json, JsonValue};
use crate::repair::{lemma_array_json, lemma_object_json, members_json, items_json, upsert};
use crate::text::{chars_of, push_signed, push_text, signed_decimal, string_of, sub_chars, trim, trim_chars, trim_end, trim_end_chars};
use crate::transform::row_insert;

verus! {

/// A YAML number as the conversion reads it.
#[derive(Debug)]
pub enum YamlNumber {
    /// An integer that fits an `i64`.
    Int(i64),
    /// Any other number: the JSON literal of its `f64` value (`None` when
    /// that value is not finite), and how the `f64` value is written.
    Float { json: Option<String>, shown: String },
}

/// The key of a YAML mapping entry.
#[derive(Debug)]
pub enum YamlKey {
    /// A string key.
    Text(String),
    /// Any other key, as its YAML text.
    Written(String),
    /// Any other key whose YAML text could not be written (the writer's
    /// error).
    Unwritable(String),
}

/// A YAML value, as a YAML reader gives it.
#[derive(Debug)]
pub enum YamlValue {
    Null,
    Bool(bool),
    Number(YamlNumber),
    String(String),
    Sequence(Vec<YamlValue>),
    Mapping(Vec<(YamlKey, YamlValue)>),
    /// A tagged value (the tag is not kept).
    Tagged(Box<YamlValue>),
}

/// Why a YAML value has no JSON counterpart.
#[derive(Debug, Clone, PartialEq, Eq)]
pub enum YamlError {
    /// A number whose value is not finite (as written).
    NotRepresentable { shown: String },
    /// A key that could not be written as text (the writer's error).
    KeyUnwritable { reason: String },
}

/// The mathematical value of a [`YamlError`].
pub enum YamlFault {
    NotRepresentable(Seq<char>),
    KeyUnwritable(Seq<char>),
}

impl YamlError {
    pub open spec fn fault(&self) -> YamlFault {
        match self {
            YamlError::NotRepresentable { shown } => YamlFault::NotRepresentable(shown@),
            YamlError::KeyUnwritable { reason } => YamlFault::KeyUnwritable(reason@),
        }
    }
}

/// What is wrong with a key, if anything.
pub open spec fn key_fault(k: YamlKey) -> Option<YamlFault> {
    match k {
        YamlKey::Unwritable(reason) => Some(YamlFault::KeyUnwritable(reason@)),
        _ => None,
    }
}

/// The JSON key for a YAML key: a string as it stands, another key's YAML
/// text trimmed.
pub open spec fn key_text(k: YamlKey) -> Seq<char> {
    match k {
        YamlKey::Text(s) => s@,
        YamlKey::Written(t) => trim(t@),
        YamlKey::Unwritable(_) => Seq::empty(),
    }
}

/// The first fault among `s` from index `i` on.
pub open spec fn first_fault(s: Seq<Option<YamlFault>>, i: int) -> Option<YamlFault>
    decreases s.len() - i,
{
    if i < 0 || i >= s.len() {
        None
    } else if s[i] is Some {
        s[i]
    } else {
        first_fault(s, i + 1)
    }
}

/// `acc` with each of the entries `es` from index `i` on set in turn.
pub open spec fn upsert_from(acc: Seq<(Seq<char>, Json)>, es: Seq<(Seq<char>, Json)>, i: int) -> Seq<(Seq<char>, Json)>
    decreases es.len() - i,
{
    if i < 0 || i >= es.len() {
        acc
    } else {
        upsert_from(upsert(acc, es[i].0, es[i].1), es, i + 1)
    }
}

impl YamlValue {
    /// The first thing, in document order, that has no JSON counterpart.
    pub open spec fn fault(&self) -> Option<YamlFault>
        decreases self,
    {
        match self {
            YamlValue::Number(YamlNumber::Float { json: None, shown }) => Some(YamlFault::NotRepresentable(shown@)),
            YamlValue::Sequence(items) => first_fault(item_faults(items@), 0),
            YamlValue::Mapping(ms) => first_fault(entry_faults(ms@), 0),
            YamlValue::Tagged(inner) => inner.fault(),
            _ => None,
        }
    }

    /// The JSON value this YAML value stands for (when it has no fault).
    pub open spec fn as_json(&self) -> Json
        decreases self,
    {
        match self {
            YamlValue::Null => Json::Null,
            YamlValue::Bool(b) => Json::Bool(*b),
            YamlValue::Number(YamlNumber::Int(i)) => Json::Number(signed_decimal(*i as int)),
            YamlValue::Number(YamlNumber::Float { json, .. }) => match json {
                Some(t) => Json::Number(t@),
                None => Json::Null,
            },
            YamlValue::String(s) => Json::Str(s@),
            YamlValue::Sequence(items) => Json::Array(item_values(items@)),
            YamlValue::Mapping(ms) => Json::Object(upsert_from(Seq::empty(), entry_members(ms@), 0)),
            YamlValue::Tagged(inner) => inner.as_json(),
        }
    }
}

/// The faults of the items of a sequence.
pub open spec fn item_faults(items: Seq<YamlValue>) -> Seq<Option<YamlFault>>
    decreases items,
{
    Seq::new(items.len(), |i: int| if 0 <= i < items.len() { items[i].fault() } else { None })
}

/// The faults of the entries of a mapping: its key's, else its value's.
pub open spec fn entry_faults(ms: Seq<(YamlKey, YamlValue)>) -> Seq<Option<YamlFault>>
    decreases ms,
{
    Seq::new(
        ms.len(),
        |i: int|
            if 0 <= i < ms.len() {
                match key_fault(ms[i].0) {
                    Some(f) => Some(f),
                    None => ms[i].1.fault(),
                }
            } else {
                None
            },
    )
}

/// The JSON values of the items of a sequence.
pub open spec fn item_values(items: Seq<YamlValue>) -> Seq<Json>
    decreases items,
{
    Seq::new(items.len(), |i: int| if 0 <= i < items.len() { items[i].as_json() } else { Json::Null })
}

/// The entries of a mapping as JSON members, before merging.
pub open spec fn entry_members(ms: Seq<(YamlKey, YamlValue)>) -> Seq<(Seq<char>, Json)>
    decreases ms,
{
    Seq::new(
        ms.len(),
        |i: int| if 0 <= i < ms.len() { (key_text(ms[i].0), ms[i].1.as_json()) } else { (Seq::empty(), Json::Null) },
    )
}

/// Converts a YAML value to the JSON value it stands for: sequences to
/// arrays, mappings to objects (a key that is not a string as its YAML
/// text, a later key replacing an earlier one), tags dropped, integers
/// as integers and other numbers by their `f64` value. Refused at the first
/// number that is not finite, or key that cannot be written, in document
/// order.
pub fn yaml_to_json(y: &YamlValue) -> (r: Result<JsonValue, YamlError>)
    ensures
        match y.fault() {
            Some(f) => r matches Err(e) && e.fault() == f,
            None => r matches Ok(v) && v.json() == y.as_json(),
        },
    decreases y, 0int,
{
    match y {
        YamlValue::Null => Ok(JsonValue::Null),
        YamlValue::Bool(b) => Ok(JsonValue::Bool(*b)),
        YamlValue::Number(YamlNumber::Int(i)) => {
            let mut out: Vec<char> = Vec::new();
            push_signed(&mut out, *i);
            assert(out@ =~= signed_decimal(*i as int));
            Ok(JsonValue::Number(string_of(&out)))
        },
        YamlValue::Number(YamlNumber::Float { json, shown }) => match json {
            Some(t) => Ok(JsonValue::Number(t.clone())),
            None => Err(YamlError::NotRepresentable { shown: shown.clone() }),
        },
        YamlValue::String(s) => Ok(JsonValue::String(s.clone())),
        YamlValue::Sequence(items) => match items_to_json(items, 0) {
            Err(e) => Err(e),
            Ok(out) => {
                proof {
                    lemma_array_json(out);
                    assert(item_values(items@) =~= items_json(out@));
                }
                Ok(JsonValue::Array(out))
            },
        },
        YamlValue::Mapping(ms) => {
            let mut obj: Vec<(String, JsonValue)> = Vec::new();
            assert(members_json(obj@) =~= Seq::<(Seq<char>, Json)>::empty());
            match entries_to_json(ms, 0, &mut obj) {
                Err(e) => Err(e),
                Ok(()) => {
                    proof {
                        lemma_object_json(obj);
                    }
                    Ok(JsonValue::Object(obj))
                },
            }
        },
        YamlValue::Tagged(inner) => yaml_to_json(inner),
    }
}

/// The items of a sequence from index `i` on, converted.
fn items_to_json(items: &Vec<YamlValue>, i: usize) -> (r: Result<Vec<JsonValue>, YamlError>)
    requires
        i <= items@.len(),
    ensures
        match first_fault(item_faults(items@), i as int) {
            Some(f) => r matches Err(e) && e.fault() == f,
            None => r matches Ok(v) && items_json(v@) == item_values(items@).skip(i as int),
        },
    decreases items, items@.len() - i,
{
    if i >= items.len() {
        let out: Vec<JsonValue> = Vec::new();
        assert(items_json(out@) =~= item_values(items@).skip(i as int));
        return Ok(out);
    }
    let x = match yaml_to_json(&items[i]) {
        Err(e) => {
            return Err(e);
        },
        Ok(x) => x,
    };
    let mut rest = match items_to_json(items, i + 1) {
        Err(e) => {
            return Err(e);
        },
        Ok(rest) => rest,
    };
    let ghost tail = items_json(rest@);
    let ghost head = x.json();
    rest.insert(0, x);
    assert(items_json(rest@) =~= seq![head] + tail);
    assert(items_json(rest@) =~= item_values(items@).skip(i as int));
    Ok(rest)
}

/// The JSON key for a mapping key that can be written.
fn key_to_text(k: &YamlKey) -> (r: Result<String, YamlError>)
    ensures
        match key_fault(*k) {
            Some(f) => r matches Err(e) && e.fault() == f,
            None => r matches Ok(s) && s@ == key_text(*k),
        },
{
    match k {
        YamlKey::Text(s) => Ok(s.clone()),
        YamlKey::Written(t) => Ok(string_of(&trim_chars(&chars_of(t.as_str())))),
        YamlKey::Unwritable(reason) => Err(YamlError::KeyUnwritable { reason: reason.clone() }),
    }
}

/// Sets the entries of a mapping from index `i` on, converted, into `obj`
/// in turn.
fn entries_to_json(ms: &Vec<(YamlKey, YamlValue)>, i: usize, obj: &mut Vec<(String, JsonValue)>) -> (r: Result<(), YamlError>)
    requires
        i <= ms@.len(),
    ensures
        match first_fault(entry_faults(ms@), i as int) {
            Some(f) => r matches Err(e) && e.fault() == f,
            None => r is Ok && members_json(final(obj)@) == upsert_from(members_json(old(obj)@), entry_members(ms@), i as int),
        },
    decreases ms, ms@.len() - i,
{
    if i >= ms.len() {
        return Ok(());
    }
    let key = match key_to_text(&ms[i].0) {
        Err(e) => {
            return Err(e);
        },
        Ok(k) => k,
    };
    let v = match yaml_to_json(&ms[i].1) {
        Err(e) => {
            return Err(e);
        },
        Ok(v) => v,
    };
    row_insert(obj, &chars_of(key.as_str()), v);
    entries_to_json(ms, i + 1, obj)
}

/// `s` without the document-start lines (`---` and a line feed) it begins
/// with.
pub open spec fn without_doc_starts(s: Seq<char>) -> Seq<char>
    decreases s.len(),
{
    if s.len() >= 4 && s[0] == '-' && s[1] == '-' && s[2] == '-' && s[3] == '\n' {
        without_doc_starts(s.skip(4))
    } else {
        s
    }
}

/// The line of a text list that a YAML value gives, from the text the YAML
/// writer wrote for it: without the document-start lines it begins with and
/// without trailing whitespace.
pub fn yaml_item_line(written: &str) -> (r: String)
    ensures
        r@ == trim_end(without_doc_starts(written@)),
{
    let s = chars_of(written);
    let mut i: usize = 0;
    assert(s@.skip(0) =~= s@);
    while s.len() - i >= 4 && s[i] == '-' && s[i + 1] == '-' && s[i + 2] == '-' && s[i + 3] == '\n'
        invariant
            i <= s@.len(),
            without_doc_starts(s@) == without_doc_starts(s@.skip(i as int)),
        decreases s@.len() - i,
    {
        assert(s@.skip(i as int).skip(4) =~= s@.skip(i + 4));
        i = i + 4;
    }
    let rest = sub_chars(&s, i, s.len());
    assert(rest@ =~= s@.skip(i as int));
    string_of(&trim_end_chars(&rest))
}

/// The sentence that reports a YAML value without a JSON counterpart.
pub open spec fn yaml_message(f: YamlFault) -> Seq<char> {
    match f {
        YamlFault::NotRepresentable(shown) => "YAML number "@ + shown + " is not representable in JSON"@,
        YamlFault::KeyUnwritable(reason) => "Non-string YAML key: "@ + reason,
    }
}

impl YamlError {
    /// The sentence that reports this error.
    pub fn message(&self) -> (m: String)
        ensures
            m@ == yaml_message(self.fault()),
    {
        let mut out: Vec<char> = Vec::new();
        match self {
            YamlError::NotRepresentable { shown } => {
                push_text(&mut out, "YAML number ");
                push_text(&mut out, shown.as_str());
                push_text(&mut out, " is not representable in JSON");
            },
            YamlError::KeyUnwritable { reason } => {
                push_text(&mut out, "Non-string YAML key: ");
                push_text(&mut out, reason.as_str());
            },
        }
        assert(out@ =~= yaml_message(self.fault()));
        string_of(&out)
    }
}

} // verus!
