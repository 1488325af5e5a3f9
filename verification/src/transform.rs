//! The transform engine: a program of operations run, in order and
//! deterministically, over a JSON array of objects ("records").

use vstd::prelude::*;
use crate::json::{Json, JsonValue};
use crate::json_ops::{
    find_member, json_eq, json_text, json_to_text, lemma_find_key_range, lemma_text_order_flip,
    lemma_text_order_trans, kind_rank, number_display, number_order,
    number_to_text, text_order, text_order_exec, value_order, value_order_exec, values_equal,
};
use crate::number::{
    float_json_text, float_literal_ok, float_literal_ok_exec, float_literal_overflows,
    float_literal_overflows_exec, float_number_text,
};
use crate::repair::{find_key, items_json, lemma_array_json, lemma_object_json, members_json, upsert};
use crate::text::{chars_of, contains_seq, contains_seq_exec, decimal, push_count, push_text, same_chars, string_of, trim, trim_chars};

verus! {

/// How a filter tests a field's value.
#[derive(Debug, Clone, Copy, PartialEq, Eq, Structural)]
pub enum Predicate {
    Eq,
    Ne,
    Gt,
    Lt,
    Ge,
    Le,
    Contains,
    Exists,
    NotExists,
}

/// How `map_field` rewrites a field's value.
#[derive(Debug, Clone, Copy, PartialEq, Eq, Structural)]
pub enum Transform {
    Lowercase,
    Uppercase,
    Trim,
    ToString,
    ToNumber,
}

/// The direction of `sort_by`.
#[derive(Debug, Clone, Copy, PartialEq, Eq, Structural)]
pub enum SortOrder {
    Asc,
    Desc,
}

/// One operation of a program.
#[derive(Debug)]
pub enum Op {
    SelectFields { fields: Vec<String> },
    DropFields { fields: Vec<String> },
    RenameField { from: String, to: String },
    SetField { field: String, value: JsonValue },
    Filter { field: String, predicate: Predicate, value: Option<JsonValue> },
    MapField { field: String, transform: Transform },
    SortBy { field: String, order: SortOrder },
    Limit { n: u64 },
    Reverse,
}

/// A transform program: its operations, in order.
#[derive(Debug)]
pub struct Program {
    pub ops: Vec<Op>,
}

/// The kind of a JSON value, as errors name it.
#[derive(Debug, Clone, Copy, PartialEq, Eq, Structural)]
pub enum Kind {
    Null,
    Boolean,
    Number,
    String,
    Array,
    Object,
}

/// Why a value could not be mapped.
#[derive(Debug)]
pub enum MapError {
    /// The transform needs a string.
    NotAString { transform: Transform, found: Kind },
    /// `to_number` needs a string or a number.
    NotNumeric { found: Kind },
    /// `to_number`: the string is no number.
    NotANumber { text: String },
    /// `to_number`: the string's number is not finite.
    NotFinite { text: String },
}

/// Why a program could not run.
#[derive(Debug)]
pub enum TransformError {
    /// The program has no operations.
    EmptyProgram,
    /// The input is not an array.
    NotAnArray,
    /// Record `index` is not an object.
    RecordNotObject { index: usize, found: Kind },
    /// `rename_field` from a field to itself.
    RenameToSelf { field: String },
    /// A comparing filter without a value to compare with.
    ComparandMissing { field: String, predicate: Predicate },
    /// An existence filter with a value to compare with.
    ComparandUnexpected { field: String, predicate: Predicate },
    /// `contains` on values it cannot relate.
    ContainsMismatch { field_kind: Kind, value_kind: Kind },
    /// An ordering comparison of values that are not two numbers or two
    /// strings.
    OrderingMismatch { field_kind: Kind, value_kind: Kind },
    /// Two numbers whose order cannot be told.
    NumbersNotComparable,
    /// `map_field` failed on record `record`.
    MapFailed { field: String, record: usize, cause: MapError },
}

/// The mathematical value of a [`MapError`].
pub enum MapFault {
    NotAString(Transform, Kind),
    NotNumeric(Kind),
    NotANumber(Seq<char>),
    NotFinite(Seq<char>),
}

/// The mathematical value of a [`TransformError`].
pub enum Fault {
    EmptyProgram,
    NotAnArray,
    RecordNotObject(int, Kind),
    RenameToSelf(Seq<char>),
    ComparandMissing(Seq<char>, Predicate),
    ComparandUnexpected(Seq<char>, Predicate),
    ContainsMismatch(Kind, Kind),
    OrderingMismatch(Kind, Kind),
    NumbersNotComparable,
    MapFailed(Seq<char>, int, MapFault),
}

impl MapError {
    pub open spec fn fault(&self) -> MapFault {
        match self {
            MapError::NotAString { transform, found } => MapFault::NotAString(*transform, *found),
            MapError::NotNumeric { found } => MapFault::NotNumeric(*found),
            MapError::NotANumber { text } => MapFault::NotANumber(text@),
            MapError::NotFinite { text } => MapFault::NotFinite(text@),
        }
    }
}

impl TransformError {
    pub open spec fn fault(&self) -> Fault {
        match self {
            TransformError::EmptyProgram => Fault::EmptyProgram,
            TransformError::NotAnArray => Fault::NotAnArray,
            TransformError::RecordNotObject { index, found } => Fault::RecordNotObject(*index as int, *found),
            TransformError::RenameToSelf { field } => Fault::RenameToSelf(field@),
            TransformError::ComparandMissing { field, predicate } => Fault::ComparandMissing(field@, *predicate),
            TransformError::ComparandUnexpected { field, predicate } => Fault::ComparandUnexpected(field@, *predicate),
            TransformError::ContainsMismatch { field_kind, value_kind } => Fault::ContainsMismatch(*field_kind, *value_kind),
            TransformError::OrderingMismatch { field_kind, value_kind } => Fault::OrderingMismatch(*field_kind, *value_kind),
            TransformError::NumbersNotComparable => Fault::NumbersNotComparable,
            TransformError::MapFailed { field, record, cause } => Fault::MapFailed(field@, *record as int, cause.fault()),
        }
    }
}

/// A record: its members, each key once.
pub type Row = Seq<(Seq<char>, Json)>;

/// The kind of a value.
pub open spec fn kind_of(j: Json) -> Kind {
    match j {
        Json::Null => Kind::Null,
        Json::Bool(_) => Kind::Boolean,
        Json::Number(_) => Kind::Number,
        Json::Str(_) => Kind::String,
        Json::Array(_) => Kind::Array,
        Json::Object(_) => Kind::Object,
    }
}

/// The value of field `f` of record `r`.
pub open spec fn field(r: Row, f: Seq<char>) -> Option<Json> {
    let i = find_key(r, f, 0);
    if 0 <= i < r.len() {
        Some(r[i].1)
    } else {
        None
    }
}

/// Record `r` without field `f`.
pub open spec fn without(r: Row, f: Seq<char>) -> Row {
    let i = find_key(r, f, 0);
    if 0 <= i < r.len() {
        r.remove(i)
    } else {
        r
    }
}

/// The fields of `r` named by the first `n` of `fields`, in that order.
pub open spec fn selected(r: Row, fields: Seq<Seq<char>>, n: int) -> Row
    decreases n,
{
    if n <= 0 || n > fields.len() {
        Seq::empty()
    } else {
        let acc = selected(r, fields, n - 1);
        match field(r, fields[n - 1]) {
            Some(v) => upsert(acc, fields[n - 1], v),
            None => acc,
        }
    }
}

/// `r` without the first `n` of `fields`.
pub open spec fn dropped(r: Row, fields: Seq<Seq<char>>, n: int) -> Row
    decreases n,
{
    if n <= 0 || n > fields.len() {
        r
    } else {
        without(dropped(r, fields, n - 1), fields[n - 1])
    }
}

/// `r` with field `from` renamed `to`.
pub open spec fn renamed(r: Row, from: Seq<char>, to: Seq<char>) -> Row {
    match field(r, from) {
        Some(v) => upsert(without(r, from), to, v),
        None => r,
    }
}

/// The names of `v`.
pub open spec fn names(v: Seq<String>) -> Seq<Seq<char>> {
    Seq::new(v.len(), |i: int| v[i]@)
}

/// Whether `needle` equals an item of `items` from `i` on.
pub open spec fn has_item(items: Seq<Json>, needle: Json, i: int) -> bool
    decreases items.len() - i,
{
    if i < 0 || i >= items.len() {
        false
    } else {
        json_eq(items[i], needle) || has_item(items, needle, i + 1)
    }
}

/// What comparing predicate `p` says of a field's value `v` against `c`.
pub open spec fn compared(v: Json, c: Json, p: Predicate) -> Result<bool, Fault> {
    match p {
        Predicate::Eq => Ok(json_eq(v, c)),
        Predicate::Ne => Ok(!json_eq(v, c)),
        Predicate::Contains => match (v, c) {
            (Json::Str(s), Json::Str(n)) => Ok(contains_seq(s, n)),
            (Json::Array(items), _) => Ok(has_item(items, c, 0)),
            _ => Err(Fault::ContainsMismatch(kind_of(v), kind_of(c))),
        },
        _ => {
            let ord: Result<int, Fault> = match (v, c) {
                (Json::Number(a), Json::Number(b)) => match number_order(a, b) {
                    Some(k) => Ok(k as int),
                    None => Err(Fault::NumbersNotComparable),
                },
                (Json::Str(a), Json::Str(b)) => Ok(text_order(a, b)),
                _ => Err(Fault::OrderingMismatch(kind_of(v), kind_of(c))),
            };
            match ord {
                Err(f) => Err(f),
                Ok(k) => Ok(
                    match p {
                        Predicate::Gt => k > 0,
                        Predicate::Lt => k < 0,
                        Predicate::Ge => k >= 0,
                        _ => k <= 0,
                    },
                ),
            }
        },
    }
}

/// Whether a filter keeps record `r`.
pub open spec fn keeps(r: Row, f: Seq<char>, p: Predicate, c: Json) -> Result<bool, Fault> {
    match p {
        Predicate::Exists => Ok(field(r, f) is Some),
        Predicate::NotExists => Ok(field(r, f) is None),
        _ => match field(r, f) {
            None => Ok(false),
            Some(v) => compared(v, c, p),
        },
    }
}

/// The first `n` records that a filter keeps.
pub open spec fn filtered(rows: Seq<Row>, f: Seq<char>, p: Predicate, c: Json, n: int) -> Result<Seq<Row>, Fault>
    decreases n,
{
    if n <= 0 || n > rows.len() {
        Ok(Seq::empty())
    } else {
        match filtered(rows, f, p, c, n - 1) {
            Err(e) => Err(e),
            Ok(kept) => match keeps(rows[n - 1], f, p, c) {
                Err(e) => Err(e),
                Ok(k) => Ok(if k { kept.push(rows[n - 1]) } else { kept }),
            },
        }
    }
}

/// Whether `t` is a float literal for an infinity or NaN: an optional sign,
/// then `inf`, `infinity` or `nan` in any case.
pub open spec fn special_float(t: Seq<char>) -> bool {
    let u = if t.len() > 0 && (t[0] == '+' || t[0] == '-') { t.drop_first() } else { t };
    ascii_lower(u) == seq!['i', 'n', 'f'] || ascii_lower(u) == seq!['i', 'n', 'f', 'i', 'n', 'i', 't', 'y']
        || ascii_lower(u) == seq!['n', 'a', 'n']
}

/// `s` with ASCII capitals lowered.
pub open spec fn ascii_lower(s: Seq<char>) -> Seq<char> {
    Seq::new(s.len(), |i: int| if 'A' <= s[i] <= 'Z' { ((s[i] as u32) + 32) as char } else { s[i] })
}

/// A name for what `str::to_lowercase` gives.
pub uninterp spec fn lowercase(s: Seq<char>) -> Seq<char>;

/// A name for what `str::to_uppercase` gives.
pub uninterp spec fn uppercase(s: Seq<char>) -> Seq<char>;

/// What transform `t` makes of a value.
pub open spec fn transformed(v: Json, t: Transform) -> Result<Json, MapFault> {
    match t {
        Transform::Lowercase => match v {
            Json::Str(s) => Ok(Json::Str(lowercase(s))),
            _ => Err(MapFault::NotAString(t, kind_of(v))),
        },
        Transform::Uppercase => match v {
            Json::Str(s) => Ok(Json::Str(uppercase(s))),
            _ => Err(MapFault::NotAString(t, kind_of(v))),
        },
        Transform::Trim => match v {
            Json::Str(s) => Ok(Json::Str(trim(s))),
            _ => Err(MapFault::NotAString(t, kind_of(v))),
        },
        Transform::ToString => match v {
            Json::Str(_) => Ok(v),
            Json::Null => Ok(Json::Str(seq!['n', 'u', 'l', 'l'])),
            Json::Bool(b) => Ok(Json::Str(if b { seq!['t', 'r', 'u', 'e'] } else { seq!['f', 'a', 'l', 's', 'e'] })),
            Json::Number(n) => Ok(Json::Str(number_display(n))),
            _ => Ok(Json::Str(json_text(v))),
        },
        Transform::ToNumber => match v {
            Json::Number(_) => Ok(v),
            Json::Str(s) => {
                let t = trim(s);
                if float_literal_ok(t) {
                    if float_literal_overflows(t) {
                        Err(MapFault::NotFinite(s))
                    } else {
                        Ok(Json::Number(float_number_text(t)))
                    }
                } else if special_float(t) {
                    Err(MapFault::NotFinite(s))
                } else {
                    Err(MapFault::NotANumber(s))
                }
            },
            _ => Err(MapFault::NotNumeric(kind_of(v))),
        },
    }
}

/// The first `n` records with field `f` mapped by `t`.
pub open spec fn mapped(rows: Seq<Row>, f: Seq<char>, t: Transform, n: int) -> Result<Seq<Row>, Fault>
    decreases n,
{
    if n <= 0 || n > rows.len() {
        Ok(Seq::empty())
    } else {
        match mapped(rows, f, t, n - 1) {
            Err(e) => Err(e),
            Ok(done) => {
                let r = rows[n - 1];
                match field(r, f) {
                    None => Ok(done.push(r)),
                    Some(v) => match transformed(v, t) {
                        Err(e) => Err(Fault::MapFailed(f, n - 1, e)),
                        Ok(m) => Ok(done.push(upsert(r, f, m))),
                    },
                }
            },
        }
    }
}

/// Where record `a` stands against `b` when sorting by field `f` in `order`.
pub open spec fn row_order(a: Row, b: Row, f: Seq<char>, order: SortOrder) -> int {
    let k = value_order(field(a, f), field(b, f));
    match order {
        SortOrder::Asc => k,
        SortOrder::Desc => -k,
    }
}

/// `sorted` (already in order) with `r` put after every record that does
/// not come after it.
pub open spec fn insert_row(sorted: Seq<Row>, r: Row, f: Seq<char>, order: SortOrder) -> Seq<Row>
    decreases sorted.len(),
{
    if sorted.len() == 0 {
        seq![r]
    } else if row_order(r, sorted.last(), f, order) < 0 {
        insert_row(sorted.drop_last(), r, f, order).push(sorted.last())
    } else {
        sorted.push(r)
    }
}

/// The first `n` records, stably sorted by field `f` in `order`.
pub open spec fn sorted_rows(rows: Seq<Row>, f: Seq<char>, order: SortOrder, n: int) -> Seq<Row>
    decreases n,
{
    if n <= 0 || n > rows.len() {
        Seq::empty()
    } else {
        insert_row(sorted_rows(rows, f, order, n - 1), rows[n - 1], f, order)
    }
}

/// What operation `op` makes of the records `rows`.
pub open spec fn op_result(op: Op, rows: Seq<Row>) -> Result<Seq<Row>, Fault> {
    match op {
        Op::SelectFields { fields } => Ok(
            Seq::new(rows.len(), |i: int| selected(rows[i], names(fields@), fields@.len() as int)),
        ),
        Op::DropFields { fields } => Ok(Seq::new(rows.len(), |i: int| dropped(rows[i], names(fields@), fields@.len() as int))),
        Op::RenameField { from, to } => if from@ == to@ {
            Err(Fault::RenameToSelf(from@))
        } else {
            Ok(Seq::new(rows.len(), |i: int| renamed(rows[i], from@, to@)))
        },
        Op::SetField { field, value } => Ok(Seq::new(rows.len(), |i: int| upsert(rows[i], field@, value.json()))),
        Op::Filter { field, predicate, value } => {
            let needs = !(predicate == Predicate::Exists || predicate == Predicate::NotExists);
            match value {
                None => if needs {
                    Err(Fault::ComparandMissing(field@, predicate))
                } else {
                    filtered(rows, field@, predicate, Json::Null, rows.len() as int)
                },
                Some(c) => if !needs {
                    Err(Fault::ComparandUnexpected(field@, predicate))
                } else {
                    filtered(rows, field@, predicate, c.json(), rows.len() as int)
                },
            }
        },
        Op::MapField { field, transform } => mapped(rows, field@, transform, rows.len() as int),
        Op::SortBy { field, order } => Ok(sorted_rows(rows, field@, order, rows.len() as int)),
        Op::Limit { n } => Ok(if n >= rows.len() { rows } else { rows.take(n as int) }),
        Op::Reverse => Ok(rows.reverse()),
    }
}

/// What the first `n` operations of `ops` make of `rows`.
pub open spec fn ops_result(ops: Seq<Op>, rows: Seq<Row>, n: int) -> Result<Seq<Row>, Fault>
    decreases n,
{
    if n <= 0 || n > ops.len() {
        Ok(rows)
    } else {
        match ops_result(ops, rows, n - 1) {
            Err(e) => Err(e),
            Ok(r) => op_result(ops[n - 1], r),
        }
    }
}

/// Index of the first item from `i` on that is not an object, or -1.
pub open spec fn first_non_object(items: Seq<Json>, i: int) -> int
    decreases items.len() - i,
{
    if i < 0 || i >= items.len() {
        -1
    } else if !(items[i] is Object) {
        i
    } else {
        first_non_object(items, i + 1)
    }
}

/// The records of an input value: its items, each an object; or why not.
pub open spec fn records_of(data: Json) -> Result<Seq<Row>, Fault> {
    match data {
        Json::Array(items) => {
            let i = first_non_object(items, 0);
            if 0 <= i < items.len() {
                Err(Fault::RecordNotObject(i, kind_of(items[i])))
            } else {
                Ok(Seq::new(items.len(), |i: int| items[i]->Object_0))
            }
        },
        _ => Err(Fault::NotAnArray),
    }
}

/// What running `program` on `data` gives.
pub open spec fn program_result(program: Program, data: Json) -> Result<Json, Fault> {
    match records_of(data) {
        Err(e) => Err(e),
        Ok(rows) => match ops_result(program.ops@, rows, program.ops@.len() as int) {
            Err(e) => Err(e),
            Ok(out) => Ok(Json::Array(Seq::new(out.len(), |i: int| Json::Object(out[i])))),
        },
    }
}


// ---------------------------------------------------------------------------
// Running a program
// ---------------------------------------------------------------------------

/// `str::to_lowercase`. The result is named, not stated.
#[verifier::external_body]
fn lowercase_text(s: &str) -> (r: String)
    ensures
        r@ == lowercase(s@),
{
    s.to_lowercase()
}

/// `str::to_uppercase`. The result is named, not stated.
#[verifier::external_body]
fn uppercase_text(s: &str) -> (r: String)
    ensures
        r@ == uppercase(s@),
{
    s.to_uppercase()
}

/// The records of `v`.
pub open spec fn rows_json(v: Seq<Vec<(String, JsonValue)>>) -> Seq<Row> {
    Seq::new(v.len(), |i: int| members_json(v[i]@))
}

/// A copy of `v`.
pub fn copy_value(v: &JsonValue) -> (r: JsonValue)
    ensures
        r.json() == v.json(),
    decreases v, 0int,
{
    match v {
        JsonValue::Null => JsonValue::Null,
        JsonValue::Bool(b) => JsonValue::Bool(*b),
        JsonValue::Number(n) => JsonValue::Number(n.clone()),
        JsonValue::String(t) => JsonValue::String(t.clone()),
        JsonValue::Array(xs) => {
            let mut out: Vec<JsonValue> = Vec::new();
            copy_items(xs, 0, &mut out);
            proof {
                lemma_array_json(*xs);
                lemma_array_json(out);
                assert(items_json(out@) =~= items_json(xs@));
            }
            JsonValue::Array(out)
        },
        JsonValue::Object(es) => {
            let mut out: Vec<(String, JsonValue)> = Vec::new();
            copy_members(es, 0, &mut out);
            proof {
                lemma_object_json(*es);
                lemma_object_json(out);
                assert(members_json(out@) =~= members_json(es@));
            }
            JsonValue::Object(out)
        },
    }
}

fn copy_items(xs: &Vec<JsonValue>, i: usize, out: &mut Vec<JsonValue>)
    requires
        i <= xs@.len(),
        old(out)@.len() == i,
        forall|k: int| 0 <= k < i ==> #[trigger] old(out)@[k].json() == xs@[k].json(),
    ensures
        final(out)@.len() == xs@.len(),
        forall|k: int| 0 <= k < xs@.len() ==> #[trigger] final(out)@[k].json() == xs@[k].json(),
    decreases xs, xs@.len() - i,
{
    if i < xs.len() {
        out.push(copy_value(&xs[i]));
        copy_items(xs, i + 1, out);
    }
}

fn copy_members(es: &Vec<(String, JsonValue)>, i: usize, out: &mut Vec<(String, JsonValue)>)
    requires
        i <= es@.len(),
        old(out)@.len() == i,
        forall|k: int| 0 <= k < i ==> (#[trigger] old(out)@[k]).0@ == es@[k].0@ && old(out)@[k].1.json() == es@[k].1.json(),
    ensures
        final(out)@.len() == es@.len(),
        forall|k: int| 0 <= k < es@.len() ==> (#[trigger] final(out)@[k]).0@ == es@[k].0@ && final(out)@[k].1.json() == es@[k].1.json(),
    decreases es, es@.len() - i,
{
    if i < es.len() {
        out.push((es[i].0.clone(), copy_value(&es[i].1)));
        copy_members(es, i + 1, out);
    }
}

/// The value of field `f` of `row`.
pub(crate) fn row_get<'a>(row: &'a Vec<(String, JsonValue)>, f: &Vec<char>) -> (r: Option<&'a JsonValue>)
    ensures
        match field(members_json(row@), f@) {
            Some(v) => r matches Some(x) && x.json() == v,
            None => r is None,
        },
{
    match find_member(row, f) {
        Some(i) => Some(&row[i].1),
        None => None,
    }
}

/// Removes field `f` from `row`, giving its value.
fn row_remove(row: &mut Vec<(String, JsonValue)>, f: &Vec<char>) -> (r: Option<JsonValue>)
    ensures
        members_json(final(row)@) == without(members_json(old(row)@), f@),
        match field(members_json(old(row)@), f@) {
            Some(v) => r matches Some(x) && x.json() == v,
            None => r is None,
        },
{
    match find_member(row, f) {
        Some(i) => {
            let ghost es = members_json(row@);
            let (_, v) = row.remove(i);
            proof {
                assert(members_json(row@) =~= es.remove(i as int));
            }
            Some(v)
        },
        None => None,
    }
}

/// Sets field `f` of `row` to `v`.
pub(crate) fn row_insert(row: &mut Vec<(String, JsonValue)>, f: &Vec<char>, v: JsonValue)
    ensures
        members_json(final(row)@) == upsert(members_json(old(row)@), f@, v.json()),
{
    let ghost es = members_json(row@);
    let ghost j = v.json();
    match find_member(row, f) {
        Some(i) => {
            row[i] = (string_of(f), v);
            proof {
                assert(members_json(row@) =~= es.update(i as int, (f@, j)));
            }
        },
        None => {
            row.push((string_of(f), v));
            proof {
                assert(members_json(row@) =~= es.push((f@, j)));
            }
        },
    }
}

/// The names in `fields`, as characters.
fn names_of(fields: &Vec<String>) -> (r: Vec<Vec<char>>)
    ensures
        r@.len() == fields@.len(),
        forall|i: int| 0 <= i < r@.len() ==> #[trigger] r@[i]@ == fields@[i]@,
{
    let mut r: Vec<Vec<char>> = Vec::new();
    let mut i: usize = 0;
    while i < fields.len()
        invariant
            i <= fields@.len(),
            r@.len() == i,
            forall|k: int| 0 <= k < i ==> #[trigger] r@[k]@ == fields@[k]@,
        decreases fields@.len() - i,
    {
        r.push(chars_of(fields[i].as_str()));
        i = i + 1;
    }
    r
}

fn row_select(row: &Vec<(String, JsonValue)>, fields: &Vec<Vec<char>>, ghost_names: Ghost<Seq<Seq<char>>>) -> (r: Vec<(String, JsonValue)>)
    requires
        ghost_names@.len() == fields@.len(),
        forall|i: int| 0 <= i < fields@.len() ==> #[trigger] fields@[i]@ == ghost_names@[i],
    ensures
        members_json(r@) == selected(members_json(row@), ghost_names@, fields@.len() as int),
{
    let mut out: Vec<(String, JsonValue)> = Vec::new();
    let mut i: usize = 0;
    proof {
        assert(members_json(out@) =~= Seq::empty());
    }
    while i < fields.len()
        invariant
            i <= fields@.len(),
            ghost_names@.len() == fields@.len(),
            forall|k: int| 0 <= k < fields@.len() ==> #[trigger] fields@[k]@ == ghost_names@[k],
            members_json(out@) == selected(members_json(row@), ghost_names@, i as int),
        decreases fields@.len() - i,
    {
        match row_get(row, &fields[i]) {
            Some(v) => {
                let c = copy_value(v);
                row_insert(&mut out, &fields[i], c);
            },
            None => {},
        }
        i = i + 1;
    }
    out
}

fn row_drop(row: &mut Vec<(String, JsonValue)>, fields: &Vec<Vec<char>>, ghost_names: Ghost<Seq<Seq<char>>>)
    requires
        ghost_names@.len() == fields@.len(),
        forall|i: int| 0 <= i < fields@.len() ==> #[trigger] fields@[i]@ == ghost_names@[i],
    ensures
        members_json(final(row)@) == dropped(members_json(old(row)@), ghost_names@, fields@.len() as int),
{
    let mut i: usize = 0;
    while i < fields.len()
        invariant
            i <= fields@.len(),
            ghost_names@.len() == fields@.len(),
            forall|k: int| 0 <= k < fields@.len() ==> #[trigger] fields@[k]@ == ghost_names@[k],
            members_json(row@) == dropped(members_json(old(row)@), ghost_names@, i as int),
        decreases fields@.len() - i,
    {
        let _ = row_remove(row, &fields[i]);
        i = i + 1;
    }
}

/// `v`, last first.
fn reversed<T>(v: Vec<T>) -> (r: Vec<T>)
    ensures
        r@ == v@.reverse(),
{
    let mut v = v;
    let ghost orig = v@;
    let mut r: Vec<T> = Vec::new();
    while v.len() > 0
        invariant
            v@.len() + r@.len() == orig.len(),
            v@ == orig.take(v@.len() as int),
            r@ == orig.skip(v@.len() as int).reverse(),
        decreases v@.len(),
    {
        let ghost n = v@.len();
        let x = v.pop().unwrap();
        r.push(x);
        proof {
            assert(orig.skip(n - 1) == seq![orig[n - 1]] + orig.skip(n as int));
            assert(r@ =~= orig.skip(n - 1).reverse());
        }
    }
    assert(orig.skip(0) == orig);
    r
}

fn kind_exec(v: &JsonValue) -> (k: Kind)
    ensures
        k == kind_of(v.json()),
{
    match v {
        JsonValue::Null => Kind::Null,
        JsonValue::Bool(_) => Kind::Boolean,
        JsonValue::Number(_) => Kind::Number,
        JsonValue::String(_) => Kind::String,
        JsonValue::Array(_) => Kind::Array,
        JsonValue::Object(_) => Kind::Object,
    }
}

fn has_item_exec(items: &Vec<JsonValue>, needle: &JsonValue) -> (r: bool)
    ensures
        r == has_item(items_json(items@), needle.json(), 0),
{
    let mut i: usize = 0;
    while i < items.len()
        invariant
            i <= items@.len(),
            has_item(items_json(items@), needle.json(), 0) == has_item(items_json(items@), needle.json(), i as int),
        decreases items@.len() - i,
    {
        if values_equal(&items[i], needle) {
            return true;
        }
        i = i + 1;
    }
    false
}

/// What comparing predicate `p` says of `v` against `c`.
pub fn compare_values(v: &JsonValue, c: &JsonValue, p: Predicate) -> (r: Result<bool, TransformError>)
    ensures
        match compared(v.json(), c.json(), p) {
            Ok(b) => r matches Ok(x) && x == b,
            Err(f) => r matches Err(e) && e.fault() == f,
        },
{
    match p {
        Predicate::Eq => Ok(values_equal(v, c)),
        Predicate::Ne => Ok(!values_equal(v, c)),
        Predicate::Contains => match (v, c) {
            (JsonValue::String(s), JsonValue::String(n)) => Ok(contains_seq_exec(&chars_of(s.as_str()), &chars_of(n.as_str()))),
            (JsonValue::Array(items), _) => {
                proof {
                    lemma_array_json(*items);
                }
                Ok(has_item_exec(items, c))
            },
            _ => Err(TransformError::ContainsMismatch { field_kind: kind_exec(v), value_kind: kind_exec(c) }),
        },
        _ => {
            let k: i8 = match (v, c) {
                (JsonValue::Number(a), JsonValue::Number(b)) => match crate::json_ops::numbers_compare(a.as_str(), b.as_str()) {
                    Some(k) => k,
                    None => {
                        return Err(TransformError::NumbersNotComparable);
                    },
                },
                (JsonValue::String(a), JsonValue::String(b)) => text_order_exec(&chars_of(a.as_str()), &chars_of(b.as_str())),
                _ => {
                    return Err(TransformError::OrderingMismatch { field_kind: kind_exec(v), value_kind: kind_exec(c) });
                },
            };
            Ok(
                match p {
                    Predicate::Gt => k > 0,
                    Predicate::Lt => k < 0,
                    Predicate::Ge => k >= 0,
                    _ => k <= 0,
                },
            )
        },
    }
}

/// Whether `t` is a float literal for an infinity or NaN.
fn special_float_exec(t: &Vec<char>) -> (r: bool)
    ensures
        r == special_float(t@),
{
    let start: usize = if t.len() > 0 && (t[0] == '+' || t[0] == '-') { 1 } else { 0 };
    let mut u: Vec<char> = Vec::new();
    let mut i = start;
    let ghost tu = if t@.len() > 0 && (t@[0] == '+' || t@[0] == '-') { t@.drop_first() } else { t@ };
    assert(tu =~= t@.skip(start as int));
    while i < t.len()
        invariant
            start <= i <= t@.len(),
            tu == t@.skip(start as int),
            u@ =~= ascii_lower(tu).take(i - start),
        decreases t@.len() - i,
    {
        let c = t[i];
        let l = if 'A' <= c && c <= 'Z' { ((c as u32 + 32) as u8) as char } else { c };
        proof {
            if 'A' <= c && c <= 'Z' {
                assert(((c as u32 + 32) as u8) as char == ((c as u32) + 32) as char);
            }
        }
        u.push(l);
        i = i + 1;
    }
    assert(ascii_lower(tu).take(tu.len() as int) =~= ascii_lower(tu));
    proof {
        reveal_strlit("inf");
        reveal_strlit("infinity");
        reveal_strlit("nan");
    }
    let inf = chars_of("inf");
    let infinity = chars_of("infinity");
    let nan = chars_of("nan");
    proof {
        assert(inf@ =~= seq!['i', 'n', 'f']);
        assert(infinity@ =~= seq!['i', 'n', 'f', 'i', 'n', 'i', 't', 'y']);
        assert(nan@ =~= seq!['n', 'a', 'n']);
    }
    same_chars(&u, &inf) || same_chars(&u, &infinity) || same_chars(&u, &nan)
}

/// What transform `t` makes of `v`.
pub fn transform_value(v: &JsonValue, t: Transform) -> (r: Result<JsonValue, MapError>)
    ensures
        match transformed(v.json(), t) {
            Ok(m) => r matches Ok(x) && x.json() == m,
            Err(f) => r matches Err(e) && e.fault() == f,
        },
{
    match t {
        Transform::Lowercase => match v {
            JsonValue::String(s) => Ok(JsonValue::String(lowercase_text(s.as_str()))),
            _ => Err(MapError::NotAString { transform: t, found: kind_exec(v) }),
        },
        Transform::Uppercase => match v {
            JsonValue::String(s) => Ok(JsonValue::String(uppercase_text(s.as_str()))),
            _ => Err(MapError::NotAString { transform: t, found: kind_exec(v) }),
        },
        Transform::Trim => match v {
            JsonValue::String(s) => Ok(JsonValue::String(string_of(&trim_chars(&chars_of(s.as_str()))))),
            _ => Err(MapError::NotAString { transform: t, found: kind_exec(v) }),
        },
        Transform::ToString => match v {
            JsonValue::String(s) => Ok(JsonValue::String(s.clone())),
            JsonValue::Null => {
                proof {
                    reveal_strlit("null");
                    assert("null"@ =~= seq!['n', 'u', 'l', 'l']);
                }
                Ok(JsonValue::String(string_of(&chars_of("null"))))
            },
            JsonValue::Bool(b) => {
                proof {
                    reveal_strlit("true");
                    reveal_strlit("false");
                    assert("true"@ =~= seq!['t', 'r', 'u', 'e']);
                    assert("false"@ =~= seq!['f', 'a', 'l', 's', 'e']);
                }
                if *b {
                    Ok(JsonValue::String(string_of(&chars_of("true"))))
                } else {
                    Ok(JsonValue::String(string_of(&chars_of("false"))))
                }
            },
            JsonValue::Number(n) => Ok(JsonValue::String(number_to_text(n.as_str()))),
            _ => Ok(JsonValue::String(json_to_text(v))),
        },
        Transform::ToNumber => match v {
            JsonValue::Number(n) => Ok(JsonValue::Number(n.clone())),
            JsonValue::String(s) => {
                let tt = trim_chars(&chars_of(s.as_str()));
                if float_literal_ok_exec(&tt) {
                    if float_literal_overflows_exec(&tt) {
                        Err(MapError::NotFinite { text: s.clone() })
                    } else {
                        let lit = string_of(&tt);
                        Ok(JsonValue::Number(float_json_text(lit.as_str())))
                    }
                } else if special_float_exec(&tt) {
                    Err(MapError::NotFinite { text: s.clone() })
                } else {
                    Err(MapError::NotANumber { text: s.clone() })
                }
            },
            _ => Err(MapError::NotNumeric { found: kind_exec(v) }),
        },
    }
}


proof fn lemma_filtered_stays(rows: Seq<Row>, f: Seq<char>, p: Predicate, c: Json, k: int, m: int)
    requires
        0 <= k <= m <= rows.len(),
        filtered(rows, f, p, c, k) is Err,
    ensures
        filtered(rows, f, p, c, m) == filtered(rows, f, p, c, k),
    decreases m - k,
{
    if m > k {
        lemma_filtered_stays(rows, f, p, c, k, m - 1);
    }
}

proof fn lemma_mapped_stays(rows: Seq<Row>, f: Seq<char>, t: Transform, k: int, m: int)
    requires
        0 <= k <= m <= rows.len(),
        mapped(rows, f, t, k) is Err,
    ensures
        mapped(rows, f, t, m) == mapped(rows, f, t, k),
    decreases m - k,
{
    if m > k {
        lemma_mapped_stays(rows, f, t, k, m - 1);
    }
}

proof fn lemma_ops_stays(ops: Seq<Op>, rows: Seq<Row>, k: int, m: int)
    requires
        0 <= k <= m <= ops.len(),
        ops_result(ops, rows, k) is Err,
    ensures
        ops_result(ops, rows, m) == ops_result(ops, rows, k),
    decreases m - k,
{
    if m > k {
        lemma_ops_stays(ops, rows, k, m - 1);
    }
}

proof fn lemma_next<T>(s: Seq<T>, n: int)
    requires
        0 <= n < s.len(),
    ensures
        s.skip(n).reverse().len() == s.len() - n,
        s.skip(n).reverse().last() == s[n],
        s.skip(n).reverse().drop_last() =~= s.skip(n + 1).reverse(),
{
    let t = s.skip(n);
    assert(t.reverse().last() == t[0]);
    if s.skip(n + 1).len() == 0 {
        assert(t.reverse().drop_last() =~= Seq::<T>::empty());
    }
}

proof fn lemma_rows_reverse(v: Seq<Vec<(String, JsonValue)>>)
    ensures
        rows_json(v.reverse()) =~= rows_json(v).reverse(),
{
}

/// Where `a` stands against `b` when sorting by field `f` in `order`.
fn row_order_exec(a: &Vec<(String, JsonValue)>, b: &Vec<(String, JsonValue)>, f: &Vec<char>, order: SortOrder) -> (r: i8)
    ensures
        r == row_order(members_json(a@), members_json(b@), f@, order),
{
    let x = row_get(a, f);
    let y = row_get(b, f);
    let k = value_order_exec(x, y);
    proof {
        assert(field(members_json(a@), f@) == match x {
            Some(v) => Some(v.json()),
            None => None,
        });
        assert(field(members_json(b@), f@) == match y {
            Some(v) => Some(v.json()),
            None => None,
        });
        assert(k == value_order(field(members_json(a@), f@), field(members_json(b@), f@)));
    }
    match order {
        SortOrder::Asc => k,
        SortOrder::Desc => if k < 0 { 1 } else if k > 0 { -1 } else { 0 },
    }
}

/// Puts `row` into `out` (in order) after every record that does not come
/// after it.
fn insert_sorted(out: &mut Vec<Vec<(String, JsonValue)>>, row: Vec<(String, JsonValue)>, f: &Vec<char>, order: SortOrder)
    ensures
        rows_json(final(out)@) == insert_row(rows_json(old(out)@), members_json(row@), f@, order),
{
    let ghost sorted = rows_json(out@);
    let ghost x = members_json(row@);
    let mut j = out.len();
    assert(sorted.take(j as int) =~= sorted);
    assert(sorted.skip(j as int) =~= Seq::<Row>::empty());
    while j > 0 && row_order_exec(&row, &out[j - 1], f, order) < 0
        invariant
            j <= out@.len(),
            sorted == rows_json(out@),
            x == members_json(row@),
            insert_row(sorted, x, f@, order) == insert_row(sorted.take(j as int), x, f@, order) + sorted.skip(j as int),
        decreases j,
    {
        proof {
            let t = sorted.take(j as int);
            assert(t.drop_last() == sorted.take(j - 1));
            assert(t.last() == sorted[j - 1]);
            assert(sorted.skip(j - 1) == seq![sorted[j - 1]] + sorted.skip(j as int));
        }
        j = j - 1;
    }
    proof {
        let t = sorted.take(j as int);
        assert(insert_row(t, x, f@, order) == t.push(x));
    }
    out.insert(j, row);
    proof {
        assert(rows_json(out@) =~= sorted.take(j as int).push(x) + sorted.skip(j as int));
    }
}

/// The records, stably sorted by field `f` in `order`.
fn sort_rows(rows: Vec<Vec<(String, JsonValue)>>, f: &Vec<char>, order: SortOrder) -> (r: Vec<Vec<(String, JsonValue)>>)
    ensures
        rows_json(r@) == sorted_rows(rows_json(rows@), f@, order, rows@.len() as int),
{
    let ghost orig = rows_json(rows@);
    let ghost rv = rows@;
    let total = rows.len();
    assert(rv.len() == total);
    let mut src = reversed(rows);
    let mut out: Vec<Vec<(String, JsonValue)>> = Vec::new();
    let mut done: usize = 0;
    assert(rv.skip(0) =~= rv);
    while src.len() > 0
        invariant
            done <= rv.len() == total,
            src@.len() + done == rv.len(),
            rv == rows@,
            orig == rows_json(rv),
            src@ == rv.skip(done as int).reverse(),
            rows_json(out@) == sorted_rows(orig, f@, order, done as int),
        decreases src@.len(),
    {
        proof {
            lemma_next(rv, done as int);
        }
        let row = src.pop().unwrap();
        assert(members_json(row@) == orig[done as int]);
        insert_sorted(&mut out, row, f, order);
        done = done + 1;
    }
    assert(rv.skip(done as int).len() == 0);
    out
}

/// The records a filter keeps.
fn filter_rows(
    rows: Vec<Vec<(String, JsonValue)>>,
    f: &Vec<char>,
    p: Predicate,
    c: &JsonValue,
) -> (r: Result<Vec<Vec<(String, JsonValue)>>, TransformError>)
    ensures
        match filtered(rows_json(rows@), f@, p, c.json(), rows@.len() as int) {
            Ok(out) => r matches Ok(x) && rows_json(x@) == out,
            Err(e) => r matches Err(x) && x.fault() == e,
        },
{
    let ghost orig = rows_json(rows@);
    let ghost rv = rows@;
    let total = rows.len();
    assert(rv.len() == total);
    let mut src = reversed(rows);
    let mut out: Vec<Vec<(String, JsonValue)>> = Vec::new();
    let mut done: usize = 0;
    assert(rv.skip(0) =~= rv);
    assert(rows_json(out@) =~= Seq::<Row>::empty());
    while src.len() > 0
        invariant
            done <= rv.len() == total,
            src@.len() + done == rv.len(),
            rv == rows@,
            orig == rows_json(rv),
            src@ == rv.skip(done as int).reverse(),
            filtered(orig, f@, p, c.json(), done as int) == Ok::<Seq<Row>, Fault>(rows_json(out@)),
        decreases src@.len(),
    {
        proof {
            lemma_next(rv, done as int);
        }
        let row = src.pop().unwrap();
        let ghost x = members_json(row@);
        assert(x == orig[done as int]);
        let keep = match p {
            Predicate::Exists => row_get(&row, f).is_some(),
            Predicate::NotExists => row_get(&row, f).is_none(),
            _ => match row_get(&row, f) {
                None => false,
                Some(v) => match compare_values(v, c, p) {
                    Ok(b) => b,
                    Err(e) => {
                        proof {
                            assert(keeps(x, f@, p, c.json()) == Err::<bool, Fault>(e.fault()));
                            assert(filtered(orig, f@, p, c.json(), done + 1) == Err::<Seq<Row>, Fault>(e.fault()));
                            lemma_filtered_stays(orig, f@, p, c.json(), done + 1, rv.len() as int);
                        }
                        return Err(e);
                    },
                },
            },
        };
        let ghost before = rows_json(out@);
        if keep {
            out.push(row);
            proof {
                assert(rows_json(out@) =~= before.push(x));
            }
        }
        done = done + 1;
    }
    assert(rv.skip(done as int).len() == 0);
    Ok(out)
}

/// The records with field `f` mapped by `t`.
fn map_rows(rows: Vec<Vec<(String, JsonValue)>>, f: &Vec<char>, t: Transform) -> (r: Result<Vec<Vec<(String, JsonValue)>>, TransformError>)
    ensures
        match mapped(rows_json(rows@), f@, t, rows@.len() as int) {
            Ok(out) => r matches Ok(x) && rows_json(x@) == out,
            Err(e) => r matches Err(x) && x.fault() == e,
        },
{
    let ghost orig = rows_json(rows@);
    let ghost rv = rows@;
    let total = rows.len();
    assert(rv.len() == total);
    let mut src = reversed(rows);
    let mut out: Vec<Vec<(String, JsonValue)>> = Vec::new();
    let mut done: usize = 0;
    assert(rv.skip(0) =~= rv);
    assert(rows_json(out@) =~= Seq::<Row>::empty());
    while src.len() > 0
        invariant
            done <= rv.len() == total,
            src@.len() + done == rv.len(),
            rv == rows@,
            orig == rows_json(rv),
            src@ == rv.skip(done as int).reverse(),
            mapped(orig, f@, t, done as int) == Ok::<Seq<Row>, Fault>(rows_json(out@)),
        decreases src@.len(),
    {
        proof {
            lemma_next(rv, done as int);
        }
        let mut row = src.pop().unwrap();
        let ghost x = members_json(row@);
        assert(x == orig[done as int]);
        let m = match row_get(&row, f) {
            None => None,
            Some(v) => match transform_value(v, t) {
                Ok(m) => Some(m),
                Err(cause) => {
                    proof {
                        assert(transformed(v.json(), t) == Err::<Json, MapFault>(cause.fault()));
                        assert(mapped(orig, f@, t, done + 1) == Err::<Seq<Row>, Fault>(Fault::MapFailed(f@, done as int, cause.fault())));
                        lemma_mapped_stays(orig, f@, t, done + 1, rv.len() as int);
                    }
                    return Err(TransformError::MapFailed { field: string_of(f), record: done, cause });
                },
            },
        };
        match m {
            Some(m) => row_insert(&mut row, f, m),
            None => {},
        }
        let ghost before = rows_json(out@);
        out.push(row);
        proof {
            assert(rows_json(out@) =~= before.push(members_json(row@)));
        }
        done = done + 1;
    }
    assert(rv.skip(done as int).len() == 0);
    Ok(out)
}

/// What operation `op` makes of `rows`.
pub fn apply_op(op: &Op, rows: Vec<Vec<(String, JsonValue)>>) -> (r: Result<Vec<Vec<(String, JsonValue)>>, TransformError>)
    ensures
        match op_result(*op, rows_json(rows@)) {
            Ok(out) => r matches Ok(x) && rows_json(x@) == out,
            Err(e) => r matches Err(x) && x.fault() == e,
        },
{
    let ghost orig = rows_json(rows@);
    let ghost rv = rows@;
    match op {
        Op::SelectFields { fields } | Op::DropFields { fields } => {
            let select = match op {
                Op::SelectFields { .. } => true,
                _ => false,
            };
            let ns = names_of(fields);
            let ghost gn = names(fields@);
            assert forall|i: int| 0 <= i < ns@.len() implies #[trigger] ns@[i]@ == gn[i] by {}
            let mut src = reversed(rows);
            let mut out: Vec<Vec<(String, JsonValue)>> = Vec::new();
            assert(rv.skip(0) =~= rv);
            while src.len() > 0
                invariant
                    out@.len() <= rv.len(),
                    src@.len() + out@.len() == rv.len(),
                    orig == rows_json(rv),
                    src@ == rv.skip(out@.len() as int).reverse(),
                    gn == names(fields@),
                    ns@.len() == fields@.len(),
                    forall|i: int| 0 <= i < ns@.len() ==> #[trigger] ns@[i]@ == gn[i],
                    select ==> rows_json(out@) =~= Seq::new(
                        out@.len(),
                        |k: int| selected(orig[k], gn, fields@.len() as int),
                    ),
                    !select ==> rows_json(out@) =~= Seq::new(
                        out@.len(),
                        |k: int| dropped(orig[k], gn, fields@.len() as int),
                    ),
                decreases src@.len(),
            {
                let ghost n = out@.len();
                proof {
                    lemma_next(rv, n as int);
                }
                let mut row = src.pop().unwrap();
                let ghost x = members_json(row@);
                assert(x == orig[n as int]);
                let ghost before = rows_json(out@);
                if select {
                    let picked = row_select(&row, &ns, Ghost(gn));
                    out.push(picked);
                    proof {
                        assert(rows_json(out@) =~= before.push(selected(x, gn, fields@.len() as int)));
                    }
                } else {
                    row_drop(&mut row, &ns, Ghost(gn));
                    out.push(row);
                    proof {
                        assert(rows_json(out@) =~= before.push(dropped(x, gn, fields@.len() as int)));
                    }
                }
            }
            assert(rv.skip(out@.len() as int).len() == 0);
            Ok(out)
        },
        Op::RenameField { from, to } => {
            let fr = chars_of(from.as_str());
            let tv = chars_of(to.as_str());
            if same_chars(&fr, &tv) {
                return Err(TransformError::RenameToSelf { field: from.clone() });
            }
            let mut src = reversed(rows);
            let mut out: Vec<Vec<(String, JsonValue)>> = Vec::new();
            assert(rv.skip(0) =~= rv);
            while src.len() > 0
                invariant
                    out@.len() <= rv.len(),
                    src@.len() + out@.len() == rv.len(),
                    orig == rows_json(rv),
                    src@ == rv.skip(out@.len() as int).reverse(),
                    fr@ == from@,
                    tv@ == to@,
                    rows_json(out@) =~= Seq::new(out@.len(), |k: int| renamed(orig[k], from@, to@)),
                decreases src@.len(),
            {
                let ghost n = out@.len();
                proof {
                    lemma_next(rv, n as int);
                }
                let mut row = src.pop().unwrap();
                let ghost x = members_json(row@);
                assert(x == orig[n as int]);
                match row_remove(&mut row, &fr) {
                    Some(v) => row_insert(&mut row, &tv, v),
                    None => {},
                }
                let ghost before = rows_json(out@);
                out.push(row);
                proof {
                    assert(rows_json(out@) =~= before.push(renamed(x, from@, to@)));
                }
            }
            assert(rv.skip(out@.len() as int).len() == 0);
            Ok(out)
        },
        Op::SetField { field: fname, value } => {
            let fv = chars_of(fname.as_str());
            let mut src = reversed(rows);
            let mut out: Vec<Vec<(String, JsonValue)>> = Vec::new();
            assert(rv.skip(0) =~= rv);
            while src.len() > 0
                invariant
                    out@.len() <= rv.len(),
                    src@.len() + out@.len() == rv.len(),
                    orig == rows_json(rv),
                    src@ == rv.skip(out@.len() as int).reverse(),
                    fv@ == fname@,
                    rows_json(out@) =~= Seq::new(out@.len(), |k: int| upsert(orig[k], fname@, value.json())),
                decreases src@.len(),
            {
                let ghost n = out@.len();
                proof {
                    lemma_next(rv, n as int);
                }
                let mut row = src.pop().unwrap();
                let ghost x = members_json(row@);
                assert(x == orig[n as int]);
                row_insert(&mut row, &fv, copy_value(value));
                let ghost before = rows_json(out@);
                out.push(row);
                proof {
                    assert(rows_json(out@) =~= before.push(upsert(x, fname@, value.json())));
                }
            }
            assert(rv.skip(out@.len() as int).len() == 0);
            Ok(out)
        },
        Op::Filter { field: fname, predicate, value } => {
            let needs = !(*predicate == Predicate::Exists || *predicate == Predicate::NotExists);
            let fv = chars_of(fname.as_str());
            match value {
                None => {
                    if needs {
                        return Err(TransformError::ComparandMissing { field: fname.clone(), predicate: *predicate });
                    }
                    let null = JsonValue::Null;
                    filter_rows(rows, &fv, *predicate, &null)
                },
                Some(c) => {
                    if !needs {
                        return Err(TransformError::ComparandUnexpected { field: fname.clone(), predicate: *predicate });
                    }
                    filter_rows(rows, &fv, *predicate, c)
                },
            }
        },
        Op::MapField { field: fname, transform } => {
            let fv = chars_of(fname.as_str());
            map_rows(rows, &fv, *transform)
        },
        Op::SortBy { field: fname, order } => {
            let fv = chars_of(fname.as_str());
            Ok(sort_rows(rows, &fv, *order))
        },
        Op::Limit { n } => {
            let mut rows = rows;
            if *n < rows.len() as u64 {
                rows.truncate(*n as usize);
                assert(rows_json(rows@) =~= orig.take(*n as int));
            }
            Ok(rows)
        },
        Op::Reverse => {
            proof {
                lemma_rows_reverse(rv);
            }
            Ok(reversed(rows))
        },
    }
}

/// The records of `data`, copied: its items, each an object; or why not.
fn records_from(data: &JsonValue) -> (r: Result<Vec<Vec<(String, JsonValue)>>, TransformError>)
    ensures
        match records_of(data.json()) {
            Ok(rows) => r matches Ok(x) && rows_json(x@) == rows,
            Err(e) => r matches Err(x) && x.fault() == e,
        },
{
    let items = match data {
        JsonValue::Array(items) => items,
        _ => {
            return Err(TransformError::NotAnArray);
        },
    };
    proof {
        lemma_array_json(*items);
    }
    let ghost js = items_json(items@);
    let mut rows: Vec<Vec<(String, JsonValue)>> = Vec::new();
    let mut i: usize = 0;
    while i < items.len()
        invariant
            js == items_json(items@),
            i <= items@.len(),
            rows@.len() == i,
            first_non_object(js, 0) == first_non_object(js, i as int),
            data.json() == Json::Array(js),
            forall|k: int| 0 <= k < i ==> #[trigger] js[k] is Object,
            rows_json(rows@) =~= Seq::new(i as nat, |k: int| js[k]->Object_0),
        decreases items@.len() - i,
    {
        match &items[i] {
            JsonValue::Object(es) => {
                proof {
                    lemma_object_json(*es);
                    assert(js[i as int] == Json::Object(members_json(es@)));
                }
                let mut copy: Vec<(String, JsonValue)> = Vec::new();
                copy_members(es, 0, &mut copy);
                proof {
                    lemma_object_json(*es);
                    assert(members_json(copy@) =~= members_json(es@));
                }
                let ghost before = rows_json(rows@);
                rows.push(copy);
                proof {
                    assert(rows_json(rows@) =~= before.push(members_json(copy@)));
                    assert(rows_json(rows@) =~= Seq::new((i + 1) as nat, |k: int| js[k]->Object_0));
                }
            },
            other => {
                proof {
                    assert(js[i as int] == other.json());
                    assert(!(js[i as int] is Object));
                    assert(first_non_object(js, i as int) == i);
                }
                return Err(TransformError::RecordNotObject { index: i, found: kind_exec(other) });
            },
        }
        i = i + 1;
    }
    proof {
        assert(rows_json(rows@) =~= Seq::new(js.len(), |k: int| js[k]->Object_0));
    }
    Ok(rows)
}

/// Runs `program` on `data`, a JSON array of objects.
pub fn apply_program(program: &Program, data: &JsonValue) -> (r: Result<JsonValue, TransformError>)
    ensures
        match program_result(*program, data.json()) {
            Ok(v) => r matches Ok(x) && x.json() == v,
            Err(e) => r matches Err(x) && x.fault() == e,
        },
{
    let mut rows = match records_from(data) {
        Ok(rows) => rows,
        Err(e) => {
            return Err(e);
        },
    };
    let ghost start = rows_json(rows@);
    let mut i: usize = 0;
    while i < program.ops.len()
        invariant
            i <= program.ops@.len(),
            records_of(data.json()) == Ok::<Seq<Row>, Fault>(start),
            ops_result(program.ops@, start, i as int) == Ok::<Seq<Row>, Fault>(rows_json(rows@)),
        decreases program.ops@.len() - i,
    {
        rows = match apply_op(&program.ops[i], rows) {
            Ok(next) => next,
            Err(e) => {
                proof {
                    lemma_ops_stays(program.ops@, start, i + 1, program.ops@.len() as int);
                }
                return Err(e);
            },
        };
        i = i + 1;
    }
    let ghost done = rows_json(rows@);
    let mut out: Vec<JsonValue> = Vec::new();
    let mut src = reversed(rows);
    let ghost rv = src@.reverse();
    assert(rv =~= rows@) by {
        assert(rows@.reverse().reverse() =~= rows@);
    }
    while src.len() > 0
        invariant
            out@.len() <= rv.len(),
            src@.len() + out@.len() == rv.len(),
            done == rows_json(rv),
            src@ == rv.skip(out@.len() as int).reverse(),
            items_json(out@) =~= Seq::new(out@.len(), |k: int| Json::Object(done[k])),
        decreases src@.len(),
    {
        let ghost n = out@.len();
        proof {
            lemma_next(rv, n as int);
        }
        let row = src.pop().unwrap();
        let ghost x = members_json(row@);
        let v = JsonValue::Object(row);
        proof {
            lemma_object_json(row);
        }
        let ghost before = items_json(out@);
        out.push(v);
        proof {
            assert(items_json(out@) =~= before.push(Json::Object(x)));
        }
    }
    assert(rv.skip(out@.len() as int).len() == 0);
    proof {
        lemma_array_json(out);
    }
    Ok(JsonValue::Array(out))
}

/// `program`, when it has at least one operation.
pub fn check_program(program: Program) -> (r: Result<Program, TransformError>)
    ensures
        program.ops@.len() == 0 ==> r matches Err(TransformError::EmptyProgram),
        program.ops@.len() > 0 ==> (r matches Ok(p) && p == program),
{
    if program.ops.len() == 0 {
        Err(TransformError::EmptyProgram)
    } else {
        Ok(program)
    }
}

// ---------------------------------------------------------------------------
// Messages
// ---------------------------------------------------------------------------

/// The name errors give a kind of value.
pub open spec fn kind_name(k: Kind) -> Seq<char> {
    match k {
        Kind::Null => "null"@,
        Kind::Boolean => "boolean"@,
        Kind::Number => "number"@,
        Kind::String => "string"@,
        Kind::Array => "array"@,
        Kind::Object => "object"@,
    }
}

/// Appends the name of kind `k` to `out`.
fn push_kind(out: &mut Vec<char>, k: Kind)
    ensures
        final(out)@ == old(out)@ + kind_name(k),
{
    match k {
        Kind::Null => push_text(out, "null"),
        Kind::Boolean => push_text(out, "boolean"),
        Kind::Number => push_text(out, "number"),
        Kind::String => push_text(out, "string"),
        Kind::Array => push_text(out, "array"),
        Kind::Object => push_text(out, "object"),
    }
}

/// The name errors give a predicate.
pub open spec fn predicate_name(p: Predicate) -> Seq<char> {
    match p {
        Predicate::Eq => "Eq"@,
        Predicate::Ne => "Ne"@,
        Predicate::Gt => "Gt"@,
        Predicate::Lt => "Lt"@,
        Predicate::Ge => "Ge"@,
        Predicate::Le => "Le"@,
        Predicate::Contains => "Contains"@,
        Predicate::Exists => "Exists"@,
        Predicate::NotExists => "NotExists"@,
    }
}

/// Appends the name of predicate `p` to `out`.
fn push_predicate(out: &mut Vec<char>, p: Predicate)
    ensures
        final(out)@ == old(out)@ + predicate_name(p),
{
    match p {
        Predicate::Eq => push_text(out, "Eq"),
        Predicate::Ne => push_text(out, "Ne"),
        Predicate::Gt => push_text(out, "Gt"),
        Predicate::Lt => push_text(out, "Lt"),
        Predicate::Ge => push_text(out, "Ge"),
        Predicate::Le => push_text(out, "Le"),
        Predicate::Contains => push_text(out, "Contains"),
        Predicate::Exists => push_text(out, "Exists"),
        Predicate::NotExists => push_text(out, "NotExists"),
    }
}

/// The name errors give a transform that needs a string.
pub open spec fn string_rule_name(t: Transform) -> Seq<char> {
    match t {
        Transform::Lowercase => "lowercase"@,
        Transform::Uppercase => "uppercase"@,
        _ => "trim"@,
    }
}

/// The sentence that reports a value that could not be mapped.
pub open spec fn map_message(f: MapFault) -> Seq<char> {
    match f {
        MapFault::NotAString(t, k) => string_rule_name(t) + " requires a string, got "@ + kind_name(k),
        MapFault::NotNumeric(k) => "to_number requires a string or number, got "@ + kind_name(k),
        MapFault::NotANumber(t) => "to_number: '"@ + t + "' is not a number"@,
        MapFault::NotFinite(t) => "to_number: '"@ + t + "' is not finite"@,
    }
}

/// Appends the sentence that reports `e` to `out`.
fn push_map_message(out: &mut Vec<char>, e: &MapError)
    ensures
        final(out)@ == old(out)@ + map_message(e.fault()),
{
    let ghost start = out@;
    match e {
        MapError::NotAString { transform, found } => {
            match transform {
                Transform::Lowercase => push_text(out, "lowercase"),
                Transform::Uppercase => push_text(out, "uppercase"),
                _ => push_text(out, "trim"),
            }
            push_text(out, " requires a string, got ");
            push_kind(out, *found);
        },
        MapError::NotNumeric { found } => {
            push_text(out, "to_number requires a string or number, got ");
            push_kind(out, *found);
        },
        MapError::NotANumber { text } => {
            push_text(out, "to_number: '");
            push_text(out, text.as_str());
            push_text(out, "' is not a number");
        },
        MapError::NotFinite { text } => {
            push_text(out, "to_number: '");
            push_text(out, text.as_str());
            push_text(out, "' is not finite");
        },
    }
    assert(out@ =~= start + map_message(e.fault()));
}

impl MapError {
    /// The sentence that reports this error.
    pub fn message(&self) -> (m: String)
        ensures
            m@ == map_message(self.fault()),
    {
        let mut out: Vec<char> = Vec::new();
        push_map_message(&mut out, self);
        assert(out@ =~= map_message(self.fault()));
        string_of(&out)
    }
}

/// The sentence that reports fault `f`.
pub open spec fn transform_message(f: Fault) -> Seq<char> {
    match f {
        Fault::EmptyProgram => "transform program has no operations"@,
        Fault::NotAnArray => "edit input must be a JSON array of objects"@,
        Fault::RecordNotObject(i, k) => "edit input record "@ + decimal(i as nat) + " is not a JSON object (got "@
            + kind_name(k) + ")"@,
        Fault::RenameToSelf(f) => "rename_field: 'from' and 'to' are both '"@ + f + "'"@,
        Fault::ComparandMissing(f, p) => "filter on '"@ + f + "': predicate "@ + predicate_name(p)
            + " requires a comparison value"@,
        Fault::ComparandUnexpected(f, p) => "filter on '"@ + f + "': predicate "@ + predicate_name(p)
            + " takes no comparison value"@,
        Fault::ContainsMismatch(a, b) => "contains requires a string field with a string value, or an array field (got field "@
            + kind_name(a) + " vs value "@ + kind_name(b) + ")"@,
        Fault::OrderingMismatch(a, b) => "ordering comparison requires two numbers or two strings (got field "@
            + kind_name(a) + " vs value "@ + kind_name(b) + ")"@,
        Fault::NumbersNotComparable => "numbers are not comparable"@,
        Fault::MapFailed(f, i, m) => "map_field '"@ + f + "' on record "@ + decimal(i as nat) + ": "@ + map_message(m),
    }
}

impl TransformError {
    /// The sentence that reports this error.
    pub fn message(&self) -> (m: String)
        ensures
            m@ == transform_message(self.fault()),
    {
        let mut out: Vec<char> = Vec::new();
        match self {
            TransformError::EmptyProgram => {
                push_text(&mut out, "transform program has no operations");
            },
            TransformError::NotAnArray => {
                push_text(&mut out, "edit input must be a JSON array of objects");
            },
            TransformError::RecordNotObject { index, found } => {
                push_text(&mut out, "edit input record ");
                push_count(&mut out, *index);
                push_text(&mut out, " is not a JSON object (got ");
                push_kind(&mut out, *found);
                push_text(&mut out, ")");
            },
            TransformError::RenameToSelf { field } => {
                push_text(&mut out, "rename_field: 'from' and 'to' are both '");
                push_text(&mut out, field.as_str());
                push_text(&mut out, "'");
            },
            TransformError::ComparandMissing { field, predicate } => {
                push_text(&mut out, "filter on '");
                push_text(&mut out, field.as_str());
                push_text(&mut out, "': predicate ");
                push_predicate(&mut out, *predicate);
                push_text(&mut out, " requires a comparison value");
            },
            TransformError::ComparandUnexpected { field, predicate } => {
                push_text(&mut out, "filter on '");
                push_text(&mut out, field.as_str());
                push_text(&mut out, "': predicate ");
                push_predicate(&mut out, *predicate);
                push_text(&mut out, " takes no comparison value");
            },
            TransformError::ContainsMismatch { field_kind, value_kind } => {
                push_text(
                    &mut out,
                    "contains requires a string field with a string value, or an array field (got field ",
                );
                push_kind(&mut out, *field_kind);
                push_text(&mut out, " vs value ");
                push_kind(&mut out, *value_kind);
                push_text(&mut out, ")");
            },
            TransformError::OrderingMismatch { field_kind, value_kind } => {
                push_text(&mut out, "ordering comparison requires two numbers or two strings (got field ");
                push_kind(&mut out, *field_kind);
                push_text(&mut out, " vs value ");
                push_kind(&mut out, *value_kind);
                push_text(&mut out, ")");
            },
            TransformError::NumbersNotComparable => {
                push_text(&mut out, "numbers are not comparable");
            },
            TransformError::MapFailed { field, record, cause } => {
                push_text(&mut out, "map_field '");
                push_text(&mut out, field.as_str());
                push_text(&mut out, "' on record ");
                push_count(&mut out, *record);
                push_text(&mut out, ": ");
                push_map_message(&mut out, cause);
            },
        }
        assert(out@ =~= transform_message(self.fault()));
        string_of(&out)
    }
}

// ---------------------------------------------------------------------------
// Field names
// ---------------------------------------------------------------------------

/// The keys of a value: an object's member keys, nothing for others.
pub open spec fn keys_of(j: Json) -> Seq<Seq<char>> {
    match j {
        Json::Object(es) => es.map_values(|e: (Seq<char>, Json)| e.0),
        _ => Seq::empty(),
    }
}

/// Every key of the objects among `records`.
pub open spec fn field_names_of(records: Seq<Json>) -> Set<Seq<char>> {
    Set::new(|k: Seq<char>| exists|i: int| 0 <= i < records.len() && #[trigger] keys_of(records[i]).contains(k))
}

/// Whether `v` is in strictly ascending text order.
pub open spec fn ascending(v: Seq<Seq<char>>) -> bool {
    forall|a: int, b: int| 0 <= a < b < v.len() ==> text_order(#[trigger] v[a], #[trigger] v[b]) < 0
}

/// The keys met so far: those of the first `i` records and the first `j`
/// of record `i`.
spec fn names_so_far(records: Seq<Json>, i: int, j: int) -> Set<Seq<char>> {
    Set::new(
        |k: Seq<char>|
            (exists|t: int| 0 <= t < i && #[trigger] keys_of(records[t]).contains(k)) || (0 <= i < records.len()
                && keys_of(records[i]).take(j).contains(k)),
    )
}

/// Puts `k` into the ascending `names` unless it is there already.
fn insert_name(names: &mut Vec<Vec<char>>, k: Vec<char>)
    requires
        ascending(old(names).deep_view()),
    ensures
        ascending(final(names).deep_view()),
        final(names).deep_view().to_set() == old(names).deep_view().to_set().insert(k@),
{
    let ghost v = names.deep_view();
    let mut p: usize = 0;
    while p < names.len() && text_order_exec(&names[p], &k) < 0
        invariant
            p <= names@.len(),
            v == names.deep_view(),
            forall|a: int| 0 <= a < p ==> text_order(#[trigger] v[a], k@) < 0,
        decreases names@.len() - p,
    {
        assert(v[p as int] == names@[p as int]@);
        p = p + 1;
    }
    if p < names.len() {
        assert(v[p as int] == names@[p as int]@);
        proof {
            lemma_text_order_flip(v[p as int], k@);
        }
        if same_chars(&names[p], &k) {
            assert(v.to_set().insert(k@) =~= v.to_set()) by {
                assert(v.to_set().contains(v[p as int]));
            }
            return;
        }
        proof {
            assert forall|b: int| p <= b < v.len() implies text_order(k@, #[trigger] v[b]) < 0 by {
                if b > p {
                    lemma_text_order_trans(k@, v[p as int], v[b]);
                }
            }
        }
    }
    let ghost kv = k@;
    let ghost before_vec = names@;
    assert(v.len() == before_vec.len());
    names.insert(p, k);
    proof {
        let w = names.deep_view();
        assert(w.len() == v.len() + 1);
        assert forall|t: int| 0 <= t < w.len() implies w[t] == v.insert(p as int, kv)[t] by {
            if t < p {
                assert(names@[t] == before_vec[t]);
            } else if t > p {
                assert(names@[t] == before_vec[t - 1]);
            }
        }
        assert(w =~= v.insert(p as int, kv));
        assert forall|a: int, b: int| 0 <= a < b < w.len() implies text_order(#[trigger] w[a], #[trigger] w[b]) < 0 by {
            if b < p {
                assert(w[a] == v[a] && w[b] == v[b]);
            } else if b == p {
                assert(w[a] == v[a]);
            } else if a == p {
                assert(w[b] == v[b - 1]);
            } else if a < p {
                assert(w[a] == v[a] && w[b] == v[b - 1]);
                lemma_text_order_trans(v[a], kv, v[b - 1]);
            } else {
                assert(w[a] == v[a - 1] && w[b] == v[b - 1]);
            }
        }
        assert forall|x: Seq<char>| w.to_set().contains(x) <==> v.to_set().insert(kv).contains(x) by {
            if w.to_set().contains(x) {
                let t = choose|t: int| 0 <= t < w.len() && w[t] == x;
                if t < p {
                    assert(v[t] == x);
                } else if t > p {
                    assert(v[t - 1] == x);
                }
            }
            if v.to_set().contains(x) && x != kv {
                let t = choose|t: int| 0 <= t < v.len() && v[t] == x;
                if t < p {
                    assert(w[t] == x);
                } else {
                    assert(w[t + 1] == x);
                }
            }
            if x == kv {
                assert(w[p as int] == x);
            }
        }
        assert(w.to_set() =~= v.to_set().insert(kv));
    }
}

/// Every key of the objects among `records`, once each, in ascending
/// order: the fields an operation may read.
pub fn input_field_names(records: &Vec<JsonValue>) -> (r: Vec<String>)
    ensures
        ascending(r@.map_values(|s: String| s@)),
        r@.map_values(|s: String| s@).to_set() == field_names_of(records@.map_values(|v: JsonValue| v.json())),
{
    let ghost recs = records@.map_values(|v: JsonValue| v.json());
    let mut names: Vec<Vec<char>> = Vec::new();
    let mut i: usize = 0;
    proof {
        assert(names.deep_view().to_set() =~= names_so_far(recs, 0, 0));
    }
    while i < records.len()
        invariant
            i <= records@.len(),
            recs == records@.map_values(|v: JsonValue| v.json()),
            ascending(names.deep_view()),
            names.deep_view().to_set() == names_so_far(recs, i as int, 0),
        decreases records@.len() - i,
    {
        if let JsonValue::Object(es) = &records[i] {
            proof {
                lemma_object_json(*es);
            }
            let ghost ks = keys_of(recs[i as int]);
            assert(ks.len() == es@.len());
            let mut j: usize = 0;
            while j < es.len()
                invariant
                    i < records@.len(),
                    recs == records@.map_values(|v: JsonValue| v.json()),
                    records@[i as int] == JsonValue::Object(*es),
                    ks == keys_of(recs[i as int]),
                    ks.len() == es@.len(),
                    forall|t: int| 0 <= t < es@.len() ==> #[trigger] ks[t] == es@[t].0@,
                    j <= es@.len(),
                    ascending(names.deep_view()),
                    names.deep_view().to_set() == names_so_far(recs, i as int, j as int),
                decreases es@.len() - j,
            {
                let k = chars_of(es[j].0.as_str());
                let ghost before = names.deep_view().to_set();
                let ghost kv = k@;
                assert(kv == ks[j as int]);
                insert_name(&mut names, k);
                proof {
                    let a = ks.take(j as int);
                    let b = ks.take(j + 1);
                    assert(b =~= a.push(kv));
                    assert forall|x: Seq<char>| names_so_far(recs, i as int, j + 1).contains(x) <==> before.insert(kv).contains(x) by {
                        if b.contains(x) {
                            let t = choose|t: int| 0 <= t < b.len() && b[t] == x;
                            if t < j {
                                assert(a[t] == x);
                            }
                        }
                        if a.contains(x) {
                            let t = choose|t: int| 0 <= t < a.len() && a[t] == x;
                            assert(b[t] == x);
                        }
                        if x == kv {
                            assert(b[j as int] == x);
                        }
                    }
                    assert(names.deep_view().to_set() =~= names_so_far(recs, i as int, j + 1));
                }
                j = j + 1;
            }
            proof {
                assert(ks.take(j as int) =~= ks);
                assert(names_so_far(recs, i as int, j as int) =~= names_so_far(recs, i + 1, 0));
            }
        } else {
            proof {
                assert(keys_of(recs[i as int]) =~= Seq::<Seq<char>>::empty());
                assert(names_so_far(recs, i as int, 0) =~= names_so_far(recs, i + 1, 0));
            }
        }
        i = i + 1;
    }
    proof {
        assert(names_so_far(recs, i as int, 0) =~= field_names_of(recs));
    }
    let mut out: Vec<String> = Vec::new();
    let mut t: usize = 0;
    while t < names.len()
        invariant
            t <= names@.len(),
            out@.len() == t,
            forall|a: int| 0 <= a < t ==> #[trigger] out@[a]@ == names@[a]@,
        decreases names@.len() - t,
    {
        out.push(string_of(&names[t]));
        t = t + 1;
    }
    assert forall|a: int| 0 <= a < names@.len() implies out@.map_values(|s: String| s@)[a] == names.deep_view()[a] by {
        assert(out@[a]@ == names@[a]@);
    }
    assert(out@.map_values(|s: String| s@) =~= names.deep_view());
    out
}

// ---------------------------------------------------------------------------
// The order of sorted records
// ---------------------------------------------------------------------------

/// The class of a possibly absent value in the sort order: absent, then
/// null, boolean, number, string, array, object.
pub open spec fn value_class(v: Option<Json>) -> int {
    match v {
        None => -1,
        Some(j) => kind_rank(j),
    }
}

/// Whether record `a` may come before record `b` in a sort on field `f`:
/// the class of its value comes no later, and within booleans (false
/// first), strings (by character), arrays and objects (by their compact
/// text) its value comes no later; absent values and nulls are all alike.
/// Descending order reverses the comparison.
pub open spec fn may_precede(a: Row, b: Row, f: Seq<char>, order: SortOrder) -> bool {
    let (x, y) = match order {
        SortOrder::Asc => (field(a, f), field(b, f)),
        SortOrder::Desc => (field(b, f), field(a, f)),
    };
    value_class(x) < value_class(y) || (value_class(x) == value_class(y) && match (x, y) {
        (Some(Json::Str(p)), Some(Json::Str(q))) => text_order(p, q) <= 0,
        (Some(Json::Bool(p)), Some(Json::Bool(q))) => !p || q,
        (Some(Json::Array(p)), Some(Json::Array(q))) => text_order(json_text(Json::Array(p)), json_text(Json::Array(q))) <= 0,
        (Some(Json::Object(p)), Some(Json::Object(q))) => text_order(json_text(Json::Object(p)), json_text(Json::Object(q)))
            <= 0,
        _ => true,
    })
}

/// Whether the records come in sort order on `f`.
pub open spec fn in_sort_order(rows: Seq<Row>, f: Seq<char>, order: SortOrder) -> bool {
    forall|i: int, j: int| 0 <= i < j < rows.len() ==> may_precede(#[trigger] rows[i], #[trigger] rows[j], f, order)
}

proof fn lemma_row_order_precede(a: Row, b: Row, f: Seq<char>, order: SortOrder)
    ensures
        row_order(a, b, f, order) < 0 ==> may_precede(a, b, f, order),
        row_order(a, b, f, order) >= 0 ==> may_precede(b, a, f, order),
{
    match (field(a, f), field(b, f)) {
        (Some(Json::Str(p)), Some(Json::Str(q))) => {
            lemma_text_order_flip(p, q);
        },
        (Some(x), Some(y)) => {
            lemma_text_order_flip(json_text(x), json_text(y));
        },
        _ => {},
    }
}

proof fn lemma_precede_trans(a: Row, b: Row, c: Row, f: Seq<char>, order: SortOrder)
    requires
        may_precede(a, b, f, order),
        may_precede(b, c, f, order),
    ensures
        may_precede(a, c, f, order),
{
    let (x, y, z) = match order {
        SortOrder::Asc => (field(a, f), field(b, f), field(c, f)),
        SortOrder::Desc => (field(c, f), field(b, f), field(a, f)),
    };
    match (x, y, z) {
        (Some(Json::Str(p)), Some(Json::Str(q)), Some(Json::Str(r))) => {
            lemma_text_order_flip(p, q);
            lemma_text_order_flip(q, r);
            lemma_text_order_flip(p, r);
            if text_order(p, q) < 0 && text_order(q, r) < 0 {
                lemma_text_order_trans(p, q, r);
            }
        },
        (Some(u), Some(v), Some(w)) => {
            let (p, q, r) = (json_text(u), json_text(v), json_text(w));
            lemma_text_order_flip(p, q);
            lemma_text_order_flip(q, r);
            lemma_text_order_flip(p, r);
            if text_order(p, q) < 0 && text_order(q, r) < 0 {
                lemma_text_order_trans(p, q, r);
            }
        },
        _ => {},
    }
}

proof fn lemma_insert_row(sorted: Seq<Row>, r: Row, f: Seq<char>, order: SortOrder)
    ensures
        insert_row(sorted, r, f, order).to_multiset() == sorted.to_multiset().insert(r),
        insert_row(sorted, r, f, order).len() == sorted.len() + 1,
        in_sort_order(sorted, f, order) ==> in_sort_order(insert_row(sorted, r, f, order), f, order),
    decreases sorted.len(),
{
    broadcast use vstd::seq_lib::group_to_multiset_ensures;
    let out = insert_row(sorted, r, f, order);
    if sorted.len() == 0 {
        assert(seq![r] =~= Seq::<Row>::empty().push(r));
    } else {
        let last = sorted.last();
        let init = sorted.drop_last();
        assert(sorted =~= init.push(last));
        lemma_row_order_precede(r, last, f, order);
        if row_order(r, last, f, order) < 0 {
            lemma_insert_row(init, r, f, order);
            let mid = insert_row(init, r, f, order);
            assert(out == mid.push(last));
            assert(out.to_multiset() =~= sorted.to_multiset().insert(r));
            if in_sort_order(sorted, f, order) {
                assert(in_sort_order(init, f, order)) by {
                    assert forall|i: int, j: int| 0 <= i < j < init.len() implies may_precede(#[trigger] init[i], #[trigger] init[j], f, order) by {
                        assert(init[i] == sorted[i] && init[j] == sorted[j]);
                    }
                }
                assert forall|i: int| 0 <= i < mid.len() implies may_precede(#[trigger] mid[i], last, f, order) by {
                    assert(mid.to_multiset().count(mid[i]) > 0);
                    if mid[i] != r {
                        assert(init.to_multiset().count(mid[i]) > 0);
                        assert(init.contains(mid[i]));
                        let t = choose|t: int| 0 <= t < init.len() && init[t] == mid[i];
                        assert(sorted[t] == init[t]);
                        assert(sorted[sorted.len() - 1] == last);
                    }
                }
                assert forall|i: int, j: int| 0 <= i < j < out.len() implies may_precede(#[trigger] out[i], #[trigger] out[j], f, order) by {
                    if j == out.len() - 1 {
                        assert(out[j] == last);
                        assert(out[i] == mid[i]);
                    } else {
                        assert(out[i] == mid[i] && out[j] == mid[j]);
                    }
                }
            }
        } else {
            assert(out == sorted.push(r));
            if in_sort_order(sorted, f, order) {
                assert forall|i: int, j: int| 0 <= i < j < out.len() implies may_precede(#[trigger] out[i], #[trigger] out[j], f, order) by {
                    if j == out.len() - 1 {
                        assert(out[j] == r);
                        assert(out[i] == sorted[i]);
                        assert(sorted[sorted.len() - 1] == last);
                        if i < sorted.len() - 1 {
                            assert(may_precede(sorted[i], sorted[sorted.len() - 1], f, order));
                            lemma_precede_trans(sorted[i], last, r, f, order);
                        }
                    } else {
                        assert(out[i] == sorted[i] && out[j] == sorted[j]);
                    }
                }
            }
        }
    }
}

/// `sort_by` keeps every record (the result is a rearrangement of the
/// input) and puts them in a total order on the sort field: absent first,
/// then null, booleans (false first), numbers, strings (by character),
/// arrays and objects (each by its compact text); descending order
/// reverses it.
pub proof fn law_sort_is_total(rows: Seq<Row>, f: Seq<char>, order: SortOrder)
    ensures
        sorted_rows(rows, f, order, rows.len() as int).to_multiset() == rows.to_multiset(),
        in_sort_order(sorted_rows(rows, f, order, rows.len() as int), f, order),
    decreases rows.len(),
{
    broadcast use vstd::seq_lib::group_to_multiset_ensures;
    if rows.len() == 0 {
        assert(sorted_rows(rows, f, order, 0) =~= Seq::<Row>::empty());
        assert(rows =~= Seq::<Row>::empty());
    } else {
        let init = rows.drop_last();
        law_sort_is_total(init, f, order);
        assert forall|n: int| 0 <= n <= init.len() implies #[trigger] sorted_rows(init, f, order, n) == sorted_rows(rows, f, order, n) by {
            lemma_sorted_prefix(rows, f, order, n);
        }
        let s = sorted_rows(init, f, order, init.len() as int);
        lemma_insert_row(s, rows.last(), f, order);
        assert(rows =~= init.push(rows.last()));
    }
}

proof fn lemma_sorted_prefix(rows: Seq<Row>, f: Seq<char>, order: SortOrder, n: int)
    requires
        rows.len() > 0,
        0 <= n <= rows.len() - 1,
    ensures
        sorted_rows(rows.drop_last(), f, order, n) == sorted_rows(rows, f, order, n),
    decreases n,
{
    if n > 0 {
        lemma_sorted_prefix(rows, f, order, n - 1);
        assert(rows.drop_last()[n - 1] == rows[n - 1]);
    }
}

/// The records whose field `f` holds `v` (absent when `v` is `None`).
pub open spec fn with_value(rows: Seq<Row>, f: Seq<char>, v: Option<Json>) -> Seq<Row> {
    rows.filter(|r: Row| field(r, f) == v)
}

/// Every value compares equal to itself.
proof fn lemma_value_order_refl(v: Option<Json>)
    ensures
        value_order(v, v) == 0,
{
    match v {
        Some(Json::Str(p)) => {
            lemma_text_order_flip(p, p);
        },
        Some(Json::Number(_)) => {},
        Some(x) => {
            lemma_text_order_flip(json_text(x), json_text(x));
        },
        None => {},
    }
}

proof fn lemma_insert_row_stable(sorted: Seq<Row>, r: Row, f: Seq<char>, order: SortOrder, v: Option<Json>)
    requires
        value_order(v, v) == 0,
    ensures
        with_value(insert_row(sorted, r, f, order), f, v) == if field(r, f) == v {
            with_value(sorted, f, v).push(r)
        } else {
            with_value(sorted, f, v)
        },
    decreases sorted.len(),
{
    let pred = |x: Row| field(x, f) == v;
    if sorted.len() == 0 {
        assert(seq![r] =~= Seq::<Row>::empty().push(r));
        Seq::<Row>::empty().lemma_filter_push(r, pred);
        reveal(Seq::filter);
        assert(Seq::<Row>::empty().filter(pred) =~= Seq::<Row>::empty());
    } else {
        let last = sorted.last();
        let init = sorted.drop_last();
        assert(sorted =~= init.push(last));
        init.lemma_filter_push(last, pred);
        if row_order(r, last, f, order) < 0 {
            lemma_insert_row_stable(init, r, f, order, v);
            let mid = insert_row(init, r, f, order);
            mid.lemma_filter_push(last, pred);
            init.filter(pred).lemma_filter_push(r, pred);
        } else {
            sorted.lemma_filter_push(r, pred);
        }
    }
}

/// The first `n` records, sorted, keep the order among those whose field
/// holds `v`, a value that compares equal to itself.
proof fn lemma_sorted_stable(rows: Seq<Row>, f: Seq<char>, order: SortOrder, v: Option<Json>, n: int)
    requires
        value_order(v, v) == 0,
        0 <= n <= rows.len(),
    ensures
        with_value(sorted_rows(rows, f, order, n), f, v) == with_value(rows.take(n), f, v),
    decreases n,
{
    let pred = |x: Row| field(x, f) == v;
    if n == 0 {
        reveal(Seq::filter);
        assert(rows.take(0) =~= Seq::<Row>::empty());
        assert(sorted_rows(rows, f, order, 0) =~= Seq::<Row>::empty());
    } else {
        lemma_sorted_stable(rows, f, order, v, n - 1);
        lemma_insert_row_stable(sorted_rows(rows, f, order, n - 1), rows[n - 1], f, order, v);
        assert(rows.take(n) =~= rows.take(n - 1).push(rows[n - 1]));
        rows.take(n - 1).lemma_filter_push(rows[n - 1], pred);
    }
}

/// `sort_by` is stable: the records that lack the sort field, or hold the
/// same value there, come out in the order they came in.
pub proof fn law_sort_is_stable(rows: Seq<Row>, f: Seq<char>, order: SortOrder, v: Option<Json>)
    ensures
        with_value(sorted_rows(rows, f, order, rows.len() as int), f, v) == with_value(rows, f, v),
{
    lemma_value_order_refl(v);
    lemma_sorted_stable(rows, f, order, v, rows.len() as int);
    assert(rows.take(rows.len() as int) =~= rows);
}

/// The ordering filters follow the order of values: on a field holding a
/// string (or a number) and a comparand of the same kind, `lt` keeps the
/// record exactly when the field orders strictly below the comparand, `gt`
/// exactly when strictly above, `ge` and `le` exactly when `lt` and `gt`
/// do not; a field equal to the comparand is kept by `ge` and `le` and
/// never by `lt` or `gt`; and a record without the field is kept by none.
pub proof fn law_ordering_filters_follow_the_order(r: Row, f: Seq<char>, c: Json)
    ensures
        field(r, f) is Some ==> (keeps(r, f, Predicate::Lt, c) is Ok <==> keeps(r, f, Predicate::Ge, c) is Ok),
        field(r, f) is Some ==> match keeps(r, f, Predicate::Lt, c) {
            Ok(x) => keeps(r, f, Predicate::Ge, c) == Ok::<bool, Fault>(!x),
            Err(_) => true,
        },
        field(r, f) is Some ==> match keeps(r, f, Predicate::Gt, c) {
            Ok(x) => keeps(r, f, Predicate::Le, c) == Ok::<bool, Fault>(!x),
            Err(_) => true,
        },
        field(r, f) is None ==> keeps(r, f, Predicate::Lt, c) == Ok::<bool, Fault>(false) && keeps(r, f, Predicate::Gt, c)
            == Ok::<bool, Fault>(false) && keeps(r, f, Predicate::Ge, c) == Ok::<bool, Fault>(false) && keeps(
            r,
            f,
            Predicate::Le,
            c,
        ) == Ok::<bool, Fault>(false),
        match (field(r, f), c) {
            (Some(Json::Str(a)), Json::Str(b)) => {
                &&& keeps(r, f, Predicate::Lt, c) == Ok::<bool, Fault>(text_order(a, b) < 0)
                &&& keeps(r, f, Predicate::Gt, c) == Ok::<bool, Fault>(text_order(b, a) < 0)
                &&& a == b ==> keeps(r, f, Predicate::Lt, c) == Ok::<bool, Fault>(false) && keeps(r, f, Predicate::Gt, c)
                    == Ok::<bool, Fault>(false) && keeps(r, f, Predicate::Ge, c) == Ok::<bool, Fault>(true) && keeps(
                    r,
                    f,
                    Predicate::Le,
                    c,
                ) == Ok::<bool, Fault>(true)
            },
            (Some(Json::Number(a)), Json::Number(b)) => {
                &&& number_order(a, b) == Some(-1i8) ==> keeps(r, f, Predicate::Lt, c) == Ok::<bool, Fault>(true)
                    && keeps(r, f, Predicate::Gt, c) == Ok::<bool, Fault>(false)
                &&& number_order(a, b) == Some(0i8) ==> keeps(r, f, Predicate::Lt, c) == Ok::<bool, Fault>(false)
                    && keeps(r, f, Predicate::Gt, c) == Ok::<bool, Fault>(false) && keeps(r, f, Predicate::Ge, c)
                    == Ok::<bool, Fault>(true) && keeps(r, f, Predicate::Le, c) == Ok::<bool, Fault>(true)
                &&& number_order(a, b) == Some(1i8) ==> keeps(r, f, Predicate::Lt, c) == Ok::<bool, Fault>(false)
                    && keeps(r, f, Predicate::Gt, c) == Ok::<bool, Fault>(true)
            },
            _ => true,
        },
{
    match (field(r, f), c) {
        (Some(Json::Str(a)), Json::Str(b)) => {
            lemma_text_order_flip(a, b);
            let v = Json::Str(a);
            assert(keeps(r, f, Predicate::Lt, c) == compared(v, c, Predicate::Lt));
            assert(compared(v, c, Predicate::Lt) == Ok::<bool, Fault>(text_order(a, b) < 0));
            assert(compared(v, c, Predicate::Gt) == Ok::<bool, Fault>(text_order(a, b) > 0));
            assert(compared(v, c, Predicate::Ge) == Ok::<bool, Fault>(text_order(a, b) >= 0));
            assert(compared(v, c, Predicate::Le) == Ok::<bool, Fault>(text_order(a, b) <= 0));
        },
        (Some(Json::Number(a)), Json::Number(b)) => {
            let v = Json::Number(a);
            assert(keeps(r, f, Predicate::Lt, c) == compared(v, c, Predicate::Lt));
            assert(keeps(r, f, Predicate::Gt, c) == compared(v, c, Predicate::Gt));
            assert(keeps(r, f, Predicate::Ge, c) == compared(v, c, Predicate::Ge));
            assert(keeps(r, f, Predicate::Le, c) == compared(v, c, Predicate::Le));
        },
        _ => {},
    }
}

/// The equality filters: `ne` keeps exactly the records with the field
/// that `eq` does not keep; a string or boolean field is kept by `eq`
/// exactly when it is the comparand (of the same kind), and values of
/// different kinds are never equal; a record without the field is kept by
/// neither.
pub proof fn law_equality_filters(r: Row, f: Seq<char>, c: Json)
    ensures
        field(r, f) is Some ==> keeps(r, f, Predicate::Ne, c) == match keeps(r, f, Predicate::Eq, c) {
            Ok(x) => Ok::<bool, Fault>(!x),
            Err(e) => Err(e),
        },
        field(r, f) is None ==> keeps(r, f, Predicate::Eq, c) == Ok::<bool, Fault>(false) && keeps(r, f, Predicate::Ne, c)
            == Ok::<bool, Fault>(false),
        match (field(r, f), c) {
            (Some(Json::Str(a)), Json::Str(b)) => keeps(r, f, Predicate::Eq, c) == Ok::<bool, Fault>(a == b),
            (Some(Json::Bool(a)), Json::Bool(b)) => keeps(r, f, Predicate::Eq, c) == Ok::<bool, Fault>(a == b),
            (Some(v), _) => kind_rank(v) != kind_rank(c) ==> keeps(r, f, Predicate::Eq, c) == Ok::<bool, Fault>(false),
            _ => true,
        },
{
}

/// A record without the filtered field fails every comparison and satisfies
/// only `not_exists`; the result is a fact about the record, never an
/// error.
pub proof fn law_absent_field_filters(r: Row, f: Seq<char>, p: Predicate, c: Json)
    requires
        field(r, f) is None,
    ensures
        keeps(r, f, p, c) == Ok::<bool, Fault>(p == Predicate::NotExists),
{
}

} // verus!
