//! CSV and records: typing CSV fields, CSV to records and back, and text
//! lists as single-column CSV.

use vstd::prelude::*;
use vstd::utf8::{decode_utf8, encode_utf8, valid_utf8};
use crate::csv_repair::{CsvOut, csv_bytes, csv_record_bytes, csv_width, csv_written, finish, new_writer, texts, write_record};
use crate::json::{Json, JsonValue};
use crate::json_ops::{insert_by_key, json_text, json_to_text, key_order, key_order_upto, member_order, text_order};
use crate::number::{float_json_text, float_literal_ok, float_literal_ok_exec, float_literal_overflows, float_literal_overflows_exec, float_number_text};
use crate::numeric::{parse_i64, parse_i64_spec};
use crate::repair::{lemma_object_json, members_json, upsert};
use crate::text::{chars_of, decimal, decimal_chars, push_chars, push_text, same_chars, string_of, utf8_error_text};
use crate::textlist::{decode_textable_list, encode_textable_list, joined, strip_utf8_bom, text_list_values, without_bom};
use crate::transform::{Row, field, row_insert};

verus! {

// ---------------------------------------------------------------------------
// Typing a CSV field
// ---------------------------------------------------------------------------

/// The text `i64::to_string` gives for `n`.
pub open spec fn int_text(n: int) -> Seq<char> {
    if n < 0 {
        seq!['-'] + decimal((-n) as nat)
    } else {
        decimal(n as nat)
    }
}

/// The JSON value a CSV field stands for, converting only where nothing is
/// lost: empty is null; an integer or a number whose canonical text is the
/// field itself is that number; `true` and `false` are booleans; anything
/// else stays a string.
pub open spec fn inferred(f: Seq<char>) -> Json {
    if f.len() == 0 {
        Json::Null
    } else if parse_i64_spec(f) matches Some(n) && int_text(n as int) == f {
        Json::Number(f)
    } else if float_literal_ok(f) && !float_literal_overflows(f) && float_number_text(f) == f {
        Json::Number(f)
    } else if f == "true"@ {
        Json::Bool(true)
    } else if f == "false"@ {
        Json::Bool(false)
    } else {
        Json::Str(f)
    }
}

fn int_chars(n: i64) -> (r: Vec<char>)
    ensures
        r@ == int_text(n as int),
{
    if n < 0 {
        let m: u128 = (0i128 - n as i128) as u128;
        let mut r: Vec<char> = Vec::new();
        r.push('-');
        push_chars(&mut r, &decimal_chars(m));
        r
    } else {
        decimal_chars(n as u128)
    }
}

/// The JSON value a CSV field stands for (see [`inferred`]).
pub fn infer_csv_value(field: &str) -> (v: JsonValue)
    ensures
        v.json() == inferred(field@),
{
    let f = chars_of(field);
    if f.len() == 0 {
        return JsonValue::Null;
    }
    match parse_i64(&f) {
        Some(n) => {
            if same_chars(&int_chars(n), &f) {
                return JsonValue::Number(string_of(&f));
            }
        },
        None => {},
    }
    if float_literal_ok_exec(&f) && !float_literal_overflows_exec(&f) {
        let t = float_json_text(field);
        if same_chars(&chars_of(t.as_str()), &f) {
            return JsonValue::Number(string_of(&f));
        }
    }
    if same_chars(&f, &chars_of("true")) {
        JsonValue::Bool(true)
    } else if same_chars(&f, &chars_of("false")) {
        JsonValue::Bool(false)
    } else {
        JsonValue::String(string_of(&f))
    }
}


// ---------------------------------------------------------------------------
// Reading CSV
// ---------------------------------------------------------------------------

/// A name for what a default `csv::Reader` (a header row, every record as
/// wide as the first) reads from `body`: the header row and each further
/// record; where one is unreadable, the text of the reader's error instead.
pub uninterp spec fn csv_strict_table(body: Seq<u8>) -> (Result<Seq<Seq<char>>, Seq<char>>, Seq<Result<Seq<Seq<char>>, Seq<char>>>);

/// The plain value of what [`read_strict_table`] hands out.
pub open spec fn strict_view(t: (Result<Vec<String>, String>, Vec<Result<Vec<String>, String>>)) -> (
    Result<Seq<Seq<char>>, Seq<char>>,
    Seq<Result<Seq<Seq<char>>, Seq<char>>>,
) {
    (
        match t.0 {
            Ok(h) => Ok(texts(h@)),
            Err(e) => Err(e@),
        },
        Seq::new(
            t.1@.len(),
            |i: int|
                match t.1@[i] {
                    Ok(f) => Ok(texts(f@)),
                    Err(e) => Err(e@),
                },
        ),
    )
}

/// `csv::Reader::from_reader(body)`, then its `headers` and its `records`,
/// handed out as plain values, an error as its `Display` text. What is read
/// is named, not stated.
#[verifier::external_body]
fn read_strict_table(body: &[u8]) -> (r: (Result<Vec<String>, String>, Vec<Result<Vec<String>, String>>))
    ensures
        strict_view(r) == csv_strict_table(body@),
{
    let mut reader = csv::Reader::from_reader(body);
    let headers = reader.headers().map(|h| h.iter().map(|f| f.to_string()).collect()).map_err(|e| e.to_string());
    let rows = reader
        .records()
        .map(|r| r.map(|rec| rec.iter().map(|f| f.to_string()).collect()).map_err(|e| e.to_string()))
        .collect();
    (headers, rows)
}

/// Why a conversion failed.
#[derive(Debug)]
pub enum ConvertError {
    /// The input is not UTF-8 (the decoding error).
    NotUtf8 { reason: String },
    /// The CSV header row is not readable (the reader's error).
    HeaderUnreadable { reason: String },
    /// The CSV has no header row.
    NoHeaders,
    /// The CSV record at index `record` after the header is not readable
    /// (the reader's error).
    RowUnreadable { record: usize, reason: String },
    /// The CSV record at index `record` has more fields than the header.
    TooManyFields { record: usize },
}

/// The mathematical value of a [`ConvertError`].
pub enum ConvertFault {
    NotUtf8(Seq<char>),
    HeaderUnreadable(Seq<char>),
    NoHeaders,
    RowUnreadable(int, Seq<char>),
    TooManyFields(int),
}

impl ConvertError {
    pub open spec fn fault(&self) -> ConvertFault {
        match self {
            ConvertError::NotUtf8 { reason } => ConvertFault::NotUtf8(reason@),
            ConvertError::HeaderUnreadable { reason } => ConvertFault::HeaderUnreadable(reason@),
            ConvertError::NoHeaders => ConvertFault::NoHeaders,
            ConvertError::RowUnreadable { record, reason } => ConvertFault::RowUnreadable(*record as int, reason@),
            ConvertError::TooManyFields { record } => ConvertFault::TooManyFields(*record as int),
        }
    }
}

/// The object for the first `n` fields of a record, keyed by the headers,
/// each field typed; `None` when a field has no header.
pub open spec fn record_object(headers: Seq<Seq<char>>, fields: Seq<Seq<char>>, n: int) -> Option<Row>
    decreases n,
{
    if n <= 0 || n > fields.len() {
        Some(Seq::empty())
    } else {
        match record_object(headers, fields, n - 1) {
            None => None,
            Some(r) => if n - 1 < headers.len() {
                Some(upsert(r, headers[n - 1], inferred(fields[n - 1])))
            } else {
                None
            },
        }
    }
}

/// The objects of the first `n` records.
pub open spec fn record_objects(headers: Seq<Seq<char>>, recs: Seq<Result<Seq<Seq<char>>, Seq<char>>>, n: int) -> Result<Seq<Json>, ConvertFault>
    decreases n,
{
    if n <= 0 || n > recs.len() {
        Ok(Seq::empty())
    } else {
        match record_objects(headers, recs, n - 1) {
            Err(e) => Err(e),
            Ok(done) => match recs[n - 1] {
                Err(reason) => Err(ConvertFault::RowUnreadable(n - 1, reason)),
                Ok(f) => match record_object(headers, f, f.len() as int) {
                    None => Err(ConvertFault::TooManyFields(n - 1)),
                    Some(r) => Ok(done.push(Json::Object(r))),
                },
            },
        }
    }
}

/// The records of a CSV document: one object per row, keyed by the header
/// row, each field typed; or why not.
pub open spec fn csv_records(data: Seq<u8>) -> Result<Seq<Json>, ConvertFault> {
    let (hdr, recs) = csv_strict_table(without_bom(data));
    match hdr {
        Err(reason) => Err(ConvertFault::HeaderUnreadable(reason)),
        Ok(h) => if h.len() == 0 {
            Err(ConvertFault::NoHeaders)
        } else {
            record_objects(h, recs, recs.len() as int)
        },
    }
}

proof fn lemma_object_stays(headers: Seq<Seq<char>>, fields: Seq<Seq<char>>, k: int, m: int)
    requires
        0 <= k <= m <= fields.len(),
        record_object(headers, fields, k) is None,
    ensures
        record_object(headers, fields, m) is None,
    decreases m - k,
{
    if m > k {
        lemma_object_stays(headers, fields, k, m - 1);
    }
}

proof fn lemma_objects_stay(headers: Seq<Seq<char>>, recs: Seq<Result<Seq<Seq<char>>, Seq<char>>>, k: int, m: int)
    requires
        0 <= k <= m <= recs.len(),
        record_objects(headers, recs, k) is Err,
    ensures
        record_objects(headers, recs, m) == record_objects(headers, recs, k),
    decreases m - k,
{
    if m > k {
        lemma_objects_stay(headers, recs, k, m - 1);
    }
}

/// The records of a CSV document (a UTF-8 byte-order mark is skipped): one
/// object per row, keyed by the header row, each field typed by
/// [`infer_csv_value`].
pub fn csv_to_json_records(data: &[u8]) -> (r: Result<Vec<JsonValue>, ConvertError>)
    ensures
        match csv_records(data@) {
            Ok(vs) => r matches Ok(x) && x@.len() == vs.len() && forall|i: int|
                0 <= i < vs.len() ==> #[trigger] x@[i].json() == vs[i],
            Err(f) => r matches Err(e) && e.fault() == f,
        },
{
    let body = strip_utf8_bom(data);
    let (headers, rows) = read_strict_table(body);
    let ghost recs = strict_view((headers, rows)).1;
    let headers = match headers {
        Err(reason) => {
            return Err(ConvertError::HeaderUnreadable { reason });
        },
        Ok(h) => h,
    };
    if headers.len() == 0 {
        return Err(ConvertError::NoHeaders);
    }
    let ghost hs = texts(headers@);
    let mut keys: Vec<Vec<char>> = Vec::new();
    let mut k: usize = 0;
    while k < headers.len()
        invariant
            k <= headers@.len(),
            keys@.len() == k,
            forall|j: int| 0 <= j < k ==> #[trigger] keys@[j]@ == headers@[j]@,
        decreases headers@.len() - k,
    {
        keys.push(chars_of(headers[k].as_str()));
        k = k + 1;
    }
    let mut out: Vec<JsonValue> = Vec::new();
    let mut i: usize = 0;
    while i < rows.len()
        invariant
            i <= rows@.len(),
            hs == texts(headers@),
            keys@.len() == headers@.len(),
            forall|j: int| 0 <= j < keys@.len() ==> #[trigger] keys@[j]@ == hs[j],
            recs == strict_view((Ok::<Vec<String>, String>(headers), rows)).1,
            csv_strict_table(body@) == (Ok::<Seq<Seq<char>>, Seq<char>>(hs), recs),
            body@ == without_bom(data@),
            hs.len() > 0,
            record_objects(hs, recs, i as int) matches Ok(done) && done.len() == out@.len() && forall|j: int|
                0 <= j < out@.len() ==> #[trigger] out@[j].json() == done[j],
        decreases rows@.len() - i,
    {
        let fields = match &rows[i] {
            Err(reason) => {
                proof {
                    lemma_objects_stay(hs, recs, i + 1, recs.len() as int);
                }
                return Err(ConvertError::RowUnreadable { record: i, reason: reason.clone() });
            },
            Ok(f) => f,
        };
        let ghost fs = texts(fields@);
        assert(recs[i as int] == Ok::<Seq<Seq<char>>, Seq<char>>(fs));
        let mut obj: Vec<(String, JsonValue)> = Vec::new();
        let mut j: usize = 0;
        proof {
            assert(members_json(obj@) =~= Seq::<(Seq<char>, Json)>::empty());
        }
        while j < fields.len()
            invariant
                j <= fields@.len(),
                fs == texts(fields@),
                keys@.len() == hs.len(),
                forall|t: int| 0 <= t < keys@.len() ==> #[trigger] keys@[t]@ == hs[t],
                record_object(hs, fs, j as int) == Some(members_json(obj@)),
                i < recs.len(),
                recs[i as int] == Ok::<Seq<Seq<char>>, Seq<char>>(fs),
                record_objects(hs, recs, i as int) is Ok,
                csv_strict_table(body@) == (Ok::<Seq<Seq<char>>, Seq<char>>(hs), recs),
                body@ == without_bom(data@),
                hs.len() > 0,
            decreases fields@.len() - j,
        {
            if j >= keys.len() {
                proof {
                    assert(record_object(hs, fs, j + 1) is None);
                    lemma_object_stays(hs, fs, j + 1, fs.len() as int);
                    assert(record_objects(hs, recs, i + 1) == Err::<Seq<Json>, ConvertFault>(ConvertFault::TooManyFields(i as int)));
                    lemma_objects_stay(hs, recs, i + 1, recs.len() as int);
                }
                return Err(ConvertError::TooManyFields { record: i });
            }
            let v = infer_csv_value(fields[j].as_str());
            row_insert(&mut obj, &keys[j], v);
            j = j + 1;
        }
        proof {
            lemma_object_json(obj);
        }
        let ghost before = out@;
        out.push(JsonValue::Object(obj));
        i = i + 1;
    }
    Ok(out)
}


// ---------------------------------------------------------------------------
// Writing CSV
// ---------------------------------------------------------------------------

/// The keys of `r`, in key order.
pub open spec fn sorted_keys(r: Row) -> Seq<Seq<char>> {
    Seq::new(r.len(), |k: int| r[key_order(r)[k]].0)
}

/// `hs` with each of `ks` from `j` on appended unless already there.
pub open spec fn add_keys(hs: Seq<Seq<char>>, ks: Seq<Seq<char>>, j: int) -> Seq<Seq<char>>
    decreases ks.len() - j,
{
    if j < 0 || j >= ks.len() {
        hs
    } else {
        add_keys(if hs.contains(ks[j]) { hs } else { hs.push(ks[j]) }, ks, j + 1)
    }
}

/// The header row for the first `n` records: every key, once, in the order
/// first met (records in order, each record's keys in key order).
pub open spec fn header_row(rows: Seq<Row>, n: int) -> Seq<Seq<char>>
    decreases n,
{
    if n <= 0 || n > rows.len() {
        Seq::empty()
    } else {
        add_keys(header_row(rows, n - 1), sorted_keys(rows[n - 1]), 0)
    }
}

// ---------------------------------------------------------------------------
// The header row
// ---------------------------------------------------------------------------

proof fn lemma_insert_by_key_members(es: Seq<(Seq<char>, Json)>, ord: Seq<int>, i: int)
    ensures
        insert_by_key(es, ord, i).len() == ord.len() + 1,
        forall|x: int| #[trigger] insert_by_key(es, ord, i).contains(x) <==> (ord.contains(x) || x == i),
    decreases ord.len(),
{
    let out = insert_by_key(es, ord, i);
    if ord.len() == 0 {
        assert forall|x: int| #[trigger] out.contains(x) <==> (ord.contains(x) || x == i) by {
            if out.contains(x) {
                assert(out[0] == i);
            }
            if x == i {
                assert(out[0] == x);
            }
        }
    } else if 0 <= ord.last() < es.len() && 0 <= i < es.len() && text_order(es[i].0, es[ord.last()].0) < 0 {
        let init = ord.drop_last();
        lemma_insert_by_key_members(es, init, i);
        let mid = insert_by_key(es, init, i);
        assert(out == mid.push(ord.last()));
        assert(ord =~= init.push(ord.last()));
        assert forall|x: int| #[trigger] out.contains(x) <==> (ord.contains(x) || x == i) by {
            if out.contains(x) {
                let t = choose|t: int| 0 <= t < out.len() && out[t] == x;
                if t < mid.len() {
                    assert(mid[t] == x);
                    assert(mid.contains(x));
                    if init.contains(x) {
                        let u = choose|u: int| 0 <= u < init.len() && init[u] == x;
                        assert(ord[u] == x);
                    }
                } else {
                    assert(ord[ord.len() - 1] == x);
                }
            }
            if ord.contains(x) {
                let t = choose|t: int| 0 <= t < ord.len() && ord[t] == x;
                if t < init.len() {
                    assert(init[t] == x);
                    assert(mid.contains(x));
                    let u = choose|u: int| 0 <= u < mid.len() && mid[u] == x;
                    assert(out[u] == x);
                } else {
                    assert(out[out.len() - 1] == x);
                }
            }
            if x == i {
                assert(mid.contains(x));
                let u = choose|u: int| 0 <= u < mid.len() && mid[u] == x;
                assert(out[u] == x);
            }
        }
    } else {
        assert(out == ord.push(i));
        assert forall|x: int| #[trigger] out.contains(x) <==> (ord.contains(x) || x == i) by {
            if out.contains(x) {
                let t = choose|t: int| 0 <= t < out.len() && out[t] == x;
                if t < ord.len() {
                    assert(ord[t] == x);
                }
            }
            if ord.contains(x) {
                let t = choose|t: int| 0 <= t < ord.len() && ord[t] == x;
                assert(out[t] == x);
            }
            if x == i {
                assert(out[ord.len() as int] == x);
            }
        }
    }
}

proof fn lemma_key_order_upto(es: Seq<(Seq<char>, Json)>, n: int)
    requires
        0 <= n,
    ensures
        key_order_upto(es, n).len() == n,
        forall|x: int| #[trigger] key_order_upto(es, n).contains(x) <==> 0 <= x < n,
    decreases n,
{
    if n > 0 {
        lemma_key_order_upto(es, n - 1);
        lemma_insert_by_key_members(es, key_order_upto(es, n - 1), n - 1);
    } else {
        assert forall|x: int| #[trigger] key_order_upto(es, n).contains(x) <==> 0 <= x < n by {
            assert(key_order_upto(es, n) =~= Seq::<int>::empty());
        }
    }
}

/// A record's keys in key order are its keys.
proof fn lemma_sorted_keys(r: Row)
    ensures
        forall|m: int| 0 <= m < r.len() ==> sorted_keys(r).contains(#[trigger] r[m].0),
        forall|k: int| 0 <= k < r.len() ==> exists|m: int| 0 <= m < r.len() && (#[trigger] r[m]).0 == #[trigger] sorted_keys(r)[k],
{
    lemma_key_order_upto(r, r.len() as int);
    let ord = key_order(r);
    assert forall|m: int| 0 <= m < r.len() implies sorted_keys(r).contains(#[trigger] r[m].0) by {
        assert(ord.contains(m));
        let k = choose|k: int| 0 <= k < ord.len() && ord[k] == m;
        assert(sorted_keys(r)[k] == r[m].0);
    }
    assert forall|k: int| 0 <= k < r.len() implies exists|m: int| 0 <= m < r.len() && (#[trigger] r[m]).0 == #[trigger] sorted_keys(r)[k] by {
        assert(ord.contains(ord[k]));
        let m = ord[k];
        assert(0 <= m < r.len());
        assert(r[m].0 == sorted_keys(r)[k]);
    }
}

/// Whether no text occurs twice in `hs`.
pub open spec fn no_repeats(hs: Seq<Seq<char>>) -> bool {
    forall|i: int, j: int| 0 <= i < j < hs.len() ==> hs[i] != hs[j]
}

proof fn lemma_add_keys(hs: Seq<Seq<char>>, ks: Seq<Seq<char>>, j: int)
    requires
        no_repeats(hs),
        0 <= j,
    ensures
        no_repeats(add_keys(hs, ks, j)),
        forall|x: Seq<char>| #[trigger] add_keys(hs, ks, j).contains(x) <==> (hs.contains(x) || exists|t: int|
            j <= t < ks.len() && ks[t] == x),
    decreases ks.len() - j,
{
    if j < ks.len() {
        let hs2 = if hs.contains(ks[j]) { hs } else { hs.push(ks[j]) };
        assert(no_repeats(hs2)) by {
            if !hs.contains(ks[j]) {
                assert forall|a: int, b: int| 0 <= a < b < hs2.len() implies hs2[a] != hs2[b] by {
                    if b == hs.len() {
                        assert(hs2[a] == hs[a]);
                    } else {
                        assert(hs2[a] == hs[a] && hs2[b] == hs[b]);
                    }
                }
            }
        }
        lemma_add_keys(hs2, ks, j + 1);
        assert forall|x: Seq<char>| #[trigger] add_keys(hs, ks, j).contains(x) <==> (hs.contains(x) || exists|t: int|
            j <= t < ks.len() && ks[t] == x) by {
            assert(hs2.contains(x) <==> (hs.contains(x) || x == ks[j])) by {
                if !hs.contains(ks[j]) {
                    if hs2.contains(x) {
                        let t = choose|t: int| 0 <= t < hs2.len() && hs2[t] == x;
                        if t < hs.len() {
                            assert(hs[t] == x);
                        }
                    }
                    if hs.contains(x) {
                        let t = choose|t: int| 0 <= t < hs.len() && hs[t] == x;
                        assert(hs2[t] == x);
                    }
                    if x == ks[j] {
                        assert(hs2[hs.len() as int] == x);
                    }
                }
            }
            if exists|t: int| j <= t < ks.len() && ks[t] == x {
                let t = choose|t: int| j <= t < ks.len() && ks[t] == x;
                if t > j {
                    assert(exists|u: int| j + 1 <= u < ks.len() && ks[u] == x);
                }
            }
        }
    }
}

/// The header row for the first `n` records names each of their keys, once,
/// and nothing else.
proof fn lemma_header_row(rows: Seq<Row>, n: int)
    requires
        0 <= n <= rows.len(),
    ensures
        no_repeats(header_row(rows, n)),
        forall|x: Seq<char>| #[trigger] header_row(rows, n).contains(x) <==> exists|r: int, m: int|
            0 <= r < n && 0 <= m < rows[r].len() && rows[r][m].0 == x,
    decreases n,
{
    if n == 0 {
        assert forall|x: Seq<char>| #[trigger] header_row(rows, n).contains(x) <==> exists|r: int, m: int|
            0 <= r < n && 0 <= m < rows[r].len() && rows[r][m].0 == x by {
            assert(header_row(rows, n) =~= Seq::<Seq<char>>::empty());
        }
    } else {
        lemma_header_row(rows, n - 1);
        let ks = sorted_keys(rows[n - 1]);
        lemma_sorted_keys(rows[n - 1]);
        lemma_add_keys(header_row(rows, n - 1), ks, 0);
        assert forall|x: Seq<char>| #[trigger] header_row(rows, n).contains(x) <==> exists|r: int, m: int|
            0 <= r < n && 0 <= m < rows[r].len() && rows[r][m].0 == x by {
            if header_row(rows, n).contains(x) && !header_row(rows, n - 1).contains(x) {
                let t = choose|t: int| 0 <= t < ks.len() && ks[t] == x;
                let m = choose|m: int| 0 <= m < rows[n - 1].len() && (#[trigger] rows[n - 1][m]).0 == ks[t];
                assert(rows[n - 1][m].0 == x);
            }
            if exists|r: int, m: int| 0 <= r < n && 0 <= m < rows[r].len() && rows[r][m].0 == x {
                let (r, m) = choose|r: int, m: int| 0 <= r < n && 0 <= m < rows[r].len() && rows[r][m].0 == x;
                if r == n - 1 {
                    assert(ks.contains(rows[r][m].0));
                    let t = choose|t: int| 0 <= t < ks.len() && ks[t] == x;
                    assert(exists|u: int| 0 <= u < ks.len() && ks[u] == x);
                } else {
                    assert(exists|r2: int, m2: int| 0 <= r2 < n - 1 && 0 <= m2 < rows[r2].len() && rows[r2][m2].0 == x);
                }
            }
        }
    }
}

/// Writing records as CSV, the header row names every key of every record
/// exactly once and nothing else; one line follows per record, its field
/// under each header being that record's cell for the key.
pub proof fn law_csv_header_names_every_key_once(rows: Seq<Row>)
    ensures
        ({
            let hs = header_row(rows, rows.len() as int);
            &&& no_repeats(hs)
            &&& forall|r: int, m: int| 0 <= r < rows.len() && 0 <= m < rows[r].len() ==> hs.contains(#[trigger] rows[r][m].0)
            &&& forall|k: int| 0 <= k < hs.len() ==> exists|r: int, m: int|
                0 <= r < rows.len() && 0 <= m < rows[r].len() && rows[r][m].0 == #[trigger] hs[k]
        }),
{
    lemma_header_row(rows, rows.len() as int);
    let hs = header_row(rows, rows.len() as int);
    assert forall|r: int, m: int| 0 <= r < rows.len() && 0 <= m < rows[r].len() implies hs.contains(#[trigger] rows[r][m].0) by {
        assert(exists|r2: int, m2: int| 0 <= r2 < rows.len() && 0 <= m2 < rows[r2].len() && rows[r2][m2].0 == rows[r][m].0);
    }
    assert forall|k: int| 0 <= k < hs.len() implies exists|r: int, m: int|
        0 <= r < rows.len() && 0 <= m < rows[r].len() && rows[r][m].0 == #[trigger] hs[k] by {
        assert(hs.contains(hs[k]));
    }
}

/// The CSV field for column `h` of record `r`: a string as it stands, the
/// compact JSON text of any other value, and empty when absent (or null,
/// when `null_empty`).
pub open spec fn cell(r: Row, h: Seq<char>, null_empty: bool) -> Seq<char> {
    match field(r, h) {
        None => Seq::empty(),
        Some(Json::Str(s)) => s,
        Some(Json::Null) => if null_empty { Seq::empty() } else { json_text(Json::Null) },
        Some(v) => json_text(v),
    }
}

/// The CSV document for `rows`: the header row, then one line per record;
/// nothing at all for no records.
pub open spec fn rows_csv(rows: Seq<Row>, null_empty: bool) -> Seq<u8> {
    if rows.len() == 0 {
        Seq::empty()
    } else {
        let hs = header_row(rows, rows.len() as int);
        csv_bytes(seq![hs] + Seq::new(rows.len(), |i: int| Seq::new(hs.len(), |k: int| cell(rows[i], hs[k], null_empty))))
    }
}

/// The lines written for `rows` under the header `hs`.
pub open spec fn csv_lines(rows: Seq<Row>, hs: Seq<Seq<char>>, null_empty: bool) -> Seq<Seq<Seq<char>>> {
    Seq::new(rows.len(), |i: int| Seq::new(hs.len(), |k: int| cell(rows[i], hs[k], null_empty)))
}

/// Writing records as CSV gives nothing for no records; otherwise the
/// header row, then exactly one line per record, in order, each with one
/// field per header: the record's string there as it stands, empty where
/// it lacks the key (or holds null, when `null_empty`), and any other value
/// as its compact JSON text.
pub proof fn law_csv_lines(rows: Seq<Row>, null_empty: bool)
    ensures
        rows.len() == 0 ==> rows_csv(rows, null_empty) == Seq::<u8>::empty(),
        rows.len() > 0 ==> ({
            let hs = header_row(rows, rows.len() as int);
            let lines = csv_lines(rows, hs, null_empty);
            &&& rows_csv(rows, null_empty) == csv_bytes(seq![hs] + lines)
            &&& lines.len() == rows.len()
            &&& forall|i: int| 0 <= i < rows.len() ==> (#[trigger] lines[i]).len() == hs.len()
            &&& forall|i: int, k: int|
                0 <= i < rows.len() && 0 <= k < hs.len() ==> #[trigger] lines[i][k] == cell(rows[i], hs[k], null_empty)
        }),
{
    if rows.len() > 0 {
        let hs = header_row(rows, rows.len() as int);
        assert(Seq::new(rows.len(), |i: int| Seq::new(hs.len(), |k: int| cell(rows[i], hs[k], null_empty))) =~= csv_lines(
            rows,
            hs,
            null_empty,
        ));
    }
}

/// The record of a value: an object's members, or none.
pub open spec fn as_row(v: Json) -> Row {
    match v {
        Json::Object(es) => es,
        _ => Seq::empty(),
    }
}

/// The characters of each of `v`.
pub open spec fn views(v: Seq<Vec<char>>) -> Seq<Seq<char>> {
    Seq::new(v.len(), |i: int| v[i]@)
}

fn contains_key(hs: &Vec<Vec<char>>, k: &Vec<char>) -> (r: bool)
    ensures
        r == views(hs@).contains(k@),
{
    let mut i: usize = 0;
    while i < hs.len()
        invariant
            i <= hs@.len(),
            forall|j: int| 0 <= j < i ==> hs@[j]@ != k@,
        decreases hs@.len() - i,
    {
        if same_chars(&hs[i], k) {
            assert(views(hs@)[i as int] == k@);
            return true;
        }
        i = i + 1;
    }
    proof {
        if views(hs@).contains(k@) {
            let j = choose|j: int| 0 <= j < views(hs@).len() && views(hs@)[j] == k@;
            assert(hs@[j]@ == k@);
        }
    }
    false
}

/// The header row for `rows`.
fn headers_of(rows: &Vec<&Vec<(String, JsonValue)>>) -> (hs: Vec<Vec<char>>)
    ensures
        views(hs@) == header_row(Seq::new(rows@.len(), |i: int| members_json(rows@[i]@)), rows@.len() as int),
{
    let ghost rs = Seq::new(rows@.len(), |i: int| members_json(rows@[i]@));
    let mut hs: Vec<Vec<char>> = Vec::new();
    let mut n: usize = 0;
    assert(views(hs@) =~= Seq::<Seq<char>>::empty());
    while n < rows.len()
        invariant
            n <= rows@.len(),
            rs == Seq::new(rows@.len(), |i: int| members_json(rows@[i]@)),
            views(hs@) == header_row(rs, n as int),
        decreases rows@.len() - n,
    {
        let row = rows[n];
        let ord = member_order(row);
        let ghost r = members_json(row@);
        let ghost ks = sorted_keys(r);
        let ghost start = views(hs@);
        let mut j: usize = 0;
        assert(ord@.map_values(|i: usize| i as int) == key_order(r));
        while j < ord.len()
            invariant
                j <= ord@.len(),
                ord@.len() == row@.len(),
                r == members_json(row@),
                ks == sorted_keys(r),
                forall|t: int| 0 <= t < ord@.len() ==> ord@[t] < row@.len(),
                ord@.map_values(|i: usize| i as int) == key_order(r),
                add_keys(start, ks, 0) == add_keys(views(hs@), ks, j as int),
            decreases ord@.len() - j,
        {
            let k = chars_of(row[ord[j]].0.as_str());
            assert(ks[j as int] == k@) by {
                assert(key_order(r)[j as int] == ord@[j as int] as int);
            }
            if !contains_key(&hs, &k) {
                let ghost before = views(hs@);
                hs.push(k);
                assert(views(hs@) =~= before.push(ks[j as int]));
            }
            j = j + 1;
        }
        proof {
            assert(rs[n as int] == r);
        }
        n = n + 1;
    }
    hs
}

/// The CSV field for column `h` of `row`.
fn cell_text(row: &Vec<(String, JsonValue)>, h: &Vec<char>, null_empty: bool) -> (s: String)
    ensures
        s@ == cell(members_json(row@), h@, null_empty),
{
    match crate::transform::row_get(row, h) {
        None => String::new(),
        Some(JsonValue::String(t)) => t.clone(),
        Some(JsonValue::Null) => {
            if null_empty {
                String::new()
            } else {
                json_to_text(&JsonValue::Null)
            }
        },
        Some(v) => json_to_text(v),
    }
}

/// Writes `rows` as CSV (see [`rows_csv`]).
fn write_rows(rows: &Vec<&Vec<(String, JsonValue)>>, null_empty: bool) -> (bytes: Vec<u8>)
    ensures
        bytes@ == rows_csv(Seq::new(rows@.len(), |i: int| members_json(rows@[i]@)), null_empty),
{
    let ghost rs = Seq::new(rows@.len(), |i: int| members_json(rows@[i]@));
    if rows.len() == 0 {
        return Vec::new();
    }
    let hs = headers_of(rows);
    let ghost hv = views(hs@);
    let mut header: Vec<String> = Vec::new();
    let mut k: usize = 0;
    while k < hs.len()
        invariant
            k <= hs@.len(),
            header@.len() == k,
            forall|t: int| 0 <= t < k ==> #[trigger] header@[t]@ == hs@[t]@,
        decreases hs@.len() - k,
    {
        header.push(string_of(&hs[k]));
        k = k + 1;
    }
    assert(texts(header@) =~= hv);
    let mut w = new_writer();
    write_record(&mut w, &header);
    assert(csv_written(w) =~= csv_record_bytes(hv)) by {
        assert(Seq::<u8>::empty() + csv_record_bytes(texts(header@)) =~= csv_record_bytes(hv));
    }
    let ghost mut written: Seq<Seq<Seq<char>>> = seq![hv];
    assert(written.drop_last() =~= Seq::<Seq<Seq<char>>>::empty());
    assert(written.last() == hv);
    assert(csv_bytes(Seq::<Seq<Seq<char>>>::empty()) =~= Seq::<u8>::empty());
    assert(csv_bytes(written) == csv_bytes(written.drop_last()) + csv_record_bytes(written.last()));
    assert(csv_bytes(written) =~= csv_record_bytes(hv));
    let ghost lines = Seq::new(rs.len(), |i: int| Seq::new(hv.len(), |k: int| cell(rs[i], hv[k], null_empty)));
    let mut i: usize = 0;
    while i < rows.len()
        invariant
            i <= rows@.len(),
            rs == Seq::new(rows@.len(), |i: int| members_json(rows@[i]@)),
            hv == views(hs@),
            lines == Seq::new(rs.len(), |i: int| Seq::new(hv.len(), |k: int| cell(rs[i], hv[k], null_empty))),
            csv_width(w) == Some(hv.len()),
            csv_written(w) == csv_bytes(written),
            written == seq![hv] + lines.take(i as int),
        decreases rows@.len() - i,
    {
        let mut line: Vec<String> = Vec::new();
        let mut k: usize = 0;
        while k < hs.len()
            invariant
                k <= hs@.len(),
                hv == views(hs@),
                i < rows@.len(),
                line@.len() == k,
                forall|t: int| 0 <= t < k ==> #[trigger] line@[t]@ == cell(members_json(rows@[i as int]@), hv[t], null_empty),
            decreases hs@.len() - k,
        {
            line.push(cell_text(rows[i], &hs[k], null_empty));
            k = k + 1;
        }
        assert(texts(line@) =~= lines[i as int]);
        write_record(&mut w, &line);
        proof {
            let old_written = written;
            written = written.push(lines[i as int]);
            assert(written.drop_last() =~= old_written);
            assert(written =~= seq![hv] + lines.take(i + 1));
        }
        i = i + 1;
    }
    assert(lines.take(rows@.len() as int) =~= lines);
    finish(w)
}

/// A JSON array of objects as CSV: the header row holds every key once, in
/// the order first met; strings are written as they stand, null and absent
/// fields empty, other values as compact JSON. No records give no output.
pub fn json_records_to_csv(records: &Vec<Vec<(String, JsonValue)>>) -> (bytes: Vec<u8>)
    ensures
        bytes@ == rows_csv(Seq::new(records@.len(), |i: int| members_json(records@[i]@)), true),
{
    let mut rows: Vec<&Vec<(String, JsonValue)>> = Vec::new();
    let mut i: usize = 0;
    while i < records.len()
        invariant
            i <= records@.len(),
            rows@.len() == i,
            forall|t: int| 0 <= t < i ==> #[trigger] rows@[t] == &records@[t],
        decreases records@.len() - i,
    {
        rows.push(&records[i]);
        i = i + 1;
    }
    let bytes = write_rows(&rows, true);
    assert(Seq::new(rows@.len(), |i: int| members_json(rows@[i]@)) =~= Seq::new(records@.len(), |i: int| members_json(records@[i]@)));
    bytes
}

/// JSON values as CSV, objects giving the columns: the header row holds
/// every key once, in the order first met; strings are written as they
/// stand, absent fields empty, other values (null too) as compact JSON.
pub fn json_objects_to_csv(objects: &Vec<JsonValue>) -> (bytes: Vec<u8>)
    ensures
        bytes@ == rows_csv(Seq::new(objects@.len(), |i: int| as_row(objects@[i].json())), false),
{
    let empty: Vec<(String, JsonValue)> = Vec::new();
    let mut rows: Vec<&Vec<(String, JsonValue)>> = Vec::new();
    let mut i: usize = 0;
    while i < objects.len()
        invariant
            i <= objects@.len(),
            empty@.len() == 0,
            rows@.len() == i,
            forall|t: int| 0 <= t < i ==> #[trigger] members_json(rows@[t]@) == as_row(objects@[t].json()),
        decreases objects@.len() - i,
    {
        match &objects[i] {
            JsonValue::Object(es) => {
                proof {
                    lemma_object_json(*es);
                }
                rows.push(es);
            },
            _ => {
                assert(members_json(empty@) =~= Seq::<(Seq<char>, Json)>::empty());
                rows.push(&empty);
            },
        }
        i = i + 1;
    }
    let bytes = write_rows(&rows, false);
    assert(Seq::new(rows@.len(), |i: int| members_json(rows@[i]@)) =~= Seq::new(objects@.len(), |i: int| as_row(objects@[i].json())));
    bytes
}


// ---------------------------------------------------------------------------
// Text lists and CSV
// ---------------------------------------------------------------------------

/// A text list as single-column CSV under the header `value`; `None` when
/// the list is not UTF-8.
pub open spec fn text_list_csv(data: Seq<u8>) -> Option<Seq<u8>> {
    match text_list_values(data) {
        None => None,
        Some(vs) => Some(csv_bytes(seq![seq!["value"@]] + Seq::new(vs.len(), |i: int| seq![vs[i]]))),
    }
}

/// A text list as single-column CSV under the header `value`.
pub fn text_list_to_csv(data: &[u8]) -> (r: Result<Vec<u8>, ConvertError>)
    ensures
        match text_list_csv(data@) {
            Some(b) => r matches Ok(x) && x@ == b,
            None => r matches Err(e) && e.fault() == ConvertFault::NotUtf8(utf8_error_text(data@)),
        },
{
    let items = match decode_textable_list(data) {
        Ok(v) => v,
        Err(reason) => {
            return Err(ConvertError::NotUtf8 { reason });
        },
    };
    let ghost vs = text_list_values(data@)->0;
    let ghost lines = seq![seq!["value"@]] + Seq::new(vs.len(), |i: int| seq![vs[i]]);
    let mut header: Vec<String> = Vec::new();
    header.push(string_of(&chars_of("value")));
    assert(texts(header@) =~= seq!["value"@]);
    let mut w = new_writer();
    write_record(&mut w, &header);
    let mut i: usize = 0;
    assert(lines.take(1) =~= seq![seq!["value"@]]);
    assert(csv_bytes(lines.take(1)) =~= csv_record_bytes(seq!["value"@])) by {
        assert(lines.take(1).drop_last() =~= Seq::<Seq<Seq<char>>>::empty());
        assert(csv_bytes(Seq::<Seq<Seq<char>>>::empty()) =~= Seq::<u8>::empty());
    }
    assert(csv_written(w) =~= csv_bytes(lines.take(1)));
    while i < items.len()
        invariant
            i <= items@.len(),
            items@.len() == vs.len(),
            forall|t: int| 0 <= t < vs.len() ==> #[trigger] items@[t]@ == vs[t],
            lines == seq![seq!["value"@]] + Seq::new(vs.len(), |i: int| seq![vs[i]]),
            csv_width(w) == Some(1nat),
            csv_written(w) == csv_bytes(lines.take(i + 1)),
        decreases items@.len() - i,
    {
        let mut one: Vec<String> = Vec::new();
        one.push(items[i].clone());
        assert(texts(one@) =~= lines[i + 1]);
        write_record(&mut w, &one);
        assert(lines.take(i + 2).drop_last() =~= lines.take(i + 1));
        i = i + 1;
    }
    assert(lines.take(items@.len() as int + 1) =~= lines);
    Ok(finish(w))
}

/// The first field of each record (or nothing, for a record with no
/// field) of the first `n` records; or the first unreadable one.
pub open spec fn first_fields(recs: Seq<Result<Seq<Seq<char>>, Seq<char>>>, n: int) -> Result<Seq<Seq<char>>, ConvertFault>
    decreases n,
{
    if n <= 0 || n > recs.len() {
        Ok(Seq::empty())
    } else {
        match first_fields(recs, n - 1) {
            Err(e) => Err(e),
            Ok(done) => match recs[n - 1] {
                Err(reason) => Err(ConvertFault::RowUnreadable(n - 1, reason)),
                Ok(f) => Ok(done.push(if f.len() > 0 { f[0] } else { Seq::empty() })),
            },
        }
    }
}

proof fn lemma_first_fields_stay(recs: Seq<Result<Seq<Seq<char>>, Seq<char>>>, k: int, m: int)
    requires
        0 <= k <= m <= recs.len(),
        first_fields(recs, k) is Err,
    ensures
        first_fields(recs, m) == first_fields(recs, k),
    decreases m - k,
{
    if m > k {
        lemma_first_fields_stay(recs, k, m - 1);
    }
}

/// The text list of a CSV document's first column (the header row left
/// out); or why not.
pub open spec fn csv_text_list(data: Seq<u8>) -> Result<Seq<u8>, ConvertFault> {
    let recs = csv_strict_table(without_bom(data)).1;
    match first_fields(recs, recs.len() as int) {
        Err(e) => Err(e),
        Ok(items) => Ok(encode_utf8(joined(items))),
    }
}

/// The first column of a CSV document (the header row left out) as a text
/// list.
pub fn csv_to_text_list(data: &[u8]) -> (r: Result<Vec<u8>, ConvertError>)
    ensures
        match csv_text_list(data@) {
            Ok(b) => r matches Ok(x) && x@ == b,
            Err(f) => r matches Err(e) && e.fault() == f,
        },
{
    let body = strip_utf8_bom(data);
    let (headers, rows) = read_strict_table(body);
    let ghost recs = csv_strict_table(body@).1;
    assert(recs == strict_view((headers, rows)).1);
    let mut items: Vec<String> = Vec::new();
    let mut i: usize = 0;
    while i < rows.len()
        invariant
            i <= rows@.len(),
            recs == strict_view((headers, rows)).1,
            recs == csv_strict_table(without_bom(data@)).1,
            first_fields(recs, i as int) matches Ok(done) && done == Seq::new(items@.len(), |t: int| items@[t]@),
        decreases rows@.len() - i,
    {
        match &rows[i] {
            Err(reason) => {
                proof {
                    lemma_first_fields_stay(recs, i + 1, recs.len() as int);
                }
                return Err(ConvertError::RowUnreadable { record: i, reason: reason.clone() });
            },
            Ok(f) => {
                let ghost before = Seq::new(items@.len(), |t: int| items@[t]@);
                if f.len() > 0 {
                    items.push(f[0].clone());
                } else {
                    items.push(String::new());
                }
                assert(Seq::new(items@.len(), |t: int| items@[t]@) =~= before.push(
                    if texts(f@).len() > 0 { texts(f@)[0] } else { Seq::empty() },
                ));
            },
        }
        i = i + 1;
    }
    Ok(encode_textable_list(&items))
}

/// The objects of one CSV item: each record's fields paired with the
/// header row (as far as both go), as strings.
pub open spec fn item_object(headers: Seq<Seq<char>>, fields: Seq<Seq<char>>, n: int) -> Row
    decreases n,
{
    if n <= 0 || n > fields.len() || n > headers.len() {
        Seq::empty()
    } else {
        upsert(item_object(headers, fields, n - 1), headers[n - 1], Json::Str(fields[n - 1]))
    }
}

/// The objects of the first `n` records of one CSV item.
pub open spec fn item_objects(headers: Seq<Seq<char>>, recs: Seq<Result<Seq<Seq<char>>, Seq<char>>>, n: int) -> Result<Seq<Json>, ConvertFault>
    decreases n,
{
    if n <= 0 || n > recs.len() {
        Ok(Seq::empty())
    } else {
        match item_objects(headers, recs, n - 1) {
            Err(e) => Err(e),
            Ok(done) => match recs[n - 1] {
                Err(reason) => Err(ConvertFault::RowUnreadable(n - 1, reason)),
                Ok(f) => Ok(
                    done.push(
                        Json::Object(item_object(headers, f, if f.len() < headers.len() { f.len() as int } else { headers.len() as int })),
                    ),
                ),
            },
        }
    }
}

proof fn lemma_items_stay(headers: Seq<Seq<char>>, recs: Seq<Result<Seq<Seq<char>>, Seq<char>>>, k: int, m: int)
    requires
        0 <= k <= m <= recs.len(),
        item_objects(headers, recs, k) is Err,
    ensures
        item_objects(headers, recs, m) == item_objects(headers, recs, k),
    decreases m - k,
{
    if m > k {
        lemma_items_stay(headers, recs, k, m - 1);
    }
}

/// The records of one CSV item (a byte-order mark skipped), every field a
/// string; or why not.
pub open spec fn csv_item(data: Seq<u8>) -> Result<Seq<Json>, ConvertFault> {
    let (hdr, recs) = csv_strict_table(without_bom(data));
    match hdr {
        Err(reason) => Err(ConvertFault::HeaderUnreadable(reason)),
        Ok(h) => item_objects(h, recs, recs.len() as int),
    }
}

/// The records of one CSV item: each record's fields paired with the header
/// row, as strings.
pub fn csv_item_objects(data: &[u8]) -> (r: Result<Vec<JsonValue>, ConvertError>)
    ensures
        match csv_item(data@) {
            Ok(vs) => r matches Ok(x) && x@.len() == vs.len() && forall|i: int|
                0 <= i < vs.len() ==> #[trigger] x@[i].json() == vs[i],
            Err(f) => r matches Err(e) && e.fault() == f,
        },
{
    let body = strip_utf8_bom(data);
    let (headers, rows) = read_strict_table(body);
    let ghost recs = strict_view((headers, rows)).1;
    let headers = match headers {
        Err(reason) => {
            return Err(ConvertError::HeaderUnreadable { reason });
        },
        Ok(h) => h,
    };
    let ghost hs = texts(headers@);
    let mut keys: Vec<Vec<char>> = Vec::new();
    let mut k: usize = 0;
    while k < headers.len()
        invariant
            k <= headers@.len(),
            keys@.len() == k,
            forall|j: int| 0 <= j < k ==> #[trigger] keys@[j]@ == headers@[j]@,
        decreases headers@.len() - k,
    {
        keys.push(chars_of(headers[k].as_str()));
        k = k + 1;
    }
    let mut out: Vec<JsonValue> = Vec::new();
    let mut i: usize = 0;
    while i < rows.len()
        invariant
            i <= rows@.len(),
            hs == texts(headers@),
            keys@.len() == headers@.len(),
            forall|j: int| 0 <= j < keys@.len() ==> #[trigger] keys@[j]@ == hs[j],
            recs == strict_view((Ok::<Vec<String>, String>(headers), rows)).1,
            csv_strict_table(body@) == (Ok::<Seq<Seq<char>>, Seq<char>>(hs), recs),
            body@ == without_bom(data@),
            item_objects(hs, recs, i as int) matches Ok(done) && done.len() == out@.len() && forall|j: int|
                0 <= j < out@.len() ==> #[trigger] out@[j].json() == done[j],
        decreases rows@.len() - i,
    {
        let fields = match &rows[i] {
            Err(reason) => {
                proof {
                    lemma_items_stay(hs, recs, i + 1, recs.len() as int);
                }
                return Err(ConvertError::RowUnreadable { record: i, reason: reason.clone() });
            },
            Ok(f) => f,
        };
        let ghost fs = texts(fields@);
        let n = if fields.len() < keys.len() { fields.len() } else { keys.len() };
        let mut obj: Vec<(String, JsonValue)> = Vec::new();
        let mut j: usize = 0;
        proof {
            assert(members_json(obj@) =~= Seq::<(Seq<char>, Json)>::empty());
        }
        while j < n
            invariant
                j <= n,
                n <= fields@.len(),
                n <= keys@.len(),
                fs == texts(fields@),
                keys@.len() == hs.len(),
                forall|t: int| 0 <= t < keys@.len() ==> #[trigger] keys@[t]@ == hs[t],
                item_object(hs, fs, j as int) == members_json(obj@),
            decreases n - j,
        {
            row_insert(&mut obj, &keys[j], JsonValue::String(fields[j].clone()));
            j = j + 1;
        }
        proof {
            lemma_object_json(obj);
        }
        out.push(JsonValue::Object(obj));
        i = i + 1;
    }
    Ok(out)
}

/// The sentence that reports fault `f`.
pub open spec fn convert_message(f: ConvertFault) -> Seq<char> {
    match f {
        ConvertFault::NotUtf8(reason) => "Textable list is not valid UTF-8: "@ + reason,
        ConvertFault::HeaderUnreadable(reason) => "Failed to read CSV headers: "@ + reason,
        ConvertFault::NoHeaders => "CSV has no headers"@,
        ConvertFault::RowUnreadable(_, reason) => "Failed to read CSV row: "@ + reason,
        ConvertFault::TooManyFields(_) => "CSV row has more fields than headers"@,
    }
}

impl ConvertError {
    /// The sentence that reports this error.
    pub fn message(&self) -> (m: String)
        ensures
            m@ == convert_message(self.fault()),
    {
        let mut out: Vec<char> = Vec::new();
        match self {
            ConvertError::NotUtf8 { reason } => {
                push_text(&mut out, "Textable list is not valid UTF-8: ");
                push_text(&mut out, reason.as_str());
            },
            ConvertError::HeaderUnreadable { reason } => {
                push_text(&mut out, "Failed to read CSV headers: ");
                push_text(&mut out, reason.as_str());
            },
            ConvertError::NoHeaders => {
                push_text(&mut out, "CSV has no headers");
            },
            ConvertError::RowUnreadable { reason, .. } => {
                push_text(&mut out, "Failed to read CSV row: ");
                push_text(&mut out, reason.as_str());
            },
            ConvertError::TooManyFields { .. } => {
                push_text(&mut out, "CSV row has more fields than headers");
            },
        }
        assert(out@ =~= convert_message(self.fault()));
        string_of(&out)
    }
}

// ---------------------------------------------------------------------------
// Laws
// ---------------------------------------------------------------------------

/// The text a typed CSV field is written back as: nothing for null, the
/// literal of a number, `true`/`false`, a string's characters.
pub open spec fn field_text(j: Json) -> Seq<char> {
    match j {
        Json::Null => Seq::empty(),
        Json::Bool(b) => if b { "true"@ } else { "false"@ },
        Json::Number(t) => t,
        Json::Str(s) => s,
        _ => Seq::empty(),
    }
}

/// Typing a CSV field loses nothing: the typed value is written back as the
/// very field it came from, and a field becomes a number only when the
/// number's canonical text is the field itself.
pub proof fn law_csv_inference_lossless(f: Seq<char>)
    ensures
        field_text(inferred(f)) == f,
        inferred(f) matches Json::Number(t) ==> t == f && (
        (parse_i64_spec(f) matches Some(n) && int_text(n as int) == f) || float_number_text(f) == f),
{
}

/// The UTF-8 byte-order mark.
pub open spec fn bom() -> Seq<u8> {
    seq![0xEFu8, 0xBBu8, 0xBFu8]
}

/// A byte-order mark in front of a CSV document changes nothing: the
/// records, keys included, are those of the document without it.
pub proof fn law_bom_never_reaches_the_keys(data: Seq<u8>)
    requires
        !(data.len() >= 3 && data[0] == 0xEF && data[1] == 0xBB && data[2] == 0xBF),
    ensures
        csv_records(bom() + data) == csv_records(data),
        csv_item(bom() + data) == csv_item(data),
        csv_text_list(bom() + data) == csv_text_list(data),
{
    assert((bom() + data).skip(3) =~= data);
    assert(without_bom(bom() + data) == data);
    assert(without_bom(data) == data);
}

} // verus!
