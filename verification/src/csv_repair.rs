//! CSV repair: a byte-order mark is removed and rows shorter than the
//! header are padded out to its width, each fix recorded; a row longer than
//! the header is refused, naming the row. The output is written anew by a
//! strict CSV writer.

use vstd::prelude::*;
use crate::repair::{BOM_REMOVED, RepairAction, actions_view, has_bom, in_order};
use crate::text::{chars_of, decimal, decimal_chars, push_chars, push_decimal, push_text, string_of};

verus! {

// ---------------------------------------------------------------------------
// The csv crate
// ---------------------------------------------------------------------------

/// A `csv::Writer` into memory, held opaquely: Verus does not take the
/// declaration of `csv::Writer`, whose parameter is bound by `io::Write`.
#[verifier::external_body]
pub struct CsvOut {
    inner: csv::Writer<Vec<u8>>,
}

/// A name for what a flexible `csv::Reader` reads from `body`: the header
/// row and, in order, each further record with the byte offset it starts
/// at; where one is unreadable, the text of the reader's error instead.
pub uninterp spec fn csv_table(body: Seq<u8>) -> (Result<Seq<Seq<char>>, Seq<char>>, Seq<Result<(Seq<Seq<char>>, int), Seq<char>>>);

/// A name for the bytes a `csv::Writer` (default settings) writes for one
/// record.
pub uninterp spec fn csv_record_bytes(fields: Seq<Seq<char>>) -> Seq<u8>;

/// A name for the bytes a `csv::Writer` has been given so far.
pub uninterp spec fn csv_written(w: CsvOut) -> Seq<u8>;

/// A name for the number of fields of the first record a `csv::Writer`
/// wrote (`None` before it wrote one).
pub uninterp spec fn csv_width(w: CsvOut) -> Option<nat>;

/// The characters of each of `v`.
pub open spec fn texts(v: Seq<String>) -> Seq<Seq<char>> {
    Seq::new(v.len(), |i: int| v[i]@)
}

/// The plain value of what [`read_table`] hands out.
pub open spec fn table_view(t: (Result<Vec<String>, String>, Vec<Result<(Vec<String>, u64), String>>)) -> (
    Result<Seq<Seq<char>>, Seq<char>>,
    Seq<Result<(Seq<Seq<char>>, int), Seq<char>>>,
) {
    (
        match t.0 {
            Ok(h) => Ok(texts(h@)),
            Err(e) => Err(e@),
        },
        Seq::new(
            t.1@.len(),
            |i: int|
                match t.1@[i] {
                    Ok((f, p)) => Ok((texts(f@), p as int)),
                    Err(e) => Err(e@),
                },
        ),
    )
}

/// `csv::ReaderBuilder::new().flexible(true).from_reader(body)`, then its
/// `headers` and its `records` with their `position().byte()`, each handed
/// out as plain values, an error as its `Display` text. What is read is
/// named, not stated; of the records' offsets, only that they lie within
/// `body` and never decrease (the reader counts the bytes it consumed).
#[verifier::external_body]
pub(crate) fn read_table(body: &[u8]) -> (r: (Result<Vec<String>, String>, Vec<Result<(Vec<String>, u64), String>>))
    ensures
        table_view(r) == csv_table(body@),
        forall|i: int|
            0 <= i < r.1@.len() ==> match #[trigger] r.1@[i] {
                Ok((_, p)) => p <= body@.len(),
                Err(_) => true,
            },
        offsets_ascend(r.1@),
{
    let mut reader = csv::ReaderBuilder::new().flexible(true).from_reader(body);
    let headers = reader.headers().map(|h| h.iter().map(|f| f.to_string()).collect()).map_err(|e| e.to_string());
    let rows = reader
        .records()
        .map(|r| r.map(|rec| (rec.iter().map(|f| f.to_string()).collect(), rec.position().map(|p| p.byte()).unwrap_or(0))).map_err(|e| e.to_string()))
        .collect();
    (headers, rows)
}

/// Whether the offsets of the records read never decrease.
pub open spec fn offsets_ascend(rows: Seq<Result<(Vec<String>, u64), String>>) -> bool {
    forall|i: int, j: int|
        #![trigger rows[i], rows[j]]
        0 <= i < j < rows.len() ==> match (rows[i], rows[j]) {
            (Ok((_, p)), Ok((_, q))) => p <= q,
            _ => true,
        }
}

/// `csv::Writer::from_writer(Vec::new())`: nothing written yet.
#[verifier::external_body]
pub(crate) fn new_writer() -> (w: CsvOut)
    ensures
        csv_written(w) == Seq::<u8>::empty(),
        csv_width(w) is None,
{
    CsvOut { inner: csv::Writer::from_writer(Vec::new()) }
}

/// `csv::Writer::write_record`: a writer that is not flexible, given a
/// record with as many fields as its first one (or its first record),
/// appends the record's bytes. The `requires` rules out a record of another
/// width: the writer refuses it only after buffering some of its fields.
#[verifier::external_body]
pub(crate) fn write_record(w: &mut CsvOut, fields: &Vec<String>)
    requires
        csv_width(*old(w)) is None || csv_width(*old(w)) == Some(fields@.len()),
    ensures
        csv_written(*final(w)) == csv_written(*old(w)) + csv_record_bytes(texts(fields@)),
        csv_width(*final(w)) == Some(fields@.len()),
{
    let _ = w.inner.write_record(fields);
}

/// `csv::Writer::into_inner`: the bytes written (flushing into a `Vec`
/// cannot fail).
#[verifier::external_body]
pub(crate) fn finish(w: CsvOut) -> (bytes: Vec<u8>)
    ensures
        bytes@ == csv_written(w),
{
    match w.inner.into_inner() {
        Ok(bytes) => bytes,
        Err(_) => Vec::new(),
    }
}

// ---------------------------------------------------------------------------
// Repair
// ---------------------------------------------------------------------------

/// Why a CSV document could not be repaired.
#[derive(Debug)]
pub enum CsvRepairError {
    /// The header row is not readable (the reader's error).
    HeaderUnreadable { reason: String },
    /// The input has no header row.
    NoHeader,
    /// The record at index `record` after the header (row `record + 2`,
    /// counting the header as row 1) is not readable (the reader's error).
    RowUnreadable { record: usize, reason: String },
    /// The record at index `record` after the header has more fields than
    /// the header: extra fields are data.
    TooManyFields { record: usize, fields: usize, width: usize },
}

/// The mathematical value of a [`CsvRepairError`].
pub enum CsvFault {
    HeaderUnreadable(Seq<char>),
    NoHeader,
    RowUnreadable(int, Seq<char>),
    TooManyFields(int, int, int),
}

impl CsvRepairError {
    pub open spec fn fault(&self) -> CsvFault {
        match self {
            CsvRepairError::HeaderUnreadable { reason } => CsvFault::HeaderUnreadable(reason@),
            CsvRepairError::NoHeader => CsvFault::NoHeader,
            CsvRepairError::RowUnreadable { record, reason } => CsvFault::RowUnreadable(*record as int, reason@),
            CsvRepairError::TooManyFields { record, fields, width } => CsvFault::TooManyFields(
                *record as int,
                *fields as int,
                *width as int,
            ),
        }
    }
}

/// `fields` padded with empty fields to `width`.
pub open spec fn padded(fields: Seq<Seq<char>>, width: int) -> Seq<Seq<char>> {
    fields + Seq::new((width - fields.len()) as nat, |i: int| Seq::<char>::empty())
}

/// The record of the padding of row `row` from `len` to `width` fields.
pub open spec fn padding_note(row: int, len: int, width: int) -> Seq<char> {
    let missing = width - len;
    "padded row "@ + decimal(row as nat) + " from "@ + decimal(len as nat) + " to "@ + decimal(width as nat)
        + " fields ("@ + decimal(missing as nat) + " empty field"@ + (if missing == 1 {
        Seq::empty()
    } else {
        "s"@
    }) + " appended)"@
}

/// The records from index `i` on, each as written (padded when short), with
/// the fixes; or the first one that cannot be repaired. A fix's position is
/// the record's offset in what the reader read plus `shift`, the number of
/// bytes removed before it.
pub open spec fn repaired_rows(recs: Seq<Result<(Seq<Seq<char>>, int), Seq<char>>>, width: int, shift: int, i: int) -> Result<
    (Seq<Seq<Seq<char>>>, Seq<(int, Seq<char>)>),
    CsvFault,
>
    decreases recs.len() - i,
{
    if i < 0 || i >= recs.len() {
        Ok((Seq::empty(), Seq::empty()))
    } else {
        match recs[i] {
            Err(reason) => Err(CsvFault::RowUnreadable(i, reason)),
            Ok((f, pos)) => if f.len() > width {
                Err(CsvFault::TooManyFields(i, f.len() as int, width))
            } else {
                match repaired_rows(recs, width, shift, i + 1) {
                    Err(e) => Err(e),
                    Ok((rows, notes)) => if f.len() == width {
                        Ok((seq![f] + rows, notes))
                    } else {
                        Ok(
                            (
                                seq![padded(f, width)] + rows,
                                seq![(pos + shift, padding_note(i + 2, f.len() as int, width))] + notes,
                            ),
                        )
                    },
                }
            },
        }
    }
}

/// `r` with the records `rows` and fixes `notes` put before its own.
pub open spec fn prepended(
    rows: Seq<Seq<Seq<char>>>,
    notes: Seq<(int, Seq<char>)>,
    r: Result<(Seq<Seq<Seq<char>>>, Seq<(int, Seq<char>)>), CsvFault>,
) -> Result<(Seq<Seq<Seq<char>>>, Seq<(int, Seq<char>)>), CsvFault> {
    match r {
        Ok((a, b)) => Ok((rows + a, notes + b)),
        Err(e) => Err(e),
    }
}

/// The bytes a strict CSV writer writes for `records`, one after another.
pub open spec fn csv_bytes(records: Seq<Seq<Seq<char>>>) -> Seq<u8>
    decreases records.len(),
{
    if records.len() == 0 {
        Seq::empty()
    } else {
        csv_bytes(records.drop_last()) + csv_record_bytes(records.last())
    }
}

/// The number of bytes a removed byte-order mark took.
pub open spec fn bom_shift(bom: bool) -> int {
    if bom {
        3
    } else {
        0
    }
}

/// What repairing a table as read gives: every record to write, the header
/// first, and the fixes, or why it cannot be repaired. `bom` says whether a
/// byte-order mark was removed before the table was read: that fix comes
/// first, and every other position counts its three bytes.
pub open spec fn table_repair_spec(
    bom: bool,
    table: (Result<Seq<Seq<char>>, Seq<char>>, Seq<Result<(Seq<Seq<char>>, int), Seq<char>>>),
) -> Result<(Seq<Seq<Seq<char>>>, Seq<(int, Seq<char>)>), CsvFault> {
    let first = if bom { seq![(0int, BOM_REMOVED@)] } else { Seq::empty() };
    match table.0 {
        Err(reason) => Err(CsvFault::HeaderUnreadable(reason)),
        Ok(h) => if h.len() == 0 {
            Err(CsvFault::NoHeader)
        } else {
            match repaired_rows(table.1, h.len() as int, bom_shift(bom), 0) {
                Err(e) => Err(e),
                Ok((rows, notes)) => Ok((seq![h] + rows, first + notes)),
            }
        },
    }
}

/// What [`repair_csv`] makes of `input`: the rewritten document and the
/// fixes, or why it cannot be repaired.
pub open spec fn csv_repair_spec(input: Seq<u8>) -> Result<(Seq<u8>, Seq<(int, Seq<char>)>), CsvFault> {
    let body = if has_bom(input) { input.skip(3) } else { input };
    match table_repair_spec(has_bom(input), csv_table(body)) {
        Err(e) => Err(e),
        Ok((rows, notes)) => Ok((csv_bytes(rows), notes)),
    }
}

/// `padding_note`, built.
fn padding_text(row: u128, len: usize, width: usize) -> (s: String)
    requires
        len < width,
    ensures
        s@ == padding_note(row as int, len as int, width as int),
{
    let missing = width - len;
    let mut out: Vec<char> = Vec::new();
    push_chars(&mut out, &chars_of("padded row "));
    push_chars(&mut out, &decimal_chars(row));
    push_chars(&mut out, &chars_of(" from "));
    push_chars(&mut out, &decimal_chars(len as u128));
    push_chars(&mut out, &chars_of(" to "));
    push_chars(&mut out, &decimal_chars(width as u128));
    push_chars(&mut out, &chars_of(" fields ("));
    push_chars(&mut out, &decimal_chars(missing as u128));
    push_chars(&mut out, &chars_of(" empty field"));
    if missing != 1 {
        push_chars(&mut out, &chars_of("s"));
    } else {
        assert(out@ + Seq::<char>::empty() =~= out@);
    }
    push_chars(&mut out, &chars_of(" appended)"));
    string_of(&out)
}

/// The fields of each record of `v`.
pub open spec fn rows_view(v: Seq<Vec<String>>) -> Seq<Seq<Seq<char>>> {
    Seq::new(v.len(), |i: int| texts(v[i]@))
}

/// Whether every record's offset, moved by `shift`, is still a `usize`.
pub open spec fn positions_fit(rows: Seq<Result<(Vec<String>, u64), String>>, shift: int) -> bool {
    forall|i: int|
        0 <= i < rows.len() ==> match #[trigger] rows[i] {
            Ok((_, p)) => p + shift <= usize::MAX,
            Err(_) => true,
        }
}

/// Repairs a table as a flexible CSV reader read it: the header, and each
/// further record with its byte offset. `bom` says whether a byte-order mark
/// was removed from the input before it was read. Rows shorter than the
/// header are padded with empty fields, each fix recorded at the row's
/// offset in the original input; a row longer than the header is refused.
/// Returns every record to write, the header first, and the fixes.
pub fn repair_table(bom: bool, headers: Result<Vec<String>, String>, rows: Vec<Result<(Vec<String>, u64), String>>) -> (r:
    Result<(Vec<Vec<String>>, Vec<RepairAction>), CsvRepairError>)
    requires
        positions_fit(rows@, bom_shift(bom)),
    ensures
        match table_repair_spec(bom, table_view((headers, rows))) {
            Ok((out, notes)) => match r {
                Ok((records, acts)) => rows_view(records@) == out && actions_view(acts@) == notes,
                Err(_) => false,
            },
            Err(f) => match r {
                Ok(_) => false,
                Err(e) => e.fault() == f,
            },
        },
        match r {
            Ok((_, acts)) => offsets_ascend(rows@) ==> in_order(actions_view(acts@), usize::MAX as int),
            Err(_) => true,
        },
        match r {
            Ok((_, acts)) => forall|k: int|
                0 <= k < acts@.len() ==> (#[trigger] acts@[k]).position == 0 || exists|i: int|
                    0 <= i < rows@.len() && (#[trigger] rows@[i] matches Ok((_, p)) && p + bom_shift(bom) == acts@[k].position),
            Err(_) => true,
        },
{
    let ghost tbl = table_view((headers, rows));
    let ghost recs = tbl.1;
    let shift: usize = if bom { 3 } else { 0 };
    let mut repairs: Vec<RepairAction> = Vec::new();
    if bom {
        repairs.push(RepairAction { position: 0, what: BOM_REMOVED.to_owned() });
    }
    let ghost first = actions_view(repairs@);
    proof {
        if bom {
            assert(first =~= seq![(0int, BOM_REMOVED@)]);
        } else {
            assert(first =~= Seq::<(int, Seq<char>)>::empty());
        }
    }
    let hdr: &Vec<String> = match &headers {
        Err(reason) => {
            return Err(CsvRepairError::HeaderUnreadable { reason: reason.clone() });
        },
        Ok(h) => h,
    };
    let width = hdr.len();
    if width == 0 {
        return Err(CsvRepairError::NoHeader);
    }
    let mut out: Vec<Vec<String>> = Vec::new();
    out.push(hdr.clone());
    assert(texts(out@[0]@) =~= texts(hdr@));
    let mut i: usize = 0;
    proof {
        assert(rows_view(out@).drop_first() =~= Seq::<Seq<Seq<char>>>::empty());
        assert(actions_view(repairs@).skip(first.len() as int) =~= Seq::<(int, Seq<char>)>::empty());
        match repaired_rows(recs, width as int, bom_shift(bom), 0) {
            Ok((x, y)) => {
                assert(Seq::<Seq<Seq<char>>>::empty() + x =~= x);
                assert(Seq::<(int, Seq<char>)>::empty() + y =~= y);
            },
            Err(_) => {},
        }
    }
    while i < rows.len()
        invariant
            i <= rows@.len(),
            width == hdr@.len() > 0,
            headers == Ok::<Vec<String>, String>(*hdr),
            shift == bom_shift(bom),
            positions_fit(rows@, bom_shift(bom)),
            first == (if bom { seq![(0int, BOM_REMOVED@)] } else { Seq::<(int, Seq<char>)>::empty() }),
            tbl == table_view((headers, rows)),
            recs == tbl.1,
            tbl.0 == Ok::<Seq<Seq<char>>, Seq<char>>(texts(hdr@)),
            out@.len() == i + 1,
            rows_view(out@)[0] == texts(hdr@),
            first.len() <= actions_view(repairs@).len(),
            actions_view(repairs@).take(first.len() as int) == first,
            repaired_rows(recs, width as int, bom_shift(bom), 0) == prepended(
                rows_view(out@).drop_first(),
                actions_view(repairs@).skip(first.len() as int),
                repaired_rows(recs, width as int, bom_shift(bom), i as int),
            ),
            offsets_ascend(rows@) ==> in_order(actions_view(repairs@), usize::MAX as int),
            offsets_ascend(rows@) ==> forall|k: int, j: int|
                #![trigger repairs@[k], rows@[j]]
                0 <= k < repairs@.len() && i <= j < rows@.len() ==> match rows@[j] {
                    Ok((_, p)) => repairs@[k].position <= p + shift,
                    Err(_) => true,
                },
            forall|k: int|
                0 <= k < repairs@.len() ==> (#[trigger] repairs@[k]).position == 0 || exists|j: int|
                    0 <= j < rows@.len() && (#[trigger] rows@[j] matches Ok((_, p)) && p + bom_shift(bom) == repairs@[k].position),
        decreases rows@.len() - i,
    {
        let ghost pr = rows_view(out@).drop_first();
        let ghost pn = actions_view(repairs@).skip(first.len() as int);
        let ghost old_out = out@;
        let (fields, pos) = match &rows[i] {
            Err(reason) => {
                return Err(CsvRepairError::RowUnreadable { record: i, reason: reason.clone() });
            },
            Ok((f, p)) => (f, *p),
        };
        let n = fields.len();
        if n > width {
            return Err(CsvRepairError::TooManyFields { record: i, fields: n, width });
        }
        let ghost next = repaired_rows(recs, width as int, bom_shift(bom), i + 1);
        if n == width {
            out.push(fields.clone());
            proof {
                assert(rows_view(out@) =~= rows_view(old_out).push(texts(fields@)));
                assert(rows_view(out@).drop_first() =~= pr.push(texts(fields@)));
                match next {
                    Ok((x, y)) => {
                        assert(pr + (seq![texts(fields@)] + x) =~= pr.push(texts(fields@)) + x);
                    },
                    Err(_) => {},
                }
            }
        } else {
            let mut full: Vec<String> = Vec::new();
            let mut k: usize = 0;
            while k < width
                invariant
                    k <= width,
                    n == fields@.len() < width,
                    full@.len() == k,
                    forall|j: int| 0 <= j < k ==> #[trigger] full@[j]@ == padded(texts(fields@), width as int)[j],
                decreases width - k,
            {
                if k < n {
                    full.push(fields[k].clone());
                } else {
                    full.push(String::new());
                }
                k = k + 1;
            }
            assert(texts(full@) =~= padded(texts(fields@), width as int));
            let what = padding_text(i as u128 + 2, n, width);
            assert(match rows@[i as int] {
                Ok((_, p)) => p + bom_shift(bom) <= usize::MAX,
                Err(_) => true,
            });
            let position: usize = pos as usize + shift;
            let ghost note = (pos + bom_shift(bom), padding_note(i + 2, n as int, width as int));
            let ghost before = actions_view(repairs@);
            let ghost old_repairs = repairs@;
            repairs.push(RepairAction { position, what });
            out.push(full);
            proof {
                assert(repairs@[old_repairs.len() as int] == RepairAction { position, what });
                assert forall|k: int|
                    0 <= k < repairs@.len() implies (#[trigger] repairs@[k]).position == 0 || exists|j: int|
                        0 <= j < rows@.len() && (#[trigger] rows@[j] matches Ok((_, p)) && p + bom_shift(bom) == repairs@[k].position) by {
                    if k < old_repairs.len() {
                        assert(repairs@[k] == old_repairs[k]);
                    } else {
                        assert(rows@[i as int] matches Ok((_, p)) && p + bom_shift(bom) == repairs@[k].position);
                    }
                }
                if offsets_ascend(rows@) {
                    assert forall|k: int, j: int|
                        #![trigger repairs@[k], rows@[j]]
                        0 <= k < repairs@.len() && i + 1 <= j < rows@.len() implies match rows@[j] {
                            Ok((_, p)) => repairs@[k].position <= p + shift,
                            Err(_) => true,
                        } by {
                        if k < old_repairs.len() {
                            assert(repairs@[k] == old_repairs[k]);
                        } else {
                            match (rows@[i as int], rows@[j]) {
                                (Ok((_, a)), Ok((_, b))) => {
                                    assert(a <= b);
                                },
                                _ => {},
                            }
                        }
                    }
                    let av = actions_view(repairs@);
                    assert forall|x: int, y: int| #![trigger av[x], av[y]] 0 <= x < y < av.len() implies av[x].0 <= av[y].0 by {
                        if y == av.len() - 1 {
                            assert(repairs@[x] == old_repairs[x]);
                            assert(match rows@[i as int] {
                                Ok((_, p)) => old_repairs[x].position <= p + shift,
                                Err(_) => true,
                            });
                        } else {
                            assert(before[x] == av[x] && before[y] == av[y]);
                        }
                    }
                }
                assert(actions_view(repairs@) =~= before.push(note));
                assert(actions_view(repairs@).take(first.len() as int) =~= before.take(first.len() as int));
                assert(actions_view(repairs@).skip(first.len() as int) =~= pn.push(note));
                assert(rows_view(out@) =~= rows_view(old_out).push(texts(full@)));
                assert(rows_view(out@).drop_first() =~= pr.push(texts(full@)));
                match next {
                    Ok((x, y)) => {
                        assert(pr + (seq![texts(full@)] + x) =~= pr.push(texts(full@)) + x);
                        assert(pn + (seq![note] + y) =~= pn.push(note) + y);
                    },
                    Err(_) => {},
                }
            }
        }
        i = i + 1;
    }
    proof {
        assert(rows_view(out@) =~= seq![texts(hdr@)] + rows_view(out@).drop_first());
        assert(actions_view(repairs@) =~= first + actions_view(repairs@).skip(first.len() as int));
        assert(rows_view(out@).drop_first() + Seq::<Seq<Seq<char>>>::empty() =~= rows_view(out@).drop_first());
        assert(actions_view(repairs@).skip(first.len() as int) + Seq::<(int, Seq<char>)>::empty() =~= actions_view(
            repairs@,
        ).skip(first.len() as int));
    }
    Ok((out, repairs))
}

/// Every record that a successful table repair hands out is as wide as the
/// header, the first.
proof fn lemma_repaired_widths(bom: bool, table: (Result<Seq<Seq<char>>, Seq<char>>, Seq<Result<(Seq<Seq<char>>, int), Seq<char>>>))
    requires
        table_repair_spec(bom, table) is Ok,
    ensures
        ({
            let rows = table_repair_spec(bom, table)->Ok_0.0;
            &&& rows.len() >= 1
            &&& forall|k: int| 0 <= k < rows.len() ==> (#[trigger] rows[k]).len() == rows[0].len()
        }),
{
    let h = table.0->Ok_0;
    law_repair_only_pads(table.1, h.len() as int, bom_shift(bom), 0);
    let rest = repaired_rows(table.1, h.len() as int, bom_shift(bom), 0)->Ok_0.0;
    let rows = table_repair_spec(bom, table)->Ok_0.0;
    assert forall|k: int| 0 <= k < rows.len() implies (#[trigger] rows[k]).len() == rows[0].len() by {
        if k > 0 {
            assert(rows[k] == rest[k - 1]);
            assert(written_as(table.1[0 + (k - 1)], rest[k - 1], h.len() as int));
        }
    }
}

/// Repairs a CSV document: removes a UTF-8 byte-order mark and pads rows
/// shorter than the header with empty fields, recording each fix at its
/// byte offset in `input`; refuses a row longer than the header. The output
/// is written by a strict CSV writer, so quoting comes out normalized. The
/// fixes come in document order, none past the end of `input`.
pub fn repair_csv(input: &[u8]) -> (r: Result<(Vec<u8>, Vec<RepairAction>), CsvRepairError>)
    ensures
        match csv_repair_spec(input@) {
            Ok((out, notes)) => match r {
                Ok((bytes, acts)) => bytes@ == out && actions_view(acts@) == notes,
                Err(_) => false,
            },
            Err(f) => match r {
                Ok(_) => false,
                Err(e) => e.fault() == f,
            },
        },
        match r {
            Ok((_, acts)) => in_order(actions_view(acts@), input@.len() as int),
            Err(_) => true,
        },
{
    let bom = input.len() >= 3 && input[0] == 0xEF && input[1] == 0xBB && input[2] == 0xBF;
    let body = if bom {
        vstd::slice::slice_subrange(input, 3, input.len())
    } else {
        input
    };
    proof {
        if bom {
            assert(body@ =~= input@.skip(3));
        }
    }
    let (headers, rows) = read_table(body);
    let ghost table = table_view((headers, rows));
    assert(positions_fit(rows@, bom_shift(bom))) by {
        assert forall|i: int| 0 <= i < rows@.len() implies match #[trigger] rows@[i] {
            Ok((_, p)) => p + bom_shift(bom) <= usize::MAX,
            Err(_) => true,
        } by {
            match rows@[i] {
                Ok((_, p)) => {
                    assert(p <= body@.len());
                },
                Err(_) => {},
            }
        }
    }
    let ghost rows_read = rows@;
    let (out, repairs) = match repair_table(bom, headers, rows) {
        Err(e) => {
            return Err(e);
        },
        Ok(x) => x,
    };
    proof {
        let av = actions_view(repairs@);
        assert forall|k: int| 0 <= k < av.len() implies 0 <= (#[trigger] av[k]).0 <= input@.len() by {
            assert(av[k].0 == repairs@[k].position);
            if repairs@[k].position != 0 {
                let j = choose|j: int|
                    0 <= j < rows_read.len() && (#[trigger] rows_read[j] matches Ok((_, p)) && p + bom_shift(bom)
                        == repairs@[k].position);
                match rows_read[j] {
                    Ok((_, p)) => {
                        assert(p <= body@.len());
                    },
                    Err(_) => {},
                }
            }
        }
    }
    proof {
        lemma_repaired_widths(bom, table);
    }
    let ghost all = rows_view(out@);
    let mut w = new_writer();
    let mut i: usize = 0;
    while i < out.len()
        invariant
            i <= out@.len(),
            all == rows_view(out@),
            all.len() >= 1,
            forall|k: int| 0 <= k < all.len() ==> (#[trigger] all[k]).len() == all[0].len(),
            i == 0 ==> csv_width(w) is None,
            i > 0 ==> csv_width(w) == Some(all[0].len()),
            csv_written(w) == csv_bytes(all.take(i as int)),
        decreases out@.len() - i,
    {
        assert(all[i as int] == texts(out@[i as int]@));
        write_record(&mut w, &out[i]);
        proof {
            assert(all.take(i + 1).drop_last() =~= all.take(i as int));
            assert(all.take(i + 1).last() == all[i as int]);
        }
        i = i + 1;
    }
    assert(all.take(out@.len() as int) =~= all);
    let bytes = finish(w);
    Ok((bytes, repairs))
}

/// The sentence that reports fault `f`.
pub open spec fn csv_repair_message(f: CsvFault) -> Seq<char> {
    match f {
        CsvFault::HeaderUnreadable(reason) => "repair-csv: header row is unreadable: "@ + reason,
        CsvFault::NoHeader => "repair-csv: input has no header row"@,
        CsvFault::RowUnreadable(record, reason) => "repair-csv: row "@ + decimal((record + 2) as nat)
            + " is unreadable ("@ + reason + ") — this shape cannot be repaired without guessing"@,
        CsvFault::TooManyFields(record, fields, width) => "repair-csv: row "@ + decimal((record + 2) as nat)
            + " has "@ + decimal(fields as nat) + " fields but the header has "@ + decimal(width as nat)
            + " — extra fields are data; merging or dropping them would be a guess. Fix the source (usually an unquoted delimiter)"@,
    }
}

impl CsvRepairError {
    /// The sentence that reports this error.
    pub fn message(&self) -> (m: String)
        ensures
            m@ == csv_repair_message(self.fault()),
    {
        let mut out: Vec<char> = Vec::new();
        match self {
            CsvRepairError::HeaderUnreadable { reason } => {
                push_text(&mut out, "repair-csv: header row is unreadable: ");
                push_text(&mut out, reason.as_str());
            },
            CsvRepairError::NoHeader => {
                push_text(&mut out, "repair-csv: input has no header row");
            },
            CsvRepairError::RowUnreadable { record, reason } => {
                push_text(&mut out, "repair-csv: row ");
                push_decimal(&mut out, *record as u128 + 2);
                push_text(&mut out, " is unreadable (");
                push_text(&mut out, reason.as_str());
                push_text(&mut out, ") — this shape cannot be repaired without guessing");
            },
            CsvRepairError::TooManyFields { record, fields, width } => {
                push_text(&mut out, "repair-csv: row ");
                push_decimal(&mut out, *record as u128 + 2);
                push_text(&mut out, " has ");
                push_decimal(&mut out, *fields as u128);
                push_text(&mut out, " fields but the header has ");
                push_decimal(&mut out, *width as u128);
                push_text(
                    &mut out,
                    " — extra fields are data; merging or dropping them would be a guess. Fix the source (usually an unquoted delimiter)",
                );
            },
        }
        assert(out@ =~= csv_repair_message(self.fault()));
        string_of(&out)
    }
}

// ---------------------------------------------------------------------------
// Laws
// ---------------------------------------------------------------------------

/// Whether `row` is record `rec` as read, padded with empty fields to
/// `width`, no wider than `width` to begin with.
pub open spec fn written_as(rec: Result<(Seq<Seq<char>>, int), Seq<char>>, row: Seq<Seq<char>>, width: int) -> bool {
    match rec {
        Ok((f, _)) => f.len() <= width && row == padded(f, width) && row.len() == width,
        Err(_) => false,
    }
}

/// A repair that succeeds writes every record, in order, as read with empty
/// fields appended up to the header's width: no field is dropped, moved or
/// changed, and every record comes out exactly as wide as the header.
pub proof fn law_repair_only_pads(recs: Seq<Result<(Seq<Seq<char>>, int), Seq<char>>>, width: int, shift: int, i: int)
    requires
        0 <= i <= recs.len(),
        repaired_rows(recs, width, shift, i) is Ok,
    ensures
        ({
            let rows = repaired_rows(recs, width, shift, i)->Ok_0.0;
            &&& rows.len() == recs.len() - i
            &&& forall|k: int| 0 <= k < rows.len() ==> written_as(recs[i + k], #[trigger] rows[k], width)
        }),
    decreases recs.len() - i,
{
    if i < recs.len() {
        law_repair_only_pads(recs, width, shift, i + 1);
        let rows = repaired_rows(recs, width, shift, i)->Ok_0.0;
        let rest = repaired_rows(recs, width, shift, i + 1)->Ok_0.0;
        match recs[i] {
            Ok((f, _)) => {
                assert(rows == seq![padded(f, width)] + rest) by {
                    if f.len() == width {
                        assert(padded(f, width) =~= f);
                    }
                }
                assert forall|k: int| 0 <= k < rows.len() implies written_as(recs[i + k], #[trigger] rows[k], width) by {
                    if k > 0 {
                        assert(rows[k] == rest[k - 1]);
                        assert(i + 1 + (k - 1) == i + k);
                    }
                }
            },
            Err(_) => {},
        }
    }
}


/// Whether record `rec` can be written under a header of `width` fields:
/// it was read, and it is no wider than the header.
pub open spec fn repairable(rec: Result<(Seq<Seq<char>>, int), Seq<char>>, width: int) -> bool {
    match rec {
        Ok((f, _)) => f.len() <= width,
        Err(_) => false,
    }
}

/// The fault that record `rec`, at index `i` after the header, is refused
/// with when it cannot be written under `width` fields.
pub open spec fn row_fault(rec: Result<(Seq<Seq<char>>, int), Seq<char>>, i: int, width: int) -> CsvFault {
    match rec {
        Err(reason) => CsvFault::RowUnreadable(i, reason),
        Ok((f, _)) => CsvFault::TooManyFields(i, f.len() as int, width),
    }
}

/// The records from index `i` on are repaired exactly when each of them can
/// be written; otherwise the repair names the first that cannot.
pub proof fn law_rows_fail_at_the_first_bad_row(
    recs: Seq<Result<(Seq<Seq<char>>, int), Seq<char>>>,
    width: int,
    shift: int,
    i: int,
)
    requires
        0 <= i <= recs.len(),
    ensures
        repaired_rows(recs, width, shift, i) is Ok <==> forall|j: int| i <= j < recs.len() ==> repairable(#[trigger] recs[j], width),
        forall|j: int|
            i <= j < recs.len() && !repairable(#[trigger] recs[j], width) && (forall|t: int| i <= t < j ==> repairable(#[trigger] recs[t], width))
                ==> repaired_rows(recs, width, shift, i) == Err::<(Seq<Seq<Seq<char>>>, Seq<(int, Seq<char>)>), CsvFault>(row_fault(recs[j], j, width)),
    decreases recs.len() - i,
{
    if i < recs.len() {
        law_rows_fail_at_the_first_bad_row(recs, width, shift, i + 1);
        assert forall|j: int|
            i <= j < recs.len() && !repairable(#[trigger] recs[j], width) && (forall|t: int| i <= t < j ==> repairable(#[trigger] recs[t], width))
                implies repaired_rows(recs, width, shift, i) == Err::<(Seq<Seq<Seq<char>>>, Seq<(int, Seq<char>)>), CsvFault>(row_fault(recs[j], j, width)) by {
            if j > i {
                assert(repairable(recs[i], width));
                assert(forall|t: int| i + 1 <= t < j ==> repairable(#[trigger] recs[t], width));
            }
        }
        if forall|j: int| i + 1 <= j < recs.len() ==> repairable(#[trigger] recs[j], width) {
            if repairable(recs[i], width) {
                assert forall|j: int| i <= j < recs.len() implies repairable(#[trigger] recs[j], width) by {
                    if j > i {
                        assert(repairable(recs[j], width));
                    }
                }
            }
        }
    }
}

/// What a failed table repair, or a failed CSV repair, is refused with:
/// the header when it cannot be read or is empty, else the first record
/// that cannot be written under it; `None` when there is none.
pub open spec fn first_refusal(
    table: (Result<Seq<Seq<char>>, Seq<char>>, Seq<Result<(Seq<Seq<char>>, int), Seq<char>>>),
) -> Option<CsvFault> {
    match table.0 {
        Err(reason) => Some(CsvFault::HeaderUnreadable(reason)),
        Ok(h) => if h.len() == 0 {
            Some(CsvFault::NoHeader)
        } else if exists|j: int| 0 <= j < table.1.len() && !repairable(#[trigger] table.1[j], h.len() as int) {
            let j = choose|j: int|
                0 <= j < table.1.len() && !repairable(#[trigger] table.1[j], h.len() as int) && forall|t: int|
                    0 <= t < j ==> repairable(#[trigger] table.1[t], h.len() as int);
            Some(row_fault(table.1[j], j, h.len() as int))
        } else {
            None
        },
    }
}

proof fn lemma_first_bad_row(recs: Seq<Result<(Seq<Seq<char>>, int), Seq<char>>>, w: int, j0: int)
    requires
        0 <= j0 < recs.len(),
        !repairable(recs[j0], w),
    ensures
        exists|j: int|
            0 <= j < recs.len() && !repairable(#[trigger] recs[j], w) && forall|t: int| 0 <= t < j ==> repairable(#[trigger] recs[t], w),
    decreases j0,
{
    if exists|t: int| 0 <= t < j0 && !repairable(#[trigger] recs[t], w) {
        let t = choose|t: int| 0 <= t < j0 && !repairable(#[trigger] recs[t], w);
        lemma_first_bad_row(recs, w, t);
    }
}

/// A table fails to be repaired exactly when its header cannot be read, is
/// empty, or some record cannot be written under it (it cannot be read, or
/// has more fields than the header); the refusal names the header, or the
/// first such record.
pub proof fn law_table_repair_fails_exactly(
    bom: bool,
    table: (Result<Seq<Seq<char>>, Seq<char>>, Seq<Result<(Seq<Seq<char>>, int), Seq<char>>>),
)
    ensures
        match first_refusal(table) {
            Some(f) => table_repair_spec(bom, table) == Err::<(Seq<Seq<Seq<char>>>, Seq<(int, Seq<char>)>), CsvFault>(f),
            None => table_repair_spec(bom, table) is Ok,
        },
{
    match table.0 {
        Ok(h) => {
            if h.len() > 0 {
                let w = h.len() as int;
                law_rows_fail_at_the_first_bad_row(table.1, w, bom_shift(bom), 0);
                if exists|j: int| 0 <= j < table.1.len() && !repairable(#[trigger] table.1[j], w) {
                    let j0 = choose|j: int| 0 <= j < table.1.len() && !repairable(#[trigger] table.1[j], w);
                    lemma_first_bad_row(table.1, w, j0);
                }
            }
        },
        Err(_) => {},
    }
}

/// A CSV document fails to be repaired exactly when its header row (after a
/// byte-order mark) cannot be read, is empty, or some record cannot be
/// written under it; the error names the header, or the first such record.
pub proof fn law_csv_repair_fails_exactly(input: Seq<u8>)
    ensures
        ({
            let body = if has_bom(input) { input.skip(3) } else { input };
            match first_refusal(csv_table(body)) {
                Some(f) => csv_repair_spec(input) == Err::<(Seq<u8>, Seq<(int, Seq<char>)>), CsvFault>(f),
                None => csv_repair_spec(input) is Ok,
            }
        }),
{
    let body = if has_bom(input) { input.skip(3) } else { input };
    law_table_repair_fails_exactly(has_bom(input), csv_table(body));
}

} // verus!
