//! Strict JSON, as a grammar over bytes, and the law that the tolerant
//! reader leaves strict JSON untouched: no fix recorded, the same value.

use vstd::prelude::*;
use vstd::utf8::{valid_utf8, decode_first_scalar, length_of_first_scalar};
use crate::json::Json;
use crate::number::json_number_ok;
use crate::json_ops::lemma_find_key_range;
use crate::repair::{
    Cursor, MAX_DEPTH, is_ident_byte, array_rest, ascii_text, has_bom, hex4, hex_value, ident_end,
    is_char_value, is_high_surrogate, is_low_surrogate, low_escape, pair_value, is_digit_byte, is_ws_byte, json_number_accepted, lemma_scans, moved,
    number_end, object_rest, read_key, read_number, read_string, read_value, read_word,
    repair_spec, simple_escape, skip_ws, string_rest, upsert, ws_end,
};

verus! {

/// The number four hexadecimal digits at `q` denote.
pub open spec fn strict_hex4(b: Seq<u8>, q: int) -> Option<int> {
    if 0 <= q && q + 4 <= b.len() && hex_value(b[q]) >= 0 && hex_value(b[q + 1]) >= 0 && hex_value(b[q + 2])
        >= 0 && hex_value(b[q + 3]) >= 0 {
        Some(
            hex_value(b[q]) * 4096 + hex_value(b[q + 1]) * 256 + hex_value(b[q + 2]) * 16 + hex_value(
                b[q + 3],
            ),
        )
    } else {
        None
    }
}

/// The rest of a strict JSON string from `p` (past the opening quote), its
/// characters so far being `out`: the string's characters and where it ends.
pub open spec fn strict_string(b: Seq<u8>, p: int, out: Seq<char>) -> Option<(Seq<char>, int)>
    decreases b.len() - p,
{
    if p < 0 || p >= b.len() {
        None
    } else if b[p] == 34 {
        Some((out, p + 1))
    } else if b[p] == 92 {
        if p + 1 >= b.len() {
            None
        } else {
            let e = b[p + 1];
            if e == 34 || e == 92 || e == 47 || e == 98 || e == 102 || e == 110 || e == 114 || e == 116 {
                strict_string(b, p + 2, out.push(simple_escape(e)->0))
            } else if e == 117 && strict_hex4(b, p + 2) is Some {
                let v = strict_hex4(b, p + 2)->0;
                if is_char_value(v) {
                    strict_string(b, p + 6, out.push(v as char))
                } else if is_high_surrogate(v) && p + 8 <= b.len() && b[p + 6] == 92 && b[p + 7] == 117
                    && strict_hex4(b, p + 8) is Some && is_low_surrogate(strict_hex4(b, p + 8)->0) {
                    strict_string(b, p + 12, out.push(pair_value(v, strict_hex4(b, p + 8)->0) as char))
                } else {
                    None
                }
            } else {
                None
            }
        }
    } else if b[p] < 32 {
        None
    } else if b[p] < 128 {
        strict_string(b, p + 1, out.push(b[p] as char))
    } else {
        let rest = b.subrange(p, b.len() as int);
        if valid_utf8(rest) {
            strict_string(b, p + length_of_first_scalar(rest), out.push(decode_first_scalar(rest) as char))
        } else {
            None
        }
    }
}

/// A strict JSON value after optional whitespace from `p`, `depth`
/// containers deep: the value and where it ends.
pub open spec fn strict_value(b: Seq<u8>, p: int, depth: int) -> Option<(Json, int)>
    decreases MAX_DEPTH + 1 - depth, 1int, 0int,
{
    if depth > MAX_DEPTH || depth < 0 || p < 0 || p > b.len() {
        None
    } else {
        let q = ws_end(b, p);
        if q >= b.len() {
            None
        } else if b[q] == 123 {
            let r = ws_end(b, q + 1);
            if r < b.len() && b[r] == 125 {
                Some((Json::Object(Seq::empty()), r + 1))
            } else if r < b.len() && b[r] == 34 {
                strict_members(b, r, depth, Seq::empty())
            } else {
                None
            }
        } else if b[q] == 91 {
            let r = ws_end(b, q + 1);
            if r < b.len() && b[r] == 93 {
                Some((Json::Array(Seq::empty()), r + 1))
            } else {
                strict_items(b, r, depth, Seq::empty())
            }
        } else if b[q] == 34 {
            match strict_string(b, q + 1, Seq::empty()) {
                Some((s, e)) => Some((Json::Str(s), e)),
                None => None,
            }
        } else if b[q] == 45 || is_digit_byte(b[q]) {
            let e = number_end(b, q);
            let text = ascii_text(b, q, e);
            if json_number_ok(text) && json_number_accepted(text) {
                Some((Json::Number(text), e))
            } else {
                None
            }
        } else {
            let e = ident_end(b, q);
            let w = ascii_text(b, q, e);
            if w == "true"@ {
                Some((Json::Bool(true), e))
            } else if w == "false"@ {
                Some((Json::Bool(false), e))
            } else if w == "null"@ {
                Some((Json::Null, e))
            } else {
                None
            }
        }
    }
}

/// The members of a strict JSON object from the key at `q` on, the members
/// so far being `es`. A key given again sets the value in the place the key
/// first took, as a strict reader's map does.
pub open spec fn strict_members(b: Seq<u8>, q: int, depth: int, es: Seq<(Seq<char>, Json)>) -> Option<(Json, int)>
    decreases MAX_DEPTH + 1 - depth, 0int, b.len() - q,
{
    if depth > MAX_DEPTH || depth < 0 || q < 0 || q >= b.len() || b[q] != 34 {
        None
    } else {
        match strict_string(b, q + 1, Seq::empty()) {
            None => None,
            Some((k, e1)) => {
                let e2 = ws_end(b, e1);
                if !(0 <= e2 < b.len() && b[e2] == 58) {
                    None
                } else {
                    match strict_value(b, e2 + 1, depth + 1) {
                        None => None,
                        Some((v, e3)) => {
                            let es2 = upsert(es, k, v);
                            let e4 = ws_end(b, e3);
                            if 0 <= e4 < b.len() && b[e4] == 125 {
                                Some((Json::Object(es2), e4 + 1))
                            } else if 0 <= e4 < b.len() && b[e4] == 44 {
                                let e5 = ws_end(b, e4 + 1);
                                if q < e5 <= b.len() {
                                    strict_members(b, e5, depth, es2)
                                } else {
                                    None
                                }
                            } else {
                                None
                            }
                        },
                    }
                }
            },
        }
    }
}

/// The items of a strict JSON array from the value at `q` on, the items so
/// far being `items`.
pub open spec fn strict_items(b: Seq<u8>, q: int, depth: int, items: Seq<Json>) -> Option<(Json, int)>
    decreases MAX_DEPTH + 1 - depth, 0int, b.len() - q,
{
    if depth > MAX_DEPTH || depth < 0 || q < 0 || q > b.len() {
        None
    } else {
        match strict_value(b, q, depth + 1) {
            None => None,
            Some((v, e1)) => {
                let items2 = items.push(v);
                let e2 = ws_end(b, e1);
                if 0 <= e2 < b.len() && b[e2] == 93 {
                    Some((Json::Array(items2), e2 + 1))
                } else if 0 <= e2 < b.len() && b[e2] == 44 {
                    let e3 = ws_end(b, e2 + 1);
                    if q < e3 <= b.len() && e3 < b.len() && b[e3] != 93 {
                        strict_items(b, e3, depth, items2)
                    } else {
                        None
                    }
                } else {
                    None
                }
            },
        }
    }
}

/// The value of a strict JSON document: one value, with whitespace around
/// it and nothing else.
pub open spec fn strict_document(b: Seq<u8>) -> Option<Json> {
    match strict_value(b, 0, 0) {
        Some((v, e)) => if ws_end(b, e) == b.len() { Some(v) } else { None },
        None => None,
    }
}

/// What a grammar function found.
pub open spec fn found<A>(o: Option<(A, int)>) -> A {
    let (a, _) = o->0;
    a
}

/// Where what a grammar function found ends.
pub open spec fn found_end<A>(o: Option<(A, int)>) -> int {
    let (_, e) = o->0;
    e
}

// ---------------------------------------------------------------------------
// The reader on strict JSON
// ---------------------------------------------------------------------------

proof fn lemma_skip_plain(b: Seq<u8>, c: Cursor)
    requires
        0 <= c.pos <= b.len(),
        ws_end(b, c.pos) >= b.len() || b[ws_end(b, c.pos)] != 47,
    ensures
        skip_ws(b, c) == moved(c, ws_end(b, c.pos)),
{
    lemma_scans(b, c.pos);
}

proof fn lemma_ws_end_at(b: Seq<u8>, p: int)
    requires
        0 <= p < b.len(),
        !is_ws_byte(b[p]),
    ensures
        ws_end(b, p) == p,
{
}

proof fn lemma_ws_end_idem(b: Seq<u8>, p: int)
    requires
        0 <= p <= b.len(),
    ensures
        ws_end(b, ws_end(b, p)) == ws_end(b, p),
    decreases b.len() - p,
{
    if p < b.len() && is_ws_byte(b[p]) {
        lemma_ws_end_idem(b, p + 1);
    }
}

/// A strict value starts, after whitespace, with a byte that opens a value.
proof fn lemma_value_start(b: Seq<u8>, p: int, depth: int)
    requires
        strict_value(b, p, depth) is Some,
    ensures
        0 <= p <= ws_end(b, p) < b.len(),
        b[ws_end(b, p)] != 47 && b[ws_end(b, p)] != 44 && b[ws_end(b, p)] != 93 && b[ws_end(b, p)] != 125,
{
    reveal_strlit("true");
    reveal_strlit("false");
    reveal_strlit("null");
    lemma_scans(b, p);
    let q = ws_end(b, p);
    if q < b.len() {
        let c = b[q];
        if c == 47 || c == 44 || c == 93 || c == 125 {
            assert(!is_ident_byte(c));
            assert(ident_end(b, q) == q);
            assert(ascii_text(b, q, q) =~= Seq::<char>::empty());
            assert("true"@.len() == 4);
            assert("false"@.len() == 5);
            assert("null"@.len() == 4);
        }
    }
}

proof fn lemma_strict_string(b: Seq<u8>, p: int, out: Seq<char>, notes: Seq<(int, Seq<char>)>)
    requires
        0 <= p,
        strict_string(b, p, out) is Some,
    ensures
        string_rest(b, 34, out, Cursor { pos: p, notes }) == Ok::<(Seq<char>, Cursor), crate::repair::Fault>(
            (found(strict_string(b, p, out)), Cursor { pos: found_end(strict_string(b, p, out)), notes }),
        ),
        p < found_end(strict_string(b, p, out)) <= b.len(),
    decreases b.len() - p,
{
    let c = Cursor { pos: p, notes };
    if b[p] == 34 {
    } else if b[p] == 92 {
        let e = b[p + 1];
        if e == 34 || e == 92 || e == 47 || e == 98 || e == 102 || e == 110 || e == 114 || e == 116 {
            lemma_strict_string(b, p + 2, out.push(simple_escape(e)->0), notes);
        } else {
            let v = strict_hex4(b, p + 2)->0;
            assert(hex4(b, p + 2) == Some(v));
            if is_char_value(v) {
                lemma_strict_string(b, p + 6, out.push(v as char), notes);
            } else {
                let w = strict_hex4(b, p + 8)->0;
                assert(hex4(b, p + 8) == Some(w));
                assert(low_escape(b, p + 6) == Some(w));
                lemma_strict_string(b, p + 12, out.push(pair_value(v, w) as char), notes);
            }
        }
    } else if b[p] < 128 {
        lemma_strict_string(b, p + 1, out.push(b[p] as char), notes);
    } else {
        let rest = b.subrange(p, b.len() as int);
        lemma_strict_string(b, p + length_of_first_scalar(rest), out.push(decode_first_scalar(rest) as char), notes);
    }
}

proof fn lemma_read_strict_string(b: Seq<u8>, q: int, notes: Seq<(int, Seq<char>)>)
    requires
        0 <= q < b.len(),
        b[q] == 34,
        strict_string(b, q + 1, Seq::empty()) is Some,
    ensures
        read_string(b, Cursor { pos: q, notes }) == Ok::<(Seq<char>, Cursor), crate::repair::Fault>(
            (
                found(strict_string(b, q + 1, Seq::empty())),
                Cursor { pos: found_end(strict_string(b, q + 1, Seq::empty())), notes },
            ),
        ),
        q + 1 < found_end(strict_string(b, q + 1, Seq::empty())) <= b.len(),
{
    lemma_strict_string(b, q + 1, Seq::empty(), notes);
}

/// A strict value is read as it stands, with no fix.
proof fn lemma_strict_value(b: Seq<u8>, p: int, depth: int, notes: Seq<(int, Seq<char>)>)
    requires
        strict_value(b, p, depth) is Some,
    ensures
        read_value(b, depth, Cursor { pos: p, notes }) == Ok::<(Json, Cursor), crate::repair::Fault>(
            (found(strict_value(b, p, depth)), Cursor { pos: found_end(strict_value(b, p, depth)), notes }),
        ),
        p < found_end(strict_value(b, p, depth)) <= b.len(),
    decreases MAX_DEPTH + 1 - depth, 1int, 0int,
{
    let c = Cursor { pos: p, notes };
    reveal_strlit("true");
    reveal_strlit("false");
    reveal_strlit("null");
    lemma_scans(b, p);
    lemma_value_start(b, p, depth);
    let q = ws_end(b, p);
    lemma_skip_plain(b, c);
    let c1 = moved(c, q);
    assert(skip_ws(b, c) == c1);
    if b[q] == 123 {
        lemma_scans(b, q + 1);
        let r = ws_end(b, q + 1);
        let c2 = Cursor { pos: q + 1, notes };
        if r < b.len() && b[r] == 125 {
            lemma_skip_plain(b, c2);
            assert(object_rest(b, depth, Seq::empty(), c2) == Ok::<(Json, Cursor), crate::repair::Fault>(
                (Json::Object(Seq::empty()), Cursor { pos: r + 1, notes }),
            ));
        } else {
            lemma_strict_members(b, q + 1, r, depth, Seq::empty(), notes);
        }
        assert(read_value(b, depth, c) == Ok::<(Json, Cursor), crate::repair::Fault>(
            (found(strict_value(b, p, depth)), Cursor { pos: found_end(strict_value(b, p, depth)), notes }),
        ));
    } else if b[q] == 91 {
        lemma_scans(b, q + 1);
        let r = ws_end(b, q + 1);
        let c2 = Cursor { pos: q + 1, notes };
        if r < b.len() && b[r] == 93 {
            lemma_skip_plain(b, c2);
            assert(array_rest(b, depth, Seq::empty(), c2) == Ok::<(Json, Cursor), crate::repair::Fault>(
                (Json::Array(Seq::empty()), Cursor { pos: r + 1, notes }),
            ));
        } else {
            lemma_strict_items(b, q + 1, r, depth, Seq::empty(), notes);
        }
        assert(read_value(b, depth, c) == Ok::<(Json, Cursor), crate::repair::Fault>(
            (found(strict_value(b, p, depth)), Cursor { pos: found_end(strict_value(b, p, depth)), notes }),
        ));
    } else if b[q] == 34 {
        lemma_read_strict_string(b, q, notes);
        assert(read_value(b, depth, c) == Ok::<(Json, Cursor), crate::repair::Fault>(
            (found(strict_value(b, p, depth)), Cursor { pos: found_end(strict_value(b, p, depth)), notes }),
        ));
    } else if b[q] == 45 || is_digit_byte(b[q]) {
        let e = number_end(b, q);
        let text = ascii_text(b, q, e);
        if text == seq!['-'] {
            assert(!json_number_ok(text));
        }
        assert(number_end(b, q) == number_end(b, q + 1));
        lemma_scans(b, q + 1);
        assert(read_number(b, c1) == Ok::<(Json, Cursor), crate::repair::Fault>(
            (Json::Number(text), Cursor { pos: e, notes }),
        ));
        assert(read_value(b, depth, c) == Ok::<(Json, Cursor), crate::repair::Fault>(
            (found(strict_value(b, p, depth)), Cursor { pos: found_end(strict_value(b, p, depth)), notes }),
        ));
    } else {
        let e = ident_end(b, q);
        lemma_scans(b, q);
        let w = ascii_text(b, q, e);
        assert(w == "true"@ || w == "false"@ || w == "null"@);
        assert("true"@.len() == 4 && "false"@.len() == 5 && "null"@.len() == 4);
        assert(e > q);
        assert(is_ident_byte(b[q]));
        assert(read_word(b, c1) == Ok::<(Json, Cursor), crate::repair::Fault>(
            (found(strict_value(b, p, depth)), Cursor { pos: e, notes }),
        ));
        assert(read_value(b, depth, c) == Ok::<(Json, Cursor), crate::repair::Fault>(
            (found(strict_value(b, p, depth)), Cursor { pos: found_end(strict_value(b, p, depth)), notes }),
        ));
    }
}

/// The members of a strict object are read with no fix, from a reader
/// position `p0` whose whitespace ends at the key.
proof fn lemma_strict_members(
    b: Seq<u8>,
    p0: int,
    q: int,
    depth: int,
    es: Seq<(Seq<char>, Json)>,
    notes: Seq<(int, Seq<char>)>,
)
    requires
        0 <= p0 <= q,
        ws_end(b, p0) == q,
        strict_members(b, q, depth, es) is Some,
    ensures
        object_rest(b, depth, es, Cursor { pos: p0, notes }) == Ok::<(Json, Cursor), crate::repair::Fault>(
            (found(strict_members(b, q, depth, es)), Cursor { pos: found_end(strict_members(b, q, depth, es)), notes }),
        ),
        q < found_end(strict_members(b, q, depth, es)) <= b.len(),
    decreases MAX_DEPTH + 1 - depth, 0int, b.len() - q,
{
    let c = Cursor { pos: p0, notes };
    lemma_scans(b, p0);
    lemma_skip_plain(b, c);
    let c1 = moved(c, q);
    lemma_read_strict_string(b, q, notes);
    let (k, e1) = strict_string(b, q + 1, Seq::empty())->0;
    assert(read_key(b, c1) == Ok::<(Seq<char>, Cursor), crate::repair::Fault>((k, Cursor { pos: e1, notes })));
    lemma_scans(b, e1);
    let e2 = ws_end(b, e1);
    lemma_skip_plain(b, Cursor { pos: e1, notes });
    lemma_strict_value(b, e2 + 1, depth + 1, notes);
    let (v, e3) = strict_value(b, e2 + 1, depth + 1)->0;
    lemma_scans(b, e3);
    let e4 = ws_end(b, e3);
    lemma_skip_plain(b, Cursor { pos: e3, notes });
    let es2 = upsert(es, k, v);
    lemma_find_key_range(es, k, 0);
    assert(es2.len() > 0);
    let c6 = Cursor { pos: e4, notes };
    lemma_ws_end_at(b, e4);
    lemma_skip_plain(b, c6);
    if b[e4] == 125 {
        assert(object_rest(b, depth, es2, c6) == Ok::<(Json, Cursor), crate::repair::Fault>(
            (Json::Object(es2), Cursor { pos: e4 + 1, notes }),
        ));
    } else {
        lemma_scans(b, e4 + 1);
        let e5 = ws_end(b, e4 + 1);
        assert(strict_members(b, q, depth, es) == strict_members(b, e5, depth, es2));
        assert(b[e5] == 34);
        lemma_skip_plain(b, Cursor { pos: e4 + 1, notes });
        lemma_ws_end_idem(b, e4 + 1);
        lemma_strict_members(b, e5, e5, depth, es2, notes);
        lemma_ws_end_at(b, e5);
        assert(object_rest(b, depth, es2, c6) == object_rest(b, depth, es2, Cursor { pos: e5, notes }));
    }
}

/// The items of a strict array are read with no fix, from a reader position
/// `p0` whose whitespace ends at the item.
proof fn lemma_strict_items(
    b: Seq<u8>,
    p0: int,
    q: int,
    depth: int,
    items: Seq<Json>,
    notes: Seq<(int, Seq<char>)>,
)
    requires
        0 <= p0 <= q,
        ws_end(b, p0) == q,
        strict_items(b, q, depth, items) is Some,
    ensures
        array_rest(b, depth, items, Cursor { pos: p0, notes }) == Ok::<(Json, Cursor), crate::repair::Fault>(
            (found(strict_items(b, q, depth, items)), Cursor { pos: found_end(strict_items(b, q, depth, items)), notes }),
        ),
        q < found_end(strict_items(b, q, depth, items)) <= b.len(),
    decreases MAX_DEPTH + 1 - depth, 0int, b.len() - q,
{
    let c = Cursor { pos: p0, notes };
    reveal_strlit("true");
    reveal_strlit("false");
    reveal_strlit("null");
    lemma_scans(b, p0);
    lemma_strict_value(b, q, depth + 1, notes);
    let (v, e1) = strict_value(b, q, depth + 1)->0;
    lemma_ws_end_idem(b, p0);
    lemma_scans(b, q);
    assert(strict_value(b, q, depth + 1) is Some);
    lemma_value_start(b, q, depth + 1);
    lemma_skip_plain(b, c);
    lemma_skip_plain(b, Cursor { pos: q, notes });
    assert(read_value(b, depth + 1, moved(c, q)) == read_value(b, depth + 1, Cursor { pos: q, notes }));
    lemma_scans(b, e1);
    let e2 = ws_end(b, e1);
    lemma_skip_plain(b, Cursor { pos: e1, notes });
    let items2 = items.push(v);
    let c3 = Cursor { pos: e2, notes };
    lemma_ws_end_at(b, e2);
    lemma_skip_plain(b, c3);
    if b[e2] == 93 {
        assert(array_rest(b, depth, items2, c3) == Ok::<(Json, Cursor), crate::repair::Fault>(
            (Json::Array(items2), Cursor { pos: e2 + 1, notes }),
        ));
    } else {
        lemma_scans(b, e2 + 1);
        let e3 = ws_end(b, e2 + 1);
        assert(strict_items(b, q, depth, items) == strict_items(b, e3, depth, items2));
        assert(strict_value(b, e3, depth + 1) is Some);
        lemma_value_start(b, e3, depth + 1);
        lemma_ws_end_idem(b, e2 + 1);
        lemma_skip_plain(b, Cursor { pos: e2 + 1, notes });
        lemma_ws_end_idem(b, e2 + 1);
        lemma_strict_items(b, e3, e3, depth, items2, notes);
        assert(array_rest(b, depth, items2, c3) == array_rest(b, depth, items2, Cursor { pos: e3, notes }));
    }
}

/// Strict JSON needs no repair: on every strict JSON document (surrogate
/// pairs and repeated keys included, nesting up to the reader's depth
/// limit) the reader gives the document's value and records no fix.
pub proof fn law_strict_json_needs_no_repair(b: Seq<u8>)
    requires
        strict_document(b) is Some,
    ensures
        repair_spec(b) == Ok::<(Json, Seq<(int, Seq<char>)>), crate::repair::Fault>(
            (strict_document(b)->0, Seq::empty()),
        ),
{
    let c0 = Cursor { pos: 0, notes: Seq::empty() };
    lemma_scans(b, 0);
    let q = ws_end(b, 0);
    assert(!has_bom(b)) by {
        if has_bom(b) {
            lemma_ws_end_at(b, 0);
        }
    }
    lemma_skip_plain(b, c0);
    lemma_strict_value(b, 0, 0, Seq::empty());
    lemma_ws_end_idem(b, 0);
    lemma_strict_value(b, q, 0, Seq::empty());
    let (v, e) = strict_value(b, 0, 0)->0;
    lemma_scans(b, e);
    lemma_skip_plain(b, Cursor { pos: e, notes: Seq::empty() });
}

} // verus!
