//! What JSON values are equal, how they are ordered, and the compact text
//! `serde_json` writes for them.

use vstd::prelude::*;
use crate::json::{Json, JsonValue};
use crate::repair::{find_key, items_json, lemma_array_json, lemma_object_json, members_json};
use crate::text::{chars_of, same_chars};

verus! {

// ---------------------------------------------------------------------------
// Numbers, as serde_json reads them
// ---------------------------------------------------------------------------

/// A name for whether `serde_json` reads the number literals `a` and `b` as
/// the same number.
pub uninterp spec fn same_number(a: Seq<char>, b: Seq<char>) -> bool;

/// A name for how `serde_json` orders the number literals `a` and `b` by
/// their `f64` values: -1, 0 or 1, or `None` when it cannot tell.
pub uninterp spec fn number_order(a: Seq<char>, b: Seq<char>) -> Option<i8>;

/// A name for the literal `serde_json` writes for the number literal `a`.
pub uninterp spec fn number_display(a: Seq<char>) -> Seq<char>;

/// `serde_json::Number` equality, on the numbers `serde_json::from_str`
/// reads from `a` and `b`. Whether they are equal is named, not stated.
#[verifier::external_body]
fn numbers_equal(a: &str, b: &str) -> (r: bool)
    ensures
        r == same_number(a@, b@),
{
    serde_json::from_str::<serde_json::Number>(a).ok() == serde_json::from_str::<serde_json::Number>(b).ok()
}

/// `f64::partial_cmp` on `serde_json::Number::as_f64` of the numbers read
/// from `a` and `b`, as -1, 0 or 1. The order is named, not stated.
#[verifier::external_body]
pub(crate) fn numbers_compare(a: &str, b: &str) -> (r: Option<i8>)
    ensures
        r == number_order(a@, b@),
        r matches Some(k) ==> -1 <= k <= 1,
{
    let x = serde_json::from_str::<serde_json::Number>(a).ok().and_then(|n| n.as_f64());
    let y = serde_json::from_str::<serde_json::Number>(b).ok().and_then(|n| n.as_f64());
    match (x, y) {
        (Some(x), Some(y)) => match x.partial_cmp(&y) {
            Some(std::cmp::Ordering::Less) => Some(-1),
            Some(std::cmp::Ordering::Equal) => Some(0),
            Some(std::cmp::Ordering::Greater) => Some(1),
            None => None,
        },
        _ => None,
    }
}

/// `serde_json::Number`'s `to_string` of the number read from `a` (or `a`
/// itself when it is no number). The literal is named, not stated.
#[verifier::external_body]
pub(crate) fn number_to_text(a: &str) -> (r: String)
    ensures
        r@ == number_display(a@),
{
    match serde_json::from_str::<serde_json::Number>(a) {
        Ok(n) => n.to_string(),
        Err(_) => a.to_owned(),
    }
}

// ---------------------------------------------------------------------------
// Equality
// ---------------------------------------------------------------------------

/// Whether two JSON values are equal: numbers as `serde_json` reads them,
/// arrays item by item, objects key by key whatever their order.
pub open spec fn json_eq(a: Json, b: Json) -> bool
    decreases a, 0int,
{
    match (a, b) {
        (Json::Null, Json::Null) => true,
        (Json::Bool(x), Json::Bool(y)) => x == y,
        (Json::Number(x), Json::Number(y)) => same_number(x, y),
        (Json::Str(x), Json::Str(y)) => x == y,
        (Json::Array(xs), Json::Array(ys)) => xs.len() == ys.len() && items_eq(xs, ys, 0),
        (Json::Object(xs), Json::Object(ys)) => xs.len() == ys.len() && members_eq(xs, ys, 0),
        _ => false,
    }
}

/// Whether the items of `xs` from `i` on equal those of `ys`.
pub open spec fn items_eq(xs: Seq<Json>, ys: Seq<Json>, i: int) -> bool
    decreases xs, xs.len() - i,
{
    if i < 0 || i >= xs.len() || i >= ys.len() {
        true
    } else {
        json_eq(xs[i], ys[i]) && items_eq(xs, ys, i + 1)
    }
}

/// Whether each member of `xs` from `i` on has its key in `ys`, with an
/// equal value.
pub open spec fn members_eq(xs: Seq<(Seq<char>, Json)>, ys: Seq<(Seq<char>, Json)>, i: int) -> bool
    decreases xs, xs.len() - i,
{
    if i < 0 || i >= xs.len() {
        true
    } else {
        let j = find_key(ys, xs[i].0, 0);
        0 <= j < ys.len() && json_eq(xs[i].1, ys[j].1) && members_eq(xs, ys, i + 1)
    }
}

pub proof fn lemma_find_key_range(es: Seq<(Seq<char>, Json)>, k: Seq<char>, i: int)
    ensures
        find_key(es, k, i) == -1 || (i <= find_key(es, k, i) < es.len() && es[find_key(es, k, i)].0 == k),
    decreases es.len() - i,
{
    if 0 <= i < es.len() && es[i].0 != k {
        lemma_find_key_range(es, k, i + 1);
    }
}

/// Index of the member with key `k`.
pub fn find_member(members: &Vec<(String, JsonValue)>, k: &Vec<char>) -> (r: Option<usize>)
    ensures
        match r {
            Some(i) => i == find_key(members_json(members@), k@, 0) && i < members@.len(),
            None => find_key(members_json(members@), k@, 0) == -1,
        },
{
    let ghost es = members_json(members@);
    proof {
        lemma_find_key_range(es, k@, 0);
    }
    let mut i: usize = 0;
    while i < members.len()
        invariant
            es == members_json(members@),
            i <= members@.len(),
            find_key(es, k@, 0) == find_key(es, k@, i as int),
        decreases members@.len() - i,
    {
        let key = chars_of(members[i].0.as_str());
        if same_chars(&key, k) {
            return Some(i);
        }
        i = i + 1;
    }
    None
}

/// Whether `a` and `b` are equal JSON values.
pub fn values_equal(a: &JsonValue, b: &JsonValue) -> (r: bool)
    ensures
        r == json_eq(a.json(), b.json()),
    decreases a, 0int,
{
    match (a, b) {
        (JsonValue::Null, JsonValue::Null) => true,
        (JsonValue::Bool(x), JsonValue::Bool(y)) => *x == *y,
        (JsonValue::Number(x), JsonValue::Number(y)) => numbers_equal(x.as_str(), y.as_str()),
        (JsonValue::String(x), JsonValue::String(y)) => {
            same_chars(&chars_of(x.as_str()), &chars_of(y.as_str()))
        },
        (JsonValue::Array(xs), JsonValue::Array(ys)) => {
            proof {
                lemma_array_json(*xs);
                lemma_array_json(*ys);
            }
            xs.len() == ys.len() && items_equal(xs, ys, 0)
        },
        (JsonValue::Object(xs), JsonValue::Object(ys)) => {
            proof {
                lemma_object_json(*xs);
                lemma_object_json(*ys);
            }
            xs.len() == ys.len() && members_equal(xs, ys, 0)
        },
        (JsonValue::Null, _) => false,
        (JsonValue::Bool(_), _) => false,
        (JsonValue::Number(_), _) => false,
        (JsonValue::String(_), _) => false,
        (JsonValue::Array(_), _) => false,
        (JsonValue::Object(_), _) => false,
    }
}

fn items_equal(xs: &Vec<JsonValue>, ys: &Vec<JsonValue>, i: usize) -> (r: bool)
    requires
        i <= xs@.len(),
        xs@.len() == ys@.len(),
    ensures
        r == items_eq(items_json(xs@), items_json(ys@), i as int),
    decreases xs, xs@.len() - i,
{
    if i >= xs.len() {
        return true;
    }
    if !values_equal(&xs[i], &ys[i]) {
        return false;
    }
    items_equal(xs, ys, i + 1)
}

fn members_equal(xs: &Vec<(String, JsonValue)>, ys: &Vec<(String, JsonValue)>, i: usize) -> (r: bool)
    requires
        i <= xs@.len(),
    ensures
        r == members_eq(members_json(xs@), members_json(ys@), i as int),
    decreases xs, xs@.len() - i,
{
    if i >= xs.len() {
        return true;
    }
    let k = chars_of(xs[i].0.as_str());
    let j = match find_member(ys, &k) {
        Some(j) => j,
        None => {
            return false;
        },
    };
    if !values_equal(&xs[i].1, &ys[j].1) {
        return false;
    }
    members_equal(xs, ys, i + 1)
}


// ---------------------------------------------------------------------------
// Compact text
// ---------------------------------------------------------------------------

/// The hexadecimal digit for `d` (below 16), lowercase.
pub open spec fn hex_digit_char(d: u32) -> char {
    if d < 10 {
        ((48 + d) as u8) as char
    } else {
        ((87 + d) as u8) as char
    }
}

/// How `serde_json` writes the character `c` inside a string literal.
pub open spec fn escape_char(c: char) -> Seq<char> {
    if c == '"' {
        seq!['\\', '"']
    } else if c == '\\' {
        seq!['\\', '\\']
    } else if c == '\u{8}' {
        seq!['\\', 'b']
    } else if c == '\u{c}' {
        seq!['\\', 'f']
    } else if c == '\n' {
        seq!['\\', 'n']
    } else if c == '\r' {
        seq!['\\', 'r']
    } else if c == '\t' {
        seq!['\\', 't']
    } else if (c as u32) < 32 {
        seq!['\\', 'u', '0', '0', hex_digit_char((c as u32) / 16), hex_digit_char((c as u32) % 16)]
    } else {
        seq![c]
    }
}

/// The characters of `s`, each written as inside a string literal.
pub open spec fn escaped(s: Seq<char>) -> Seq<char>
    decreases s.len(),
{
    if s.len() == 0 {
        Seq::empty()
    } else {
        escaped(s.drop_last()) + escape_char(s.last())
    }
}

/// The string literal for `s`.
pub open spec fn quoted(s: Seq<char>) -> Seq<char> {
    seq!['"'] + escaped(s) + seq!['"']
}

/// Dictionary order of two texts by character number: -1, 0 or 1.
pub open spec fn text_order(a: Seq<char>, b: Seq<char>) -> int
    decreases a.len(),
{
    if a.len() == 0 && b.len() == 0 {
        0
    } else if a.len() == 0 {
        -1
    } else if b.len() == 0 {
        1
    } else if a[0] < b[0] {
        -1
    } else if a[0] > b[0] {
        1
    } else {
        text_order(a.drop_first(), b.drop_first())
    }
}

/// `text_order` tells equal texts apart from others, and swapping its
/// arguments flips its sign.
pub proof fn lemma_text_order_flip(a: Seq<char>, b: Seq<char>)
    ensures
        (text_order(a, b) == 0) == (a == b),
        text_order(a, b) == -text_order(b, a),
        -1 <= text_order(a, b) <= 1,
    decreases a.len(),
{
    if a.len() > 0 && b.len() > 0 && a[0] == b[0] {
        lemma_text_order_flip(a.drop_first(), b.drop_first());
        if a.drop_first() == b.drop_first() {
            assert(a =~= seq![a[0]] + a.drop_first());
            assert(b =~= seq![b[0]] + b.drop_first());
        }
    }
    if a.len() == 0 && b.len() == 0 {
        assert(a =~= b);
    }
}

/// `text_order` is transitive.
pub proof fn lemma_text_order_trans(a: Seq<char>, b: Seq<char>, c: Seq<char>)
    requires
        text_order(a, b) < 0,
        text_order(b, c) < 0,
    ensures
        text_order(a, c) < 0,
    decreases a.len(),
{
    if a.len() > 0 && b.len() > 0 && c.len() > 0 && a[0] == b[0] && b[0] == c[0] {
        lemma_text_order_trans(a.drop_first(), b.drop_first(), c.drop_first());
    }
}

/// `ord` (indices of `es`, in key order) with index `i` put after every
/// index whose key is not above its own.
pub open spec fn insert_by_key(es: Seq<(Seq<char>, Json)>, ord: Seq<int>, i: int) -> Seq<int>
    decreases ord.len(),
{
    if ord.len() == 0 {
        seq![i]
    } else if 0 <= ord.last() < es.len() && 0 <= i < es.len() && text_order(es[i].0, es[ord.last()].0) < 0 {
        insert_by_key(es, ord.drop_last(), i).push(ord.last())
    } else {
        ord.push(i)
    }
}

/// The indices `0..n` of `es`, ordered by key (a stable insertion sort).
pub open spec fn key_order_upto(es: Seq<(Seq<char>, Json)>, n: int) -> Seq<int>
    decreases n,
{
    if n <= 0 {
        Seq::empty()
    } else {
        insert_by_key(es, key_order_upto(es, n - 1), n - 1)
    }
}

/// The indices of `es`, ordered by key.
pub open spec fn key_order(es: Seq<(Seq<char>, Json)>) -> Seq<int> {
    key_order_upto(es, es.len() as int)
}

/// The compact text `serde_json` writes for a value: no spaces, object keys
/// in order.
pub open spec fn json_text(j: Json) -> Seq<char>
    decreases j, 0int,
{
    match j {
        Json::Null => seq!['n', 'u', 'l', 'l'],
        Json::Bool(b) => if b { seq!['t', 'r', 'u', 'e'] } else { seq!['f', 'a', 'l', 's', 'e'] },
        Json::Number(t) => number_display(t),
        Json::Str(s) => quoted(s),
        Json::Array(xs) => seq!['['] + items_text(xs, 0) + seq![']'],
        Json::Object(es) => seq!['{'] + members_text(es, key_order(es), 0) + seq!['}'],
    }
}

/// The texts of the items of `xs` from `i` on, each after a comma but the
/// first.
pub open spec fn items_text(xs: Seq<Json>, i: int) -> Seq<char>
    decreases xs, xs.len() - i,
{
    if i < 0 || i >= xs.len() {
        Seq::empty()
    } else {
        (if i > 0 { seq![','] } else { Seq::empty() }) + json_text(xs[i]) + items_text(xs, i + 1)
    }
}

/// The texts of the members of `es` taken in the order `ord`, from the
/// `k`-th on: key literal, colon, value.
pub open spec fn members_text(es: Seq<(Seq<char>, Json)>, ord: Seq<int>, k: int) -> Seq<char>
    decreases es, ord.len() - k,
{
    if k < 0 || k >= ord.len() {
        Seq::empty()
    } else {
        let i = ord[k];
        if 0 <= i < es.len() {
            (if k > 0 { seq![','] } else { Seq::empty() }) + quoted(es[i].0) + seq![':'] + json_text(es[i].1)
                + members_text(es, ord, k + 1)
        } else {
            members_text(es, ord, k + 1)
        }
    }
}

fn append(out: &mut Vec<char>, s: &Vec<char>)
    ensures
        final(out)@ == old(out)@ + s@,
{
    let mut i: usize = 0;
    while i < s.len()
        invariant
            i <= s@.len(),
            out@ == old(out)@ + s@.take(i as int),
        decreases s@.len() - i,
    {
        out.push(s[i]);
        assert(s@.take(i + 1) == s@.take(i as int).push(s@[i as int]));
        i = i + 1;
    }
    assert(s@.take(s@.len() as int) == s@);
}

fn hex_digit_exec(d: u32) -> (c: char)
    requires
        d < 16,
    ensures
        c == hex_digit_char(d),
{
    if d < 10 {
        ((48 + d) as u8) as char
    } else {
        ((87 + d) as u8) as char
    }
}

fn write_escaped_char(out: &mut Vec<char>, c: char)
    ensures
        final(out)@ == old(out)@ + escape_char(c),
{
    let ghost before = out@;
    if c == '"' {
        out.push('\\');
        out.push('"');
    } else if c == '\\' {
        out.push('\\');
        out.push('\\');
    } else if c == '\u{8}' {
        out.push('\\');
        out.push('b');
    } else if c == '\u{c}' {
        out.push('\\');
        out.push('f');
    } else if c == '\n' {
        out.push('\\');
        out.push('n');
    } else if c == '\r' {
        out.push('\\');
        out.push('r');
    } else if c == '\t' {
        out.push('\\');
        out.push('t');
    } else if (c as u32) < 32 {
        let v = c as u32;
        out.push('\\');
        out.push('u');
        out.push('0');
        out.push('0');
        out.push(hex_digit_exec(v / 16));
        out.push(hex_digit_exec(v % 16));
    } else {
        out.push(c);
    }
    assert(out@ =~= before + escape_char(c));
}

/// Writes the string literal for `s`.
fn write_quoted(out: &mut Vec<char>, s: &str)
    ensures
        final(out)@ == old(out)@ + quoted(s@),
{
    let chars = chars_of(s);
    let ghost before = out@;
    out.push('"');
    let mut i: usize = 0;
    while i < chars.len()
        invariant
            i <= chars@.len(),
            out@ == before + seq!['"'] + escaped(chars@.take(i as int)),
        decreases chars@.len() - i,
    {
        let ghost prev = chars@.take(i as int);
        write_escaped_char(out, chars[i]);
        assert(chars@.take(i + 1).drop_last() == prev);
        i = i + 1;
    }
    assert(chars@.take(chars@.len() as int) == chars@);
    out.push('"');
    assert(out@ =~= before + quoted(s@));
}

/// Order of two texts by character number.
pub fn text_order_exec(a: &Vec<char>, b: &Vec<char>) -> (r: i8)
    ensures
        -1 <= r <= 1,
        r == text_order(a@, b@),
{
    let mut i: usize = 0;
    assert(a@.skip(0) == a@);
    assert(b@.skip(0) == b@);
    while i < a.len() && i < b.len() && a[i] == b[i]
        invariant
            i <= a@.len(),
            i <= b@.len(),
            text_order(a@, b@) == text_order(a@.skip(i as int), b@.skip(i as int)),
        decreases a@.len() - i,
    {
        assert(a@.skip(i as int).drop_first() == a@.skip(i + 1));
        assert(b@.skip(i as int).drop_first() == b@.skip(i + 1));
        i = i + 1;
    }
    proof {
        let sa = a@.skip(i as int);
        let sb = b@.skip(i as int);
        if i < a@.len() {
            assert(sa[0] == a@[i as int]);
        }
        if i < b@.len() {
            assert(sb[0] == b@[i as int]);
        }
    }
    if i == a.len() && i == b.len() {
        0
    } else if i == a.len() {
        -1
    } else if i == b.len() {
        1
    } else if a[i] < b[i] {
        -1
    } else {
        1
    }
}

/// The indices of `members`, ordered by key.
pub(crate) fn member_order(members: &Vec<(String, JsonValue)>) -> (ord: Vec<usize>)
    ensures
        ord@.len() == members@.len(),
        forall|k: int| 0 <= k < ord@.len() ==> ord@[k] < members@.len(),
        ord@.map_values(|i: usize| i as int) == key_order(members_json(members@)),
{
    let ghost es = members_json(members@);
    let mut keys: Vec<Vec<char>> = Vec::new();
    let mut n: usize = 0;
    while n < members.len()
        invariant
            es == members_json(members@),
            n <= members@.len(),
            keys@.len() == n,
            forall|j: int| 0 <= j < n ==> #[trigger] keys@[j]@ == es[j].0,
        decreases members@.len() - n,
    {
        keys.push(chars_of(members[n].0.as_str()));
        n = n + 1;
    }
    let mut ord: Vec<usize> = Vec::new();
    let mut n: usize = 0;
    assert(ord@.map_values(|i: usize| i as int) =~= key_order_upto(es, 0));
    while n < members.len()
        invariant
            es == members_json(members@),
            keys@.len() == members@.len(),
            forall|j: int| 0 <= j < keys@.len() ==> #[trigger] keys@[j]@ == es[j].0,
            n <= members@.len(),
            ord@.len() == n,
            forall|k: int| 0 <= k < ord@.len() ==> ord@[k] < n,
            ord@.map_values(|i: usize| i as int) == key_order_upto(es, n as int),
        decreases members@.len() - n,
    {
        let ghost old_ord = ord@.map_values(|i: usize| i as int);
        let mut j = ord.len();
        assert(old_ord.take(j as int) =~= old_ord);
        assert(old_ord.skip(j as int) =~= Seq::<int>::empty());
        while j > 0 && text_order_exec(&keys[n], &keys[ord[j - 1]]) < 0
            invariant
                es == members_json(members@),
                keys@.len() == members@.len(),
                forall|t: int| 0 <= t < keys@.len() ==> #[trigger] keys@[t]@ == es[t].0,
                n < members@.len(),
                ord@.len() == n,
                forall|k: int| 0 <= k < ord@.len() ==> ord@[k] < n,
                old_ord == ord@.map_values(|i: usize| i as int),
                j <= ord@.len(),
                insert_by_key(es, old_ord, n as int) == insert_by_key(es, old_ord.take(j as int), n as int)
                    + old_ord.skip(j as int),
            decreases j,
        {
            proof {
                let t = old_ord.take(j as int);
                assert(t.drop_last() == old_ord.take(j - 1));
                assert(t.last() == old_ord[j - 1]);
                assert(old_ord.skip(j - 1) == seq![old_ord[j - 1]] + old_ord.skip(j as int));
            }
            j = j - 1;
        }
        proof {
            let t = old_ord.take(j as int);
            assert(insert_by_key(es, t, n as int) == t.push(n as int));
        }
        ord.insert(j, n);
        proof {
            assert(ord@.map_values(|i: usize| i as int) =~= old_ord.take(j as int).push(n as int) + old_ord.skip(j as int));
            assert(old_ord.take(old_ord.len() as int) == old_ord);
        }
        n = n + 1;
    }
    ord
}

/// Writes the compact text of `v`.
pub fn write_json(out: &mut Vec<char>, v: &JsonValue)
    ensures
        final(out)@ == old(out)@ + json_text(v.json()),
    decreases v, 0int,
{
    let ghost before = out@;
    match v {
        JsonValue::Null => {
            out.push('n');
            out.push('u');
            out.push('l');
            out.push('l');
            assert(out@ =~= before + json_text(v.json()));
        },
        JsonValue::Bool(b) => {
            if *b {
                out.push('t');
                out.push('r');
                out.push('u');
                out.push('e');
            } else {
                out.push('f');
                out.push('a');
                out.push('l');
                out.push('s');
                out.push('e');
            }
            assert(out@ =~= before + json_text(v.json()));
        },
        JsonValue::Number(t) => {
            let text = number_to_text(t.as_str());
            append(out, &chars_of(text.as_str()));
        },
        JsonValue::String(s) => {
            write_quoted(out, s.as_str());
        },
        JsonValue::Array(xs) => {
            proof {
                lemma_array_json(*xs);
            }
            out.push('[');
            write_items(out, xs, 0);
            out.push(']');
            assert(out@ =~= before + json_text(v.json()));
        },
        JsonValue::Object(es) => {
            proof {
                lemma_object_json(*es);
            }
            let ord = member_order(es);
            out.push('{');
            write_members(out, es, &ord, 0);
            out.push('}');
            assert(out@ =~= before + json_text(v.json()));
        },
    }
}

fn write_items(out: &mut Vec<char>, xs: &Vec<JsonValue>, i: usize)
    requires
        i <= xs@.len(),
    ensures
        final(out)@ == old(out)@ + items_text(items_json(xs@), i as int),
    decreases xs, xs@.len() - i,
{
    if i >= xs.len() {
        assert(final(out)@ =~= old(out)@ + items_text(items_json(xs@), i as int)) by {
            assert(out@ == old(out)@);
        }
        return;
    }
    let ghost before = out@;
    if i > 0 {
        out.push(',');
    }
    write_json(out, &xs[i]);
    write_items(out, xs, i + 1);
    assert(out@ =~= before + items_text(items_json(xs@), i as int));
}

fn write_members(out: &mut Vec<char>, es: &Vec<(String, JsonValue)>, ord: &Vec<usize>, k: usize)
    requires
        k <= ord@.len(),
        forall|t: int| 0 <= t < ord@.len() ==> ord@[t] < es@.len(),
    ensures
        final(out)@ == old(out)@ + members_text(members_json(es@), ord@.map_values(|i: usize| i as int), k as int),
    decreases es, ord@.len() - k,
{
    let ghost o = ord@.map_values(|i: usize| i as int);
    if k >= ord.len() {
        assert(out@ =~= old(out)@ + members_text(members_json(es@), o, k as int));
        return;
    }
    let ghost before = out@;
    let i = ord[k];
    if k > 0 {
        out.push(',');
    }
    write_quoted(out, es[i].0.as_str());
    out.push(':');
    write_json(out, &es[i].1);
    write_members(out, es, ord, k + 1);
    assert(o[k as int] == i as int);
    assert(out@ =~= before + members_text(members_json(es@), o, k as int));
}

/// The compact text of `v`.
pub fn json_to_text(v: &JsonValue) -> (s: String)
    ensures
        s@ == json_text(v.json()),
{
    let mut out: Vec<char> = Vec::new();
    write_json(&mut out, v);
    assert(out@ =~= json_text(v.json()));
    crate::text::string_of(&out)
}


// ---------------------------------------------------------------------------
// Order
// ---------------------------------------------------------------------------

/// The rank of a value's kind: null, boolean, number, string, array, object.
pub open spec fn kind_rank(j: Json) -> int {
    match j {
        Json::Null => 0,
        Json::Bool(_) => 1,
        Json::Number(_) => 2,
        Json::Str(_) => 3,
        Json::Array(_) => 4,
        Json::Object(_) => 5,
    }
}

/// A total order on possibly absent values, as -1, 0 or 1: absent first,
/// then by kind; booleans false first, numbers by value, strings by
/// character; null, arrays and objects by their compact text. The same
/// number literal is equal to itself (the `f64` of a JSON number is never
/// NaN, so `serde_json`'s comparison says so too).
pub open spec fn value_order(a: Option<Json>, b: Option<Json>) -> int {
    match (a, b) {
        (None, None) => 0,
        (None, Some(_)) => -1,
        (Some(_), None) => 1,
        (Some(x), Some(y)) => if kind_rank(x) < kind_rank(y) {
            -1
        } else if kind_rank(x) > kind_rank(y) {
            1
        } else {
            match (x, y) {
                (Json::Bool(p), Json::Bool(q)) => if p == q {
                    0
                } else if !p {
                    -1
                } else {
                    1
                },
                (Json::Number(p), Json::Number(q)) => if p == q {
                    0
                } else {
                    match number_order(p, q) {
                        Some(k) => k as int,
                        None => 0,
                    }
                },
                (Json::Str(p), Json::Str(q)) => text_order(p, q),
                _ => text_order(json_text(x), json_text(y)),
            }
        },
    }
}

fn kind_rank_exec(v: &JsonValue) -> (r: u8)
    ensures
        r == kind_rank(v.json()),
{
    match v {
        JsonValue::Null => 0,
        JsonValue::Bool(_) => 1,
        JsonValue::Number(_) => 2,
        JsonValue::String(_) => 3,
        JsonValue::Array(_) => 4,
        JsonValue::Object(_) => 5,
    }
}

/// Where `a` stands against `b` in the order of values: -1, 0 or 1.
pub fn value_order_exec(a: Option<&JsonValue>, b: Option<&JsonValue>) -> (r: i8)
    ensures
        -1 <= r <= 1,
        r == value_order(
            match a {
                Some(x) => Some(x.json()),
                None => None,
            },
            match b {
                Some(y) => Some(y.json()),
                None => None,
            },
        ),
{
    match (a, b) {
        (None, None) => 0,
        (None, Some(_)) => -1,
        (Some(_), None) => 1,
        (Some(x), Some(y)) => {
            let (kx, ky) = (kind_rank_exec(x), kind_rank_exec(y));
            if kx < ky {
                -1
            } else if kx > ky {
                1
            } else {
                match (x, y) {
                    (JsonValue::Bool(p), JsonValue::Bool(q)) => {
                        if *p == *q {
                            0
                        } else if !*p {
                            -1
                        } else {
                            1
                        }
                    },
                    (JsonValue::Number(p), JsonValue::Number(q)) => {
                        if same_chars(&chars_of(p.as_str()), &chars_of(q.as_str())) {
                            0
                        } else {
                            match numbers_compare(p.as_str(), q.as_str()) {
                                Some(k) => k,
                                None => 0,
                            }
                        }
                    },
                    (JsonValue::String(p), JsonValue::String(q)) => {
                        text_order_exec(&chars_of(p.as_str()), &chars_of(q.as_str()))
                    },
                    _ => {
                        let tx = json_to_text(x);
                        let ty = json_to_text(y);
                        text_order_exec(&chars_of(tx.as_str()), &chars_of(ty.as_str()))
                    },
                }
            }
        },
    }
}

} // verus!
