//! Argument handling for the semantic-judgment operations: content bounds,
//! label sets, score scales, routing targets, and the grounding check on
//! quoted evidence.

use vstd::prelude::*;
use crate::json::{Json, JsonValue};
use crate::json_ops::{find_member, lemma_find_key_range};
use crate::repair::{find_key, lemma_array_json, lemma_object_json, members_json};
use crate::json_ops::{text_order, text_order_exec};
use crate::numeric::{parse_i64, parse_i64_spec};
use crate::text::{
    chars_of, collapse, collapse_ws, contains_seq, contains_seq_exec, find_seq, first_occurrence,
    index_where, lemma_index_where, lemma_index_where_unique, string_of, sub_chars, trim,
    trim_chars, same_chars, decimal, signed_decimal, push_decimal, push_signed, push_text, debug_quoted, debug_text,
};

verus! {

// ---------------------------------------------------------------------------
// Content bound
// ---------------------------------------------------------------------------

/// The content handed to the model under an optional operator bound.
pub open spec fn bounded(content: Seq<char>, max_content_length: Option<usize>) -> Seq<char> {
    match max_content_length {
        Some(max) if max > 0 && content.len() > max => content.take(max as int),
        _ => content,
    }
}

/// Apply the optional operator content bound: `None` or `Some(0)` keeps the
/// whole content; a positive bound keeps at most that many characters.
pub fn bound_content(content: &str, max_content_length: Option<usize>) -> (r: String)
    ensures
        r@ == bounded(content@, max_content_length),
{
    let cs = chars_of(content);
    match max_content_length {
        Some(max) if max > 0 && cs.len() > max => string_of(&sub_chars(&cs, 0, max)),
        _ => string_of(&cs),
    }
}

// ---------------------------------------------------------------------------
// Label sets
// ---------------------------------------------------------------------------

pub open spec fn label_sep() -> spec_fn(char) -> bool {
    |c: char| c == ',' || c == '\n'
}

/// `s` split at every comma and newline (empty pieces included).
pub open spec fn split_labels(s: Seq<char>) -> Seq<Seq<char>>
    decreases s.len(),
{
    let k = index_where(s, label_sep());
    proof {
        lemma_index_where(s, label_sep());
    }
    if k >= s.len() || k < 0 {
        seq![s]
    } else {
        seq![s.take(k)] + split_labels(s.skip(k + 1))
    }
}

/// The label names a `--labels` value lists: its comma- or newline-separated
/// pieces, trimmed, empty ones dropped.
pub open spec fn labels_of(raw: Seq<char>) -> Seq<Seq<char>> {
    split_labels(raw).map_values(|p: Seq<char>| trim(p)).filter(|l: Seq<char>| l.len() > 0)
}

/// Whether `ls[j]` repeats an earlier label.
pub open spec fn repeats_earlier(ls: Seq<Seq<char>>, j: int) -> bool {
    exists|i: int| 0 <= i < j && ls[i] == ls[j]
}

/// Why a `--labels` value was refused.
#[derive(Debug, Clone, PartialEq, Eq)]
pub enum LabelSetError {
    /// It lists fewer than 2 or more than 64 labels (the count it lists).
    Count(usize),
    /// A label occurs twice (the label).
    Duplicate(String),
}

fn split_labels_exec(s: &Vec<char>) -> (r: Vec<Vec<char>>)
    ensures
        r.deep_view() == split_labels(s@),
{
    let mut r: Vec<Vec<char>> = Vec::new();
    let mut start: usize = 0;
    assert(s@.skip(0) == s@);
    loop
        invariant
            start <= s.len(),
            r.deep_view() + split_labels(s@.skip(start as int)) == split_labels(s@),
        decreases s.len() - start,
    {
        let ghost t = s@.skip(start as int);
        let mut e = start;
        while e < s.len() && !(s[e] == ',' || s[e] == '\n')
            invariant
                start <= e <= s.len(),
                forall|j: int| start <= j < e ==> !(#[trigger] label_sep()(s@[j])),
            decreases s.len() - e,
        {
            e = e + 1;
        }
        proof {
            assert forall|j: int| 0 <= j < e - start implies !#[trigger] label_sep()(t[j]) by {
                assert(t[j] == s@[start + j]);
            }
            if e < s.len() {
                assert(t[e - start] == s@[e as int]);
            }
            lemma_index_where_unique(t, label_sep(), e - start);
            assert(t.take(e - start) =~= s@.subrange(start as int, e as int));
        }
        let piece = sub_chars(s, start, e);
        let ghost before = r.deep_view();
        proof {
            assert(piece.deep_view() =~= piece@);
        }
        r.push(piece);
        proof {
            assert(r.deep_view() =~= before.push(s@.subrange(start as int, e as int)));
        }
        if e == s.len() {
            proof {
                assert(t.take(e - start) =~= t);
                assert(split_labels(t) == seq![t]);
                assert(r.deep_view() =~= before + split_labels(t));
            }
            return r;
        }
        proof {
            assert(t.skip(e - start + 1) =~= s@.skip(e + 1));
            assert(before + split_labels(t) =~= r.deep_view() + split_labels(s@.skip(e + 1)));
        }
        start = e + 1;
    }
}


/// Parse a `--labels` value: comma- or newline-separated label names,
/// trimmed. Strict: 2 to 64 labels, no empties, no duplicates.
pub fn parse_label_set(raw: &str) -> (r: Result<Vec<String>, LabelSetError>)
    ensures
        ({
            let ls = labels_of(raw@);
            match r {
                Ok(v) => {
                    &&& v.deep_view() == ls
                    &&& 2 <= ls.len() <= 64
                    &&& forall|j: int| 0 <= j < ls.len() ==> !repeats_earlier(ls, j)
                },
                Err(LabelSetError::Count(n)) => n == ls.len() && (ls.len() < 2 || ls.len() > 64),
                Err(LabelSetError::Duplicate(l)) => {
                    &&& 2 <= ls.len() <= 64
                    &&& exists|j: int|
                        0 <= j < ls.len() && l@ == ls[j] && repeats_earlier(ls, j) && forall|k: int|
                            0 <= k < j ==> !repeats_earlier(ls, k)
                },
            }
        }),
{
    let cs = chars_of(raw);
    let pieces = split_labels_exec(&cs);
    let ghost pv = pieces.deep_view();
    let ghost tv = pv.map_values(|p: Seq<char>| trim(p));
    let mut labels: Vec<Vec<char>> = Vec::new();
    let mut i: usize = 0;
    while i < pieces.len()
        invariant
            pv == pieces.deep_view(),
            tv == pv.map_values(|p: Seq<char>| trim(p)),
            i <= pieces.len(),
            labels.deep_view() == tv.take(i as int).filter(|l: Seq<char>| l.len() > 0),
        decreases pieces.len() - i,
    {
        assert(pv[i as int] =~= pieces@[i as int]@);
        let t = trim_chars(&pieces[i]);
        let ghost before = labels.deep_view();
        proof {
            reveal_with_fuel(Seq::filter, 1);
            assert(tv.take(i + 1).drop_last() =~= tv.take(i as int));
            assert(tv.take(i + 1).last() == t@);
        }
        if t.len() > 0 {
            proof {
                assert(t.deep_view() =~= t@);
            }
            labels.push(t);
            assert(labels.deep_view() =~= before.push(t@));
        }
        i = i + 1;
    }
    assert(tv.take(pieces.len() as int) =~= tv);
    let ghost ls = labels.deep_view();
    assert(ls == labels_of(raw@));
    if labels.len() < 2 || labels.len() > 64 {
        return Err(LabelSetError::Count(labels.len()));
    }
    let mut j: usize = 0;
    while j < labels.len()
        invariant
            ls == labels.deep_view(),
            ls == labels_of(raw@),
            2 <= ls.len() <= 64,
            j <= labels.len(),
            forall|k: int| 0 <= k < j ==> !repeats_earlier(ls, k),
        decreases labels.len() - j,
    {
        let mut i: usize = 0;
        while i < j
            invariant
                ls == labels.deep_view(),
                ls == labels_of(raw@),
                2 <= ls.len() <= 64,
                forall|k: int| 0 <= k < j ==> !repeats_earlier(ls, k),
                i <= j < labels.len(),
                forall|k: int| 0 <= k < i ==> ls[k] != ls[j as int],
            decreases j - i,
        {
            assert(ls[i as int] =~= labels@[i as int]@);
            assert(ls[j as int] =~= labels@[j as int]@);
            if same_chars(&labels[i], &labels[j]) {
                assert(repeats_earlier(ls, j as int));
                let dup = string_of(&labels[j]);
                assert(dup@ == ls[j as int]);
                return Err(LabelSetError::Duplicate(dup));
            }
            i = i + 1;
        }
        j = j + 1;
    }
    let mut out: Vec<String> = Vec::new();
    let mut k: usize = 0;
    while k < labels.len()
        invariant
            ls == labels.deep_view(),
            ls == labels_of(raw@),
            2 <= ls.len() <= 64,
            forall|k: int| 0 <= k < ls.len() ==> !repeats_earlier(ls, k),
            k <= labels.len(),
            out.deep_view() == ls.take(k as int),
        decreases labels.len() - k,
    {
        assert(ls[k as int] =~= labels@[k as int]@);
        let s = string_of(&labels[k]);
        let ghost before = out.deep_view();
        out.push(s);
        assert(out.deep_view() =~= before.push(ls[k as int]));
        assert(ls.take(k + 1) =~= ls.take(k as int).push(ls[k as int]));
        k = k + 1;
    }
    assert(ls.take(labels.len() as int) =~= ls);
    Ok(out)
}

// ---------------------------------------------------------------------------
// Score scales
// ---------------------------------------------------------------------------

/// Why a `--scale` value was refused.
#[derive(Debug, Clone, PartialEq, Eq)]
pub enum ScaleError {
    /// It has no `..` separator (the value as given).
    NoSeparator(String),
    /// The part before `..` is not an integer (that part, trimmed).
    BadMin(String),
    /// The part after `..` is not an integer (that part, trimmed).
    BadMax(String),
    /// The bounds are not increasing (min, max).
    NotIncreasing(i64, i64),
}

/// The two sides of a `--scale` value: the trimmed text before and after the
/// first `..`, when there is one.
pub open spec fn scale_parts(raw: Seq<char>) -> Option<(Seq<char>, Seq<char>)> {
    let t = trim(raw);
    match first_occurrence(t, ".."@) {
        Some(k) => Some((trim(t.take(k)), trim(t.skip(k + 2)))),
        None => None,
    }
}

/// Parse a `--scale` value of the form `min..max` (integers, min < max).
pub fn parse_scale(raw: &str) -> (r: Result<(i64, i64), ScaleError>)
    ensures
        match scale_parts(raw@) {
            None => r matches Err(ScaleError::NoSeparator(s)) && s@ == raw@,
            Some((a, b)) => match (parse_i64_spec(a), parse_i64_spec(b)) {
                (None, _) => r matches Err(ScaleError::BadMin(s)) && s@ == a,
                (Some(_), None) => r matches Err(ScaleError::BadMax(s)) && s@ == b,
                (Some(min), Some(max)) => if min < max {
                    r == Ok::<(i64, i64), ScaleError>((min, max))
                } else {
                    r == Err::<(i64, i64), ScaleError>(ScaleError::NotIncreasing(min, max))
                },
            },
        },
{
    let cs = chars_of(raw);
    let t = trim_chars(&cs);
    let sep = chars_of("..");
    proof {
        reveal_strlit("..");
    }
    let k = match find_seq(&t, &sep) {
        Some(k) => k,
        None => return Err(ScaleError::NoSeparator(raw.to_owned())),
    };
    assert(sep@.len() == 2);
    let a = trim_chars(&sub_chars(&t, 0, k));
    let b = trim_chars(&sub_chars(&t, k + 2, t.len()));
    assert(t@.take(k as int) =~= t@.subrange(0, k as int));
    assert(t@.skip(k + 2) =~= t@.subrange(k + 2, t.len() as int));
    let min = match parse_i64(&a) {
        Some(v) => v,
        None => return Err(ScaleError::BadMin(string_of(&a))),
    };
    let max = match parse_i64(&b) {
        Some(v) => v,
        None => return Err(ScaleError::BadMax(string_of(&b))),
    };
    if min >= max {
        return Err(ScaleError::NotIncreasing(min, max));
    }
    Ok((min, max))
}


// ---------------------------------------------------------------------------
// Grounding of quoted evidence
// ---------------------------------------------------------------------------

/// What is wrong with a judgment's quoted evidence.
#[derive(Debug, Clone, PartialEq, Eq)]
pub enum QuoteProblem {
    /// The quotes field is not an array.
    NotArray,
    /// The quote at this index is not a string.
    NotString(usize),
    /// The quote at this index is empty once whitespace is collapsed.
    Empty(usize),
    /// The quote at this index does not occur in the content (its first
    /// 120 characters).
    NotInContent(usize, String),
}

/// A refused quote, with the name of the operation that produced it.
#[derive(Debug, Clone, PartialEq, Eq)]
pub struct QuoteError {
    pub cap: String,
    pub problem: QuoteProblem,
}

/// Whether `q` is a non-empty string occurring verbatim (whitespace runs
/// collapsed on both sides) in the collapsed content `normalized`.
pub open spec fn quote_grounded(normalized: Seq<char>, q: JsonValue) -> bool {
    match q {
        JsonValue::String(s) => collapse(s@).len() > 0 && contains_seq(normalized, collapse(s@)),
        _ => false,
    }
}

/// The first `n` characters of `s` (all of them when it is shorter).
pub open spec fn first_chars(s: Seq<char>, n: int) -> Seq<char> {
    if s.len() > n { s.take(n) } else { s }
}

/// Whether quote `i` of `items` is the first that is not grounded.
pub open spec fn first_ungrounded(normalized: Seq<char>, items: Seq<JsonValue>, i: int) -> bool {
    &&& 0 <= i < items.len()
    &&& !quote_grounded(normalized, items[i])
    &&& forall|j: int| 0 <= j < i ==> quote_grounded(normalized, #[trigger] items[j])
}

/// Whether `quotes` is an array of grounded quotes.
pub open spec fn all_quotes_grounded(normalized: Seq<char>, quotes: JsonValue) -> bool {
    match quotes {
        JsonValue::Array(items) => forall|i: int|
            0 <= i < items@.len() ==> quote_grounded(normalized, #[trigger] items@[i]),
        _ => false,
    }
}

/// Whether `p` describes what is wrong with `quotes`: the quotes are not an
/// array, or `p` names the first ungrounded quote and why.
pub open spec fn describes_problem(normalized: Seq<char>, quotes: JsonValue, p: QuoteProblem) -> bool {
    match quotes {
        JsonValue::Array(items) => match p {
            QuoteProblem::NotArray => false,
            QuoteProblem::NotString(i) => {
                &&& first_ungrounded(normalized, items@, i as int)
                &&& !(items@[i as int] is String)
            },
            QuoteProblem::Empty(i) => {
                &&& first_ungrounded(normalized, items@, i as int)
                &&& match items@[i as int] {
                    JsonValue::String(s) => collapse(s@).len() == 0,
                    _ => false,
                }
            },
            QuoteProblem::NotInContent(i, excerpt) => {
                &&& first_ungrounded(normalized, items@, i as int)
                &&& match items@[i as int] {
                    JsonValue::String(s) => collapse(s@).len() > 0 && excerpt@ == first_chars(s@, 120),
                    _ => false,
                }
            },
        },
        _ => p == QuoteProblem::NotArray,
    }
}

/// Enforce grounding on quote-carrying judgments: every quoted excerpt must
/// occur verbatim in `content`, compared with whitespace runs collapsed.
pub fn verify_quotes_grounded(content: &str, quotes: &JsonValue, cap_name: &str) -> (r: Result<
    (),
    QuoteError,
>)
    ensures
        r is Ok <==> all_quotes_grounded(collapse(content@), *quotes),
        r matches Err(e) ==> e.cap@ == cap_name@ && describes_problem(
            collapse(content@),
            *quotes,
            e.problem,
        ),
{
    let items = match quotes {
        JsonValue::Array(items) => items,
        _ => {
            return Err(QuoteError { cap: string_of(&chars_of(cap_name)), problem: QuoteProblem::NotArray });
        },
    };
    let normalized = chars_of(collapse_ws(content).as_str());
    let mut i: usize = 0;
    while i < items.len()
        invariant
            quotes matches JsonValue::Array(its) && its@ == items@,
            normalized@ == collapse(content@),
            i <= items.len(),
            forall|j: int| 0 <= j < i ==> quote_grounded(normalized@, #[trigger] items@[j]),
        decreases items.len() - i,
    {
        let text = match &items[i] {
            JsonValue::String(s) => s,
            _ => {
                return Err(QuoteError { cap: string_of(&chars_of(cap_name)), problem: QuoteProblem::NotString(i) });
            },
        };
        let needle = chars_of(collapse_ws(text.as_str()).as_str());
        if needle.len() == 0 {
            return Err(QuoteError { cap: string_of(&chars_of(cap_name)), problem: QuoteProblem::Empty(i) });
        }
        if !contains_seq_exec(&normalized, &needle) {
            let tc = chars_of(text.as_str());
            let excerpt = if tc.len() > 120 { sub_chars(&tc, 0, 120) } else { tc };
            assert(tc@.len() > 120 ==> tc@.take(120) =~= tc@.subrange(0, 120));
            return Err(
                QuoteError {
                    cap: string_of(&chars_of(cap_name)),
                    problem: QuoteProblem::NotInContent(i, string_of(&excerpt)),
                },
            );
        }
        i = i + 1;
    }
    Ok(())
}

// ---------------------------------------------------------------------------
// Routing targets
// ---------------------------------------------------------------------------

/// Why a `--targets` value was refused.
#[derive(Debug, Clone, PartialEq, Eq)]
pub enum TargetSetError {
    /// It is not a JSON object.
    NotObject,
    /// An entry has an empty name or description (the name, trimmed).
    EmptyEntry(String),
    /// It defines fewer than 2 or more than 64 targets (the count).
    Count(usize),
}

/// A member's description: its value trimmed when it is a string, empty
/// otherwise.
pub open spec fn target_description(v: JsonValue) -> Seq<char> {
    match v {
        JsonValue::String(s) => trim(s@),
        _ => seq![],
    }
}

/// Whether a member names a target with a contract.
pub open spec fn target_ok(m: (String, JsonValue)) -> bool {
    trim(m.0@).len() > 0 && target_description(m.1).len() > 0
}

/// The `(name, description)` pairs of an object's members, trimmed.
pub open spec fn targets_of(members: Seq<(String, JsonValue)>) -> Seq<(Seq<char>, Seq<char>)> {
    members.map_values(|m: (String, JsonValue)| (trim(m.0@), target_description(m.1)))
}

/// `m` put into `s` before the first member whose name comes after its own
/// (after every member with the same name).
pub open spec fn insert_by_name(m: (String, JsonValue), s: Seq<(String, JsonValue)>) -> Seq<(String, JsonValue)>
    decreases s.len(),
{
    if s.len() == 0 {
        seq![m]
    } else if text_order(m.0@, s[0].0@) < 0 {
        seq![m] + s
    } else {
        seq![s[0]] + insert_by_name(m, s.drop_first())
    }
}

/// An object's members ordered by name, members with the same name kept in
/// their order.
pub open spec fn by_name(ms: Seq<(String, JsonValue)>) -> Seq<(String, JsonValue)>
    decreases ms.len(),
{
    if ms.len() == 0 {
        Seq::empty()
    } else {
        insert_by_name(ms.last(), by_name(ms.drop_last()))
    }
}

/// Inserting before the first member whose name comes after `m`'s.
proof fn lemma_insert_by_name_at(m: (String, JsonValue), s: Seq<(String, JsonValue)>, p: int)
    requires
        0 <= p <= s.len(),
        forall|q: int| 0 <= q < p ==> text_order(m.0@, (#[trigger] s[q]).0@) >= 0,
        p < s.len() ==> text_order(m.0@, s[p].0@) < 0,
    ensures
        insert_by_name(m, s) == s.take(p) + seq![m] + s.skip(p),
    decreases s.len(),
{
    if s.len() == 0 {
        assert(s.take(p) + seq![m] + s.skip(p) =~= seq![m]);
    } else if p == 0 {
        assert(s.take(p) + seq![m] + s.skip(p) =~= seq![m] + s);
    } else {
        let t = s.drop_first();
        assert forall|q: int| 0 <= q < p - 1 implies text_order(m.0@, (#[trigger] t[q]).0@) >= 0 by {
            assert(t[q] == s[q + 1]);
        }
        if p - 1 < t.len() {
            assert(t[p - 1] == s[p]);
        }
        lemma_insert_by_name_at(m, t, p - 1);
        assert(s.take(p) + seq![m] + s.skip(p) =~= seq![s[0]] + (t.take(p - 1) + seq![m] + t.skip(p - 1)));
    }
}

/// Read a `--targets` value, a JSON object mapping target name to contract
/// description. Strict: 2 to 64 targets, non-empty names and descriptions.
/// The targets come ordered by member name, so the order does not depend on
/// how the caller ordered the object; an entry without a contract is
/// reported as the first one in that order.
pub fn parse_target_set(value: &JsonValue) -> (r: Result<Vec<(String, String)>, TargetSetError>)
    ensures
        match value {
            JsonValue::Object(members) => {
                let ms = by_name(members@);
                match r {
                    Ok(v) => (forall|i: int| 0 <= i < ms.len() ==> target_ok(#[trigger] ms[i]))
                        && 2 <= ms.len() <= 64 && v.deep_view() == targets_of(ms),
                    Err(TargetSetError::EmptyEntry(n)) => exists|i: int|
                        0 <= i < ms.len() && !target_ok(#[trigger] ms[i]) && n@ == trim(ms[i].0@)
                            && forall|j: int| 0 <= j < i ==> target_ok(#[trigger] ms[j]),
                    Err(TargetSetError::Count(n)) => (forall|i: int|
                        0 <= i < ms.len() ==> target_ok(#[trigger] ms[i])) && n == ms.len() && (
                    ms.len() < 2 || ms.len() > 64),
                    Err(TargetSetError::NotObject) => false,
                }
            },
            _ => r == Err::<Vec<(String, String)>, TargetSetError>(TargetSetError::NotObject),
        },
{
    let members = match value {
        JsonValue::Object(members) => members,
        _ => return Err(TargetSetError::NotObject),
    };
    let ghost all = members@;
    // Order the members by name: `order` holds their indices.
    let mut order: Vec<usize> = Vec::new();
    let mut names: Vec<Vec<char>> = Vec::new();
    let mut i: usize = 0;
    assert(all.take(0) =~= Seq::<(String, JsonValue)>::empty());
    while i < members.len()
        invariant
            all == members@,
            i <= members.len(),
            order@.len() == i,
            names@.len() == i,
            forall|k: int| 0 <= k < i ==> (#[trigger] order@[k]) < members@.len(),
            forall|k: int| 0 <= k < i ==> (#[trigger] names@[k])@ == all[order@[k] as int].0@,
            Seq::new(i as nat, |k: int| all[order@[k] as int]) == by_name(all.take(i as int)),
        decreases members.len() - i,
    {
        let ghost s = Seq::new(i as nat, |k: int| all[order@[k] as int]);
        let key = chars_of(members[i].0.as_str());
        let mut p: usize = 0;
        while p < names.len() && text_order_exec(&key, &names[p]) >= 0
            invariant
                p <= names@.len(),
                names@.len() == i,
                s.len() == i,
                i < all.len(),
                key@ == all[i as int].0@,
                forall|k: int| 0 <= k < i ==> (#[trigger] names@[k])@ == s[k].0@,
                forall|q: int| 0 <= q < p ==> text_order(key@, (#[trigger] s[q]).0@) >= 0,
            decreases names@.len() - p,
        {
            assert(names@[p as int]@ == s[p as int].0@);
            p = p + 1;
        }
        proof {
            if p < i {
                assert(names@[p as int]@ == s[p as int].0@);
            }
            lemma_insert_by_name_at(all[i as int], s, p as int);
            assert(all.take(i + 1).drop_last() =~= all.take(i as int));
        }
        let ghost old_order = order@;
        let ghost old_names = names@;
        order.insert(p, i);
        names.insert(p, key);
        proof {
            let t = Seq::new((i + 1) as nat, |k: int| all[order@[k] as int]);
            assert(t =~= s.take(p as int) + seq![all[i as int]] + s.skip(p as int)) by {
                assert forall|k: int| 0 <= k < i + 1 implies t[k] == (s.take(p as int) + seq![all[i as int]] + s.skip(
                    p as int,
                ))[k] by {
                    if k < p {
                        assert(order@[k] == old_order[k]);
                    } else if k > p {
                        assert(order@[k] == old_order[k - 1]);
                    }
                }
            }
            assert forall|k: int| 0 <= k < i + 1 implies (#[trigger] order@[k]) < members@.len() by {
                if k < p {
                    assert(order@[k] == old_order[k]);
                } else if k > p {
                    assert(order@[k] == old_order[k - 1]);
                }
            }
            assert forall|k: int| 0 <= k < i + 1 implies (#[trigger] names@[k])@ == all[order@[k] as int].0@ by {
                if k < p {
                    assert(order@[k] == old_order[k] && names@[k] == old_names[k]);
                } else if k > p {
                    assert(order@[k] == old_order[k - 1] && names@[k] == old_names[k - 1]);
                }
            }
        }
        i = i + 1;
    }
    assert(all.take(members.len() as int) =~= all);
    let ghost ms = by_name(all);
    assert(ms.len() == members.len());
    let mut out: Vec<(String, String)> = Vec::new();
    let mut k: usize = 0;
    while k < order.len()
        invariant
            value matches JsonValue::Object(m) && m@ == all,
            all == members@,
            ms == by_name(all),
            order@.len() == members@.len() == ms.len(),
            forall|j: int| 0 <= j < order@.len() ==> (#[trigger] order@[j]) < members@.len(),
            Seq::new(order@.len() as nat, |j: int| all[order@[j] as int]) == ms,
            k <= order@.len(),
            forall|j: int| 0 <= j < k ==> target_ok(#[trigger] ms[j]),
            out.deep_view() == targets_of(ms).take(k as int),
        decreases order@.len() - k,
    {
        let m = &members[order[k]];
        assert(*m == ms[k as int]);
        let name = trim_chars(&chars_of(m.0.as_str()));
        let desc = match &m.1 {
            JsonValue::String(s) => trim_chars(&chars_of(s.as_str())),
            _ => Vec::new(),
        };
        assert(desc@ == target_description(ms[k as int].1));
        if name.len() == 0 || desc.len() == 0 {
            let n = string_of(&name);
            assert(!target_ok(ms[k as int]) && n@ == trim(ms[k as int].0@));
            return Err(TargetSetError::EmptyEntry(n));
        }
        let ghost before = out.deep_view();
        out.push((string_of(&name), string_of(&desc)));
        proof {
            assert(out.deep_view() =~= before.push((name@, desc@)));
            assert(targets_of(ms).take(k + 1) =~= targets_of(ms).take(k as int).push((name@, desc@)));
        }
        k = k + 1;
    }
    assert(targets_of(ms).take(order@.len() as int) =~= targets_of(ms));
    if out.len() < 2 || out.len() > 64 {
        return Err(TargetSetError::Count(out.len()));
    }
    Ok(out)
}

// ---------------------------------------------------------------------------
// Checking the model's replies
// ---------------------------------------------------------------------------

/// Why a reply of the model was refused.
#[derive(Debug, Clone, PartialEq, Eq)]
pub enum ReplyError {
    /// A decision that is neither 0 nor 1.
    NotABit(i64),
    /// A batch of decisions with another count than the questions: (expected, got).
    DecisionCount(usize, usize),
    /// A batch of decisions of which one is neither 0 nor 1.
    NotBits,
    /// A classification outside the label set: (the label, the set).
    LabelOutside(String, Vec<String>),
    /// A routing decision outside the target names: (the target, the names).
    TargetOutside(String, Vec<String>),
    /// An empty summary, with the model's reason (`None` when it gave none).
    EmptySummary(Option<String>),
    /// A verdict whose pass flag disagrees with its violations: (pass, count).
    Inconsistent(bool, usize),
}

/// A decision as a truth value: 1 is yes, 0 is no.
pub fn decision_bit(res: i64) -> (r: Result<bool, ReplyError>)
    ensures
        res == 1 ==> r == Ok::<bool, ReplyError>(true),
        res == 0 ==> r == Ok::<bool, ReplyError>(false),
        res != 0 && res != 1 ==> r == Err::<bool, ReplyError>(ReplyError::NotABit(res)),
{
    if res == 1 {
        Ok(true)
    } else if res == 0 {
        Ok(false)
    } else {
        Err(ReplyError::NotABit(res))
    }
}

/// A batch of decisions, one per question, as truth values: refused when
/// the count is not the number of questions, or when any is neither 0 nor 1.
pub fn decision_bits(res: &Vec<i64>, questions: usize) -> (r: Result<Vec<bool>, ReplyError>)
    ensures
        res@.len() != questions ==> r == Err::<Vec<bool>, ReplyError>(ReplyError::DecisionCount(questions, res@.len() as usize)),
        res@.len() == questions && (exists|i: int| 0 <= i < res@.len() && #[trigger] res@[i] != 0 && res@[i] != 1)
            ==> r == Err::<Vec<bool>, ReplyError>(ReplyError::NotBits),
        res@.len() == questions && (forall|i: int| 0 <= i < res@.len() ==> #[trigger] res@[i] == 0 || res@[i] == 1)
            ==> (r matches Ok(v) && v@ == res@.map_values(|x: i64| x == 1)),
{
    if res.len() != questions {
        return Err(ReplyError::DecisionCount(questions, res.len()));
    }
    let mut out: Vec<bool> = Vec::new();
    let mut i: usize = 0;
    while i < res.len()
        invariant
            i <= res@.len(),
            res@.len() == questions,
            forall|j: int| 0 <= j < i ==> #[trigger] res@[j] == 0 || res@[j] == 1,
            out@ == res@.take(i as int).map_values(|x: i64| x == 1),
        decreases res@.len() - i,
    {
        if res[i] != 0 && res[i] != 1 {
            return Err(ReplyError::NotBits);
        }
        out.push(res[i] == 1);
        assert(res@.take(i + 1).map_values(|x: i64| x == 1) =~= res@.take(i as int).map_values(|x: i64| x == 1).push(res[i as int] == 1));
        i = i + 1;
    }
    assert(res@.take(res@.len() as int) =~= res@);
    Ok(out)
}

/// The value under `key` in `v`, when `v` is an object that has it.
pub open spec fn json_get(v: Json, key: Seq<char>) -> Option<Json> {
    match v {
        Json::Object(es) => {
            let i = find_key(es, key, 0);
            if i >= 0 {
                Some(es[i].1)
            } else {
                None
            }
        },
        _ => None,
    }
}

/// The text under `key` in `v`, when it is a string.
pub open spec fn text_at(v: Json, key: Seq<char>) -> Option<Seq<char>> {
    match json_get(v, key) {
        Some(Json::Str(s)) => Some(s),
        _ => None,
    }
}

/// The text under `key` in `v`, when it is a string.
fn text_field(v: &JsonValue, key: &str) -> (r: Option<String>)
    ensures
        match text_at(v.json(), key@) {
            Some(s) => r matches Some(t) && t@ == s,
            None => r is None,
        },
{
    match v {
        JsonValue::Object(members) => {
            proof {
                lemma_object_json(*members);
                lemma_find_key_range(members_json(members@), key@, 0);
            }
            match find_member(members, &chars_of(key)) {
                Some(i) => match &members[i].1 {
                    JsonValue::String(s) => Some(s.clone()),
                    _ => None,
                },
                None => None,
            }
        },
        _ => None,
    }
}

/// Whether `s` is one of `set`.
pub open spec fn one_of(s: Seq<char>, set: Seq<String>) -> bool {
    exists|i: int| 0 <= i < set.len() && (#[trigger] set[i])@ == s
}

fn is_one_of(s: &Vec<char>, set: &Vec<String>) -> (r: bool)
    ensures
        r == one_of(s@, set@),
{
    let mut i: usize = 0;
    while i < set.len()
        invariant
            i <= set@.len(),
            forall|j: int| 0 <= j < i ==> (#[trigger] set@[j])@ != s@,
        decreases set@.len() - i,
    {
        if same_chars(&chars_of(set[i].as_str()), s) {
            return true;
        }
        i = i + 1;
    }
    false
}

/// A classification's label must be one of the label set (the constrained
/// decode makes any other impossible; this catches a regression of it). The
/// label is the reply's `label` text, empty when there is none.
pub fn check_label(reply: &JsonValue, labels: &Vec<String>) -> (r: Result<String, ReplyError>)
    ensures
        ({
            let label = match text_at(reply.json(), "label"@) {
                Some(s) => s,
                None => Seq::<char>::empty(),
            };
            if one_of(label, labels@) {
                r matches Ok(l) && l@ == label
            } else {
                r matches Err(ReplyError::LabelOutside(l, set)) && l@ == label && set@ == labels@
            }
        }),
{
    let label = match text_field(reply, "label") {
        Some(s) => s,
        None => String::new(),
    };
    if is_one_of(&chars_of(label.as_str()), labels) {
        Ok(label)
    } else {
        Err(ReplyError::LabelOutside(label, labels.clone()))
    }
}

/// A routing decision's target must be one of the target names. The target
/// is the reply's `target` text, empty when there is none.
pub fn check_target(reply: &JsonValue, names: &Vec<String>) -> (r: Result<String, ReplyError>)
    ensures
        ({
            let target = match text_at(reply.json(), "target"@) {
                Some(s) => s,
                None => Seq::<char>::empty(),
            };
            if one_of(target, names@) {
                r matches Ok(t) && t@ == target
            } else {
                r matches Err(ReplyError::TargetOutside(t, set)) && t@ == target && set@ == names@
            }
        }),
{
    let target = match text_field(reply, "target") {
        Some(s) => s,
        None => String::new(),
    };
    if is_one_of(&chars_of(target.as_str()), names) {
        Ok(target)
    } else {
        Err(ReplyError::TargetOutside(target, names.clone()))
    }
}

/// A summary must not be blank. The summary is the reply's `summary` text
/// (empty when there is none), handed back as it stands; a blank one is
/// refused with the reply's `reason` text.
pub fn check_summary(reply: &JsonValue) -> (r: Result<String, ReplyError>)
    ensures
        ({
            let summary = match text_at(reply.json(), "summary"@) {
                Some(s) => s,
                None => Seq::<char>::empty(),
            };
            if trim(summary).len() > 0 {
                r matches Ok(s) && s@ == summary
            } else {
                r matches Err(ReplyError::EmptySummary(reason)) && match text_at(reply.json(), "reason"@) {
                    Some(t) => reason matches Some(x) && x@ == t,
                    None => reason is None,
                }
            }
        }),
{
    let summary = match text_field(reply, "summary") {
        Some(s) => s,
        None => String::new(),
    };
    if trim_chars(&chars_of(summary.as_str())).len() > 0 {
        Ok(summary)
    } else {
        Err(ReplyError::EmptySummary(text_field(reply, "reason")))
    }
}

/// The number of items under `key` in `v`, when it is an array (else 0).
pub open spec fn items_at(v: Json, key: Seq<char>) -> nat {
    match json_get(v, key) {
        Some(Json::Array(items)) => items.len(),
        _ => 0,
    }
}

/// The flag under `key` in `v`, when it is a boolean (else false).
pub open spec fn flag_at(v: Json, key: Seq<char>) -> bool {
    match json_get(v, key) {
        Some(Json::Bool(b)) => b,
        _ => false,
    }
}

/// A verdict must agree with itself: it passes exactly when it lists no
/// violation. The pass flag is the reply's `pass` boolean (false when there
/// is none); the violations, the items of its `violations` array (none when
/// there is none).
pub fn check_verdict(reply: &JsonValue) -> (r: Result<(), ReplyError>)
    ensures
        ({
            let pass = flag_at(reply.json(), "pass"@);
            let n = items_at(reply.json(), "violations"@);
            if pass == (n > 0) {
                r == Err::<(), ReplyError>(ReplyError::Inconsistent(pass, n as usize))
            } else {
                r is Ok
            }
        }),
{
    let mut pass = false;
    let mut n: usize = 0;
    match reply {
        JsonValue::Object(members) => {
            proof {
                lemma_object_json(*members);
                lemma_find_key_range(members_json(members@), "pass"@, 0);
                lemma_find_key_range(members_json(members@), "violations"@, 0);
            }
            match find_member(members, &chars_of("pass")) {
                Some(i) => match &members[i].1 {
                    JsonValue::Bool(b) => {
                        pass = *b;
                    },
                    _ => {},
                },
                None => {},
            }
            match find_member(members, &chars_of("violations")) {
                Some(i) => match &members[i].1 {
                    JsonValue::Array(items) => {
                        proof {
                            lemma_array_json(*items);
                        }
                        n = items.len();
                    },
                    _ => {},
                },
                None => {},
            }
        },
        _ => {},
    }
    if pass == (n > 0) {
        Err(ReplyError::Inconsistent(pass, n))
    } else {
        Ok(())
    }
}

// ---------------------------------------------------------------------------
// Messages
// ---------------------------------------------------------------------------

/// The sentence that reports a refused label set.
pub open spec fn label_set_message(e: LabelSetError) -> Seq<char> {
    match e {
        LabelSetError::Count(n) => "--labels must list 2..=64 labels (comma- or newline-separated), got "@
            + decimal(n as nat),
        LabelSetError::Duplicate(l) => "--labels contains duplicate label '"@ + l@ + "'"@,
    }
}

impl LabelSetError {
    /// The sentence that reports this error.
    pub fn message(&self) -> (m: String)
        ensures
            m@ == label_set_message(*self),
    {
        let mut out: Vec<char> = Vec::new();
        match self {
            LabelSetError::Count(n) => {
                push_text(&mut out, "--labels must list 2..=64 labels (comma- or newline-separated), got ");
                push_decimal(&mut out, *n as u128);
            },
            LabelSetError::Duplicate(l) => {
                push_text(&mut out, "--labels contains duplicate label '");
                push_text(&mut out, l.as_str());
                push_text(&mut out, "'");
            },
        }
        assert(out@ =~= label_set_message(*self));
        string_of(&out)
    }
}

/// The sentence that reports a refused scale.
pub open spec fn scale_message(e: ScaleError) -> Seq<char> {
    match e {
        ScaleError::NoSeparator(raw) => "--scale must be 'min..max' (e.g. 0..10), got '"@ + raw@ + "'"@,
        ScaleError::BadMin(a) => "--scale min '"@ + a@ + "' is not an integer"@,
        ScaleError::BadMax(b) => "--scale max '"@ + b@ + "' is not an integer"@,
        ScaleError::NotIncreasing(min, max) => "--scale must satisfy min < max, got "@ + signed_decimal(min as int)
            + ".."@ + signed_decimal(max as int),
    }
}

impl ScaleError {
    /// The sentence that reports this error.
    pub fn message(&self) -> (m: String)
        ensures
            m@ == scale_message(*self),
    {
        let mut out: Vec<char> = Vec::new();
        match self {
            ScaleError::NoSeparator(raw) => {
                push_text(&mut out, "--scale must be 'min..max' (e.g. 0..10), got '");
                push_text(&mut out, raw.as_str());
                push_text(&mut out, "'");
            },
            ScaleError::BadMin(a) => {
                push_text(&mut out, "--scale min '");
                push_text(&mut out, a.as_str());
                push_text(&mut out, "' is not an integer");
            },
            ScaleError::BadMax(b) => {
                push_text(&mut out, "--scale max '");
                push_text(&mut out, b.as_str());
                push_text(&mut out, "' is not an integer");
            },
            ScaleError::NotIncreasing(min, max) => {
                push_text(&mut out, "--scale must satisfy min < max, got ");
                push_signed(&mut out, *min);
                push_text(&mut out, "..");
                push_signed(&mut out, *max);
            },
        }
        assert(out@ =~= scale_message(*self));
        string_of(&out)
    }
}

/// The sentence that reports a refused target set.
pub open spec fn target_set_message(e: TargetSetError) -> Seq<char> {
    match e {
        TargetSetError::NotObject => "--targets must be a JSON object of name: description"@,
        TargetSetError::EmptyEntry(n) => "--targets entries need a non-empty name and description (offending name: '"@
            + n@ + "')"@,
        TargetSetError::Count(n) => "--targets must define 2..=64 targets, got "@ + decimal(n as nat),
    }
}

impl TargetSetError {
    /// The sentence that reports this error.
    pub fn message(&self) -> (m: String)
        ensures
            m@ == target_set_message(*self),
    {
        let mut out: Vec<char> = Vec::new();
        match self {
            TargetSetError::NotObject => {
                push_text(&mut out, "--targets must be a JSON object of name: description");
            },
            TargetSetError::EmptyEntry(n) => {
                push_text(&mut out, "--targets entries need a non-empty name and description (offending name: '");
                push_text(&mut out, n.as_str());
                push_text(&mut out, "')");
            },
            TargetSetError::Count(n) => {
                push_text(&mut out, "--targets must define 2..=64 targets, got ");
                push_decimal(&mut out, *n as u128);
            },
        }
        assert(out@ =~= target_set_message(*self));
        string_of(&out)
    }
}

/// The sentence that reports a refused quote.
pub open spec fn quote_message(e: QuoteError) -> Seq<char> {
    e.cap@ + match e.problem {
        QuoteProblem::NotArray => ": quotes field is not an array"@,
        QuoteProblem::NotString(i) => ": quote "@ + decimal(i as nat) + " is not a string"@,
        QuoteProblem::Empty(i) => ": quote "@ + decimal(i as nat) + " is empty"@,
        QuoteProblem::NotInContent(i, q) => ": quote "@ + decimal(i as nat)
            + " does not occur in the content — the model fabricated its evidence (quote: '"@ + q@ + "')"@,
    }
}

impl QuoteError {
    /// The sentence that reports this error.
    pub fn message(&self) -> (m: String)
        ensures
            m@ == quote_message(*self),
    {
        let mut out: Vec<char> = Vec::new();
        push_text(&mut out, self.cap.as_str());
        match &self.problem {
            QuoteProblem::NotArray => {
                push_text(&mut out, ": quotes field is not an array");
            },
            QuoteProblem::NotString(i) => {
                push_text(&mut out, ": quote ");
                push_decimal(&mut out, *i as u128);
                push_text(&mut out, " is not a string");
            },
            QuoteProblem::Empty(i) => {
                push_text(&mut out, ": quote ");
                push_decimal(&mut out, *i as u128);
                push_text(&mut out, " is empty");
            },
            QuoteProblem::NotInContent(i, q) => {
                push_text(&mut out, ": quote ");
                push_decimal(&mut out, *i as u128);
                push_text(&mut out, " does not occur in the content — the model fabricated its evidence (quote: '");
                push_text(&mut out, q.as_str());
                push_text(&mut out, "')");
            },
        }
        assert(out@ =~= quote_message(*self));
        string_of(&out)
    }
}

// ---------------------------------------------------------------------------
// Laws
// ---------------------------------------------------------------------------

/// A quote copied out of the content is accepted as evidence, however its
/// line breaks and runs of whitespace differ from the content's: any
/// stretch of the content with a non-space in it grounds.
pub proof fn law_copied_quote_grounds(content: Seq<char>, quote: JsonValue, a: int, b: int)
    requires
        0 <= a <= b <= content.len(),
        exists|i: int| a <= i < b && !crate::text::is_ws(#[trigger] content[i]),
        quote matches JsonValue::String(q) && collapse(q@) == collapse(content.subrange(a, b)),
    ensures
        quote_grounded(collapse(content), quote),
{
    crate::grounding::law_content_stretch_grounds(content, a, b);
}


/// How `{:?}` writes a list of texts: each quoted, comma-separated, in
/// brackets (the first `n` of them, without the brackets).
pub open spec fn debug_items(set: Seq<String>, n: int) -> Seq<char>
    decreases n,
{
    if n <= 0 || n > set.len() {
        Seq::empty()
    } else if n == 1 {
        debug_quoted(set[0]@)
    } else {
        debug_items(set, n - 1) + ", "@ + debug_quoted(set[n - 1]@)
    }
}

/// The sentence that reports a refused reply.
pub open spec fn reply_message(e: ReplyError) -> Seq<char> {
    match e {
        ReplyError::NotABit(v) => "Bit choice value must be 0 or 1, got: "@ + signed_decimal(v as int),
        ReplyError::DecisionCount(expected, got) => "Expected "@ + decimal(expected as nat) + " Make Decision results but got "@
            + decimal(got as nat),
        ReplyError::NotBits => "Bit choices values must be 0 or 1"@,
        ReplyError::LabelOutside(l, set) => "classify produced label '"@ + l@ + "' outside the allowed set ["@
            + debug_items(set@, set@.len() as int) + "] — constraint regression"@,
        ReplyError::TargetOutside(t, set) => "route produced target '"@ + t@ + "' outside the allowed set ["@
            + debug_items(set@, set@.len() as int) + "] — constraint regression"@,
        ReplyError::EmptySummary(reason) => "summarize produced an empty summary — reason: "@ + match reason {
            Some(r) => r@,
            None => "<none>"@,
        },
        ReplyError::Inconsistent(pass, n) => "verify produced an inconsistent judgment: pass="@ + (if pass {
            "true"@
        } else {
            "false"@
        }) + " with "@ + decimal(n as nat) + " violation(s)"@,
    }
}

/// Appends `{:?}` of the list `set`, without its brackets.
fn push_debug_items(out: &mut Vec<char>, set: &Vec<String>)
    ensures
        final(out)@ == old(out)@ + debug_items(set@, set@.len() as int),
{
    let ghost start = out@;
    let mut i: usize = 0;
    assert(start + debug_items(set@, 0) =~= start);
    while i < set.len()
        invariant
            i <= set@.len(),
            out@ == start + debug_items(set@, i as int),
        decreases set@.len() - i,
    {
        if i > 0 {
            push_text(out, ", ");
        }
        let q = debug_text(set[i].as_str());
        push_text(out, q.as_str());
        proof {
            if i == 0 {
                assert(out@ =~= start + debug_items(set@, 1));
            } else {
                assert(out@ =~= start + debug_items(set@, i + 1));
            }
        }
        i = i + 1;
    }
}

impl ReplyError {
    /// The sentence that reports this refusal.
    pub fn message(&self) -> (m: String)
        ensures
            m@ == reply_message(*self),
    {
        let mut out: Vec<char> = Vec::new();
        match self {
            ReplyError::NotABit(v) => {
                push_text(&mut out, "Bit choice value must be 0 or 1, got: ");
                push_signed(&mut out, *v);
            },
            ReplyError::DecisionCount(expected, got) => {
                push_text(&mut out, "Expected ");
                push_decimal(&mut out, *expected as u128);
                push_text(&mut out, " Make Decision results but got ");
                push_decimal(&mut out, *got as u128);
            },
            ReplyError::NotBits => {
                push_text(&mut out, "Bit choices values must be 0 or 1");
            },
            ReplyError::LabelOutside(l, set) => {
                push_text(&mut out, "classify produced label '");
                push_text(&mut out, l.as_str());
                push_text(&mut out, "' outside the allowed set [");
                push_debug_items(&mut out, set);
                push_text(&mut out, "] — constraint regression");
            },
            ReplyError::TargetOutside(t, set) => {
                push_text(&mut out, "route produced target '");
                push_text(&mut out, t.as_str());
                push_text(&mut out, "' outside the allowed set [");
                push_debug_items(&mut out, set);
                push_text(&mut out, "] — constraint regression");
            },
            ReplyError::EmptySummary(reason) => {
                push_text(&mut out, "summarize produced an empty summary — reason: ");
                match reason {
                    Some(r) => push_text(&mut out, r.as_str()),
                    None => push_text(&mut out, "<none>"),
                }
            },
            ReplyError::Inconsistent(pass, n) => {
                push_text(&mut out, "verify produced an inconsistent judgment: pass=");
                if *pass {
                    push_text(&mut out, "true");
                } else {
                    push_text(&mut out, "false");
                }
                push_text(&mut out, " with ");
                push_decimal(&mut out, *n as u128);
                push_text(&mut out, " violation(s)");
            },
        }
        assert(out@ =~= reply_message(*self));
        string_of(&out)
    }
}

} // verus!
