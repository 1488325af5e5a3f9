//! Text lists: plain UTF-8 text holding one value per line.

use vstd::prelude::*;
use vstd::utf8::{decode_utf8, encode_utf8, valid_utf8};
use crate::json::{Json, JsonValue};
use crate::text::{chars_of, index_of, lemma_index_of, lines, lines_of, push_chars, string_of, strip_cr, text_from_utf8, utf8_error_text};

verus! {

/// `data` without a leading UTF-8 byte-order mark.
pub open spec fn without_bom(data: Seq<u8>) -> Seq<u8> {
    if data.len() >= 3 && data[0] == 0xEF && data[1] == 0xBB && data[2] == 0xBF {
        data.skip(3)
    } else {
        data
    }
}

/// `data` without a leading UTF-8 byte-order mark (CSV from Windows tools
/// often starts with one).
pub fn strip_utf8_bom(data: &[u8]) -> (r: &[u8])
    ensures
        r@ == without_bom(data@),
{
    if data.len() >= 3 && data[0] == 0xEF && data[1] == 0xBB && data[2] == 0xBF {
        let r = vstd::slice::slice_subrange(data, 3, data.len());
        assert(r@ =~= data@.skip(3));
        r
    } else {
        data
    }
}

/// The lines of `ls` that are not empty, in order.
pub open spec fn nonempty(ls: Seq<Seq<char>>) -> Seq<Seq<char>>
    decreases ls.len(),
{
    if ls.len() == 0 {
        Seq::empty()
    } else if ls.last().len() == 0 {
        nonempty(ls.drop_last())
    } else {
        nonempty(ls.drop_last()).push(ls.last())
    }
}

/// The values of a text list, or `None` when it is not UTF-8.
pub open spec fn text_list_values(data: Seq<u8>) -> Option<Seq<Seq<char>>> {
    if valid_utf8(data) {
        Some(nonempty(lines(decode_utf8(data))))
    } else {
        None
    }
}

/// The text of a list: each value followed by a line feed.
pub open spec fn joined(items: Seq<Seq<char>>) -> Seq<char>
    decreases items.len(),
{
    if items.len() == 0 {
        Seq::empty()
    } else {
        joined(items.drop_last()) + items.last() + seq!['\n']
    }
}

/// The values of a text list: its non-empty lines. When the list is not
/// UTF-8, the text of the decoding error.
pub fn decode_textable_list(data: &[u8]) -> (r: Result<Vec<String>, String>)
    ensures
        match text_list_values(data@) {
            Some(vs) => r matches Ok(v) && v@.len() == vs.len() && forall|i: int|
                0 <= i < vs.len() ==> #[trigger] v@[i]@ == vs[i],
            None => r matches Err(e) && e@ == utf8_error_text(data@),
        },
{
    let text = match text_from_utf8(data) {
        Ok(t) => t,
        Err(e) => {
            return Err(e);
        },
    };
    let ls = lines_of(&chars_of(text.as_str()));
    let ghost all = ls.deep_view();
    let mut out: Vec<String> = Vec::new();
    let mut i: usize = 0;
    assert(all.take(0) =~= Seq::<Seq<char>>::empty());
    while i < ls.len()
        invariant
            i <= ls@.len(),
            all == ls.deep_view(),
            out@.len() == nonempty(all.take(i as int)).len(),
            forall|k: int| 0 <= k < out@.len() ==> #[trigger] out@[k]@ == nonempty(all.take(i as int))[k],
        decreases ls@.len() - i,
    {
        assert(all.take(i + 1).drop_last() =~= all.take(i as int));
        assert(all.take(i + 1).last() == ls@[i as int]@);
        if ls[i].len() > 0 {
            out.push(string_of(&ls[i]));
        }
        i = i + 1;
    }
    assert(all.take(ls@.len() as int) =~= all);
    Ok(out)
}

/// A text list of `items`: each followed by a line feed, as UTF-8.
pub fn encode_textable_list(items: &Vec<String>) -> (r: Vec<u8>)
    ensures
        r@ == encode_utf8(joined(Seq::new(items@.len(), |i: int| items@[i]@))),
{
    let ghost vs = Seq::new(items@.len(), |i: int| items@[i]@);
    let mut text: Vec<char> = Vec::new();
    let mut i: usize = 0;
    assert(vs.take(0) =~= Seq::<Seq<char>>::empty());
    while i < items.len()
        invariant
            i <= items@.len(),
            vs == Seq::new(items@.len(), |i: int| items@[i]@),
            text@ == joined(vs.take(i as int)),
        decreases items@.len() - i,
    {
        let ghost before = text@;
        push_chars(&mut text, &chars_of(items[i].as_str()));
        text.push('\n');
        assert(vs.take(i + 1).drop_last() =~= vs.take(i as int));
        assert(text@ =~= before + items@[i as int]@ + seq!['\n']);
        i = i + 1;
    }
    assert(vs.take(items@.len() as int) =~= vs);
    let s = string_of(&text);
    vstd::slice::slice_to_vec(s.as_str().as_bytes())
}

proof fn lemma_joined_push(items: Seq<Seq<char>>, x: Seq<char>)
    ensures
        joined(seq![x] + items) == x + seq!['\n'] + joined(items),
    decreases items.len(),
{
    if items.len() == 0 {
        assert(seq![x] + items =~= seq![x]);
        assert(seq![x].drop_last() =~= Seq::<Seq<char>>::empty());
        assert(seq![x].last() == x);
        assert(joined(Seq::<Seq<char>>::empty()) =~= Seq::<char>::empty());
        assert(joined(seq![x]) == joined(Seq::<Seq<char>>::empty()) + x + seq!['\n']);
        assert(joined(seq![x]) =~= x + seq!['\n']);
        assert(x + seq!['\n'] + joined(items) =~= x + seq!['\n']);
    } else {
        lemma_joined_push(items.drop_last(), x);
        assert((seq![x] + items).drop_last() =~= seq![x] + items.drop_last());
        assert((seq![x] + items).last() == items.last());
        assert(joined(seq![x] + items) =~= x + seq!['\n'] + joined(items));
    }
}

proof fn lemma_lines_of_joined(items: Seq<Seq<char>>)
    requires
        forall|i: int| 0 <= i < items.len() ==> !(#[trigger] items[i]).contains('\n'),
        forall|i: int| 0 <= i < items.len() ==> strip_cr(#[trigger] items[i]) == items[i],
    ensures
        lines(joined(items)) == items,
    decreases items.len(),
{
    if items.len() > 0 {
        let x = items[0];
        let rest = items.drop_first();
        assert(items =~= seq![x] + rest);
        lemma_joined_push(rest, x);
        let s = joined(items);
        assert(s =~= x + seq!['\n'] + joined(rest));
        lemma_index_of(s, '\n');
        assert(s[x.len() as int] == '\n');
        assert forall|k: int| 0 <= k < x.len() implies s[k] != '\n' by {
            assert(s[k] == x[k]);
            if x[k] == '\n' {
                assert(x.contains('\n'));
            }
        }
        assert(index_of(s, '\n') == x.len()) by {
            crate::text::lemma_index_of_unique(s, '\n', x.len() as int);
        }
        assert(s.take(x.len() as int) =~= x);
        assert(s.skip(x.len() as int + 1) =~= joined(rest));
        lemma_lines_of_joined(rest);
        assert(lines(s) =~= seq![x] + rest);
    } else {
        assert(joined(items) =~= Seq::<char>::empty());
    }
}

proof fn lemma_nonempty_keeps(items: Seq<Seq<char>>)
    requires
        forall|i: int| 0 <= i < items.len() ==> (#[trigger] items[i]).len() > 0,
    ensures
        nonempty(items) == items,
    decreases items.len(),
{
    if items.len() > 0 {
        lemma_nonempty_keeps(items.drop_last());
        assert(items.drop_last().push(items.last()) =~= items);
    }
}

/// Reading back a text list gives the values written, when each value is
/// non-empty, holds no line feed and does not end in a carriage return.
pub proof fn law_text_list_round_trip(items: Seq<Seq<char>>)
    requires
        forall|i: int| 0 <= i < items.len() ==> (#[trigger] items[i]).len() > 0,
        forall|i: int| 0 <= i < items.len() ==> !(#[trigger] items[i]).contains('\n'),
        forall|i: int| 0 <= i < items.len() ==> (#[trigger] items[i]).last() != '\r',
    ensures
        text_list_values(encode_utf8(joined(items))) == Some(items),
{
    vstd::utf8::encode_utf8_valid_utf8(joined(items));
    vstd::utf8::encode_utf8_decode_utf8(joined(items));
    assert forall|i: int| 0 <= i < items.len() implies strip_cr(#[trigger] items[i]) == items[i] by {}
    lemma_lines_of_joined(items);
    lemma_nonempty_keeps(items);
}


/// The JSON value of a text-list item: the value it reads as, where it
/// reads as JSON, else the item itself as a string.
pub open spec fn item_json(item: (String, Option<JsonValue>)) -> Json {
    match item.1 {
        Some(v) => v.json(),
        None => Json::Str(item.0@),
    }
}

/// The JSON values of text-list items, each given with the value it reads
/// as when it reads as JSON: that value, else the item as a string.
pub fn text_items_to_json(items: Vec<(String, Option<JsonValue>)>) -> (r: Vec<JsonValue>)
    ensures
        r@.len() == items@.len(),
        forall|i: int| 0 <= i < items@.len() ==> (#[trigger] r@[i]).json() == item_json(items@[i]),
{
    let ghost all = items@;
    let mut rest = items;
    let mut out: Vec<JsonValue> = Vec::new();
    while rest.len() > 0
        invariant
            out@.len() + rest@.len() == all.len(),
            rest@ == all.skip(out@.len() as int),
            forall|i: int| 0 <= i < out@.len() ==> (#[trigger] out@[i]).json() == item_json(all[i]),
        decreases rest@.len(),
    {
        let ghost k = out@.len() as int;
        let (text, parsed) = rest.remove(0);
        assert(all[k] == (text, parsed));
        let v = match parsed {
            Some(v) => v,
            None => JsonValue::String(text),
        };
        out.push(v);
        assert(rest@ =~= all.skip(k + 1));
    }
    out
}

} // verus!
