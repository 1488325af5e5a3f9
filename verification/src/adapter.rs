//! Content inspection for structured data files: given a file's bytes and
//! its extension, the media URNs the content matches, most specific first.
//! Handles JSON, NDJSON, CSV, TSV, PSV, YAML, XML and TOML.

use vstd::prelude::*;
use vstd::utf8::{valid_utf8, decode_utf8};
use crate::text::{
    chars_of, contains_char, count_matches, count_matches_exec, find_char, find_seq, first_occurrence,
    index_of, lines, lines_of, occurs_at_exec, starts_with, sub_chars, trim, trim_chars, trim_start,
    trim_start_chars, text_from_utf8, same_chars,
};

verus! {

// ---------------------------------------------------------------------------
// The URNs this adapter emits
// ---------------------------------------------------------------------------

pub open spec fn json_bare() -> Seq<char> { "media:ext=json;fmt=json"@ }
pub open spec fn json_list() -> Seq<char> { "media:ext=json;fmt=json;list"@ }
pub open spec fn json_record() -> Seq<char> { "media:ext=json;fmt=json;record"@ }
pub open spec fn json_list_record() -> Seq<char> { "media:ext=json;fmt=json;list;record"@ }
pub open spec fn ndjson_bare() -> Seq<char> { "media:ext=ndjson;fmt=ndjson"@ }
pub open spec fn ndjson_list() -> Seq<char> { "media:ext=ndjson;fmt=ndjson;list"@ }
pub open spec fn ndjson_list_record() -> Seq<char> { "media:ext=ndjson;fmt=ndjson;list;record"@ }
pub open spec fn csv_urn() -> Seq<char> { "media:ext=csv;fmt=csv;list;record"@ }
pub open spec fn tsv_urn() -> Seq<char> { "media:ext=tsv;fmt=tsv;list;record"@ }
pub open spec fn psv_urn() -> Seq<char> { "media:ext=psv;fmt=psv;list;record"@ }
pub open spec fn yaml_bare() -> Seq<char> { "media:ext=yaml;fmt=yaml"@ }
pub open spec fn yaml_list() -> Seq<char> { "media:ext=yaml;fmt=yaml;list"@ }
pub open spec fn yaml_record() -> Seq<char> { "media:ext=yaml;fmt=yaml;record"@ }
pub open spec fn yaml_list_record() -> Seq<char> { "media:ext=yaml;fmt=yaml;list;record"@ }
pub open spec fn xml_bare() -> Seq<char> { "media:ext=xml;fmt=xml"@ }
pub open spec fn xml_record() -> Seq<char> { "media:ext=xml;fmt=xml;record"@ }
pub open spec fn xml_list_record() -> Seq<char> { "media:ext=xml;fmt=xml;list;record"@ }
pub open spec fn toml_urn() -> Seq<char> { "media:enc=utf-8;ext=toml"@ }

/// Every URN form the published catalog holds for these file types.
pub open spec fn catalog() -> Set<Seq<char>> {
    set![
        json_bare(), json_list(), json_record(), json_list_record(),
        ndjson_bare(), ndjson_list(), ndjson_list_record(),
        csv_urn(), tsv_urn(), psv_urn(),
        yaml_bare(), yaml_list(), yaml_record(), yaml_list_record(),
        xml_bare(), xml_record(), xml_list_record(),
        toml_urn(),
    ]
}

// ---------------------------------------------------------------------------
// What each detector returns
// ---------------------------------------------------------------------------

pub open spec fn detect_json_spec(text: Seq<char>) -> Seq<Seq<char>> {
    let t = trim_start(text);
    if t.len() == 0 {
        seq![json_bare()]
    } else if t[0] == '{' {
        seq![json_record(), json_bare()]
    } else if t[0] == '[' {
        let after = trim_start(t.drop_first());
        if after.len() == 0 || after[0] == ']' {
            seq![json_list(), json_bare()]
        } else if after[0] == '{' {
            seq![json_list_record(), json_list(), json_bare()]
        } else {
            seq![json_list(), json_bare()]
        }
    } else {
        seq![json_bare()]
    }
}

/// Whether the line, trimmed, opens a JSON object.
pub open spec fn opens_object(line: Seq<char>) -> bool {
    trim(line).len() > 0 && trim(line)[0] == '{'
}

pub open spec fn detect_ndjson_spec(text: Seq<char>) -> Seq<Seq<char>> {
    let ls = lines(text);
    if exists|i: int| 0 <= i < ls.len() && i < 10 && opens_object(#[trigger] ls[i]) {
        seq![ndjson_list_record(), ndjson_list(), ndjson_bare()]
    } else {
        seq![ndjson_list(), ndjson_bare()]
    }
}

/// Whether a trimmed line reads as `key: ...` with a key free of spaces
/// (comments and blank lines never do).
pub open spec fn is_key_line(t: Seq<char>) -> bool {
    let k = index_of(t, ':');
    &&& t.len() > 0
    &&& t[0] != '#'
    &&& k < t.len()
    &&& k > 0
    &&& !t.take(k).contains(' ')
}

/// Whether some line of `content` reads as a mapping entry.
pub open spec fn looks_like_yaml_mapping_spec(content: Seq<char>) -> bool {
    let ls = lines(content);
    exists|i: int| 0 <= i < ls.len() && is_key_line(trim(#[trigger] ls[i]))
}

/// `s` without the prefix `p`, when it starts with it.
pub open spec fn strip_prefix(s: Seq<char>, p: Seq<char>) -> Seq<char> {
    if p.is_prefix_of(s) {
        s.skip(p.len() as int)
    } else {
        s
    }
}

/// The part of `s` before the first occurrence of `p` (all of `s` when `p`
/// does not occur).
pub open spec fn before_first(s: Seq<char>, p: Seq<char>) -> Seq<char> {
    match first_occurrence(s, p) {
        Some(i) => s.take(i),
        None => s,
    }
}

/// The first list item among `ls`: the first line that, trimmed at the
/// start, begins with `-`, with that dash and the whitespace after it
/// removed (empty when no line does).
pub open spec fn first_dash_item(ls: Seq<Seq<char>>) -> Seq<char>
    decreases ls.len(),
{
    if ls.len() == 0 {
        seq![]
    } else {
        let t = trim_start(ls[0]);
        if t.len() > 0 && t[0] == '-' {
            trim_start(t.drop_first())
        } else {
            first_dash_item(ls.drop_first())
        }
    }
}

pub open spec fn yaml_full() -> Seq<Seq<char>> {
    seq![yaml_list_record(), yaml_list(), yaml_bare()]
}

pub open spec fn yaml_listed() -> Seq<Seq<char>> {
    seq![yaml_list(), yaml_bare()]
}

pub open spec fn yaml_mapped() -> Seq<Seq<char>> {
    seq![yaml_record(), yaml_bare()]
}

pub open spec fn detect_yaml_spec(text: Seq<char>) -> Seq<Seq<char>> {
    let trimmed = trim_start(text);
    let doc_count = count_matches(text, "\n---"@) + if "---"@.is_prefix_of(trimmed) { 1int } else { 0 };
    if doc_count > 1 {
        let first_doc = trim_start(strip_prefix(before_first(trimmed, "\n---"@), "---"@));
        if looks_like_yaml_mapping_spec(first_doc) {
            yaml_full()
        } else {
            yaml_listed()
        }
    } else {
        let doc = trim_start(strip_prefix(trimmed, "---"@));
        if doc.len() == 0 {
            seq![yaml_bare()]
        } else if doc[0] == '-' {
            let item = first_dash_item(lines(doc));
            if looks_like_yaml_mapping_spec(item) || item.contains(':') {
                yaml_full()
            } else {
                yaml_listed()
            }
        } else if doc[0] == '{' {
            yaml_mapped()
        } else if doc[0] == '[' {
            if doc.contains('{') {
                yaml_full()
            } else {
                yaml_listed()
            }
        } else if doc.contains(':') {
            yaml_mapped()
        } else {
            seq![yaml_bare()]
        }
    }
}

/// Whether `c` ends an XML tag name.
pub open spec fn ends_tag_name(c: char) -> bool {
    c == '>' || c == ' ' || c == '/'
}

/// Index of the first character of `s` that ends a tag name, or `s.len()`.
pub open spec fn tag_name_end(s: Seq<char>) -> int
    decreases s.len(),
{
    if s.len() == 0 {
        0
    } else if ends_tag_name(s[0]) {
        0
    } else {
        1 + tag_name_end(s.drop_first())
    }
}

/// Whether the first element's name prefix, `<` and the name's first
/// character, occurs more than twice (a repeated child element).
pub open spec fn xml_has_repeated_children(t: Seq<char>) -> bool {
    let start = index_of(t, '<');
    let rest = t.skip(start);
    let end = tag_name_end(rest);
    &&& start < t.len()
    &&& end < rest.len()
    &&& {
        let tag = t.subrange(start + 1, start + end);
        let pattern = if tag.len() > 0 { seq!['<', tag[0]] } else { seq!['<'] };
        count_matches(t, pattern) > 2
    }
}

/// The document after its XML declaration (everything after the first
/// `?>`), or the whole text when there is none.
pub open spec fn xml_body(text: Seq<char>) -> Seq<char> {
    match first_occurrence(text, "?>"@) {
        Some(pos) => text.skip(pos + 2),
        None => text,
    }
}

pub open spec fn detect_xml_spec(text: Seq<char>) -> Seq<Seq<char>> {
    let t = trim(xml_body(text));
    if xml_has_repeated_children(t) {
        seq![xml_list_record(), xml_bare()]
    } else if t.contains('=') || count_matches(t, seq!['<']) > 2 {
        seq![xml_record(), xml_bare()]
    } else {
        seq![xml_bare()]
    }
}

/// The URNs `detect_data_media_urns` returns for `content` under `ext`.
pub open spec fn detect_spec(content: Seq<u8>, ext: Seq<char>) -> Seq<Seq<char>> {
    if !valid_utf8(content) {
        seq![]
    } else {
        let text = decode_utf8(content);
        if ext == "json"@ {
            detect_json_spec(text)
        } else if ext == "ndjson"@ || ext == "jsonl"@ {
            detect_ndjson_spec(text)
        } else if ext == "csv"@ {
            seq![csv_urn()]
        } else if ext == "tsv"@ {
            seq![tsv_urn()]
        } else if ext == "psv"@ {
            seq![psv_urn()]
        } else if ext == "yaml"@ || ext == "yml"@ {
            detect_yaml_spec(text)
        } else if ext == "xml"@ {
            detect_xml_spec(text)
        } else if ext == "toml"@ {
            seq![toml_urn()]
        } else {
            seq![]
        }
    }
}

// ---------------------------------------------------------------------------
// Executable detectors
// ---------------------------------------------------------------------------


fn urn(s: &str) -> (r: String)
    ensures
        r@ == s@,
{
    s.to_owned()
}

fn urns1(a: &str) -> (r: Vec<String>)
    ensures
        r.deep_view() == seq![a@],
{
    let r = vec![urn(a)];
    assert(r.deep_view() =~= seq![a@]);
    r
}

fn urns2(a: &str, b: &str) -> (r: Vec<String>)
    ensures
        r.deep_view() == seq![a@, b@],
{
    let r = vec![urn(a), urn(b)];
    assert(r.deep_view() =~= seq![a@, b@]);
    r
}

fn urns3(a: &str, b: &str, c: &str) -> (r: Vec<String>)
    ensures
        r.deep_view() == seq![a@, b@, c@],
{
    let r = vec![urn(a), urn(b), urn(c)];
    assert(r.deep_view() =~= seq![a@, b@, c@]);
    r
}

fn is_ext(ext: &Vec<char>, name: &str) -> (r: bool)
    ensures
        r == (ext@ == name@),
{
    same_chars(ext, &chars_of(name))
}

fn detect_json(text: &Vec<char>) -> (r: Vec<String>)
    ensures
        r.deep_view() == detect_json_spec(text@),
{
    let t = trim_start_chars(text);
    if t.len() == 0 {
        urns1("media:ext=json;fmt=json")
    } else if t[0] == '{' {
        urns2("media:ext=json;fmt=json;record", "media:ext=json;fmt=json")
    } else if t[0] == '[' {
        let rest = sub_chars(&t, 1, t.len());
        assert(rest@ == t@.drop_first());
        let after = trim_start_chars(&rest);
        if after.len() == 0 || after[0] == ']' {
            urns2("media:ext=json;fmt=json;list", "media:ext=json;fmt=json")
        } else if after[0] == '{' {
            urns3(
                "media:ext=json;fmt=json;list;record",
                "media:ext=json;fmt=json;list",
                "media:ext=json;fmt=json",
            )
        } else {
            urns2("media:ext=json;fmt=json;list", "media:ext=json;fmt=json")
        }
    } else {
        urns1("media:ext=json;fmt=json")
    }
}

fn detect_ndjson(text: &Vec<char>) -> (r: Vec<String>)
    ensures
        r.deep_view() == detect_ndjson_spec(text@),
{
    let ls = lines_of(text);
    let ghost lv = lines(text@);
    let mut i: usize = 0;
    let mut found = false;
    while i < ls.len() && i < 10 && !found
        invariant
            ls.deep_view() == lv,
            i <= ls.len(),
            found ==> exists|k: int| 0 <= k < lv.len() && k < 10 && opens_object(#[trigger] lv[k]),
            !found ==> forall|k: int| 0 <= k < i ==> !opens_object(#[trigger] lv[k]),
        decreases ls.len() + 1 - i - (if found { 1int } else { 0 }),
    {
        let t = trim_chars(&ls[i]);
        assert(ls[i as int]@ == lv[i as int]);
        if t.len() > 0 && t[0] == '{' {
            found = true;
        } else {
            i = i + 1;
        }
    }
    if found {
        urns3(
            "media:ext=ndjson;fmt=ndjson;list;record",
            "media:ext=ndjson;fmt=ndjson;list",
            "media:ext=ndjson;fmt=ndjson",
        )
    } else {
        urns2("media:ext=ndjson;fmt=ndjson;list", "media:ext=ndjson;fmt=ndjson")
    }
}


fn is_key_line_exec(t: &Vec<char>) -> (r: bool)
    ensures
        r == is_key_line(t@),
{
    if t.len() == 0 || t[0] == '#' {
        return false;
    }
    let k = find_char(t, ':');
    if k < t.len() && k > 0 {
        let key = sub_chars(t, 0, k);
        assert(key@ == t@.take(k as int));
        !contains_char(&key, ' ')
    } else {
        false
    }
}

proof fn lemma_deep_index(v: &Vec<Vec<char>>, i: int)
    requires
        0 <= i < v.len(),
    ensures
        v.deep_view()[i] == v@[i]@,
{
    assert(v@[i].deep_view() =~= v@[i]@);
}

fn looks_like_yaml_mapping(content: &Vec<char>) -> (r: bool)
    ensures
        r == looks_like_yaml_mapping_spec(content@),
{
    let ls = lines_of(content);
    let ghost lv = lines(content@);
    let mut i: usize = 0;
    while i < ls.len()
        invariant
            ls.deep_view() == lv,
            lv == lines(content@),
            i <= ls.len(),
            forall|k: int| 0 <= k < i ==> !is_key_line(trim(#[trigger] lv[k])),
        decreases ls.len() - i,
    {
        proof {
            lemma_deep_index(&ls, i as int);
        }
        let t = trim_chars(&ls[i]);
        if is_key_line_exec(&t) {
            assert(lv.len() == ls.len());
            assert(is_key_line(trim(lv[i as int])));
            return true;
        }
        i = i + 1;
    }
    false
}

fn first_dash_item_exec(ls: &Vec<Vec<char>>) -> (r: Vec<char>)
    ensures
        r@ == first_dash_item(ls.deep_view()),
{
    let ghost lv = ls.deep_view();
    let mut i: usize = 0;
    assert(lv.skip(0) == lv);
    while i < ls.len()
        invariant
            lv == ls.deep_view(),
            i <= ls.len(),
            first_dash_item(lv) == first_dash_item(lv.skip(i as int)),
        decreases ls.len() - i,
    {
        proof {
            lemma_deep_index(ls, i as int);
            assert(lv.skip(i as int)[0] == lv[i as int]);
            assert(lv.skip(i as int).drop_first() =~= lv.skip(i + 1));
        }
        let t = trim_start_chars(&ls[i]);
        if t.len() > 0 && t[0] == '-' {
            let rest = sub_chars(&t, 1, t.len());
            assert(rest@ == t@.drop_first());
            return trim_start_chars(&rest);
        }
        i = i + 1;
    }
    assert(lv.skip(i as int).len() == 0);
    Vec::new()
}

fn strip_prefix_exec(s: &Vec<char>, p: &Vec<char>) -> (r: Vec<char>)
    ensures
        r@ == strip_prefix(s@, p@),
{
    if starts_with(s, p) {
        sub_chars(s, p.len(), s.len())
    } else {
        s.clone()
    }
}

fn before_first_exec(s: &Vec<char>, p: &Vec<char>) -> (r: Vec<char>)
    ensures
        r@ == before_first(s@, p@),
{
    match find_seq(s, p) {
        Some(i) => sub_chars(s, 0, i),
        None => s.clone(),
    }
}

fn yaml_full_urns() -> (r: Vec<String>)
    ensures
        r.deep_view() == yaml_full(),
{
    urns3("media:ext=yaml;fmt=yaml;list;record", "media:ext=yaml;fmt=yaml;list", "media:ext=yaml;fmt=yaml")
}

fn yaml_listed_urns() -> (r: Vec<String>)
    ensures
        r.deep_view() == yaml_listed(),
{
    urns2("media:ext=yaml;fmt=yaml;list", "media:ext=yaml;fmt=yaml")
}

fn yaml_mapped_urns() -> (r: Vec<String>)
    ensures
        r.deep_view() == yaml_mapped(),
{
    urns2("media:ext=yaml;fmt=yaml;record", "media:ext=yaml;fmt=yaml")
}

fn detect_yaml(text: &Vec<char>) -> (r: Vec<String>)
    ensures
        r.deep_view() == detect_yaml_spec(text@),
{
    let trimmed = trim_start_chars(text);
    let sep = chars_of("\n---");
    let dashes = chars_of("---");
    proof {
        reveal_strlit("\n---");
    }
    let n = count_matches_exec(text, &sep);
    let starts = starts_with(&trimmed, &dashes);
    if n > 1 || (n == 1 && starts) {
        let first = before_first_exec(&trimmed, &sep);
        let first = strip_prefix_exec(&first, &dashes);
        let first = trim_start_chars(&first);
        if looks_like_yaml_mapping(&first) {
            return yaml_full_urns();
        } else {
            return yaml_listed_urns();
        }
    }
    let doc = strip_prefix_exec(&trimmed, &dashes);
    let doc = trim_start_chars(&doc);
    if doc.len() == 0 {
        urns1("media:ext=yaml;fmt=yaml")
    } else if doc[0] == '-' {
        let ls = lines_of(&doc);
        let item = first_dash_item_exec(&ls);
        if looks_like_yaml_mapping(&item) || contains_char(&item, ':') {
            yaml_full_urns()
        } else {
            yaml_listed_urns()
        }
    } else if doc[0] == '{' {
        yaml_mapped_urns()
    } else if doc[0] == '[' {
        if contains_char(&doc, '{') {
            yaml_full_urns()
        } else {
            yaml_listed_urns()
        }
    } else if contains_char(&doc, ':') {
        yaml_mapped_urns()
    } else {
        urns1("media:ext=yaml;fmt=yaml")
    }
}

proof fn lemma_tag_name_end_unique(s: Seq<char>, k: int)
    requires
        0 <= k <= s.len(),
        k < s.len() ==> ends_tag_name(s[k]),
        forall|j: int| 0 <= j < k ==> !ends_tag_name(s[j]),
    ensures
        tag_name_end(s) == k,
    decreases s.len(),
{
    if s.len() > 0 && !ends_tag_name(s[0]) {
        assert forall|j: int| 0 <= j < k - 1 implies !ends_tag_name(s.drop_first()[j]) by {
            assert(s.drop_first()[j] == s[j + 1]);
        }
        if k - 1 < s.len() - 1 {
            assert(s.drop_first()[k - 1] == s[k]);
        }
        lemma_tag_name_end_unique(s.drop_first(), k - 1);
    }
}

fn tag_name_end_exec(s: &Vec<char>) -> (i: usize)
    ensures
        i == tag_name_end(s@),
        i < s.len() ==> ends_tag_name(s@[i as int]),
{
    let mut i: usize = 0;
    while i < s.len() && !(s[i] == '>' || s[i] == ' ' || s[i] == '/')
        invariant
            i <= s.len(),
            forall|j: int| 0 <= j < i ==> !ends_tag_name(s@[j]),
        decreases s.len() - i,
    {
        i = i + 1;
    }
    proof {
        lemma_tag_name_end_unique(s@, i as int);
    }
    i
}

fn xml_has_repeated_children_exec(t: &Vec<char>) -> (r: bool)
    ensures
        r == xml_has_repeated_children(t@),
{
    let start = find_char(t, '<');
    proof {
        crate::text::lemma_index_of(t@, '<');
    }
    if start >= t.len() {
        return false;
    }
    let rest = sub_chars(t, start, t.len());
    assert(rest@ == t@.skip(start as int));
    let end = tag_name_end_exec(&rest);
    if end >= rest.len() {
        return false;
    }
    assert(rest@[0] == '<');
    assert(end >= 1);
    let mut pattern: Vec<char> = Vec::new();
    pattern.push('<');
    if end > 1 {
        pattern.push(t[start + 1]);
    }
    proof {
        let tag = t@.subrange(start + 1, start + end);
        if tag.len() > 0 {
            assert(tag[0] == t@[start + 1]);
            assert(pattern@ =~= seq!['<', tag[0]]);
        } else {
            assert(pattern@ =~= seq!['<']);
        }
    }
    let n = count_matches_exec(t, &pattern);
    n > 2
}

fn xml_body_exec(text: &Vec<char>) -> (r: Vec<char>)
    ensures
        r@ == xml_body(text@),
{
    let q = chars_of("?>");
    proof {
        reveal_strlit("?>");
    }
    let found = find_seq(text, &q);
    if let Some(pos) = found {
        assert(q@.len() == 2);
        assert(pos + 2 <= text.len());
        let r = sub_chars(text, pos + 2, text.len());
        assert(r@ =~= text@.skip(pos + 2));
        r
    } else {
        text.clone()
    }
}

fn detect_xml(text: &Vec<char>) -> (r: Vec<String>)
    ensures
        r.deep_view() == detect_xml_spec(text@),
{
    let body = xml_body_exec(text);
    let t = trim_chars(&body);
    if xml_has_repeated_children_exec(&t) {
        return urns2("media:ext=xml;fmt=xml;list;record", "media:ext=xml;fmt=xml");
    }
    let mut lt: Vec<char> = Vec::new();
    lt.push('<');
    assert(lt@ =~= seq!['<']);
    if contains_char(&t, '=') || count_matches_exec(&t, &lt) > 2 {
        urns2("media:ext=xml;fmt=xml;record", "media:ext=xml;fmt=xml")
    } else {
        urns1("media:ext=xml;fmt=xml")
    }
}

/// Inspect file bytes and return the media URNs of the data formats they
/// match, most specific first: empty when the bytes are not UTF-8 or the
/// extension is not one of the structured-data extensions handled here.
pub fn detect_data_media_urns(content: &[u8], extension: &str) -> (urns: Vec<String>)
    ensures
        urns.deep_view() == detect_spec(content@, extension@),
{
    let text = match text_from_utf8(content) {
        Ok(t) => t,
        Err(_) => {
            let none: Vec<String> = Vec::new();
            assert(none.deep_view() =~= seq![]);
            return none;
        },
    };
    let chars = chars_of(text.as_str());
    let ext = chars_of(extension);
    if is_ext(&ext, "json") {
        detect_json(&chars)
    } else if is_ext(&ext, "ndjson") || is_ext(&ext, "jsonl") {
        detect_ndjson(&chars)
    } else if is_ext(&ext, "csv") {
        urns1("media:ext=csv;fmt=csv;list;record")
    } else if is_ext(&ext, "tsv") {
        urns1("media:ext=tsv;fmt=tsv;list;record")
    } else if is_ext(&ext, "psv") {
        urns1("media:ext=psv;fmt=psv;list;record")
    } else if is_ext(&ext, "yaml") || is_ext(&ext, "yml") {
        detect_yaml(&chars)
    } else if is_ext(&ext, "xml") {
        detect_xml(&chars)
    } else if is_ext(&ext, "toml") {
        urns1("media:enc=utf-8;ext=toml")
    } else {
        let none: Vec<String> = Vec::new();
        assert(none.deep_view() =~= seq![]);
        none
    }
}


// ---------------------------------------------------------------------------
// Laws
// ---------------------------------------------------------------------------

/// Every URN the adapter emits, for any bytes and any extension, is one the
/// published catalog holds.
#[verifier::rlimit(40)]
#[verifier::spinoff_prover]
pub proof fn law_emitted_urns_in_catalog(content: Seq<u8>, ext: Seq<char>)
    ensures
        forall|i: int|
            0 <= i < detect_spec(content, ext).len() ==> catalog().contains(
                #[trigger] detect_spec(content, ext)[i],
            ),
{
}

/// Most specific first: each URN the adapter emits extends every URN that
/// follows it (the later one is a proper prefix of the earlier one), so no
/// URN is emitted twice and the last is the most general.
#[verifier::rlimit(60)]
#[verifier::spinoff_prover]
pub proof fn law_most_specific_first(content: Seq<u8>, ext: Seq<char>)
    ensures
        forall|i: int, j: int|
            0 <= i < j < detect_spec(content, ext).len() ==> {
                let u = #[trigger] detect_spec(content, ext)[i];
                let v = #[trigger] detect_spec(content, ext)[j];
                v.is_prefix_of(u) && v.len() < u.len()
            },
{
    reveal_strlit("media:ext=json;fmt=json");
    reveal_strlit("media:ext=json;fmt=json;list");
    reveal_strlit("media:ext=json;fmt=json;record");
    reveal_strlit("media:ext=json;fmt=json;list;record");
    reveal_strlit("media:ext=ndjson;fmt=ndjson");
    reveal_strlit("media:ext=ndjson;fmt=ndjson;list");
    reveal_strlit("media:ext=ndjson;fmt=ndjson;list;record");
    reveal_strlit("media:ext=yaml;fmt=yaml");
    reveal_strlit("media:ext=yaml;fmt=yaml;list");
    reveal_strlit("media:ext=yaml;fmt=yaml;record");
    reveal_strlit("media:ext=yaml;fmt=yaml;list;record");
    reveal_strlit("media:ext=xml;fmt=xml");
    reveal_strlit("media:ext=xml;fmt=xml;record");
    reveal_strlit("media:ext=xml;fmt=xml;list;record");
    assert(json_list().is_prefix_of(json_list_record()));
    assert(json_bare().is_prefix_of(json_list()));
    assert(json_bare().is_prefix_of(json_list_record()));
    assert(json_bare().is_prefix_of(json_record()));
    assert(ndjson_list().is_prefix_of(ndjson_list_record()));
    assert(ndjson_bare().is_prefix_of(ndjson_list()));
    assert(ndjson_bare().is_prefix_of(ndjson_list_record()));
    assert(yaml_list().is_prefix_of(yaml_list_record()));
    assert(yaml_bare().is_prefix_of(yaml_list()));
    assert(yaml_bare().is_prefix_of(yaml_list_record()));
    assert(yaml_bare().is_prefix_of(yaml_record()));
    assert(xml_bare().is_prefix_of(xml_list_record()));
    assert(xml_bare().is_prefix_of(xml_record()));
}


/// Newline-delimited JSON gets the record tier exactly when one of its
/// first ten lines, trimmed, opens an object, and then first: the URNs are
/// `media:ext=ndjson;fmt=ndjson;list;record` (only then), then
/// `media:ext=ndjson;fmt=ndjson;list`, then `media:ext=ndjson;fmt=ndjson`.
pub proof fn law_ndjson_record_tier(content: Seq<u8>, ext: Seq<char>)
    requires
        valid_utf8(content),
        ext == "ndjson"@ || ext == "jsonl"@,
    ensures
        ({
            let ls = lines(decode_utf8(content));
            let urns = detect_spec(content, ext);
            let record = "media:ext=ndjson;fmt=ndjson;list;record"@;
            &&& (exists|i: int| 0 <= i < ls.len() && i < 10 && trim(#[trigger] ls[i]).len() > 0 && trim(ls[i])[0] == '{')
                <==> urns.contains(record)
            &&& (exists|i: int| 0 <= i < ls.len() && i < 10 && trim(#[trigger] ls[i]).len() > 0 && trim(ls[i])[0] == '{')
                ==> urns[0] == record
            &&& urns.len() >= 2
            &&& urns[urns.len() - 2] == "media:ext=ndjson;fmt=ndjson;list"@
            &&& urns[urns.len() - 1] == "media:ext=ndjson;fmt=ndjson"@
        }),
{
    reveal_strlit("json");
    reveal_strlit("ndjson");
    reveal_strlit("jsonl");
    reveal_strlit("media:ext=ndjson;fmt=ndjson");
    reveal_strlit("media:ext=ndjson;fmt=ndjson;list");
    reveal_strlit("media:ext=ndjson;fmt=ndjson;list;record");
    let record = "media:ext=ndjson;fmt=ndjson;list;record"@;
    let urns = detect_spec(content, ext);
    assert(ext != "json"@) by {
        assert(ext.len() != "json"@.len());
    }
    assert(urns == detect_ndjson_spec(decode_utf8(content)));
    if urns.contains(record) {
        let k = choose|k: int| 0 <= k < urns.len() && urns[k] == record;
        if !(exists|i: int| 0 <= i < lines(decode_utf8(content)).len() && i < 10 && opens_object(
            #[trigger] lines(decode_utf8(content))[i],
        )) {
            assert(urns[k].len() != record.len());
        }
    } else {
        if exists|i: int| 0 <= i < lines(decode_utf8(content)).len() && i < 10 && opens_object(
            #[trigger] lines(decode_utf8(content))[i],
        ) {
            assert(urns[0] == record);
        }
    }
}


/// A `.json` file is told by its first character after whitespace: the
/// list tier `media:ext=json;fmt=json;list` is there exactly when it is
/// `[`; the record tier (`...;record`, or `...;list;record` for a list)
/// exactly when it is `{`, or `[` with `{` the next character after
/// whitespace; the record tier comes first, and `media:ext=json;fmt=json`
/// always last.
pub proof fn law_json_tiers(content: Seq<u8>)
    requires
        valid_utf8(content),
    ensures
        ({
            let t = trim_start(decode_utf8(content));
            let urns = detect_spec(content, "json"@);
            let is_list = t.len() > 0 && t[0] == '[';
            let of_records = t.len() > 0 && (t[0] == '{' || (t[0] == '[' && trim_start(t.drop_first()).len() > 0
                && trim_start(t.drop_first())[0] == '{'));
            &&& urns.len() >= 1
            &&& urns.last() == "media:ext=json;fmt=json"@
            &&& urns.contains("media:ext=json;fmt=json;list"@) <==> is_list
            &&& (urns.contains("media:ext=json;fmt=json;record"@) || urns.contains("media:ext=json;fmt=json;list;record"@))
                <==> of_records
            &&& of_records ==> urns[0] == (if is_list { "media:ext=json;fmt=json;list;record"@ } else { "media:ext=json;fmt=json;record"@ })
        }),
{
    reveal_strlit("media:ext=json;fmt=json");
    reveal_strlit("media:ext=json;fmt=json;list");
    reveal_strlit("media:ext=json;fmt=json;record");
    reveal_strlit("media:ext=json;fmt=json;list;record");
    let urns = detect_spec(content, "json"@);
    let a = "media:ext=json;fmt=json"@;
    let l = "media:ext=json;fmt=json;list"@;
    let r = "media:ext=json;fmt=json;record"@;
    let lr = "media:ext=json;fmt=json;list;record"@;
    assert(a.len() == 23 && l.len() == 28 && r.len() == 30 && lr.len() == 35);
    assert(l != r) by {
        assert(l.len() != r.len());
    }
    assert forall|k: int| 0 <= k < urns.len() implies #[trigger] urns[k] == a || urns[k] == l || urns[k] == r || urns[k] == lr by {}
    if urns.contains(l) {
        let k = choose|k: int| 0 <= k < urns.len() && urns[k] == l;
    }
    if urns.contains(r) {
        let k = choose|k: int| 0 <= k < urns.len() && urns[k] == r;
    }
    if urns.contains(lr) {
        let k = choose|k: int| 0 <= k < urns.len() && urns[k] == lr;
    }
    let t = trim_start(decode_utf8(content));
    if t.len() > 0 && t[0] == '[' {
        assert(urns[urns.len() - 2] == l);
    }
    if t.len() > 0 && t[0] == '{' {
        assert(urns[0] == r);
    }
    if t.len() > 0 && t[0] == '[' && trim_start(t.drop_first()).len() > 0 && trim_start(t.drop_first())[0] == '{' {
        assert(urns[0] == lr);
    }
}

} // verus!
