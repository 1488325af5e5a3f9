//! Which conversion a pair of data formats calls for, which format a
//! collection of items is read as and written as, and JSON values written
//! as a text list.

use vstd::prelude::*;
use vstd::utf8::encode_utf8;
use crate::json::{Json, JsonValue};
use crate::json_ops::{json_text, json_to_text};
use crate::text::{chars_of, contains_seq, contains_seq_exec, push_text, string_of};
use crate::textlist::{encode_textable_list, joined};

verus! {

/// A data format this library converts between.
#[derive(Debug, Clone, Copy, PartialEq, Eq, Structural)]
pub enum Fmt {
    Json,
    Yaml,
    Csv,
    TextList,
}

/// A conversion from one data format to another.
#[derive(Debug, Clone, Copy, PartialEq, Eq, Structural)]
pub enum Conversion {
    JsonToYaml,
    YamlToJson,
    JsonRecordsToCsv,
    CsvToJsonRecords,
    YamlRecordsToCsv,
    CsvToYamlRecords,
    TextListToJson,
    JsonToTextList,
    TextListToYaml,
    YamlToTextList,
    TextListToCsv,
    CsvToTextList,
}

/// A pair of formats with no conversion between them.
#[derive(Debug, Clone, Copy, PartialEq, Eq, Structural)]
pub struct UnsupportedConversion {
    pub from: Fmt,
    pub to: Fmt,
}

/// The conversion from `from` to `to`: there is one between any two
/// different formats, none from a format to itself.
pub open spec fn conversion_of(from: Fmt, to: Fmt) -> Option<Conversion> {
    match (from, to) {
        (Fmt::Json, Fmt::Yaml) => Some(Conversion::JsonToYaml),
        (Fmt::Yaml, Fmt::Json) => Some(Conversion::YamlToJson),
        (Fmt::Json, Fmt::Csv) => Some(Conversion::JsonRecordsToCsv),
        (Fmt::Csv, Fmt::Json) => Some(Conversion::CsvToJsonRecords),
        (Fmt::Yaml, Fmt::Csv) => Some(Conversion::YamlRecordsToCsv),
        (Fmt::Csv, Fmt::Yaml) => Some(Conversion::CsvToYamlRecords),
        (Fmt::TextList, Fmt::Json) => Some(Conversion::TextListToJson),
        (Fmt::Json, Fmt::TextList) => Some(Conversion::JsonToTextList),
        (Fmt::TextList, Fmt::Yaml) => Some(Conversion::TextListToYaml),
        (Fmt::Yaml, Fmt::TextList) => Some(Conversion::YamlToTextList),
        (Fmt::TextList, Fmt::Csv) => Some(Conversion::TextListToCsv),
        (Fmt::Csv, Fmt::TextList) => Some(Conversion::CsvToTextList),
        _ => None,
    }
}

/// The format a conversion reads.
pub open spec fn conversion_source(c: Conversion) -> Fmt {
    match c {
        Conversion::JsonToYaml | Conversion::JsonRecordsToCsv | Conversion::JsonToTextList => Fmt::Json,
        Conversion::YamlToJson | Conversion::YamlRecordsToCsv | Conversion::YamlToTextList => Fmt::Yaml,
        Conversion::CsvToJsonRecords | Conversion::CsvToYamlRecords | Conversion::CsvToTextList => Fmt::Csv,
        Conversion::TextListToJson | Conversion::TextListToYaml | Conversion::TextListToCsv => Fmt::TextList,
    }
}

/// The format a conversion writes.
pub open spec fn conversion_target(c: Conversion) -> Fmt {
    match c {
        Conversion::YamlToJson | Conversion::CsvToJsonRecords | Conversion::TextListToJson => Fmt::Json,
        Conversion::JsonToYaml | Conversion::CsvToYamlRecords | Conversion::TextListToYaml => Fmt::Yaml,
        Conversion::JsonRecordsToCsv | Conversion::YamlRecordsToCsv | Conversion::TextListToCsv => Fmt::Csv,
        Conversion::JsonToTextList | Conversion::YamlToTextList | Conversion::CsvToTextList => Fmt::TextList,
    }
}

/// The conversion chosen for two formats reads the first and writes the
/// second; there is one for every two different formats, and none from a
/// format to itself.
pub proof fn law_conversion_goes_from_source_to_target(from: Fmt, to: Fmt)
    ensures
        conversion_of(from, to) is Some <==> from != to,
        conversion_of(from, to) matches Some(c) ==> conversion_source(c) == from && conversion_target(c) == to,
{
}

/// The conversion from `from` to `to` (see [`conversion_of`]): it reads
/// `from` and writes `to`.
pub fn conversion(from: Fmt, to: Fmt) -> (r: Result<Conversion, UnsupportedConversion>)
    ensures
        r matches Ok(c) ==> conversion_source(c) == from && conversion_target(c) == to,
        match conversion_of(from, to) {
            Some(c) => r == Ok::<Conversion, UnsupportedConversion>(c),
            None => r == Err::<Conversion, UnsupportedConversion>(UnsupportedConversion { from, to }),
        },
        r is Ok <==> from != to,
{
    match (from, to) {
        (Fmt::Json, Fmt::Yaml) => Ok(Conversion::JsonToYaml),
        (Fmt::Yaml, Fmt::Json) => Ok(Conversion::YamlToJson),
        (Fmt::Json, Fmt::Csv) => Ok(Conversion::JsonRecordsToCsv),
        (Fmt::Csv, Fmt::Json) => Ok(Conversion::CsvToJsonRecords),
        (Fmt::Yaml, Fmt::Csv) => Ok(Conversion::YamlRecordsToCsv),
        (Fmt::Csv, Fmt::Yaml) => Ok(Conversion::CsvToYamlRecords),
        (Fmt::TextList, Fmt::Json) => Ok(Conversion::TextListToJson),
        (Fmt::Json, Fmt::TextList) => Ok(Conversion::JsonToTextList),
        (Fmt::TextList, Fmt::Yaml) => Ok(Conversion::TextListToYaml),
        (Fmt::Yaml, Fmt::TextList) => Ok(Conversion::YamlToTextList),
        (Fmt::TextList, Fmt::Csv) => Ok(Conversion::TextListToCsv),
        (Fmt::Csv, Fmt::TextList) => Ok(Conversion::CsvToTextList),
        _ => Err(UnsupportedConversion { from, to }),
    }
}

/// The name a format goes by in messages.
pub open spec fn fmt_name(f: Fmt) -> Seq<char> {
    match f {
        Fmt::Json => "Json"@,
        Fmt::Yaml => "Yaml"@,
        Fmt::Csv => "Csv"@,
        Fmt::TextList => "TextList"@,
    }
}

fn push_fmt(out: &mut Vec<char>, f: Fmt)
    ensures
        final(out)@ == old(out)@ + fmt_name(f),
{
    match f {
        Fmt::Json => push_text(out, "Json"),
        Fmt::Yaml => push_text(out, "Yaml"),
        Fmt::Csv => push_text(out, "Csv"),
        Fmt::TextList => push_text(out, "TextList"),
    }
}

impl UnsupportedConversion {
    /// The sentence that reports this pair.
    pub fn message(&self) -> (m: String)
        ensures
            m@ == "Unsupported conversion: "@ + fmt_name(self.from) + " -> "@ + fmt_name(self.to),
    {
        let mut out: Vec<char> = Vec::new();
        push_text(&mut out, "Unsupported conversion: ");
        push_fmt(&mut out, self.from);
        push_text(&mut out, " -> ");
        push_fmt(&mut out, self.to);
        assert(out@ =~= "Unsupported conversion: "@ + fmt_name(self.from) + " -> "@ + fmt_name(self.to));
        string_of(&out)
    }
}

// ---------------------------------------------------------------------------
// Collections of items
// ---------------------------------------------------------------------------

/// The format a collection of items is read as, or written as, by its media
/// URN: CSV when the URN mentions `csv`, else YAML when it mentions `yaml`,
/// else JSON.
pub open spec fn media_format(media: Seq<char>) -> Fmt {
    if contains_seq(media, "csv"@) {
        Fmt::Csv
    } else if contains_seq(media, "yaml"@) {
        Fmt::Yaml
    } else {
        Fmt::Json
    }
}

/// The format a collection of items is read as, or written as (see
/// [`media_format`]).
pub fn media_format_of(media: &str) -> (f: Fmt)
    ensures
        f == media_format(media@),
{
    let m = chars_of(media);
    if contains_seq_exec(&m, &chars_of("csv")) {
        Fmt::Csv
    } else if contains_seq_exec(&m, &chars_of("yaml")) {
        Fmt::Yaml
    } else {
        Fmt::Json
    }
}

// ---------------------------------------------------------------------------
// JSON values as a text list
// ---------------------------------------------------------------------------

/// The line a JSON value takes in a text list: a string's own characters,
/// any other value's compact JSON text.
pub open spec fn list_line(j: Json) -> Seq<char> {
    match j {
        Json::Str(s) => s,
        _ => json_text(j),
    }
}

/// The items of a JSON array as a text list: each on a line of its own (see
/// [`list_line`]).
pub fn json_values_to_text_list(values: &Vec<JsonValue>) -> (r: Vec<u8>)
    ensures
        r@ == encode_utf8(joined(Seq::new(values@.len(), |i: int| list_line(values@[i].json())))),
{
    let mut lines: Vec<String> = Vec::new();
    let mut i: usize = 0;
    while i < values.len()
        invariant
            i <= values@.len(),
            lines@.len() == i,
            forall|t: int| 0 <= t < i ==> #[trigger] lines@[t]@ == list_line(values@[t].json()),
        decreases values@.len() - i,
    {
        let line = match &values[i] {
            JsonValue::String(s) => s.clone(),
            v => json_to_text(v),
        };
        lines.push(line);
        i = i + 1;
    }
    let r = encode_textable_list(&lines);
    assert(Seq::new(lines@.len(), |t: int| lines@[t]@) =~= Seq::new(values@.len(), |t: int| list_line(values@[t].json())));
    r
}

} // verus!
