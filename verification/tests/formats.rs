use datacartridge::formats::{conversion, json_values_to_text_list, media_format_of, Conversion, Fmt};
use datacartridge::json::JsonValue;

#[test]
fn every_pair_of_different_formats_converts() {
    let all = [Fmt::Json, Fmt::Yaml, Fmt::Csv, Fmt::TextList];
    for from in all {
        for to in all {
            assert_eq!(conversion(from, to).is_ok(), from != to, "{from:?} -> {to:?}");
        }
    }
    assert_eq!(conversion(Fmt::Csv, Fmt::TextList).ok(), Some(Conversion::CsvToTextList));
    assert_eq!(conversion(Fmt::Yaml, Fmt::Csv).ok(), Some(Conversion::YamlRecordsToCsv));
    assert_eq!(
        conversion(Fmt::Json, Fmt::Json).err().unwrap().message(),
        "Unsupported conversion: Json -> Json"
    );
}

#[test]
fn collections_are_read_and_written_by_media_urn() {
    assert_eq!(media_format_of("media:ext=csv;fmt=csv;list;record"), Fmt::Csv);
    assert_eq!(media_format_of("media:fmt=yaml;record"), Fmt::Yaml);
    assert_eq!(media_format_of("media:fmt=json;list"), Fmt::Json);
    assert_eq!(media_format_of("media:csv;yaml"), Fmt::Csv);
}

#[test]
fn json_values_become_one_line_each() {
    let values = vec![
        JsonValue::String("plain text".to_string()),
        JsonValue::Number("42".to_string()),
        JsonValue::Bool(true),
        JsonValue::Null,
        JsonValue::Object(vec![("k".to_string(), JsonValue::String("v".to_string()))]),
    ];
    assert_eq!(
        String::from_utf8(json_values_to_text_list(&values)).unwrap(),
        "plain text\n42\ntrue\nnull\n{\"k\":\"v\"}\n"
    );
}
