use datacartridge::json::JsonValue;
use datacartridge::textlist::text_items_to_json;
use datacartridge::yaml::{yaml_item_line, yaml_to_json, YamlError, YamlKey, YamlNumber, YamlValue};

fn text(s: &str) -> String {
    s.to_string()
}

fn key(s: &str) -> YamlKey {
    YamlKey::Text(text(s))
}

/// The compact JSON text of a library value, keys in the order held.
fn show(v: &JsonValue) -> String {
    match v {
        JsonValue::Null => text("null"),
        JsonValue::Bool(b) => b.to_string(),
        JsonValue::Number(n) => n.clone(),
        JsonValue::String(s) => format!("{:?}", s),
        JsonValue::Array(items) => format!("[{}]", items.iter().map(show).collect::<Vec<_>>().join(",")),
        JsonValue::Object(ms) => format!(
            "{{{}}}",
            ms.iter().map(|(k, v)| format!("{:?}:{}", k, show(v))).collect::<Vec<_>>().join(",")
        ),
    }
}

#[test]
fn yaml_converts_structure_numbers_and_tags() {
    let doc = YamlValue::Mapping(vec![
        (key("name"), YamlValue::String(text("x"))),
        (key("n"), YamlValue::Number(YamlNumber::Int(-42))),
        (key("f"), YamlValue::Number(YamlNumber::Float { json: Some(text("1.5")), shown: text("1.5") })),
        (key("list"), YamlValue::Sequence(vec![YamlValue::Null, YamlValue::Bool(true)])),
        (key("tagged"), YamlValue::Tagged(Box::new(YamlValue::String(text("t"))))),
    ]);
    let json = yaml_to_json(&doc).ok().unwrap();
    assert_eq!(show(&json), r#"{"name":"x","n":-42,"f":1.5,"list":[null,true],"tagged":"t"}"#);
}

#[test]
fn yaml_keys_are_written_and_later_ones_win() {
    let doc = YamlValue::Mapping(vec![
        (YamlKey::Written(text("1\n")), YamlValue::Number(YamlNumber::Int(1))),
        (key("a"), YamlValue::Number(YamlNumber::Int(2))),
        (key("1"), YamlValue::Number(YamlNumber::Int(3))),
    ]);
    let json = yaml_to_json(&doc).ok().unwrap();
    assert_eq!(show(&json), r#"{"1":3,"a":2}"#);
}

#[test]
fn yaml_refuses_what_json_cannot_hold_at_the_first_place() {
    let inf = YamlValue::Number(YamlNumber::Float { json: None, shown: text("inf") });
    let err = yaml_to_json(&YamlValue::Sequence(vec![YamlValue::Null, inf])).err().unwrap();
    assert_eq!(err, YamlError::NotRepresentable { shown: text("inf") });
    assert_eq!(err.message(), "YAML number inf is not representable in JSON");
    let doc = YamlValue::Mapping(vec![
        (YamlKey::Unwritable(text("bad key")), YamlValue::Null),
        (key("x"), YamlValue::Number(YamlNumber::Float { json: None, shown: text("NaN") })),
    ]);
    let err = yaml_to_json(&doc).err().unwrap();
    assert_eq!(err.message(), "Non-string YAML key: bad key");
}

#[test]
fn yaml_item_lines_drop_document_starts_and_trailing_space() {
    assert_eq!(yaml_item_line("---\n---\nkey: v\n"), "key: v");
    assert_eq!(yaml_item_line("a\nb  \n\n"), "a\nb");
    assert_eq!(yaml_item_line("--- x\n"), "--- x");
    assert_eq!(yaml_item_line(""), "");
}

#[test]
fn text_items_read_as_json_where_they_are_json() {
    let items = vec![
        (text("42"), Some(JsonValue::Number(text("42")))),
        (text("plain words"), None),
        (text("[true]"), Some(JsonValue::Array(vec![JsonValue::Bool(true)]))),
    ];
    let values = text_items_to_json(items);
    assert_eq!(values.iter().map(show).collect::<Vec<_>>(), vec!["42", "\"plain words\"", "[true]"]);
}
