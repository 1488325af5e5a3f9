use datacartridge::json::JsonValue;
use datacartridge::tabular::{
    csv_item_objects, csv_to_json_records, csv_to_text_list, infer_csv_value, json_objects_to_csv,
    json_records_to_csv, text_list_to_csv, ConvertError,
};
use datacartridge::textlist::{decode_textable_list, encode_textable_list, strip_utf8_bom};
use serde_json::{Number, Value};

/// A JSON value written as text.
fn j(text: &str) -> Value {
    serde_json::from_str(text).unwrap()
}

fn from_serde(v: &Value) -> JsonValue {
    match v {
        Value::Null => JsonValue::Null,
        Value::Bool(b) => JsonValue::Bool(*b),
        Value::Number(n) => JsonValue::Number(n.to_string()),
        Value::String(s) => JsonValue::String(s.clone()),
        Value::Array(items) => JsonValue::Array(items.iter().map(from_serde).collect()),
        Value::Object(members) => {
            JsonValue::Object(members.iter().map(|(k, v)| (k.clone(), from_serde(v))).collect())
        }
    }
}

fn to_serde(v: &JsonValue) -> Value {
    match v {
        JsonValue::Null => Value::Null,
        JsonValue::Bool(b) => Value::Bool(*b),
        JsonValue::Number(n) => Value::Number(serde_json::from_str::<Number>(n).unwrap()),
        JsonValue::String(s) => Value::String(s.clone()),
        JsonValue::Array(items) => Value::Array(items.iter().map(to_serde).collect()),
        JsonValue::Object(members) => {
            let mut m = serde_json::Map::new();
            for (k, v) in members {
                m.insert(k.clone(), to_serde(v));
            }
            Value::Object(m)
        }
    }
}

/// The records of a JSON array of objects, as the library takes them.
fn records(data: &[u8]) -> Vec<Vec<(String, JsonValue)>> {
    let rows: Vec<serde_json::Map<String, Value>> = serde_json::from_slice(data).unwrap();
    rows.iter()
        .map(|m| m.iter().map(|(k, v)| (k.clone(), from_serde(v))).collect())
        .collect()
}

fn csv_records(data: &[u8]) -> Vec<Value> {
    csv_to_json_records(data).ok().unwrap().iter().map(to_serde).collect()
}

#[test]
fn test0019_json_records_to_csv() {
    let json = br#"[{"a": 1, "b": "x"}, {"a": 2, "b": "y"}]"#;
    let csv_bytes = json_records_to_csv(&records(json));
    let csv_str = std::str::from_utf8(&csv_bytes).unwrap();
    assert!(csv_str.starts_with("a,b") || csv_str.starts_with("b,a"));
    assert!(csv_str.contains('1'));
    assert!(csv_str.contains('x'));
}

#[test]
fn test0020_csv_to_json_records() {
    let records = csv_records(b"name,age\nAlice,30\nBob,25");
    assert_eq!(records.len(), 2);
    assert_eq!(records[0]["name"], "Alice");
    assert_eq!(records[0]["age"], 30);
    assert_eq!(records[1]["name"], "Bob");
    assert_eq!(records[1]["age"], 25);
}

#[test]
fn test0021_csv_to_yaml_records() {
    let records = Value::Array(csv_records(b"name,age\nAlice,30"));
    let yaml_str = serde_yaml::to_string(&records).unwrap();
    assert!(yaml_str.contains("name:"));
    assert!(yaml_str.contains("Alice"));
}

#[test]
fn test0022_yaml_records_to_csv() {
    let yaml = "- name: Alice\n  age: 30\n- name: Bob\n  age: 25";
    let value: Value = serde_yaml::from_str(yaml).unwrap();
    let json = serde_json::to_vec(&value).unwrap();
    let csv_bytes = json_records_to_csv(&records(&json));
    let csv_str = std::str::from_utf8(&csv_bytes).unwrap();
    assert!(csv_str.contains("Alice"));
    assert!(csv_str.contains("Bob"));
}

#[test]
fn test0024_roundtrip_csv_json_csv() {
    let csv = b"name,age\nAlice,30\nBob,25";
    let json = serde_json::to_vec(&csv_records(csv)).unwrap();
    let csv2 = json_records_to_csv(&records(&json));
    let records1 = csv_records(csv);
    let records2 = csv_records(&csv2);
    assert_eq!(records1, records2);
}

#[test]
fn test0025_empty_json_array_to_csv() {
    let csv_bytes = json_records_to_csv(&records(b"[]"));
    assert!(csv_bytes.is_empty());
}

#[test]
fn test0028_csv_type_inference() {
    let infer = |field: &str| to_serde(&infer_csv_value(field));
    assert_eq!(infer(""), Value::Null);
    assert_eq!(infer("42"), j(r#"42"#));
    assert_eq!(infer("3.14"), j(r#"3.14"#));
    assert_eq!(infer("true"), j(r#"true"#));
    assert_eq!(infer("false"), j(r#"false"#));
    assert_eq!(infer("hello"), j(r#""hello""#));
    assert_eq!(infer("-7"), j(r#"-7"#));
    for keep in ["007", "01234", "1e5", "+42", "1_000", " 42", "42 ", "NaN", "inf", "1.10"] {
        assert_eq!(infer(keep), Value::String(keep.to_string()), "'{keep}' must stay a string — numeric conversion is lossy");
    }
}

#[test]
fn test0054_csv_bom_stripped() {
    let mut data = vec![0xEF, 0xBB, 0xBF];
    data.extend_from_slice(b"name,age\nalice,3\n");
    let out = csv_records(&data);
    let text = serde_json::to_string(&out).unwrap();
    assert!(text.contains("\"name\""), "header must parse clean of the BOM, got: {text}");
    assert!(!text.contains('\u{feff}'), "BOM leaked into output: {text}");
}

#[test]
fn test0029_csv_with_mixed_columns() {
    let records = csv_records(b"id,name,active,score\n1,Alice,true,95.5\n2,Bob,false,");
    assert_eq!(records[0]["id"], 1);
    assert_eq!(records[0]["active"], true);
    assert_eq!(records[0]["score"], 95.5);
    assert_eq!(records[1]["score"], Value::Null);
}

#[test]
fn test0031_json_records_superset_headers() {
    let json = br#"[{"a": 1}, {"b": 2}, {"a": 3, "c": 4}]"#;
    let csv_bytes = json_records_to_csv(&records(json));
    let csv_str = std::str::from_utf8(&csv_bytes).unwrap();
    let first_line = csv_str.lines().next().unwrap();
    assert!(first_line.contains('a'));
    assert!(first_line.contains('b'));
    assert!(first_line.contains('c'));
}

#[test]
fn json_records_to_csv_exact_bytes() {
    let json = br#"[{"b": "x,y", "a": null}, {"a": [1, "q"], "c": true}]"#;
    let out = json_records_to_csv(&records(json));
    assert_eq!(
        String::from_utf8(out).unwrap(),
        "a,b,c\n,\"x,y\",\n\"[1,\"\"q\"\"]\",,true\n"
    );
}

#[test]
fn json_objects_to_csv_writes_null_as_json() {
    let objects: Vec<JsonValue> =
        [j(r#"{"a": null, "b": 1}"#), j(r#"{"b": "two"}"#)].iter().map(from_serde).collect();
    let out = json_objects_to_csv(&objects);
    assert_eq!(String::from_utf8(out).unwrap(), "a,b\nnull,1\n,two\n");
}

#[test]
fn csv_conversion_errors() {
    assert!(matches!(csv_to_json_records(b"a,b\n1,2,3\n"), Err(ConvertError::RowUnreadable { record: 0, .. })));
    assert!(matches!(csv_to_json_records(b""), Err(ConvertError::NoHeaders)));
    assert!(matches!(csv_to_json_records(&[0xff, 0xfe, b'\n', b'1']), Err(ConvertError::HeaderUnreadable { .. })));
    let err = csv_to_json_records(&[b'a', b'\n', 0xff, b'\n']).err().unwrap();
    assert!(matches!(err, ConvertError::RowUnreadable { record: 0, .. }));
    assert!(err.message().starts_with("Failed to read CSV row: "));
}

#[test]
fn text_list_round_trip_and_csv() {
    let items = vec!["alpha".to_string(), "beta gamma".to_string()];
    let bytes = encode_textable_list(&items);
    assert_eq!(bytes, b"alpha\nbeta gamma\n".to_vec());
    assert_eq!(decode_textable_list(&bytes).unwrap(), items);
    assert_eq!(decode_textable_list(b"a\r\n\nb").unwrap(), vec!["a", "b"]);
    assert_eq!(
        decode_textable_list(&[0xff]).err().unwrap(),
        "invalid utf-8 sequence of 1 bytes from index 0"
    );
    assert_eq!(strip_utf8_bom(&[0xEF, 0xBB, 0xBF, b'x']), b"x");
    assert_eq!(strip_utf8_bom(b"x"), b"x");

    let csv = text_list_to_csv(b"one\ntwo, three\n").ok().unwrap();
    assert_eq!(String::from_utf8(csv).unwrap(), "value\none\n\"two, three\"\n");
    assert_eq!(
        text_list_to_csv(&[0xff]).err().unwrap().message(),
        "Textable list is not valid UTF-8: invalid utf-8 sequence of 1 bytes from index 0"
    );

    let list = csv_to_text_list(b"\xEF\xBB\xBFh,k\nx,1\n,2\n").ok().unwrap();
    assert_eq!(list, b"x\n\n".to_vec());
}

#[test]
fn csv_items_keep_every_field_a_string() {
    let objects = csv_item_objects(b"n,s\n007,x\n").ok().unwrap();
    assert_eq!(objects.len(), 1);
    assert_eq!(to_serde(&objects[0]), j(r#"{"n": "007", "s": "x"}"#));
}

#[test]
fn records_to_csv_header_names_every_key_once() {
    let csv_bytes = json_records_to_csv(&records(br#"[{"a": 1}, {"b": 2}, {"a": 3, "c": 4}]"#));
    assert_eq!(String::from_utf8(csv_bytes).unwrap(), "a,b,c\n1,,\n,2,\n3,,4\n");
    let csv_bytes = json_records_to_csv(&records(br#"[{"b": "x", "a": null}, {"a": [1, "y"]}]"#));
    assert_eq!(String::from_utf8(csv_bytes).unwrap(), "a,b\n,x\n\"[1,\"\"y\"\"]\",\n");
}
