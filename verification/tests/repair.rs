use datacartridge::json::JsonValue;
use datacartridge::csv_repair::{repair_csv, repair_table, CsvRepairError};
use datacartridge::repair::{repair_json, RepairError};
use serde_json::{Number, Value};

/// The `serde_json` value a repaired document stands for.
fn to_serde(v: &JsonValue) -> Value {
    match v {
        JsonValue::Null => Value::Null,
        JsonValue::Bool(b) => Value::Bool(*b),
        JsonValue::Number(n) => Value::Number(serde_json::from_str::<Number>(n).unwrap()),
        JsonValue::String(s) => Value::String(s.clone()),
        JsonValue::Array(items) => Value::Array(items.iter().map(to_serde).collect()),
        JsonValue::Object(members) => {
            let mut m = serde_json::Map::new();
            for (k, v) in members {
                m.insert(k.clone(), to_serde(v));
            }
            Value::Object(m)
        }
    }
}

fn parse(text: &str) -> Value {
    serde_json::from_str::<Value>(text).unwrap()
}

fn object(pairs: Vec<(&str, Value)>) -> Value {
    let mut m = serde_json::Map::new();
    for (k, v) in pairs {
        m.insert(k.to_string(), v);
    }
    Value::Object(m)
}

fn num(n: i64) -> Value {
    Value::Number(Number::from(n))
}

#[test]
fn test0070_valid_json_zero_repairs() {
    for text in [
        r#"{"a": 1, "b": [true, null, "x"], "c": {"d": 2.5}}"#,
        r#"[1, 2, 3]"#,
        r#""just a string""#,
        "42",
    ] {
        let (value, repairs) = repair_json(text).ok().unwrap();
        assert_eq!(to_serde(&value), parse(text));
        assert!(repairs.is_empty(), "{text} needed no repairs, got {} repairs", repairs.len());
    }
}

#[test]
fn test0071_common_breakages_repaired_and_recorded() {
    let cases: Vec<(&str, Value, usize)> = vec![
        (r#"{'a': 'x'}"#, object(vec![("a", Value::String("x".to_string()))]), 2),
        (r#"{a: 1}"#, object(vec![("a", num(1))]), 1),
        (r#"{"a": 1,}"#, object(vec![("a", num(1))]), 1),
        (r#"[1, 2,]"#, Value::Array(vec![num(1), num(2)]), 1),
        (r#"{"a": True, "b": None}"#, object(vec![("a", Value::Bool(true)), ("b", Value::Null)]), 2),
        (r#"{"a": NaN}"#, object(vec![("a", Value::Null)]), 1),
        ("// note\n{\"a\": 1}", object(vec![("a", num(1))]), 1),
        (r#"{"a" 1}"#, object(vec![("a", num(1))]), 1),
        (r#"{"a": 1 "b": 2}"#, object(vec![("a", num(1)), ("b", num(2))]), 1),
        (r#"[1 2]"#, Value::Array(vec![num(1), num(2)]), 1),
        (r#"{"a": +5}"#, object(vec![("a", num(5))]), 1),
    ];
    for (input, expected, n) in cases {
        let (value, repairs) = repair_json(input).ok().unwrap();
        assert_eq!(to_serde(&value), expected, "input: {input}");
        assert_eq!(repairs.len(), n, "input: {input}");
    }
}

#[test]
fn test0072_truncated_documents_close() {
    let (value, repairs) = repair_json(r#"{"a": [1, 2, {"b": "unfinished"#).ok().unwrap();
    let inner = object(vec![("b", Value::String("unfinished".to_string()))]);
    assert_eq!(to_serde(&value), object(vec![("a", Value::Array(vec![num(1), num(2), inner]))]));
    // one closed string + three closed containers
    assert_eq!(repairs.len(), 4);
}

#[test]
fn test0073_unguessable_is_a_hard_error() {
    let err = repair_json(r#"{"a": 1} {"b": 2}"#).err().unwrap();
    assert!(err.message().contains("trailing content"), "got: {}", err.message());
    let err = repair_json(r#"{"a": banana}"#).err().unwrap();
    assert!(err.message().contains("banana"), "got: {}", err.message());
    assert!(repair_json("   ").is_err());
}

#[test]
fn repair_errors_carry_position_and_text() {
    match repair_json(r#"{"a": 1} {"b": 2}"#) {
        Err(e @ RepairError::TrailingContent { .. }) => {
            assert_eq!(
                e.message(),
                "repair-json: trailing content at byte 9 after a complete JSON document — \
                 refusing to guess whether it is data (starts with \"{\\\"b\\\": 2}\")"
            );
            if let RepairError::TrailingContent { position, rest } = e {
                assert_eq!(position, 9);
                assert_eq!(rest, br#"{"b": 2}"#.to_vec());
            }
        }
        _ => panic!("expected trailing content"),
    }
    match repair_json(r#"{"a": banana}"#) {
        Err(RepairError::UnknownLiteral { word, position }) => {
            assert_eq!(word, "banana");
            assert_eq!(position, 6);
        }
        _ => panic!("expected an unknown literal"),
    }
    assert!(matches!(repair_json("   "), Err(RepairError::Empty)));
    assert_eq!(
        repair_json("[}").err().unwrap().message(),
        "repair-json: unexpected character Some('}') at byte 1"
    );
    assert_eq!(
        repair_json("{\"a\": 1, ]").err().unwrap().message(),
        "repair-json: expected an object key at byte 9 but found ']'"
    );
    assert_eq!(
        repair_json(&"[".repeat(200)).err().unwrap().message(),
        "repair-json: nesting deeper than 128 levels"
    );
}

#[test]
fn repair_records_each_fix_with_its_position_and_text() {
    let (value, repairs) = repair_json("\u{feff}{'k': 'v', /* c */ x = 1,}").ok().unwrap();
    assert_eq!(
        to_serde(&value),
        object(vec![("k", Value::String("v".to_string())), ("x", num(1))])
    );
    let got: Vec<(usize, String)> = repairs.into_iter().map(|a| (a.position, a.what)).collect();
    assert_eq!(
        got,
        vec![
            (0, "removed UTF-8 byte-order mark".to_string()),
            (4, "converted single-quoted string to double-quoted".to_string()),
            (9, "converted single-quoted string to double-quoted".to_string()),
            (14, "removed /* */ comment (not JSON)".to_string()),
            (22, "quoted an unquoted object key".to_string()),
            (24, "replaced '=' with ':' after object key".to_string()),
            (27, "removed trailing comma in object".to_string()),
        ]
    );
}

#[test]
fn repair_duplicate_key_keeps_the_later_value() {
    let text = r#"{"a": 1, "b": 2, "a": 3}"#;
    let (value, repairs) = repair_json(text).ok().unwrap();
    assert_eq!(to_serde(&value), object(vec![("a", num(3)), ("b", num(2))]));
    assert_eq!(to_serde(&value), serde_json::from_str::<Value>(text).unwrap());
    assert!(repairs.is_empty(), "a repeated key is valid JSON: {repairs:?}");
}

#[test]
fn repair_notes_come_in_document_order() {
    let (value, repairs) = repair_json(r#"{"a":1,"a":'x'}"#).ok().unwrap();
    assert_eq!(to_serde(&value), object(vec![("a", Value::String("x".to_string()))]));
    assert_eq!(repairs.len(), 1);
    assert_eq!(repairs[0].position, 11);
    assert_eq!(repairs[0].what, "converted single-quoted string to double-quoted");
    let (_, repairs) = repair_json("{a: 'x', // c\n b: True,}").ok().unwrap();
    let positions: Vec<usize> = repairs.iter().map(|r| r.position).collect();
    let mut sorted = positions.clone();
    sorted.sort();
    assert_eq!(positions, sorted);
}

#[test]
fn repair_joins_surrogate_pair_escapes() {
    let text = r#""\ud83d\ude00""#;
    let (value, repairs) = repair_json(text).ok().unwrap();
    assert_eq!(to_serde(&value), Value::String("\u{1F600}".to_string()));
    assert_eq!(to_serde(&value), serde_json::from_str::<Value>(text).unwrap());
    assert!(repairs.is_empty());
    let (value, repairs) = repair_json(r#"{"k": ["\uD834\uDD1E", "\u00e9"]}"#).ok().unwrap();
    assert_eq!(to_serde(&value), object(vec![("k", Value::Array(vec![
        Value::String("\u{1D11E}".to_string()),
        Value::String("\u{e9}".to_string()),
    ]))]));
    assert!(repairs.is_empty());
    assert!(matches!(repair_json(r#""\ud83d""#), Err(RepairError::InvalidEscape { position: 3 })));
    assert!(matches!(repair_json(r#""\ude00\ud83d""#), Err(RepairError::InvalidEscape { position: 3 })));
    assert!(matches!(repair_json(r#""\ud83d\u0041""#), Err(RepairError::InvalidEscape { position: 3 })));
}

#[test]
fn repair_numbers_strict_lenient_and_refused() {
    let (value, repairs) = repair_json("[05, 1., -Infinity, 1.5e3]").ok().unwrap();
    assert_eq!(to_serde(&value), parse("[5.0, 1.0, null, 1500.0]"));
    assert_eq!(repairs.len(), 3);
    match repair_json("1e400") {
        Err(RepairError::NotFinite { text, position }) => {
            assert_eq!(text, "1e400");
            assert_eq!(position, 0);
        }
        _ => panic!("expected a non-finite number"),
    }
    match repair_json("[1.2.3]") {
        Err(RepairError::NotANumber { text, position }) => {
            assert_eq!(text, "1.2.3");
            assert_eq!(position, 1);
        }
        _ => panic!("expected no number"),
    }
}

#[test]
fn repair_strings_escapes_and_errors() {
    let (value, repairs) = repair_json("[\"a\\u0041\\u+042\\q\u{e9}\"]").ok().unwrap();
    assert_eq!(to_serde(&value), parse("[\"aABq\u{e9}\"]"));
    assert_eq!(repairs.len(), 1);
    assert_eq!(repairs[0].position, 16);
    assert!(matches!(repair_json(r#""\ud800""#), Err(RepairError::InvalidEscape { position: 3 })));
    assert!(matches!(repair_json("\"\\\u{e9}\""), Err(RepairError::InvalidUtf8 { position: 3 })));
    let (value, repairs) = repair_json("[\"line\n]").ok().unwrap();
    assert_eq!(to_serde(&value), parse("[\"line\"]"));
    assert_eq!(repairs.len(), 1);
    assert_eq!(repairs[0].what, "closed unterminated string at end of line");
}

#[test]
fn repair_structural_errors() {
    assert!(matches!(repair_json("{\"a\": 1, ]"), Err(RepairError::ExpectedKey { position: 9, found: b']' })));
    assert!(matches!(repair_json("[}"), Err(RepairError::UnexpectedChar { position: 1, found: b'}' })));
    assert!(matches!(repair_json("{\"a\":"), Err(RepairError::UnexpectedEnd)));
    let deep = "[".repeat(200);
    assert!(matches!(repair_json(&deep), Err(RepairError::TooDeep)));
}

#[test]
fn test0074_csv_repair() {
    let mut input = vec![0xEF, 0xBB, 0xBF];
    input.extend_from_slice(b"name,age,city\nalice,31,rome\nbob,22\n");
    let (out, repairs) = repair_csv(&input).ok().unwrap();
    let text = String::from_utf8(out).unwrap();
    assert!(text.starts_with("name,age,city\n"), "BOM must be gone: {text}");
    assert!(text.contains("bob,22,\n"), "short row padded: {text}");
    assert_eq!(repairs.len(), 2, "BOM + one padding: {repairs:?}");
    assert!(repairs[1].what.contains("row 3"), "{repairs:?}");

    let err = repair_csv(b"a,b\n1,2,3\n").err().unwrap();
    assert!(err.message().contains("row 2"), "got: {}", err.message());
    assert!(err.message().contains("guess"), "got: {}", err.message());
}

#[test]
fn csv_repair_records_padding_exactly() {
    let (out, repairs) = repair_csv(b"a,b,c\n1\n\"x,y\",2,3\n").ok().unwrap();
    assert_eq!(String::from_utf8(out).unwrap(), "a,b,c\n1,,\n\"x,y\",2,3\n");
    assert_eq!(repairs.len(), 1);
    assert_eq!(repairs[0].position, 6);
    assert_eq!(repairs[0].what, "padded row 2 from 1 to 3 fields (2 empty fields appended)");
    match repair_csv(b"a,b\n1,2,3\n") {
        Err(e @ CsvRepairError::TooManyFields { .. }) => {
            assert_eq!(
                e.message(),
                "repair-csv: row 2 has 3 fields but the header has 2 — extra fields are data; \
                 merging or dropping them would be a guess. Fix the source (usually an unquoted delimiter)"
            );
        }
        _ => panic!("expected too many fields"),
    }
    assert!(matches!(repair_csv(b""), Err(CsvRepairError::NoHeader)));
    match repair_csv(&[0xff, b'\n']) {
        Err(e @ CsvRepairError::HeaderUnreadable { .. }) => {
            assert!(e.message().starts_with("repair-csv: header row is unreadable: "));
        }
        _ => panic!("expected an unreadable header"),
    }
}

#[test]
fn csv_repair_refuses_an_unreadable_row() {
    match repair_csv(b"a,b\n\xff,1\n") {
        Err(e @ CsvRepairError::RowUnreadable { record: 0, .. }) => {
            assert!(e.message().starts_with("repair-csv: row 2 is unreadable ("));
            assert!(e.message().ends_with(") — this shape cannot be repaired without guessing"));
        }
        _ => panic!("expected an unreadable row"),
    }
}

#[test]
fn csv_repair_positions_count_the_removed_bom() {
    let mut input = vec![0xEF, 0xBB, 0xBF];
    input.extend_from_slice(b"name,age,city\nalice,31,rome\nbob,22\n");
    let (_, repairs) = repair_csv(&input).ok().unwrap();
    assert_eq!(repairs[0].position, 0);
    assert_eq!(repairs[0].what, "removed UTF-8 byte-order mark");
    assert_eq!(repairs[1].position, 31);
    assert_eq!(&input[31..34], b"bob");
    assert_eq!(repairs[1].what, "padded row 3 from 2 to 3 fields (1 empty field appended)");
}

fn strings(v: &[&str]) -> Vec<String> {
    v.iter().map(|s| s.to_string()).collect()
}

#[test]
fn repair_table_pads_a_given_table() {
    let rows = vec![Ok((strings(&["alice", "31", "rome"]), 14)), Ok((strings(&["bob", "22"]), 28))];
    let (out, repairs) = repair_table(true, Ok(strings(&["name", "age", "city"])), rows).ok().unwrap();
    assert_eq!(
        out,
        vec![strings(&["name", "age", "city"]), strings(&["alice", "31", "rome"]), strings(&["bob", "22", ""])]
    );
    assert_eq!(repairs.len(), 2);
    assert_eq!(repairs[0].position, 0);
    assert_eq!(repairs[1].position, 31);
    assert_eq!(repairs[1].what, "padded row 3 from 2 to 3 fields (1 empty field appended)");

    let (out, repairs) = repair_table(false, Ok(strings(&["a", "b", "c"])), vec![Ok((strings(&["1"]), 6))]).ok().unwrap();
    assert_eq!(out, vec![strings(&["a", "b", "c"]), strings(&["1", "", ""])]);
    assert_eq!(repairs.len(), 1);
    assert_eq!(repairs[0].position, 6);
    assert_eq!(repairs[0].what, "padded row 2 from 1 to 3 fields (2 empty fields appended)");
}

#[test]
fn repair_table_refuses_what_it_cannot_repair() {
    assert!(matches!(
        repair_table(false, Ok(strings(&["a", "b"])), vec![Ok((strings(&["1", "2", "3"]), 4))]),
        Err(CsvRepairError::TooManyFields { record: 0, fields: 3, width: 2 })
    ));
    assert!(matches!(repair_table(false, Ok(vec![]), vec![]), Err(CsvRepairError::NoHeader)));
    match repair_table(false, Err("bad header".to_string()), vec![]) {
        Err(CsvRepairError::HeaderUnreadable { reason }) => assert_eq!(reason, "bad header"),
        _ => panic!("expected an unreadable header"),
    }
    match repair_table(false, Ok(strings(&["a"])), vec![Ok((strings(&["1"]), 2)), Err("bad row".to_string())]) {
        Err(CsvRepairError::RowUnreadable { record: 1, reason }) => assert_eq!(reason, "bad row"),
        _ => panic!("expected an unreadable row"),
    }
}

#[test]
fn csv_repair_notes_come_in_document_order() {
    let mut input = vec![0xEF, 0xBB, 0xBF];
    input.extend_from_slice(b"a,b,c\n1\n2,3\n4,5,6\n7\n");
    let (out, repairs) = repair_csv(&input).ok().unwrap();
    assert_eq!(String::from_utf8(out).unwrap(), "a,b,c\n1,,\n2,3,\n4,5,6\n7,,\n");
    let positions: Vec<usize> = repairs.iter().map(|r| r.position).collect();
    assert_eq!(positions, vec![0, 9, 11, 21]);
    assert!(positions.iter().all(|&p| p <= input.len()));
}

#[test]
fn repair_table_names_the_first_bad_row() {
    let rows = vec![
        Ok((strings(&["1", "2"]), 4)),
        Ok((strings(&["1", "2", "3"]), 8)),
        Err("bad row".to_string()),
    ];
    assert!(matches!(
        repair_table(false, Ok(strings(&["a", "b"])), rows),
        Err(CsvRepairError::TooManyFields { record: 1, fields: 3, width: 2 })
    ));
}
