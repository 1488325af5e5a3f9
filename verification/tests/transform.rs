use datacartridge::json::JsonValue;
use datacartridge::transform::{
    apply_program, check_program, input_field_names, Op, Predicate, Program, SortOrder, Transform, TransformError,
};
use datacartridge::schema::{program_schema_with_fields, schema_accepts_fields, PROGRAM_SCHEMA};
use serde_json::{Number, Value};

/// A JSON value written as text.
fn j(text: &str) -> Value {
    serde_json::from_str(text).unwrap()
}

fn from_serde(v: &Value) -> JsonValue {
    match v {
        Value::Null => JsonValue::Null,
        Value::Bool(b) => JsonValue::Bool(*b),
        Value::Number(n) => JsonValue::Number(n.to_string()),
        Value::String(s) => JsonValue::String(s.clone()),
        Value::Array(items) => JsonValue::Array(items.iter().map(from_serde).collect()),
        Value::Object(members) => {
            JsonValue::Object(members.iter().map(|(k, v)| (k.clone(), from_serde(v))).collect())
        }
    }
}

fn to_serde(v: &JsonValue) -> Value {
    match v {
        JsonValue::Null => Value::Null,
        JsonValue::Bool(b) => Value::Bool(*b),
        JsonValue::Number(n) => Value::Number(serde_json::from_str::<Number>(n).unwrap()),
        JsonValue::String(s) => Value::String(s.clone()),
        JsonValue::Array(items) => Value::Array(items.iter().map(to_serde).collect()),
        JsonValue::Object(members) => {
            let mut m = serde_json::Map::new();
            for (k, v) in members {
                m.insert(k.clone(), to_serde(v));
            }
            Value::Object(m)
        }
    }
}

fn text(v: &Value, key: &str) -> String {
    v[key].as_str().unwrap().to_string()
}

fn texts(v: &Value, key: &str) -> Vec<String> {
    v[key].as_array().unwrap().iter().map(|f| f.as_str().unwrap().to_string()).collect()
}

/// Reads one operation the way the program's JSON form spells it.
fn op(v: &Value) -> Op {
    match v["op"].as_str().unwrap() {
        "select_fields" => Op::SelectFields { fields: texts(v, "fields") },
        "drop_fields" => Op::DropFields { fields: texts(v, "fields") },
        "rename_field" => Op::RenameField { from: text(v, "from"), to: text(v, "to") },
        "set_field" => Op::SetField { field: text(v, "field"), value: from_serde(&v["value"]) },
        "filter" => Op::Filter {
            field: text(v, "field"),
            predicate: match v["predicate"].as_str().unwrap() {
                "eq" => Predicate::Eq,
                "ne" => Predicate::Ne,
                "gt" => Predicate::Gt,
                "lt" => Predicate::Lt,
                "ge" => Predicate::Ge,
                "le" => Predicate::Le,
                "contains" => Predicate::Contains,
                "exists" => Predicate::Exists,
                _ => Predicate::NotExists,
            },
            value: match v.get("value") {
                None | Some(Value::Null) => None,
                Some(c) => Some(from_serde(c)),
            },
        },
        "map_field" => Op::MapField {
            field: text(v, "field"),
            transform: match v["transform"].as_str().unwrap() {
                "lowercase" => Transform::Lowercase,
                "uppercase" => Transform::Uppercase,
                "trim" => Transform::Trim,
                "to_string" => Transform::ToString,
                _ => Transform::ToNumber,
            },
        },
        "sort_by" => Op::SortBy {
            field: text(v, "field"),
            order: if v["order"] == "desc" { SortOrder::Desc } else { SortOrder::Asc },
        },
        "limit" => Op::Limit { n: v["n"].as_u64().unwrap() },
        _ => Op::Reverse,
    }
}

fn program(text: &str) -> Program {
    let v: Value = serde_json::from_str(text).unwrap();
    Program { ops: v["ops"].as_array().unwrap().iter().map(op).collect() }
}

fn run(text: &str, data: Value) -> Result<Value, TransformError> {
    let p = check_program(program(text))?;
    apply_program(&p, &from_serde(&data)).map(|v| to_serde(&v))
}

#[test]
fn test0061_program_end_to_end() {
    let data = j(r#"[
        {"name": "Carol", "email": "CAROL@X.COM", "active": true,  "age": 31},
        {"name": "alice", "email": "Alice@X.com", "active": true,  "age": 44},
        {"name": "Bob",   "email": "BOB@X.COM",   "active": false, "age": 22}
    ]"#);
    let program = r#"{"ops": [
        {"op": "filter", "field": "active", "predicate": "eq", "value": true},
        {"op": "map_field", "field": "email", "transform": "lowercase"},
        {"op": "select_fields", "fields": ["name", "email"]},
        {"op": "sort_by", "field": "name", "order": "asc"},
        {"op": "limit", "n": 2}
    ]}"#;
    let out = run(program, data).ok().unwrap();
    assert_eq!(
        out,
        j(r#"[
            {"name": "Carol", "email": "carol@x.com"},
            {"name": "alice", "email": "alice@x.com"}
        ]"#)
    );
}

#[test]
fn test0062_hard_errors_name_the_problem() {
    let err = run(r#"{"ops": [{"op": "reverse"}]}"#, j(r#"{"a": 1}"#)).err().unwrap().message();
    assert!(err.contains("array"), "got: {err}");
    let err = run(r#"{"ops": [{"op": "reverse"}]}"#, j(r#"[{"a": 1}, 42]"#)).err().unwrap().message();
    assert!(err.contains("record 1"), "got: {err}");
    let err = run(
        r#"{"ops": [{"op": "map_field", "field": "n", "transform": "lowercase"}]}"#,
        j(r#"[{"n": 5}]"#),
    )
    .err()
    .unwrap()
    .message();
    assert!(err.contains("record 0"), "got: {err}");
    assert!(err.contains("lowercase"), "got: {err}");
    let err = run(
        r#"{"ops": [{"op": "filter", "field": "a", "predicate": "gt"}]}"#,
        j(r#"[{"a": 1}]"#),
    )
    .err()
    .unwrap()
    .message();
    assert!(err.contains("requires a comparison value"), "got: {err}");
    let err = run(
        r#"{"ops": [{"op": "filter", "field": "a", "predicate": "exists", "value": 1}]}"#,
        j(r#"[{"a": 1}]"#),
    )
    .err()
    .unwrap()
    .message();
    assert!(err.contains("takes no comparison value"), "got: {err}");
}

#[test]
fn test0063_filter_semantics() {
    let data = j(r#"[
        {"n": 1, "tags": ["a", "b"], "s": "hello world"},
        {"n": 5, "tags": ["c"],      "s": "goodbye"},
        {"tags": [],                 "s": "no n field"}
    ]"#);
    let keep = |prog: &str| -> usize { run(prog, data.clone()).ok().unwrap().as_array().unwrap().len() };
    assert_eq!(keep(r#"{"ops":[{"op":"filter","field":"n","predicate":"gt","value":2}]}"#), 1);
    assert_eq!(keep(r#"{"ops":[{"op":"filter","field":"n","predicate":"le","value":5}]}"#), 2);
    assert_eq!(keep(r#"{"ops":[{"op":"filter","field":"n","predicate":"exists"}]}"#), 2);
    assert_eq!(keep(r#"{"ops":[{"op":"filter","field":"n","predicate":"not_exists"}]}"#), 1);
    assert_eq!(
        keep(r#"{"ops":[{"op":"filter","field":"s","predicate":"contains","value":"o w"}]}"#),
        1
    );
    assert_eq!(
        keep(r#"{"ops":[{"op":"filter","field":"tags","predicate":"contains","value":"c"}]}"#),
        1
    );
}

#[test]
fn test0064_sort_total_order() {
    let data = j(r#"[
        {"k": "zeta"},
        {"k": 10},
        {},
        {"k": null},
        {"k": true},
        {"k": 2}
    ]"#);
    let out = run(r#"{"ops": [{"op": "sort_by", "field": "k", "order": "asc"}]}"#, data).ok().unwrap();
    let keys: Vec<Value> = out
        .as_array()
        .unwrap()
        .iter()
        .map(|r| r.get("k").cloned().unwrap_or(j(r#""<absent>""#)))
        .collect();
    assert_eq!(
        keys,
        vec![j(r#""<absent>""#), j(r#"null"#), j(r#"true"#), j(r#"2"#), j(r#"10"#), j(r#""zeta""#)]
    );
}

#[test]
fn empty_program_is_refused() {
    assert!(matches!(check_program(Program { ops: Vec::new() }), Err(TransformError::EmptyProgram)));
}

#[test]
fn rename_set_drop_reverse_and_descending_sort() {
    let data = j(r#"[{"a": 1, "b": "x"}, {"a": 3, "b": "y"}, {"a": 2}]"#);
    let out = run(
        r#"{"ops": [
            {"op": "rename_field", "from": "a", "to": "n"},
            {"op": "set_field", "field": "k", "value": "v"},
            {"op": "drop_fields", "fields": ["b"]},
            {"op": "sort_by", "field": "n", "order": "desc"},
            {"op": "reverse"}
        ]}"#,
        data,
    )
    .ok()
    .unwrap();
    assert_eq!(
        out,
        j(r#"[{"n": 1, "k": "v"}, {"n": 2, "k": "v"}, {"n": 3, "k": "v"}]"#)
    );
}

#[test]
fn map_field_transforms() {
    let data = j(r#"[{"s": "  Mixed Case  ", "n": 7, "t": "2.50", "b": true}]"#);
    let out = run(
        r#"{"ops": [
            {"op": "map_field", "field": "s", "transform": "trim"},
            {"op": "map_field", "field": "n", "transform": "to_string"},
            {"op": "map_field", "field": "t", "transform": "to_number"},
            {"op": "map_field", "field": "b", "transform": "to_string"}
        ]}"#,
        data,
    )
    .ok()
    .unwrap();
    assert_eq!(out, j(r#"[{"s": "Mixed Case", "n": "7", "t": 2.5, "b": "true"}]"#));
    let upper = run(
        r#"{"ops": [{"op": "map_field", "field": "s", "transform": "uppercase"}]}"#,
        j(r#"[{"s": "straße"}]"#),
    )
    .ok()
    .unwrap();
    assert_eq!(upper, j(r#"[{"s": "STRASSE"}]"#));
}

#[test]
fn filter_type_errors_are_named() {
    let err = run(
        r#"{"ops": [{"op": "filter", "field": "a", "predicate": "gt", "value": "x"}]}"#,
        j(r#"[{"a": 1}]"#),
    )
    .err()
    .unwrap();
    assert!(matches!(err, TransformError::OrderingMismatch { .. }));
    let err = run(
        r#"{"ops": [{"op": "filter", "field": "a", "predicate": "contains", "value": 1}]}"#,
        j(r#"[{"a": "x"}]"#),
    )
    .err()
    .unwrap();
    assert!(matches!(err, TransformError::ContainsMismatch { .. }));
    let err = run(
        r#"{"ops": [{"op": "rename_field", "from": "a", "to": "a"}]}"#,
        j(r#"[{"a": 1}]"#),
    )
    .err()
    .unwrap();
    assert!(err.message().contains("'a'"));
}

#[test]
fn input_field_names_are_sorted_and_unique() {
    let records: Vec<JsonValue> = j(r#"[{"b": 1, "a": 2}, 42, {"c": 3, "a": 4}, {"B": 0}]"#)
        .as_array()
        .unwrap()
        .iter()
        .map(from_serde)
        .collect();
    assert_eq!(input_field_names(&records), vec!["B", "a", "b", "c"]);
    assert!(input_field_names(&Vec::new()).is_empty());
}

fn schema_with(names: &[&str]) -> Value {
    let base = from_serde(&serde_json::from_str::<Value>(PROGRAM_SCHEMA).unwrap());
    assert!(schema_accepts_fields(&base));
    let names: Vec<String> = names.iter().map(|n| n.to_string()).collect();
    to_serde(&program_schema_with_fields(base, &names))
}

#[test]
fn test0065_schema_constrains_read_op_fields_to_input() {
    let schema = schema_with(&["name", "age"]);
    let branches = schema["properties"]["ops"]["items"]["oneOf"].as_array().expect("oneOf");
    let get = |op: &str| {
        branches
            .iter()
            .find(|b| b["properties"]["op"]["enum"][0] == op)
            .unwrap_or_else(|| panic!("branch {op}"))
    };
    let want = j(r#"["name", "age"]"#);
    assert_eq!(get("map_field")["properties"]["field"]["enum"], want);
    assert_eq!(get("filter")["properties"]["field"]["enum"], want);
    assert_eq!(get("sort_by")["properties"]["field"]["enum"], want);
    assert_eq!(get("select_fields")["properties"]["fields"]["items"]["enum"], want);
    assert_eq!(get("drop_fields")["properties"]["fields"]["items"]["enum"], want);
    assert_eq!(get("rename_field")["properties"]["from"]["enum"], want);
    assert!(get("set_field")["properties"]["field"].get("enum").is_none());
    assert!(get("rename_field")["properties"]["to"].get("enum").is_none());
    let base = schema_with(&[]);
    let mf = base["properties"]["ops"]["items"]["oneOf"]
        .as_array()
        .unwrap()
        .iter()
        .find(|b| b["properties"]["op"]["enum"][0] == "map_field")
        .unwrap();
    assert!(mf["properties"]["field"].get("enum").is_none());
    let records: Vec<JsonValue> =
        j(r#"[{"b": 1, "a": 2}, {"a": 3, "c": 4}]"#).as_array().unwrap().iter().map(from_serde).collect();
    assert_eq!(input_field_names(&records), vec!["a".to_string(), "b".to_string(), "c".to_string()]);
}

#[test]
fn schema_branches_match_the_operations() {
    let schema: Value = serde_json::from_str(PROGRAM_SCHEMA).unwrap();
    let one_of = schema["properties"]["ops"]["items"]["oneOf"].as_array().unwrap();
    assert_eq!(one_of.len(), 9);
    assert_eq!(schema_with(&[]), schema);
}

#[test]
fn schema_that_cannot_take_fields_is_recognised() {
    assert!(!schema_accepts_fields(&from_serde(&j(r#"{"properties": 3}"#))));
    assert!(schema_accepts_fields(&from_serde(&j(r#"{}"#))));
    let grown = to_serde(&program_schema_with_fields(from_serde(&j(r#"{}"#)), &vec!["x".to_string()]));
    assert_eq!(grown, j(r#"{"properties": {"ops": {"items": {"oneOf": null}}}}"#));
}

#[test]
fn numeric_equality_filters() {
    let data = j(r#"[{"n": 1}, {"n": 2}, {"n": 1}, {"m": 1}]"#);
    let eq = run(r#"{"ops":[{"op":"filter","field":"n","predicate":"eq","value":1}]}"#, data.clone())
        .ok()
        .unwrap();
    assert_eq!(eq, j(r#"[{"n": 1}, {"n": 1}]"#));
    let ne = run(r#"{"ops":[{"op":"filter","field":"n","predicate":"ne","value":1}]}"#, data).ok().unwrap();
    assert_eq!(ne, j(r#"[{"n": 2}]"#));
}

#[test]
fn descending_sort_reverses_the_classes() {
    let data = j(r#"[{"k": "b"}, {}, {"k": false}, {"k": "a"}, {"k": true}, {"k": 3}]"#);
    let out = run(r#"{"ops": [{"op": "sort_by", "field": "k", "order": "desc"}]}"#, data).ok().unwrap();
    assert_eq!(out, j(r#"[{"k": "b"}, {"k": "a"}, {"k": 3}, {"k": true}, {"k": false}, {}]"#));
}

#[test]
fn map_field_errors_name_record_field_and_rule() {
    let msg = |prog: &str, data: &str| run(prog, j(data)).err().unwrap().message();
    assert_eq!(
        msg(r#"{"ops":[{"op":"map_field","field":"v","transform":"to_number"}]}"#, r#"[{"v": "1"}, {"v": true}]"#),
        "map_field 'v' on record 1: to_number requires a string or number, got boolean"
    );
    assert_eq!(
        msg(r#"{"ops":[{"op":"map_field","field":"v","transform":"to_number"}]}"#, r#"[{"v": "abc"}]"#),
        "map_field 'v' on record 0: to_number: 'abc' is not a number"
    );
    assert_eq!(
        msg(r#"{"ops":[{"op":"map_field","field":"v","transform":"to_number"}]}"#, r#"[{"v": "1e400"}]"#),
        "map_field 'v' on record 0: to_number: '1e400' is not finite"
    );
    assert_eq!(
        msg(r#"{"ops":[{"op":"map_field","field":"v","transform":"trim"}]}"#, r#"[{"v": [1]}]"#),
        "map_field 'v' on record 0: trim requires a string, got array"
    );
    assert_eq!(
        msg(r#"{"ops": [{"op": "reverse"}]}"#, r#"[{"a": 1}, "x"]"#),
        "edit input record 1 is not a JSON object (got string)"
    );
    assert_eq!(
        msg(r#"{"ops":[{"op":"filter","field":"a","predicate":"lt","value":"x"}]}"#, r#"[{"a": 1}]"#),
        "ordering comparison requires two numbers or two strings (got field number vs value string)"
    );
}

#[test]
fn sort_is_stable_and_orders_arrays_and_objects_by_text() {
    let data = j(r#"[
        {"k": "b", "id": 1},
        {"k": [2], "id": 2},
        {"k": "a", "id": 3},
        {"id": 4},
        {"k": "b", "id": 5},
        {"k": [10], "id": 6},
        {"k": {"z": 1}, "id": 7},
        {"id": 8},
        {"k": {"a": 1}, "id": 9},
        {"k": null, "id": 10},
        {"k": null, "id": 11}
    ]"#);
    let out = run(r#"{"ops": [{"op": "sort_by", "field": "k", "order": "asc"}]}"#, data).ok().unwrap();
    let ids: Vec<i64> = out.as_array().unwrap().iter().map(|r| r["id"].as_i64().unwrap()).collect();
    assert_eq!(ids, vec![4, 8, 10, 11, 3, 1, 5, 6, 2, 9, 7]);
}

#[test]
fn sort_keeps_the_order_of_equal_numbers() {
    let data = j(r#"[{"k": 1, "id": 1}, {"k": 0.5, "id": 2}, {"k": 1, "id": 3}, {"k": 1, "id": 4}]"#);
    let out = run(r#"{"ops": [{"op": "sort_by", "field": "k", "order": "desc"}]}"#, data).ok().unwrap();
    let ids: Vec<i64> = out.as_array().unwrap().iter().map(|r| r["id"].as_i64().unwrap()).collect();
    assert_eq!(ids, vec![1, 3, 4, 2]);
}
