use datacartridge::coerce::{coerce, coerce_target, integer_plan, Coerced, CoerceError, CoerceTarget, IntegerStep};
use datacartridge::json::JsonValue;
use serde_json::Value;

fn from_serde(v: &Value) -> JsonValue {
    match v {
        Value::Null => JsonValue::Null,
        Value::Bool(b) => JsonValue::Bool(*b),
        Value::Number(n) => JsonValue::Number(n.to_string()),
        Value::String(s) => JsonValue::String(s.clone()),
        Value::Array(items) => JsonValue::Array(items.iter().map(from_serde).collect()),
        Value::Object(members) => {
            JsonValue::Object(members.iter().map(|(k, v)| (k.clone(), from_serde(v))).collect())
        }
    }
}

/// Coerces `data` the way the coercion op does: the content read as JSON
/// first, when it is JSON.
fn run(data: &[u8], _source: &str, target: &str) -> Result<Coerced, CoerceError> {
    let parsed = std::str::from_utf8(data)
        .ok()
        .and_then(|s| serde_json::from_str::<Value>(s).ok())
        .map(|v| from_serde(&v));
    coerce(data, parsed.as_ref(), target)
}

fn bytes(r: Result<Coerced, CoerceError>) -> Vec<u8> {
    match r {
        Ok(Coerced::Bytes(b)) => b,
        Ok(other) => panic!("expected finished bytes, got {other:?}"),
        Err(e) => panic!("{}", e.message()),
    }
}

#[test]
fn test0032_coerce_integer_to_string() {
    let result = bytes(run(b"42", "integer", "string"));
    assert_eq!(std::str::from_utf8(&result).unwrap(), "\"42\"");
}

#[test]
fn test0033_coerce_number_to_string() {
    let result = bytes(run(b"3.14", "number", "string"));
    assert_eq!(std::str::from_utf8(&result).unwrap(), "\"3.14\"");
}

#[test]
fn test0034_coerce_boolean_to_string() {
    let result = bytes(run(b"true", "boolean", "string"));
    assert_eq!(std::str::from_utf8(&result).unwrap(), "\"true\"");
}

#[test]
fn test0053_coerce_to_boolean_strict() {
    for (input, expected) in [
        (&b"true"[..], &b"true"[..]),
        (b"\"YES\"", b"true"),
        (b"\"on\"", b"true"),
        (b"1", b"true"),
        (b"1.0", b"true"),
        (b"false", b"false"),
        (b"\"No\"", b"false"),
        (b"\"off\"", b"false"),
        (b"0", b"false"),
        (b"0.0", b"false"),
    ] {
        assert_eq!(
            bytes(run(input, "string", "boolean")),
            expected,
            "input {:?}",
            std::str::from_utf8(input).unwrap()
        );
    }
    for bad in [&b"2"[..], b"\"truthy\"", b"0.5", b"\"\"", b"null", b"[true]"] {
        assert!(
            run(bad, "string", "boolean").is_err(),
            "{:?} must be rejected",
            std::str::from_utf8(bad).unwrap()
        );
    }
}

#[test]
fn test0042_coerce_object_passthrough() {
    let result = bytes(run(br#"{"key": "value"}"#, "object", "string"));
    let s = std::str::from_utf8(&result).unwrap();
    assert!(s.starts_with('"'));
}

#[test]
fn test0045_coerce_unsupported_target_fails() {
    let result = run(b"42", "integer", "array");
    assert!(result.is_err());
}

#[test]
fn coerce_to_string_spells_each_kind() {
    assert_eq!(bytes(run(b"null", "", "string")), b"\"null\"");
    assert_eq!(bytes(run(b"\"a\\\"b\"", "", "string")), b"\"a\"b\"");
    assert_eq!(bytes(run(br#"{"k": [1, "x"]}"#, "", "string")), br#""{\"k\":[1,\"x\"]}""#);
    assert_eq!(bytes(run(b"not json", "", "string")), b"\"not json\"");
    assert_eq!(bytes(run(b"1e2", "", "string")), b"\"100.0\"");
}

#[test]
fn coerce_to_boolean_reads_bare_words_and_names_the_refusal() {
    assert_eq!(bytes(run(b"  Yes ", "", "boolean")), b"true");
    assert_eq!(bytes(run(b"OFF", "", "boolean")), b"false");
    let err = run(b"  maybe ", "", "boolean").err().unwrap();
    assert_eq!(
        err.message(),
        "Cannot coerce 'maybe' to boolean — accepted values: true/false, 1/0, yes/no, on/off \
         (strings, case-insensitive) or the numbers 1/0"
    );
}

#[test]
fn coerce_dispatch_and_errors() {
    assert_eq!(coerce_target("integer"), Some(CoerceTarget::Integer));
    assert_eq!(coerce_target("Integer"), None);
    match run(b" 7 ", "", "integer") {
        Ok(Coerced::Integer(p)) => {
            assert_eq!(p.text, " 7 ");
            assert_eq!(p.steps, vec![IntegerStep::Exact(7)]);
        }
        _ => panic!("integer content is handed back"),
    }
    match run(b"2.5", "", "number") {
        Ok(Coerced::Number(t)) => assert_eq!(t, "2.5"),
        _ => panic!("number content is handed back"),
    }
    match run(b"\"hello\"", "string", "object") {
        Ok(Coerced::Object(t)) => assert_eq!(t, "\"hello\""),
        _ => panic!("object content is handed back"),
    }
    assert_eq!(
        run(b"42", "integer", "array").err().unwrap().message(),
        "Unsupported coercion target type: 'array'"
    );
    assert_eq!(
        run(&[0xff], "", "string").err().unwrap().message(),
        "Content is not valid UTF-8: invalid utf-8 sequence of 1 bytes from index 0"
    );
}

#[test]
fn boolean_survives_a_round_trip_through_string() {
    for b in [b"true".as_slice(), b"false".as_slice()] {
        let text = bytes(run(b, "boolean", "string"));
        assert_eq!(bytes(run(&text, "string", "boolean")), b);
    }
}

/// Finishes an integer coercion the way the coercion op does: the first
/// step that gives an integer, rounding a floating-point reading.
fn integer(data: &[u8], source: &str) -> Result<Vec<u8>, String> {
    match run(data, source, "integer") {
        Ok(Coerced::Integer(plan)) => {
            for step in &plan.steps {
                match step {
                    IntegerStep::Exact(i) => return Ok(i.to_string().into_bytes()),
                    IntegerStep::Round(t) => {
                        if let Ok(f) = t.parse::<f64>() {
                            return Ok((f.round() as i64).to_string().into_bytes());
                        }
                    }
                }
            }
            Err(plan.refusal())
        }
        Ok(_) => panic!("expected an integer plan"),
        Err(e) => Err(e.message()),
    }
}

#[test]
fn test0035_coerce_string_to_integer() {
    let result = integer(b"\"42\"", "string").unwrap();
    assert_eq!(std::str::from_utf8(&result).unwrap(), "42");
}

#[test]
fn test0036_coerce_number_to_integer() {
    let result = integer(b"3.7", "number").unwrap();
    assert_eq!(std::str::from_utf8(&result).unwrap(), "4");
}

#[test]
fn test0037_coerce_boolean_to_integer() {
    assert_eq!(integer(b"true", "boolean").unwrap(), b"1");
    assert_eq!(integer(b"false", "boolean").unwrap(), b"0");
}

#[test]
fn test0043_coerce_invalid_to_integer_fails() {
    let result = integer(b"\"not a number\"", "string");
    assert!(result.is_err());
    assert_eq!(result.err().unwrap(), "Cannot coerce content to integer: '\"not a number\"'");
}

#[test]
fn integer_plans_follow_the_content() {
    let plan = integer_plan("\"2.5\"", Some(&JsonValue::String("2.5".to_string())));
    assert_eq!(plan.steps, vec![IntegerStep::Round("2.5".to_string()), IntegerStep::Round("\"2.5\"".to_string())]);
    let plan = integer_plan(" -12 ", None);
    assert_eq!(plan.steps, vec![IntegerStep::Exact(-12)]);
    let plan = integer_plan("1e3", Some(&JsonValue::Number("1000.0".to_string())));
    assert_eq!(plan.steps, vec![IntegerStep::Round("1000.0".to_string())]);
    let plan = integer_plan("[1]", Some(&JsonValue::Array(vec![])));
    assert_eq!(plan.steps, vec![IntegerStep::Round("[1]".to_string())]);
}
