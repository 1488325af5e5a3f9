use datacartridge::json::JsonValue;
use datacartridge::judgment::{
    check_label, check_summary, check_target, check_verdict, decision_bit, decision_bits, parse_label_set, parse_scale,
    parse_target_set, verify_quotes_grounded, LabelSetError, ReplyError, ScaleError, TargetSetError,
};
use serde_json::Value;

/// The library value for a `serde_json` value, members in `serde_json`'s
/// own (sorted) order.
fn from_serde(v: &Value) -> JsonValue {
    match v {
        Value::Null => JsonValue::Null,
        Value::Bool(b) => JsonValue::Bool(*b),
        Value::Number(n) => JsonValue::Number(n.to_string()),
        Value::String(s) => JsonValue::String(s.clone()),
        Value::Array(items) => JsonValue::Array(items.iter().map(from_serde).collect()),
        Value::Object(members) => {
            JsonValue::Object(members.iter().map(|(k, v)| (k.clone(), from_serde(v))).collect())
        }
    }
}

fn targets(text: &str) -> Option<Vec<(String, String)>> {
    let value: Value = serde_json::from_str(text).ok()?;
    parse_target_set(&from_serde(&value)).ok()
}

#[test]
fn test0293b_parse_label_set_strict() {
    assert_eq!(
        parse_label_set("urgent, billing,spam").ok().unwrap(),
        vec!["urgent", "billing", "spam"]
    );
    assert_eq!(parse_label_set("a\nb\nc").ok().unwrap(), vec!["a", "b", "c"]);
    assert!(parse_label_set("only-one").is_err(), "one label is not a classification");
    assert!(parse_label_set("a, a, b").is_err(), "duplicates rejected");
    assert!(parse_label_set("  ,  ,  ").is_err(), "empties rejected");
    let many = (0..65).map(|i| format!("l{i}")).collect::<Vec<_>>().join(",");
    assert!(parse_label_set(&many).is_err(), "more than 64 labels rejected");
}

#[test]
fn test0297_parse_scale_strict() {
    assert_eq!(parse_scale("0..10").ok().unwrap(), (0, 10));
    assert_eq!(parse_scale(" -5 .. 5 ").ok().unwrap(), (-5, 5));
    assert!(parse_scale("10..0").is_err(), "backwards scale rejected");
    assert!(parse_scale("5..5").is_err(), "empty scale rejected");
    assert!(parse_scale("0-10").is_err(), "wrong separator rejected");
    assert!(parse_scale("a..b").is_err());
}

#[test]
fn test0298_parse_target_set_strict() {
    let found = targets(
        r#"{"triage": "bug reports needing owner assignment", "archive": "resolved threads"}"#,
    )
    .unwrap();
    assert_eq!(found.len(), 2);
    assert_eq!(found[0].0, "archive");
    assert_eq!(found[1].0, "triage");
    assert!(targets(r#"{"only": "one target"}"#).is_none());
    assert!(targets(r#"{"a": "", "b": "x"}"#).is_none(), "empty description rejected");
    assert!(targets(r#"["a", "b"]"#).is_none(), "arrays rejected");
    assert!(targets("not json").is_none());
}

#[test]
fn test0299_verify_quotes_grounded() {
    let content = "The deploy failed at 12:03.\nRoot cause: expired TLS certificate\non the registry mirror.";
    let ok = from_serde(&serde_json::from_str(r#"["expired TLS certificate on the registry mirror"]"#).unwrap());
    assert!(verify_quotes_grounded(content, &ok, "ask").is_ok(), "wrapped quote must ground");

    let fabricated = from_serde(&serde_json::from_str(r#"["the database was down"]"#).unwrap());
    let err = verify_quotes_grounded(content, &fabricated, "ask").err().unwrap();
    assert!(err.message().contains("fabricated"), "got: {}", err.message());

    let empty = from_serde(&serde_json::from_str(r#"[""]"#).unwrap());
    assert!(verify_quotes_grounded(content, &empty, "ask").is_err());

    let not_array = JsonValue::String("quote".to_string());
    assert!(verify_quotes_grounded(content, &not_array, "ask").is_err());
}

#[test]
fn label_set_reports_the_offending_count_and_label() {
    assert!(matches!(parse_label_set("x"), Err(LabelSetError::Count(1))));
    assert_eq!(
        parse_label_set("x").err().unwrap().message(),
        "--labels must list 2..=64 labels (comma- or newline-separated), got 1"
    );
    match parse_label_set("a, b, a") {
        Err(LabelSetError::Duplicate(l)) => assert_eq!(l, "a"),
        _ => panic!("expected a duplicate"),
    }
}

#[test]
fn scale_reports_which_side_is_wrong() {
    match parse_scale("0-10") {
        Err(e @ ScaleError::NoSeparator(_)) => {
            assert_eq!(e.message(), "--scale must be 'min..max' (e.g. 0..10), got '0-10'");
        }
        _ => panic!("expected no separator"),
    }
    assert_eq!(
        parse_scale(" 7..-3").err().unwrap().message(),
        "--scale must satisfy min < max, got 7..-3"
    );
    match parse_scale("a..3") {
        Err(ScaleError::BadMin(s)) => assert_eq!(s, "a"),
        _ => panic!("expected a bad minimum"),
    }
    match parse_scale("3..b") {
        Err(ScaleError::BadMax(s)) => assert_eq!(s, "b"),
        _ => panic!("expected a bad maximum"),
    }
    assert!(matches!(parse_scale("4..4"), Err(ScaleError::NotIncreasing(4, 4))));
}

#[test]
fn target_set_errors_and_messages() {
    let one = from_serde(&serde_json::from_str(r#"{"only": "one target"}"#).unwrap());
    let err = parse_target_set(&one).err().unwrap();
    assert!(matches!(err, TargetSetError::Count(1)));
    assert_eq!(err.message(), "--targets must define 2..=64 targets, got 1");
    let blank = from_serde(&serde_json::from_str(r#"{" a ": "", "b": "x"}"#).unwrap());
    assert_eq!(
        parse_target_set(&blank).err().unwrap().message(),
        "--targets entries need a non-empty name and description (offending name: 'a')"
    );
    assert!(matches!(parse_target_set(&JsonValue::Null), Err(TargetSetError::NotObject)));
}

#[test]
fn quote_errors_name_the_quote() {
    let content = "alpha beta";
    let q = from_serde(&serde_json::from_str(r#"["beta", 3]"#).unwrap());
    assert_eq!(
        verify_quotes_grounded(content, &q, "explain").err().unwrap().message(),
        "explain: quote 1 is not a string"
    );
    let q = from_serde(&serde_json::from_str(r#"["  "]"#).unwrap());
    assert_eq!(verify_quotes_grounded(content, &q, "ask").err().unwrap().message(), "ask: quote 0 is empty");
    assert_eq!(
        verify_quotes_grounded(content, &JsonValue::Null, "ask").err().unwrap().message(),
        "ask: quotes field is not an array"
    );
}

#[test]
fn every_stretch_of_the_content_grounds() {
    let content = "alpha  beta\tgamma\n\n delta ";
    let chars: Vec<char> = content.chars().collect();
    for a in 0..chars.len() {
        for b in a..=chars.len() {
            let stretch: String = chars[a..b].iter().collect();
            if stretch.chars().all(char::is_whitespace) {
                continue;
            }
            let quotes = JsonValue::Array(vec![JsonValue::String(stretch.clone())]);
            assert!(verify_quotes_grounded(content, &quotes, "ask").is_ok(), "{stretch:?} must ground");
        }
    }
}

fn member(name: &str, desc: &str) -> (String, JsonValue) {
    (name.to_string(), JsonValue::String(desc.to_string()))
}

#[test]
fn target_set_is_ordered_by_name_whatever_the_member_order() {
    let value = JsonValue::Object(vec![
        member("triage", " bug reports needing owner assignment "),
        member("escalate", "pages the on-call"),
        member("archive", "resolved threads"),
    ]);
    assert_eq!(
        parse_target_set(&value).ok().unwrap(),
        vec![
            ("archive".to_string(), "resolved threads".to_string()),
            ("escalate".to_string(), "pages the on-call".to_string()),
            ("triage".to_string(), "bug reports needing owner assignment".to_string()),
        ]
    );
    let bad = JsonValue::Object(vec![member("zeta", ""), member("beta", "")]);
    match parse_target_set(&bad) {
        Err(TargetSetError::EmptyEntry(name)) => assert_eq!(name, "beta"),
        _ => panic!("expected an empty entry"),
    }
}

fn reply(text: &str) -> JsonValue {
    from_serde(&serde_json::from_str::<Value>(text).unwrap())
}

#[test]
fn decisions_must_be_bits_and_match_the_questions() {
    assert_eq!(decision_bit(1), Ok(true));
    assert_eq!(decision_bit(0), Ok(false));
    let err = decision_bit(2).err().unwrap();
    assert_eq!(err, ReplyError::NotABit(2));
    assert_eq!(err.message(), "Bit choice value must be 0 or 1, got: 2");
    assert_eq!(decision_bit(-1).err().unwrap().message(), "Bit choice value must be 0 or 1, got: -1");

    assert_eq!(decision_bits(&vec![1, 0, 1], 3), Ok(vec![true, false, true]));
    let err = decision_bits(&vec![1, 0], 3).err().unwrap();
    assert_eq!(err, ReplyError::DecisionCount(3, 2));
    assert_eq!(err.message(), "Expected 3 Make Decision results but got 2");
    let err = decision_bits(&vec![1, 5], 2).err().unwrap();
    assert_eq!(err, ReplyError::NotBits);
    assert_eq!(err.message(), "Bit choices values must be 0 or 1");
    assert_eq!(decision_bits(&vec![], 0), Ok(vec![]));
}

#[test]
fn classification_and_routing_stay_in_their_sets() {
    let labels = vec!["bug".to_string(), "question".to_string()];
    assert_eq!(check_label(&reply(r#"{"label": "bug", "confidence": 0.9}"#), &labels), Ok("bug".to_string()));
    let err = check_label(&reply(r#"{"label": "spam"}"#), &labels).err().unwrap();
    assert_eq!(
        err.message(),
        "classify produced label 'spam' outside the allowed set [\"bug\", \"question\"] — constraint regression"
    );
    let err = check_label(&reply(r#"{"confidence": 1}"#), &labels).err().unwrap();
    assert_eq!(err, ReplyError::LabelOutside(String::new(), labels.clone()));
    let names = vec!["archive".to_string()];
    assert_eq!(check_target(&reply(r#"{"target": "archive"}"#), &names), Ok("archive".to_string()));
    assert_eq!(
        check_target(&reply(r#"{"target": 3}"#), &names).err().unwrap().message(),
        "route produced target '' outside the allowed set [\"archive\"] — constraint regression"
    );
}

#[test]
fn summaries_must_not_be_blank_and_verdicts_must_agree() {
    assert_eq!(check_summary(&reply(r#"{"summary": " It works. "}"#)), Ok(" It works. ".to_string()));
    let err = check_summary(&reply(r#"{"summary": "  ", "reason": "nothing to say"}"#)).err().unwrap();
    assert_eq!(err.message(), "summarize produced an empty summary — reason: nothing to say");
    let err = check_summary(&reply(r#"{}"#)).err().unwrap();
    assert_eq!(err, ReplyError::EmptySummary(None));
    assert_eq!(err.message(), "summarize produced an empty summary — reason: <none>");

    assert_eq!(check_verdict(&reply(r#"{"pass": true, "violations": []}"#)), Ok(()));
    assert_eq!(check_verdict(&reply(r#"{"pass": false, "violations": ["missing tests"]}"#)), Ok(()));
    let err = check_verdict(&reply(r#"{"pass": true, "violations": ["a", "b"]}"#)).err().unwrap();
    assert_eq!(err, ReplyError::Inconsistent(true, 2));
    assert_eq!(err.message(), "verify produced an inconsistent judgment: pass=true with 2 violation(s)");
    assert_eq!(
        check_verdict(&reply(r#"{"violations": []}"#)).err().unwrap().message(),
        "verify produced an inconsistent judgment: pass=false with 0 violation(s)"
    );
}
