use datacartridge::adapter::detect_data_media_urns;

#[test]
fn test0001_json_object_emits_record_then_bare() {
    let urns = detect_data_media_urns(br#"{"key": "value"}"#, "json");
    assert_eq!(
        urns,
        vec![
            "media:ext=json;fmt=json;record".to_string(),
            "media:ext=json;fmt=json".to_string(),
        ]
    );
}

#[test]
fn test0002_json_array_of_objects_emits_full_tier() {
    let urns = detect_data_media_urns(br#"[{"a": 1}]"#, "json");
    assert_eq!(
        urns,
        vec![
            "media:ext=json;fmt=json;list;record".to_string(),
            "media:ext=json;fmt=json;list".to_string(),
            "media:ext=json;fmt=json".to_string(),
        ]
    );
}

#[test]
fn test0003_json_array_of_scalars_has_no_record_narrowing() {
    let urns = detect_data_media_urns(b"[1, 2, 3]", "json");
    assert_eq!(
        urns,
        vec![
            "media:ext=json;fmt=json;list".to_string(),
            "media:ext=json;fmt=json".to_string(),
        ]
    );
    assert!(
        !urns.iter().any(|u| u.contains(";record")),
        "list-of-scalars JSON has no record marker — emitting one \
         would claim the items are record-shaped when they aren't"
    );
}

#[test]
fn test0004_csv_is_single_canonical_urn() {
    let urns = detect_data_media_urns(b"a,b,c\n1,2,3", "csv");
    assert_eq!(urns, vec!["media:ext=csv;fmt=csv;list;record".to_string()]);
    assert_eq!(urns.len(), 1, "CSV emits a single URN, not duplicates");
}

#[test]
fn test0005_csv_single_column_same_urn_as_multi() {
    let single = detect_data_media_urns(b"a\n1\n2", "csv");
    let multi = detect_data_media_urns(b"a,b\n1,2\n3,4", "csv");
    assert_eq!(single, multi);
    assert_eq!(single, vec!["media:ext=csv;fmt=csv;list;record".to_string()]);
}

#[test]
fn test0006_tsv_emits_canonical_catalog_urn() {
    let urns = detect_data_media_urns(b"a\tb\n1\t2", "tsv");
    assert_eq!(urns, vec!["media:ext=tsv;fmt=tsv;list;record".to_string()]);
}

#[test]
fn test0007_psv_emits_canonical_catalog_urn() {
    let urns = detect_data_media_urns(b"a|b\n1|2", "psv");
    assert_eq!(urns, vec!["media:ext=psv;fmt=psv;list;record".to_string()]);
}

#[test]
fn test0008_yaml_mapping_emits_record_then_bare() {
    let urns = detect_data_media_urns(b"key: value\nother: data", "yaml");
    assert_eq!(
        urns,
        vec![
            "media:ext=yaml;fmt=yaml;record".to_string(),
            "media:ext=yaml;fmt=yaml".to_string(),
        ]
    );
}

#[test]
fn test0009_yaml_sequence_of_mappings_full_tier() {
    let urns = detect_data_media_urns(b"- name: a\n  v: 1\n- name: b\n  v: 2", "yaml");
    assert_eq!(
        urns,
        vec![
            "media:ext=yaml;fmt=yaml;list;record".to_string(),
            "media:ext=yaml;fmt=yaml;list".to_string(),
            "media:ext=yaml;fmt=yaml".to_string(),
        ]
    );
}

#[test]
fn test0010_toml_is_single_canonical_urn() {
    let urns = detect_data_media_urns(b"key = \"value\"", "toml");
    assert_eq!(urns, vec!["media:enc=utf-8;ext=toml".to_string()]);
    assert_eq!(urns.len(), 1, "TOML emits a single URN, not duplicates");
}

#[test]
fn test0011_binary_returns_empty() {
    let urns = detect_data_media_urns(&[0xFF, 0xFE, 0x00], "json");
    assert!(urns.is_empty());
}

#[test]
fn test0012_unknown_extension_returns_empty() {
    let urns = detect_data_media_urns(b"some text", "xyz");
    assert!(urns.is_empty());
}

#[test]
fn test0013_every_emitted_urn_is_in_catalog_form() {
    let mut emitted = std::collections::BTreeSet::new();
    for (bytes, ext) in [
        (br#"{"a":1}"# as &[u8], "json"),
        (br#"[{"a":1}]"# as &[u8], "json"),
        (br#"[1,2,3]"# as &[u8], "json"),
        (br#"42"# as &[u8], "json"),
        (br#"{"a":1}"# as &[u8], "ndjson"),
        (br#"42"# as &[u8], "ndjson"),
        (b"a,b\n1,2" as &[u8], "csv"),
        (b"a\tb\n1\t2" as &[u8], "tsv"),
        (b"a|b\n1|2" as &[u8], "psv"),
        (b"key: v\nother: d" as &[u8], "yaml"),
        (b"- a\n- b" as &[u8], "yaml"),
        (b"- name: a\n- name: b" as &[u8], "yaml"),
        (b"---\nkey: v\n---\nkey: v2" as &[u8], "yaml"),
        (b"<root><a/><b/><c/></root>" as &[u8], "xml"),
        (b"<root attr=\"v\"/>" as &[u8], "xml"),
        (b"<x/>" as &[u8], "xml"),
        (b"key = \"v\"" as &[u8], "toml"),
    ] {
        for u in detect_data_media_urns(bytes, ext) {
            emitted.insert(u);
        }
    }

    let allowed: std::collections::BTreeSet<String> = [
        "media:ext=json;fmt=json",
        "media:ext=json;fmt=json;list",
        "media:ext=json;fmt=json;record",
        "media:ext=json;fmt=json;list;record",
        "media:ext=ndjson;fmt=ndjson",
        "media:ext=ndjson;fmt=ndjson;list",
        "media:ext=ndjson;fmt=ndjson;list;record",
        "media:ext=csv;fmt=csv;list;record",
        "media:ext=tsv;fmt=tsv;list;record",
        "media:ext=psv;fmt=psv;list;record",
        "media:ext=yaml;fmt=yaml",
        "media:ext=yaml;fmt=yaml;list",
        "media:ext=yaml;fmt=yaml;record",
        "media:ext=yaml;fmt=yaml;list;record",
        "media:ext=xml;fmt=xml",
        "media:ext=xml;fmt=xml;record",
        "media:ext=xml;fmt=xml;list;record",
        "media:enc=utf-8;ext=toml",
    ]
    .iter()
    .map(|s| s.to_string())
    .collect();

    let stray: Vec<&String> = emitted.difference(&allowed).collect();
    assert!(
        stray.is_empty(),
        "datacartridge adapter emitted URNs not in the catalog allow-list: \
         {:?}\n— either add them to the dim catalogue (and verify they \
         publish) or fix the adapter to emit only catalog-published forms",
        stray
    );
}
