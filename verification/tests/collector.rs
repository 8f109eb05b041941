use struct_deserialize::validator::StructValidator;

fn msg(c: &StructValidator, key: &str) -> String {
    c.get(key).expect("key should be present").clone()
}

#[test]
fn new_collector_is_empty() {
    let c = StructValidator::new();
    assert!(c.is_empty());
    assert_eq!(c.len(), 0);
    assert!(!c.contains("anything"));
}

#[test]
fn insert_records_message() {
    let mut c = StructValidator::new();
    c.insert("name", "boom");
    assert!(!c.is_empty());
    assert!(c.contains("name"));
    assert_eq!(msg(&c, "name"), "boom");
    assert_eq!(c.len(), 1);
}

#[test]
fn insert_truncates_positional_suffix() {
    let mut c = StructValidator::new();
    c.insert("age", "invalid digit found in string at line 3 column 7");
    assert_eq!(msg(&c, "age"), "invalid digit found in string");
}

#[test]
fn insert_same_key_twice_keeps_second() {
    let mut c = StructValidator::new();
    c.insert("field", "first message");
    c.insert("field", "second message");
    assert_eq!(c.len(), 1);
    assert_eq!(msg(&c, "field"), "second message");
}

#[test]
fn builder_style_with_and_with_result() {
    let c = StructValidator::new()
        .with("a", "bad a")
        .with_result::<i32>("b", Ok(1))
        .with_result::<i32>("c", Err("bad c".to_string()));
    assert!(c.contains("a"));
    assert!(!c.contains("b"));
    assert!(c.contains("c"));
    assert_eq!(msg(&c, "c"), "bad c");
    assert_eq!(c.len(), 2);
}

#[test]
fn custom_uses_reserved_key() {
    let c = StructValidator::custom("something odd");
    assert_eq!(c.len(), 1);
    assert_eq!(msg(&c, "unknown"), "something odd");
}

#[test]
fn merge_unions_and_overwrites() {
    let mut c1 = StructValidator::new();
    c1.insert("a", "1");
    c1.insert("b", "2");
    let mut c2 = StructValidator::new();
    c2.insert("b", "3");
    c2.insert("c", "4");
    c1.merge(&c2);
    assert_eq!(c1.len(), 3);
    assert_eq!(msg(&c1, "a"), "1");
    assert_eq!(msg(&c1, "b"), "3");
    assert_eq!(msg(&c1, "c"), "4");
}

#[test]
fn collect_errors_keeps_only_failures() {
    let c1 = StructValidator::new().with("x", "bad x");
    let c2 = StructValidator::new().with("y", "bad y").with("x", "worse x");
    let results: Vec<Result<i32, StructValidator>> =
        vec![Ok(5), Err(c1), Ok(6), Err(c2)];
    let merged = struct_deserialize::validator::collect_errors(&results);
    assert_eq!(merged.len(), 2);
    assert_eq!(msg(&merged, "x"), "worse x");
    assert_eq!(msg(&merged, "y"), "bad y");
}

#[test]
fn collect_errors_of_successes_is_empty() {
    let results: Vec<Result<i32, StructValidator>> = vec![Ok(1), Ok(2)];
    let merged = struct_deserialize::validator::collect_errors(&results);
    assert!(merged.is_empty());
}

#[test]
fn serializes_example_payload() {
    let mut c = StructValidator::new();
    c.insert("name", "field is missing");
    c.insert("age", "invalid digit found in string");
    assert_eq!(
        c.to_json_string(),
        "{\"name\":\"field is missing\",\"age\":\"invalid digit found in string\"}"
    );
}

#[test]
fn serializes_empty_collector() {
    let c = StructValidator::new();
    assert_eq!(c.to_json_string(), "{}");
}

#[test]
fn serializes_with_escapes() {
    let mut c = StructValidator::new();
    c.insert("q", "say \"hi\" \\ then\nstop");
    assert_eq!(
        c.to_json_string(),
        "{\"q\":\"say \\\"hi\\\" \\\\ then\\u000astop\"}"
    );
}

#[test]
fn round_trip_restores_collector() {
    let mut c = StructValidator::new();
    c.insert("name", "field is missing");
    c.insert("age", "invalid digit found in string");
    c.insert("note", "tab\there \"quoted\" back\\slash\nnewline");
    let text = c.to_json_string();
    let back = StructValidator::from_json_string(&text).expect("payload should parse");
    assert_eq!(back, c);
}

#[test]
fn round_trip_empty_collector() {
    let c = StructValidator::new();
    let back = StructValidator::from_json_string(&c.to_json_string()).expect("should parse");
    assert_eq!(back, c);
    assert!(back.is_empty());
}

#[test]
fn deserialize_truncates_wrapped_text() {
    let back = StructValidator::from_json_string("{\"a\":\"x\"} at line 5 column 2")
        .expect("wrapped payload should parse after truncation");
    assert_eq!(back.len(), 1);
    assert_eq!(msg(&back, "a"), "x");
}

#[test]
fn deserialize_rejects_malformed_text() {
    assert!(StructValidator::from_json_string("not json").is_err());
    assert!(StructValidator::from_json_string("[1,2]").is_err());
    assert!(StructValidator::from_json_string("{\"a\":1}").is_err());
    assert!(StructValidator::from_json_string("{\"a\":\"x\"").is_err());
    assert!(StructValidator::from_json_string("{\"a\":\"x\"}junk").is_err());
    assert!(StructValidator::from_json_string("").is_err());
}

#[test]
fn deserialize_duplicate_key_keeps_later() {
    let back = StructValidator::from_json_string("{\"a\":\"1\",\"a\":\"2\"}")
        .expect("should parse");
    assert_eq!(back.len(), 1);
    assert_eq!(msg(&back, "a"), "2");
}

#[test]
fn deserialize_short_escapes() {
    let back = StructValidator::from_json_string("{\"a\":\"x\\ny\\t\\\"z\\\\\"}")
        .expect("should parse");
    assert_eq!(msg(&back, "a"), "x\ny\t\"z\\");
}
