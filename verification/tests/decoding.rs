use struct_deserialize::decoder::AggregatingDecoder;
use struct_deserialize::decoder::DecodeFailure;
use struct_deserialize::decoder::FieldDesc;
use struct_deserialize::decoder::FieldKind;
use struct_deserialize::decoder::FieldValue;
use struct_deserialize::decoder::Input;
use struct_deserialize::validator::StructValidator;

fn user_decoder() -> AggregatingDecoder {
    AggregatingDecoder::new(
        "User".to_string(),
        "a user record".to_string(),
        vec![
            FieldDesc { name: "id".to_string(), kind: FieldKind::Integer },
            FieldDesc { name: "name".to_string(), kind: FieldKind::Text },
        ],
    )
}

fn object(pairs: &[(&str, &str)]) -> Input {
    Input::Object(
        pairs.iter().map(|(k, v)| (k.to_string(), v.to_string())).collect(),
    )
}

fn failure_of(r: Result<Vec<FieldValue>, DecodeFailure>) -> StructValidator {
    match r {
        Err(DecodeFailure::Fields(c)) => c,
        other => panic!("expected an aggregated field failure, got {:?}", other),
    }
}

#[test]
fn success_shape() {
    let d = user_decoder();
    let r = d.decode(&object(&[("id", "7"), ("name", "alice")]));
    assert_eq!(
        r,
        Ok(vec![FieldValue::Integer(7), FieldValue::Text("alice".to_string())])
    );
}

#[test]
fn aggregation_completeness_three_faults() {
    let d = AggregatingDecoder::new(
        "Triple".to_string(),
        "three required fields".to_string(),
        vec![
            FieldDesc { name: "a".to_string(), kind: FieldKind::Integer },
            FieldDesc { name: "b".to_string(), kind: FieldKind::Text },
            FieldDesc { name: "c".to_string(), kind: FieldKind::Integer },
        ],
    );
    let c = failure_of(d.decode(&object(&[("a", "xyz")])));
    assert_eq!(c.len(), 3);
    assert_eq!(c.get("a").unwrap().as_str(), "invalid digit found in string");
    assert_eq!(c.get("b").unwrap().as_str(), "field is missing");
    assert_eq!(c.get("c").unwrap().as_str(), "field is missing");
}

#[test]
fn unknown_fields_are_tolerated() {
    let d = user_decoder();
    let with_extras = d.decode(&object(&[
        ("color", "green"),
        ("id", "7"),
        ("shape", "xyz"),
        ("name", "alice"),
        ("weight", "12kg"),
    ]));
    let without = d.decode(&object(&[("id", "7"), ("name", "alice")]));
    assert!(with_extras.is_ok());
    assert_eq!(with_extras, without);
}

#[test]
fn decode_failure_beats_missing() {
    let d = user_decoder();
    let c = failure_of(d.decode(&object(&[("id", "seven"), ("name", "alice")])));
    assert_eq!(c.len(), 1);
    assert_eq!(c.get("id").unwrap().as_str(), "invalid digit found in string");
    assert_ne!(c.get("id").unwrap().as_str(), "field is missing");
}

#[test]
fn last_value_wins_on_repeated_key() {
    let d = user_decoder();
    let r = d.decode(&object(&[("id", "1"), ("id", "2"), ("name", "x")]));
    assert_eq!(
        r,
        Ok(vec![FieldValue::Integer(2), FieldValue::Text("x".to_string())])
    );
}

#[test]
fn scalar_input_fails_structurally() {
    let d = user_decoder();
    match d.decode(&Input::Scalar("5".to_string())) {
        Err(DecodeFailure::Malformed(m)) => {
            assert_eq!(m, "expecting object User (a user record)");
        },
        other => panic!("expected a structural failure, got {:?}", other),
    }
}

#[test]
fn missing_everything_reports_every_field() {
    let d = user_decoder();
    let c = failure_of(d.decode(&object(&[])));
    assert_eq!(c.len(), 2);
    assert_eq!(c.get("id").unwrap().as_str(), "field is missing");
    assert_eq!(c.get("name").unwrap().as_str(), "field is missing");
}

#[test]
fn integer_bounds_decode_exactly() {
    let d = user_decoder();
    let r = d.decode(&object(&[("id", "9223372036854775807"), ("name", "x")]));
    assert_eq!(
        r,
        Ok(vec![FieldValue::Integer(i64::MAX), FieldValue::Text("x".to_string())])
    );
    let r = d.decode(&object(&[("id", "-9223372036854775808"), ("name", "x")]));
    assert_eq!(
        r,
        Ok(vec![FieldValue::Integer(i64::MIN), FieldValue::Text("x".to_string())])
    );
}

#[test]
fn integer_overflow_is_reported() {
    let d = user_decoder();
    let c = failure_of(d.decode(&object(&[
        ("id", "9223372036854775808"),
        ("name", "x"),
    ])));
    assert_eq!(c.get("id").unwrap().as_str(), "number too large to fit in target type");
    let c = failure_of(d.decode(&object(&[
        ("id", "99999999999999999999999999999"),
        ("name", "x"),
    ])));
    assert_eq!(c.get("id").unwrap().as_str(), "number too large to fit in target type");
}

#[test]
fn negative_integer_decodes() {
    let d = user_decoder();
    let r = d.decode(&object(&[("id", "-42"), ("name", "neg")]));
    assert_eq!(
        r,
        Ok(vec![FieldValue::Integer(-42), FieldValue::Text("neg".to_string())])
    );
}

#[test]
fn failure_payload_round_trips_as_json() {
    let d = user_decoder();
    let c = failure_of(d.decode(&object(&[("id", "seven")])));
    let text = c.to_json_string();
    let back = StructValidator::from_json_string(&text).expect("payload should parse");
    assert_eq!(back, c);
    assert_eq!(back.get("id").unwrap().as_str(), "invalid digit found in string");
    assert_eq!(back.get("name").unwrap().as_str(), "field is missing");
}

#[test]
fn decode_failure_message_is_truncated() {
    let d = AggregatingDecoder::new(
        "T".to_string(),
        "t".to_string(),
        vec![FieldDesc { name: "a".to_string(), kind: FieldKind::Integer }],
    );
    // The integer decoder's own messages carry no positional suffix, so
    // feed one through the collector directly to pin the rule down.
    let mut c = failure_of(d.decode(&object(&[("a", "oops")])));
    c.insert("a", "broken at line 9");
    assert_eq!(c.get("a").unwrap().as_str(), "broken");
}
