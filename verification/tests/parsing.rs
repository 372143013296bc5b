use jval::ErrorKind;
use jval::Json;
use jval::Span;

fn number_value(j: &Json) -> f64 {
    match j {
        Json::Number(t) => t.parse::<f64>().unwrap(),
        other => panic!("expected a number, got {:?}", other),
    }
}

#[test]
fn null() {
    assert_eq!("null".parse::<Json>().unwrap(), Json::Null);
}

#[test]
fn true_keyword() {
    assert_eq!("true".parse::<Json>().unwrap(), Json::Boolean(true));
}

#[test]
fn false_keyword() {
    assert_eq!("false".parse::<Json>().unwrap(), Json::Boolean(false));
}

#[test]
fn numbers() {
    assert_eq!(number_value(&"0".parse::<Json>().unwrap()), 0.);
    assert_eq!(number_value(&" 6 ".parse::<Json>().unwrap()), 6.);
    assert_eq!(number_value(&"-3.5".parse::<Json>().unwrap()), -3.5);
    assert_eq!(number_value(&"6.626E-34".parse::<Json>().unwrap()), 6.626e-34);
}

#[test]
fn array() {
    assert_eq!(
        "[false, 3, \"hello\", {}]".parse::<Json>().unwrap(),
        Json::Array(vec![
            Json::Boolean(false),
            Json::Number("3".to_string()),
            Json::String("hello".into()),
            Json::Object(Vec::new()),
        ])
    );
}

#[test]
fn object() {
    // entries come back with their keys sorted
    assert_eq!(
        r#"{"three": 3, "null": null, "string": "foo bar baz"}"#
            .parse::<Json>()
            .unwrap(),
        Json::Object(vec![
            ("null".into(), Json::Null),
            ("string".into(), Json::String("foo bar baz".into())),
            ("three".into(), Json::Number("3".to_string())),
        ])
    );
}

#[test]
fn json_reject_invalid() {
    assert!("[".parse::<Json>().is_err());
    assert!("]".parse::<Json>().is_err());
    assert!("{".parse::<Json>().is_err());
    assert!("}".parse::<Json>().is_err());
    assert!("[ ,]".parse::<Json>().is_err());
    assert!("{ , }".parse::<Json>().is_err());
    // trailing commas
    assert!("[null, true, \"wow\",]".parse::<Json>().is_err());
    assert!(r#"{ "yes": null, "no": true, "wow": 333, }"#.parse::<Json>().is_err());

    // un-quoted keys
    assert!("{ yes: null, no: true, wow: 333 }".parse::<Json>().is_err());
}

#[test]
fn trailing_comma_kind_in_object() {
    let errs = r#"{"a": 1,}"#.parse::<Json>().unwrap_err();
    assert!(errs.iter().any(|e| e.0 == ErrorKind::TrailingComma));
}

#[test]
fn trailing_comma_in_array_is_unexpected_token() {
    let errs = "[null, true, \"wow\",]".parse::<Json>().unwrap_err();
    assert!(errs.iter().any(|e| e.0 == ErrorKind::UnexpectedToken));
}

#[test]
fn error_ranges_lie_within_the_input() {
    let errs = "]".parse::<Json>().unwrap_err();
    assert_eq!(errs.len(), 1);
    assert_eq!(errs[0].0, ErrorKind::UnexpectedToken);
    assert_eq!(errs[0].1, Span { start: 0, end: 1 });
}

#[test]
fn error_ranges_are_byte_offsets() {
    // a two-byte character before the malformed region shifts the range by
    // two bytes, not one
    let errs = "[\u{e9}]".parse::<Json>().unwrap_err();
    assert_eq!(errs.len(), 1);
    assert_eq!(errs[0].0, ErrorKind::InvalidNumber);
    assert_eq!(errs[0].1, Span { start: 1, end: 4 });
}

#[test]
fn several_independent_errors_are_all_reported() {
    let errs = "[ ,] [ ,]".parse::<Json>().unwrap_err();
    assert_eq!(errs.len(), 2);
    assert_eq!(errs[0].0, ErrorKind::UnexpectedToken);
    assert_eq!(errs[1].0, ErrorKind::UnexpectedToken);
    // errors come in input order, left to right
    assert!(errs[0].1.end <= errs[1].1.start);
}

#[test]
fn unterminated_array_and_object() {
    let errs = "[1".parse::<Json>().unwrap_err();
    assert!(errs.iter().any(|e| e.0 == ErrorKind::UnterminatedArray));
    let errs = r#"{"a": 1"#.parse::<Json>().unwrap_err();
    assert!(errs.iter().any(|e| e.0 == ErrorKind::UnterminatedObject));
}

#[test]
fn unterminated_string_and_bad_unicode() {
    let errs = "\"abc".parse::<Json>().unwrap_err();
    assert!(errs.iter().any(|e| e.0 == ErrorKind::UnterminatedString));
    let errs = "\"\\uD800\"".parse::<Json>().unwrap_err();
    assert!(errs.iter().any(|e| e.0 == ErrorKind::InvalidUnicode));
    let errs = "\"\\u12x4\"".parse::<Json>().unwrap_err();
    assert!(errs.iter().any(|e| e.0 == ErrorKind::InvalidUnicode));
}

#[test]
fn number_rejection_set_is_invalid_number() {
    for bad in ["+3", "03.2", "-01", ".5", "5.", "e123", "2.78E", "3e-", "--5", "5.e3"] {
        let errs = bad.parse::<Json>().unwrap_err();
        assert!(
            errs.iter().any(|e| e.0 == ErrorKind::InvalidNumber),
            "{} should fail as an invalid number",
            bad
        );
    }
}

#[test]
fn later_key_replaces_earlier_equal_key() {
    assert_eq!(
        r#"{"a": 1, "a": 2}"#.parse::<Json>().unwrap(),
        Json::Object(vec![("a".into(), Json::Number("2".to_string()))])
    );
}

#[test]
fn escaped_quote_decodes_into_the_string() {
    assert_eq!(
        "\"a\\\"b\"".parse::<Json>().unwrap(),
        Json::String("a\"b".into())
    );
}

#[test]
fn zero_and_multiple_top_level_values_are_rejected() {
    assert!("".parse::<Json>().is_err());
    assert!("   ".parse::<Json>().is_err());
    assert!("1 2".parse::<Json>().is_err());
}
