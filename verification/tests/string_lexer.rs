use jval::try_get_string;
use jval::Token;

#[test]
fn basic() {
    assert_eq!(
        try_get_string("\"foobar\"").unwrap().0 .0,
        Token::StringLiteral("foobar".to_string())
    );
}

#[test]
fn spaces() {
    assert_eq!(
        try_get_string("\"this is a string with spaces\"").unwrap().0 .0,
        Token::StringLiteral("this is a string with spaces".to_string())
    );
}

#[test]
fn control_chars() {
    assert_eq!(
        try_get_string(
            "\"i \\n have \\b every \\t control \\r character \\f type \\u1234 inside \\\\ me!\""
        )
        .unwrap()
        .0
         .0,
        Token::StringLiteral(
            "i \n have \u{8} every \t control \r character \u{c} type \u{1234} inside \\ me!"
                .to_string()
        )
    );
}

#[test]
fn string_trailing_content() {
    let input = "\"foo\" bar baz ok there is more stuff here after the closing quote";
    let ((tok, len, rem), rest) = try_get_string(input).unwrap();
    assert_eq!(tok, Token::StringLiteral("foo".to_string()));
    // the token covers "foo" with both quotes
    assert_eq!(&input[..len], "\"foo\"");
    assert_eq!(rem, input.len());
    assert_eq!(rest, " bar baz ok there is more stuff here after the closing quote");
}

#[test]
fn unterminated_and_bad_escapes() {
    assert!(try_get_string("\"foobar").is_err());
    assert!(try_get_string("\"a\\uD800b\"").is_err());
    assert!(try_get_string("\"a\\u12x4\"").is_err());
}
