use jval::try_get_number;
use jval::Token;

fn lexed_value(s: &str) -> f64 {
    match try_get_number(s).unwrap().0 .0 {
        Token::NumberLiteral(t) => t.parse::<f64>().unwrap(),
        other => panic!("expected a number token, got {:?}", other),
    }
}

#[test]
fn integer() {
    assert_eq!(lexed_value("12345"), 12345.);
}

#[test]
fn signed_int() {
    assert_eq!(lexed_value("98765"), 98765.);
    assert_eq!(lexed_value("-98765"), -98765.);
}

#[test]
fn only_fract() {
    assert_eq!(lexed_value("0.111"), 0.111);
}

#[test]
fn signed_only_fract() {
    assert_eq!(lexed_value("-0.9"), -0.9);
}

#[test]
fn int_fract() {
    assert_eq!(lexed_value("3.14159"), 3.14159);
}

#[test]
fn signed_int_fract() {
    assert_eq!(lexed_value("444"), 444.);
    assert_eq!(lexed_value("-444.55555678"), -444.55555678);
}

#[test]
fn exp() {
    assert_eq!(lexed_value("123"), 123.);
    assert_eq!(lexed_value("0e67"), 0e67);
    assert_eq!(lexed_value("0E67"), 0e67);
    assert_eq!(lexed_value("123e4"), 123e4);
    assert_eq!(lexed_value("0.5e0"), 0.5);
    assert_eq!(lexed_value("6.67e-11"), 6.67e-11);
}

#[test]
fn number_trailing_content() {
    assert_eq!(lexed_value("3.14159, null"), 3.14159);
    assert_eq!(lexed_value("3.14159 , \"what\""), 3.14159);
}

#[test]
fn number_reject_invalid() {
    assert!(try_get_number("+3").is_err());
    assert!(try_get_number("03.2").is_err());
    assert!(try_get_number("-01").is_err());
    assert!(try_get_number(".5").is_err());
    assert!(try_get_number("5.").is_err());
    assert!(try_get_number("e123").is_err());
    assert!(try_get_number("2.78E").is_err());
    assert!(try_get_number("3e-").is_err());
    assert!(try_get_number("--5").is_err());
    assert!(try_get_number("-").is_err());
    // the decimal point needs a digit on both sides, even before an exponent
    assert!(try_get_number("5.e3").is_err());
    assert!(try_get_number("0.E1").is_err());
}

#[test]
fn number_token_keeps_the_literal_text() {
    let ((tok, len, rem), rest) = try_get_number("6.626E-34 and more").unwrap();
    assert_eq!(tok, Token::NumberLiteral("6.626E-34".to_string()));
    assert_eq!(len, 9);
    assert_eq!(rem, 18);
    assert_eq!(rest, " and more");
}
