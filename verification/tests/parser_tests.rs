//! The tokenizer, term parser and validator, watched up close.

use factoring::term::{parse_term, ParseError, Term};
use factoring::tokenizer::{parse_polynomial, split_terms, strip_whitespace, tokenize};
use factoring::validate::poly_validator;

fn term(coefficient: &str, degree: u8) -> Term {
    Term { coefficient: coefficient.to_owned(), degree }
}

#[test]
fn sign_prefix_kept_on_coefficient() {
    assert_eq!(tokenize("-5x").unwrap(), vec![term("-5", 1)]);
    assert_eq!(tokenize("+5x").unwrap(), vec![term("+5", 1)]);
    assert_eq!(tokenize("5x").unwrap(), vec![term("5", 1)]);
    assert_eq!("-5".parse::<f64>().unwrap(), -5_f64);
    assert_eq!("+5".parse::<f64>().unwrap(), 5_f64);
}

#[test]
fn implicit_coefficient_and_degree() {
    assert_eq!(tokenize("x").unwrap(), vec![term("1", 1)]);
    assert_eq!(tokenize("x^2").unwrap(), vec![term("1", 2)]);
    assert_eq!(tokenize("7").unwrap(), vec![term("7", 0)]);
    assert_eq!(tokenize("-x").unwrap(), vec![term("-1", 1)]);
    assert_eq!(tokenize("+x^2").unwrap(), vec![term("+1", 2)]);
}

#[test]
fn sign_run_uses_adjacent_sign_only() {
    assert_eq!(tokenize("--+-8").unwrap(), vec![term("-8", 0)]);
    assert_eq!(tokenize("-+8").unwrap(), vec![term("+8", 0)]);
    assert_eq!(tokenize("x^2+-4x").unwrap(), vec![term("1", 2), term("-4", 1)]);
}

#[test]
fn tokenize_is_idempotent() {
    let cleaned = strip_whitespace("x^2 + -0.5x + 4 --+-8 \t- 4x");
    let first = tokenize(cleaned.as_str()).unwrap();
    let second = tokenize(cleaned.as_str()).unwrap();
    assert_eq!(first, second);
}

#[test]
fn strip_removes_spaces_and_tabs() {
    assert_eq!(strip_whitespace("1 +\t2 x"), "1+2x");
    assert_eq!(strip_whitespace("   \t"), "");
    assert_eq!(strip_whitespace("4x"), "4x");
}

#[test]
fn split_reattaches_signs() {
    assert_eq!(split_terms("x^2+4x-4"), vec!["x^2", "+4x", "-4"]);
    assert_eq!(split_terms("-5x"), vec!["-5x"]);
    assert_eq!(split_terms("+-+"), Vec::<String>::new());
}

#[test]
fn term_without_caret() {
    assert_eq!(parse_term("4x").unwrap(), term("4", 1));
    assert_eq!(parse_term("0.25").unwrap(), term("0.25", 0));
    assert_eq!(parse_term("5.").unwrap(), term("5.", 0));
    assert_eq!(parse_term(".5x").unwrap(), term(".5", 1));
}

#[test]
fn trailing_caret_falls_back_to_implicit_degree() {
    assert_eq!(parse_term("2x^").unwrap(), term("2", 1));
    assert_eq!(parse_term("2^").unwrap_err(), ParseError::InvalidCoefficient);
}

#[test]
fn content_after_x_is_ignored() {
    assert_eq!(parse_term("4x4").unwrap(), term("4", 1));
}

#[test]
fn bad_coefficient_is_rejected() {
    assert_eq!(parse_polynomial("1.2.3x").unwrap_err(), ParseError::InvalidCoefficient);
    assert_eq!(parse_term(".").unwrap_err(), ParseError::InvalidCoefficient);
    assert_eq!(parse_term("^2x").unwrap_err(), ParseError::InvalidCoefficient);
    assert_eq!(parse_term("..5").unwrap_err(), ParseError::InvalidCoefficient);
}

#[test]
fn bad_degree_is_rejected() {
    assert_eq!(parse_polynomial("x^300").unwrap_err(), ParseError::InvalidDegree);
    assert_eq!(parse_polynomial("x^2.5").unwrap_err(), ParseError::InvalidDegree);
    assert_eq!(parse_term("x^256").unwrap_err(), ParseError::InvalidDegree);
    assert_eq!(parse_term("x^255").unwrap(), term("1", 255));
}

#[test]
fn validator_accepts_the_alphabet() {
    assert!(poly_validator("x^2 + 4x + 4".to_owned()).is_ok());
    assert!(poly_validator("".to_owned()).is_ok());
    assert!(poly_validator("\t-0.5x".to_owned()).is_ok());
}

#[test]
fn validator_rejects_non_ascii() {
    assert_eq!(
        poly_validator("x\u{e9}".to_owned()).unwrap_err(),
        "Polynomial not ASCII."
    );
}

#[test]
fn validator_rejects_long_input() {
    let long = "1".repeat(101);
    assert_eq!(poly_validator(long).unwrap_err(), "Polynomial too long.");
    assert!(poly_validator("1".repeat(100)).is_ok());
}

#[test]
fn validator_rejects_foreign_characters() {
    assert_eq!(
        poly_validator("x^2 = 4".to_owned()).unwrap_err(),
        "Polynomial has unsupported characters or is not basic."
    );
    assert_eq!(
        poly_validator("y".to_owned()).unwrap_err(),
        "Polynomial has unsupported characters or is not basic."
    );
}
