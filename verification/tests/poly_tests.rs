//! End-to-end scenarios: parse a polynomial string, sum the degree
//! buckets, and evaluate the quadratic formula on the sums.

use factoring::builder::coefficients_of_degree;
use factoring::term::Term;
use factoring::tokenizer::parse_polynomial;

/// Sums one degree bucket; every coefficient the library hands out is a
/// checked decimal literal, so the conversion cannot fail.
fn bucket_sum(terms: &Vec<Term>, degree: u8) -> f64 {
    let mut sum = 0_f64;
    for s in coefficients_of_degree(terms, degree).iter() {
        sum += s.parse::<f64>().unwrap();
    }
    sum
}

/// The aggregate (a, b, c) coefficients of a polynomial string.
fn coefficients(input: &str) -> (f64, f64, f64) {
    let terms = parse_polynomial(input).unwrap();
    (
        bucket_sum(&terms, 2),
        bucket_sum(&terms, 1),
        bucket_sum(&terms, 0),
    )
}

/// The quadratic formula on the aggregate coefficients.
fn roots(input: &str) -> (f64, f64) {
    let (a, b, c) = coefficients(input);
    let root1 = (-b + (b * b - 4_f64 * a * c).sqrt()) / (2_f64 * a);
    let root2 = (-b - (b * b - 4_f64 * a * c).sqrt()) / (2_f64 * a);
    (root1, root2)
}

#[test]
fn basic_polynomial() {
    assert_eq!(roots("x^2 + 4x + 4"), (-2_f64, -2_f64));
}

#[test]
fn imaginary_polynomial() {
    let r = roots("5x^2 + 4x + 4");
    assert!(!r.0.is_finite() || !r.1.is_finite());
}

#[test]
fn format_polynomial() {
    let string =
        "x^2 + -0.5x + -2.5x + 2.5x + 0.5x + 4x + 8x - 4x -+-4x + 4 + 12 --+-8         -4";
    assert_eq!(roots(string), (-2_f64, -2_f64));
}

#[test]
fn whitespace_and_sign_run_coefficients() {
    let string =
        "x^2 + -0.5x + -2.5x + 2.5x + 0.5x + 4x + 8x - 4x -+-4x + 4 + 12 --+-8         -4";
    assert_eq!(coefficients(string), (1_f64, 4_f64, 4_f64));
}

#[test]
fn single_term_fills_one_bucket() {
    assert_eq!(coefficients("3.5x^2"), (3.5_f64, 0_f64, 0_f64));
    assert_eq!(coefficients("-2x^1"), (0_f64, -2_f64, 0_f64));
    assert_eq!(coefficients("7x^0"), (0_f64, 0_f64, 7_f64));
}

#[test]
fn root_correctness_discriminant_zero() {
    assert_eq!(roots("x^2 + 4x + 4"), (-2_f64, -2_f64));
    let (a, b, c) = coefficients("x^2 + 4x + 4");
    assert_eq!((a, b, c), (1_f64, 4_f64, 4_f64));
}

#[test]
fn imaginary_detection_negative_discriminant() {
    let (a, b, c) = coefficients("5x^2 + 4x + 4");
    assert_eq!((a, b, c), (5_f64, 4_f64, 4_f64));
    assert!(b * b - 4_f64 * a * c < 0_f64);
    let r = roots("5x^2 + 4x + 4");
    assert!(!r.0.is_finite() || !r.1.is_finite());
}

#[test]
fn aggregation_ignores_term_order() {
    assert_eq!(coefficients("x^2 + 2x + 3"), coefficients("3 + 2x + x^2"));
    assert_eq!(
        coefficients("0.5x + 4 - 1.5x^2 + 0.5x"),
        coefficients("4 + 0.5x + 0.5x - 1.5x^2")
    );
}

#[test]
fn unsupported_degree_is_dropped() {
    assert_eq!(coefficients("x^3 + x + 1"), (0_f64, 1_f64, 1_f64));
    assert_eq!(coefficients("x^255"), (0_f64, 0_f64, 0_f64));
}

#[test]
fn empty_input_has_no_terms() {
    let terms = parse_polynomial("").unwrap();
    assert!(terms.is_empty());
    assert_eq!(coefficients(""), (0_f64, 0_f64, 0_f64));
}
