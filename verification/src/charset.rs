//! Character classes of the polynomial grammar.
//!
//! The input alphabet is `0-9`, `+`, `-`, `^`, `.`, `x`, space and tab.
//! Signs separate terms; every other non-whitespace character is term
//! content.

use vstd::prelude::*;

verus! {

/// A sign character, which acts as a term separator.
pub open spec fn is_sign(c: char) -> bool {
    c == '+' || c == '-'
}

/// An ASCII decimal digit.
pub open spec fn is_digit(c: char) -> bool {
    '0' <= c && c <= '9'
}

/// A space or tab, removed before tokenizing.
pub open spec fn is_blank(c: char) -> bool {
    c == ' ' || c == '\t'
}

/// A character that may stand inside a term: digit, `x`, `^` or `.`.
pub open spec fn is_term_char(c: char) -> bool {
    is_digit(c) || c == 'x' || c == '^' || c == '.'
}

/// A character of a cleaned (whitespace-free) polynomial string.
pub open spec fn is_core_char(c: char) -> bool {
    is_term_char(c) || is_sign(c)
}

/// A character the input validator lets through.
pub open spec fn is_allowed_char(c: char) -> bool {
    is_core_char(c) || is_blank(c)
}

/// The numeric value of a digit character.
pub open spec fn digit_value(c: char) -> int {
    c as int - '0' as int
}

/// Every character of `s` is a cleaned-polynomial character.
pub open spec fn all_core_chars(s: Seq<char>) -> bool {
    forall|i: int| 0 <= i < s.len() ==> is_core_char(#[trigger] s[i])
}

/// Every character of `s` is one the validator accepts.
pub open spec fn all_allowed_chars(s: Seq<char>) -> bool {
    forall|i: int| 0 <= i < s.len() ==> is_allowed_char(#[trigger] s[i])
}

/// Executable test for a sign character.
pub fn check_sign(c: char) -> (r: bool)
    ensures
        r == is_sign(c),
{
    c == '+' || c == '-'
}

/// Executable test for a digit.
pub fn check_digit(c: char) -> (r: bool)
    ensures
        r == is_digit(c),
{
    '0' <= c && c <= '9'
}

/// Executable test for a character of the input alphabet.
pub fn check_allowed(c: char) -> (r: bool)
    ensures
        r == is_allowed_char(c),
{
    check_digit(c) || c == 'x' || c == '^' || c == '.' || c == '+' || c == '-' || c == ' ' || c
        == '\t'
}

/// Executable test for space or tab.
pub fn check_blank(c: char) -> (r: bool)
    ensures
        r == is_blank(c),
{
    c == ' ' || c == '\t'
}

} // verus!
