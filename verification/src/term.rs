//! One monomial of the polynomial, and how a term buffer parses into it.
//!
//! A term buffer is a run of term characters cut out of the input, with the
//! sign found just before it reattached.  Everything before the first `x`
//! is the coefficient; an empty or sign-only coefficient stands for 1.  The
//! degree is written after `^`; without one it is 0 for a bare constant and
//! 1 for a plain `x` term.

use vstd::prelude::*;
use crate::charset::{is_sign, is_digit, digit_value, check_sign, check_digit};

verus! {

/// Why a term buffer failed to parse.
#[derive(Clone, Copy, Debug, PartialEq, Eq, Structural)]
pub enum ParseError {
    /// The coefficient part is not a decimal literal.
    InvalidCoefficient,
    /// The degree part is not a decimal integer of at most 255.
    InvalidDegree,
}

/// One parsed monomial `coefficient * x^degree`.
#[derive(Clone, Debug, PartialEq)]
pub struct Term {
    /// The coefficient exactly as written, sign included: a decimal
    /// literal, so a later numeric conversion cannot fail.
    pub coefficient: String,
    /// The exponent of `x`.
    pub degree: u8,
}

/// The mathematical content of a [`Term`].
#[verifier::ext_equal]
pub struct TermView {
    pub coefficient: Seq<char>,
    pub degree: u8,
}

impl View for Term {
    type V = TermView;

    open spec fn view(&self) -> TermView {
        TermView { coefficient: self.coefficient@, degree: self.degree }
    }
}

/// The views of a sequence of terms.
pub open spec fn terms_view(ts: Seq<Term>) -> Seq<TermView> {
    Seq::new(ts.len(), |i: int| ts[i]@)
}

/// The first position of `c` in `s` at or after `from`, if any.
pub open spec fn find_char_from(s: Seq<char>, c: char, from: int) -> Option<int>
    decreases s.len() - from,
{
    if from < 0 || from >= s.len() {
        None
    } else if s[from] == c {
        Some(from)
    } else {
        find_char_from(s, c, from + 1)
    }
}

/// The first position of `c` in `s`, if any.
pub open spec fn find_char(s: Seq<char>, c: char) -> Option<int> {
    find_char_from(s, c, 0)
}

/// How many characters of `s` equal `c`.
pub open spec fn count_char(s: Seq<char>, c: char) -> nat
    decreases s.len(),
{
    if s.len() == 0 {
        0
    } else {
        count_char(s.drop_last(), c) + (if s.last() == c {
            1nat
        } else {
            0nat
        })
    }
}

/// How many digits `s` holds.
pub open spec fn count_digits(s: Seq<char>) -> nat
    decreases s.len(),
{
    if s.len() == 0 {
        0
    } else {
        count_digits(s.drop_last()) + (if is_digit(s.last()) {
            1nat
        } else {
            0nat
        })
    }
}

/// The body of a coefficient: what follows an optional leading sign.
pub open spec fn coeff_body(c: Seq<char>) -> Seq<char> {
    if c.len() > 0 && is_sign(c[0]) {
        c.subrange(1, c.len() as int)
    } else {
        c
    }
}

/// A decimal literal: an optional sign, then digits and at most one dot,
/// among them at least one digit.  Over the polynomial alphabet these are
/// exactly the strings that convert to a floating-point number.
pub open spec fn is_decimal_literal(c: Seq<char>) -> bool {
    let body = coeff_body(c);
    &&& body.len() > 0
    &&& (forall|i: int| 0 <= i < body.len() ==> is_digit(#[trigger] body[i]) || body[i] == '.')
    &&& count_char(body, '.') <= 1
    &&& count_digits(body) >= 1
}

/// The number a digit string writes, read left to right.
pub open spec fn digits_value(s: Seq<char>) -> int
    decreases s.len(),
{
    if s.len() == 0 {
        0
    } else {
        digits_value(s.drop_last()) * 10 + digit_value(s.last())
    }
}

/// Every character of `s` is a digit.
pub open spec fn all_digits(s: Seq<char>) -> bool {
    forall|i: int| 0 <= i < s.len() ==> is_digit(#[trigger] s[i])
}

/// The degree a degree string denotes: defined when it is nonempty, all
/// digits, and writes a number no larger than 255.
pub open spec fn spec_degree(s: Seq<char>) -> Option<u8> {
    if s.len() > 0 && all_digits(s) && digits_value(s) <= 255 {
        Some(digits_value(s) as u8)
    } else {
        None
    }
}

/// The position just past the coefficient: the first `x`, or the end.
pub open spec fn coefficient_end(b: Seq<char>) -> int {
    match find_char(b, 'x') {
        Some(i) => i,
        None => b.len() as int,
    }
}

/// The coefficient as cut out of the buffer: everything before the first
/// `x`.
pub open spec fn raw_coefficient(b: Seq<char>) -> Seq<char> {
    b.subrange(0, coefficient_end(b))
}

/// The coefficient to parse: an empty or sign-only coefficient stands for
/// 1, keeping its sign.
pub open spec fn coefficient_text(b: Seq<char>) -> Seq<char> {
    let raw = raw_coefficient(b);
    if raw.len() == 0 || (raw.len() == 1 && is_sign(raw[0])) {
        raw.push('1')
    } else {
        raw
    }
}

/// The degree string when the buffer carries no usable `^` part.
pub open spec fn implicit_degree(b: Seq<char>) -> Seq<char> {
    if coefficient_end(b) == b.len() {
        seq!['0']
    } else {
        seq!['1']
    }
}

/// The degree to parse: what follows the first `^` when that is not the
/// last character, else the implicit degree.
pub open spec fn degree_text(b: Seq<char>) -> Seq<char> {
    match find_char(b, '^') {
        Some(i) => if i + 1 < b.len() {
            b.subrange(i + 1, b.len() as int)
        } else {
            implicit_degree(b)
        },
        None => implicit_degree(b),
    }
}

/// What parsing a term buffer yields.  The coefficient is parsed first, so
/// its error takes precedence.
pub open spec fn spec_parse_term(b: Seq<char>) -> Result<TermView, ParseError> {
    let coeff = coefficient_text(b);
    if !is_decimal_literal(coeff) {
        Err(ParseError::InvalidCoefficient)
    } else {
        match spec_degree(degree_text(b)) {
            Some(d) => Ok(TermView { coefficient: coeff, degree: d }),
            None => Err(ParseError::InvalidDegree),
        }
    }
}

/// The value a digit string writes is never negative.
pub proof fn lemma_digits_value_nonneg(s: Seq<char>)
    requires
        all_digits(s),
    ensures
        digits_value(s) >= 0,
    decreases s.len(),
{
    if s.len() > 0 {
        assert(forall|i: int| 0 <= i < s.drop_last().len() ==> is_digit(
            #[trigger] s.drop_last()[i],
        ));
        lemma_digits_value_nonneg(s.drop_last());
    }
}

/// A digit string writes at least as large a number as any of its
/// prefixes.
pub proof fn lemma_digits_value_prefix(s: Seq<char>, i: int)
    requires
        all_digits(s),
        0 <= i <= s.len(),
    ensures
        digits_value(s.subrange(0, i)) <= digits_value(s),
    decreases s.len() - i,
{
    if i == s.len() {
        assert(s.subrange(0, i) =~= s);
    } else {
        let t = s.subrange(0, i + 1);
        assert(t.drop_last() =~= s.subrange(0, i));
        assert(forall|j: int| 0 <= j < t.len() ==> is_digit(#[trigger] t[j]));
        lemma_digits_value_nonneg(t.drop_last());
        assert(digits_value(s.subrange(0, i)) <= digits_value(s.subrange(0, i + 1)));
        lemma_digits_value_prefix(s, i + 1);
    }
}

/// The first position of `c` in `s`, by scan.
pub fn find_first(s: &str, c: char) -> (r: Option<usize>)
    ensures
        match r {
            Some(i) => i < s@.len() && find_char(s@, c) == Some(i as int),
            None => find_char(s@, c) is None,
        },
{
    let len = s.unicode_len();
    let mut i: usize = 0;
    while i < len
        invariant
            0 <= i <= len,
            len == s@.len(),
            find_char(s@, c) == find_char_from(s@, c, i as int),
        decreases len - i,
    {
        if s.get_char(i) == c {
            return Some(i);
        }
        i = i + 1;
    }
    None
}

/// Parses a degree string: `Some` exactly for a nonempty digit string
/// whose value is at most 255.
pub fn parse_degree(s: &str) -> (r: Option<u8>)
    ensures
        r == spec_degree(s@),
{
    let len = s.unicode_len();
    if len == 0 {
        return None;
    }
    let mut acc: u32 = 0;
    let mut i: usize = 0;
    while i < len
        invariant
            0 <= i <= len,
            len == s@.len(),
            len > 0,
            acc <= 255,
            acc == digits_value(s@.subrange(0, i as int)),
            forall|k: int| 0 <= k < i ==> is_digit(#[trigger] s@[k]),
        decreases len - i,
    {
        let c = s.get_char(i);
        if !check_digit(c) {
            return None;
        }
        let d: u32 = c as u32 - 48;
        proof {
            assert(s@.subrange(0, i + 1 as int).drop_last() =~= s@.subrange(0, i as int));
            assert(digit_value(c) == d);
        }
        acc = acc * 10 + d;
        i = i + 1;
        if acc > 255 {
            proof {
                if all_digits(s@) {
                    lemma_digits_value_prefix(s@, i as int);
                }
            }
            return None;
        }
    }
    proof {
        assert(s@.subrange(0, len as int) =~= s@);
    }
    Some(acc as u8)
}

/// Checks a coefficient string against the decimal-literal grammar.
pub fn check_decimal_literal(s: &str) -> (r: bool)
    ensures
        r == is_decimal_literal(s@),
{
    let len = s.unicode_len();
    let start: usize = if len > 0 && check_sign(s.get_char(0)) {
        1
    } else {
        0
    };
    let ghost body = coeff_body(s@);
    proof {
        assert(body =~= s@.subrange(start as int, len as int));
    }
    if start == len {
        return false;
    }
    let mut digits: usize = 0;
    let mut dots: usize = 0;
    let mut i: usize = start;
    while i < len
        invariant
            start <= i <= len,
            len == s@.len(),
            body == coeff_body(s@),
            body == s@.subrange(start as int, len as int),
            digits + dots == i - start,
            digits == count_digits(body.subrange(0, i - start)),
            dots == count_char(body.subrange(0, i - start), '.'),
            forall|k: int|
                0 <= k < i - start ==> is_digit(#[trigger] body[k]) || body[k] == '.',
        decreases len - i,
    {
        let c = s.get_char(i);
        proof {
            assert(body[i - start] == c);
            assert(body.subrange(0, i - start + 1).drop_last() =~= body.subrange(0, i - start));
        }
        if check_digit(c) {
            digits = digits + 1;
        } else if c == '.' {
            dots = dots + 1;
        } else {
            proof {
                assert(0 <= i - start < body.len());
                assert(!(is_digit(body[i - start]) || body[i - start] == '.'));
            }
            return false;
        }
        i = i + 1;
    }
    proof {
        assert(body.subrange(0, len - start) =~= body);
    }
    digits >= 1 && dots <= 1
}

/// Parses one term buffer, as [`spec_parse_term`] says.
pub fn parse_term(buffer: &str) -> (r: Result<Term, ParseError>)
    ensures
        match r {
            Ok(t) => spec_parse_term(buffer@) == Ok::<TermView, ParseError>(t@),
            Err(e) => spec_parse_term(buffer@) == Err::<TermView, ParseError>(e),
        },
{
    let len = buffer.unicode_len();
    let coeff_end: usize = match find_first(buffer, 'x') {
        Some(i) => i,
        None => len,
    };
    let raw = buffer.substring_char(0, coeff_end);
    proof {
        assert(raw@ == raw_coefficient(buffer@));
        reveal_strlit("1");
    }
    let coeff: String = if coeff_end == 0 {
        proof {
            assert(coefficient_text(buffer@) =~= raw_coefficient(buffer@).push('1'));
        }
        String::from_str("1")
    } else if coeff_end == 1 && check_sign(raw.get_char(0)) {
        let c = String::from_str(raw).concat("1");
        proof {
            assert(c@ =~= raw_coefficient(buffer@).push('1'));
        }
        c
    } else {
        String::from_str(raw)
    };
    proof {
        assert(coeff@ =~= coefficient_text(buffer@));
    }
    if !check_decimal_literal(coeff.as_str()) {
        return Err(ParseError::InvalidCoefficient);
    }
    proof {
        reveal_strlit("0");
        reveal_strlit("1");
    }
    let degree_src: &str = match find_first(buffer, '^') {
        Some(i) => {
            if i + 1 < len {
                buffer.substring_char(i + 1, len)
            } else if coeff_end == len {
                "0"
            } else {
                "1"
            }
        },
        None => {
            if coeff_end == len {
                "0"
            } else {
                "1"
            }
        },
    };
    proof {
        assert(degree_src@ =~= degree_text(buffer@));
    }
    match parse_degree(degree_src) {
        Some(d) => {
            let t = Term { coefficient: coeff, degree: d };
            proof {
                assert(t@ =~= TermView { coefficient: coefficient_text(buffer@), degree: d });
            }
            Ok(t)
        },
        None => Err(ParseError::InvalidDegree),
    }
}

} // verus!
