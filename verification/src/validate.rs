//! The input check run before anything else sees the string.
//!
//! A polynomial string is accepted when it is ASCII, at most 100
//! characters, and made only of digits, `+`, `-`, `^`, `.`, `x`, space and
//! tab.  Each failure carries its own message, checked in that order.

use vstd::prelude::*;
use vstd::utf8::is_ascii_chars;
use crate::charset::{is_allowed_char, all_allowed_chars, check_allowed};

verus! {

/// Only ASCII characters pass the validator's alphabet.
pub proof fn lemma_allowed_ascii(s: Seq<char>)
    requires
        all_allowed_chars(s),
    ensures
        is_ascii_chars(s),
{
    assert forall|i: int| 0 <= i < s.len() implies '\0' <= #[trigger] s[i] <= '\u{7f}' by {
        assert(is_allowed_char(s[i]));
    }
}

/// Accepts exactly the strings the polynomial front end is written for:
/// at most 100 characters, all from the input alphabet.  The message names
/// the first check that failed: ASCII, then length, then alphabet.
pub fn poly_validator(s: String) -> (r: Result<(), String>)
    ensures
        r is Ok <==> (s@.len() <= 100 && all_allowed_chars(s@)),
        !is_ascii_chars(s@) ==> (r matches Err(m) && m@ == "Polynomial not ASCII."@),
        is_ascii_chars(s@) && s@.len() > 100 ==> (r matches Err(m) && m@
            == "Polynomial too long."@),
        is_ascii_chars(s@) && s@.len() <= 100 && !all_allowed_chars(s@) ==> (r matches Err(m)
            && m@ == "Polynomial has unsupported characters or is not basic."@),
{
    if !s.is_ascii() {
        proof {
            if all_allowed_chars(s@) {
                lemma_allowed_ascii(s@);
            }
        }
        return Err(String::from_str("Polynomial not ASCII."));
    }
    let len = s.as_str().unicode_len();
    if len > 100 {
        return Err(String::from_str("Polynomial too long."));
    }
    let mut i: usize = 0;
    while i < len
        invariant
            0 <= i <= len,
            len == s@.len(),
            len <= 100,
            is_ascii_chars(s@),
            forall|k: int| 0 <= k < i ==> is_allowed_char(#[trigger] s@[k]),
        decreases len - i,
    {
        if !check_allowed(s.as_str().get_char(i)) {
            return Err(String::from_str(
                "Polynomial has unsupported characters or is not basic.",
            ));
        }
        i = i + 1;
    }
    Ok(())
}

} // verus!
