//! Parsing of quadratic polynomial strings into signed terms.
//!
//! The library splits a polynomial written with `+`/`-` separated terms
//! (`"x^2 + 4x + 4"`) into signed terms, checks each term's coefficient
//! against the decimal-literal grammar, parses its degree, and groups the
//! coefficients by degree.  Every function is specified and verified; the
//! floating-point evaluation of the aggregated coefficients and of the
//! quadratic formula lives outside the library.

pub mod charset;
pub mod term;
pub mod tokenizer;
pub mod builder;
pub mod validate;
pub mod laws;
