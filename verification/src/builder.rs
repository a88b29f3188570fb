//! Grouping parsed terms by degree.
//!
//! The quadratic, linear and constant coefficients are the sums of the
//! coefficients of the degree-2, degree-1 and degree-0 terms.  The library
//! hands out each bucket's coefficients in input order; the floating-point
//! summation is the caller's.  A term of any other degree falls in no
//! bucket and is silently dropped.

use vstd::prelude::*;
use crate::term::{Term, TermView, terms_view};

verus! {

/// Membership in the degree-`d` bucket.
pub open spec fn has_degree(d: u8) -> spec_fn(TermView) -> bool {
    |t: TermView| t.degree == d
}

/// The terms of degree `d`, in input order.
pub open spec fn terms_of_degree(ts: Seq<TermView>, d: u8) -> Seq<TermView> {
    ts.filter(has_degree(d))
}

/// The coefficient a term carries.
pub open spec fn coefficient_of() -> spec_fn(TermView) -> Seq<char> {
    |t: TermView| t.coefficient
}

/// The coefficients feeding the degree-`d` bucket, in input order.
pub open spec fn bucket_coefficients(ts: Seq<TermView>, d: u8) -> Seq<Seq<char>> {
    terms_of_degree(ts, d).map_values(coefficient_of())
}

/// Collects the coefficients of all terms of degree `degree`, in input
/// order.  Buckets 2, 1 and 0 are the quadratic, linear and constant
/// coefficients of the polynomial the terms write.
pub fn coefficients_of_degree(terms: &Vec<Term>, degree: u8) -> (r: Vec<String>)
    ensures
        r@.len() == bucket_coefficients(terms_view(terms@), degree).len(),
        forall|j: int|
            0 <= j < r@.len() ==> #[trigger] r@[j]@ == bucket_coefficients(
                terms_view(terms@),
                degree,
            )[j],
{
    let ghost all = terms_view(terms@);
    let mut out: Vec<String> = Vec::new();
    let mut i: usize = 0;
    proof {
        reveal(Seq::filter);
        assert(all.subrange(0, 0) =~= Seq::<TermView>::empty());
    }
    while i < terms.len()
        invariant
            0 <= i <= terms@.len(),
            all == terms_view(terms@),
            all.len() == terms@.len(),
            out@.len() == bucket_coefficients(all.subrange(0, i as int), degree).len(),
            forall|j: int|
                0 <= j < out@.len() ==> #[trigger] out@[j]@ == bucket_coefficients(
                    all.subrange(0, i as int),
                    degree,
                )[j],
        decreases terms@.len() - i,
    {
        let ghost prefix = all.subrange(0, i as int);
        proof {
            reveal(Seq::filter);
            assert(all.subrange(0, i + 1).drop_last() =~= prefix);
            assert(all.subrange(0, i + 1).last() == terms@[i as int]@);
        }
        if terms[i].degree == degree {
            out.push(terms[i].coefficient.clone());
            proof {
                assert(terms_of_degree(all.subrange(0, i + 1), degree) =~= terms_of_degree(
                    prefix,
                    degree,
                ).push(terms@[i as int]@));
                assert(bucket_coefficients(all.subrange(0, i + 1), degree) =~= bucket_coefficients(
                    prefix,
                    degree,
                ).push(terms@[i as int]@.coefficient));
            }
        } else {
            proof {
                assert(terms_of_degree(all.subrange(0, i + 1), degree) =~= terms_of_degree(
                    prefix,
                    degree,
                ));
                assert(bucket_coefficients(all.subrange(0, i + 1), degree) =~= bucket_coefficients(
                    prefix,
                    degree,
                ));
            }
        }
        i = i + 1;
    }
    proof {
        assert(all.subrange(0, terms@.len() as int) =~= all);
    }
    out
}

} // verus!
