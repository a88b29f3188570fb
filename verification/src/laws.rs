//! Laws of the tokenizer and the degree buckets.
//!
//! Two statements hold of every input, not only of the values the tests
//! try: a lone term `Cx^D` tokenizes to exactly the term it writes and
//! fills exactly one bucket, and the buckets never depend on the order in
//! which the input wrote its terms.

use vstd::prelude::*;
use vstd::multiset::Multiset;
use crate::charset::{is_sign, is_digit, digit_value};
use crate::term::{
    TermView, ParseError, find_char, find_char_from, coeff_body, is_decimal_literal, digits_value,
    coefficient_text, degree_text, spec_parse_term, spec_degree,
};
use crate::tokenizer::{signed_chunk, chunks_from, term_buffers, spec_tokenize};
use crate::builder::{has_degree, coefficient_of, terms_of_degree, bucket_coefficients};

verus! {

/// Scanning from `i` with `c` not yet seen finds its first place `j`.
proof fn lemma_find_from_found(s: Seq<char>, c: char, i: int, j: int)
    requires
        0 <= i <= j < s.len(),
        s[j] == c,
        forall|k: int| i <= k < j ==> s[k] != c,
    ensures
        find_char_from(s, c, i) == Some(j),
    decreases j - i,
{
    if i < j {
        lemma_find_from_found(s, c, i + 1, j);
    }
}

/// With no sign left of the scan, the rest of the string is one buffer.
proof fn lemma_chunks_no_signs(s: Seq<char>, i: int, start: int)
    requires
        0 <= start <= i <= s.len(),
        start < s.len(),
        forall|j: int| i <= j < s.len() ==> !is_sign(#[trigger] s[j]),
    ensures
        chunks_from(s, i, start) == seq![signed_chunk(s, start, s.len() as int)],
    decreases s.len() - i,
{
    if i < s.len() {
        lemma_chunks_no_signs(s, i + 1, start);
    }
}

/// A single term `Cx^D`, with `C` a decimal literal and `D` one of the
/// digits 0, 1, 2, tokenizes to exactly one term: coefficient `C`, degree
/// `D`.  That term fills bucket `D` alone — of the quadratic, linear and
/// constant buckets, one holds exactly `C` and the other two are empty.
pub proof fn lemma_single_term(c: Seq<char>, dch: char)
    requires
        is_decimal_literal(c),
        '0' <= dch <= '2',
    ensures
        ({
            let input = c + seq!['x', '^', dch];
            let t = (TermView { coefficient: c, degree: digit_value(dch) as u8 });
            &&& spec_tokenize(input) == Ok::<Seq<TermView>, ParseError>(seq![t])
            &&& bucket_coefficients(seq![t], t.degree) == seq![c]
            &&& (forall|d2: u8|
                d2 != t.degree ==> bucket_coefficients(seq![t], d2) == Seq::<Seq<char>>::empty())
        }),
{
    let input = c + seq!['x', '^', dch];
    let n: int = c.len() as int;
    let body = coeff_body(c);
    let d: u8 = digit_value(dch) as u8;
    let t = (TermView { coefficient: c, degree: d });

    // The coefficient's characters: an optional sign, then digits and dots.
    assert(body.len() > 0);
    assert forall|k: int| 0 <= k < n implies c[k] != 'x' && c[k] != '^' && (k > 0 ==> !is_sign(
        #[trigger] c[k],
    )) by {
        if c.len() > 0 && is_sign(c[0]) {
            if k > 0 {
                assert(body[k - 1] == c[k]);
                assert(is_digit(body[k - 1]) || body[k - 1] == '.');
            }
        } else {
            assert(body[k] == c[k]);
            assert(is_digit(body[k]) || body[k] == '.');
        }
    }

    // One buffer: the whole input, its sign reattached when c carries one.
    assert(input.len() == n + 3);
    if is_sign(input[0]) {
        assert(chunks_from(input, 0, 0) == chunks_from(input, 1, 1));
        lemma_chunks_no_signs(input, 1, 1);
        assert(signed_chunk(input, 1, input.len() as int) =~= input);
    } else {
        lemma_chunks_no_signs(input, 0, 0);
        assert(signed_chunk(input, 0, input.len() as int) =~= input);
    }
    assert(term_buffers(input) =~= seq![input]);

    // The buffer parses to coefficient c and degree d.
    lemma_find_from_found(input, 'x', 0, n);
    assert(find_char(input, 'x') == Some(n));
    assert(c.subrange(0, n) =~= c);
    assert(input.subrange(0, n) =~= c);
    if c.len() == 1 {
        assert(body[0] == c[0] || (is_sign(c[0]) && body.len() == 0));
        assert(!is_sign(c[0]));
    }
    assert(coefficient_text(input) == c);
    lemma_find_from_found(input, '^', 0, n + 1);
    assert(find_char(input, '^') == Some(n + 1));
    assert(degree_text(input) =~= seq![dch]);
    assert(seq![dch].drop_last() =~= Seq::<char>::empty());
    assert(digits_value(Seq::<char>::empty()) == 0);
    assert(digits_value(seq![dch]) == digit_value(dch));
    assert(0 <= digit_value(dch) <= 2);
    assert(spec_degree(seq![dch]) == Some(d));
    assert(spec_parse_term(input) == Ok::<TermView, ParseError>(t));

    // A lone parsed buffer is a lone term.
    assert(seq![input].drop_last() =~= Seq::<Seq<char>>::empty());
    assert(crate::tokenizer::spec_parse_terms(Seq::<Seq<char>>::empty()) == Ok::<
        Seq<TermView>,
        ParseError,
    >(Seq::<TermView>::empty()));
    assert(Seq::<TermView>::empty().push(t) =~= seq![t]);
    assert(spec_tokenize(input) == Ok::<Seq<TermView>, ParseError>(seq![t]));

    // The term lands in its own bucket and in no other.
    assert(seq![t].drop_last() =~= Seq::<TermView>::empty());
    reveal(Seq::filter);
    assert(terms_of_degree(seq![t], d) =~= seq![t]);
    assert(bucket_coefficients(seq![t], d) =~= seq![c]);
    assert forall|d2: u8| d2 != d implies bucket_coefficients(seq![t], d2) == Seq::<
        Seq<char>,
    >::empty() by {
        reveal(Seq::filter);
        assert(seq![t].drop_last() =~= Seq::<TermView>::empty());
        assert(!(has_degree(d2)(t)));
        assert(Seq::<TermView>::empty().filter(has_degree(d2)) =~= Seq::<TermView>::empty());
        assert(terms_of_degree(seq![t], d2) =~= Seq::<TermView>::empty());
        assert(bucket_coefficients(seq![t], d2) =~= Seq::<Seq<char>>::empty());
    }
}

/// Filtering a sequence and filtering its multiset agree.
proof fn lemma_filter_to_multiset(s: Seq<TermView>, pred: spec_fn(TermView) -> bool)
    ensures
        s.filter(pred).to_multiset() == s.to_multiset().filter(pred),
    decreases s.len(),
{
    broadcast use vstd::seq_lib::group_to_multiset_ensures;
    broadcast use vstd::multiset::group_multiset_axioms;

    reveal(Seq::filter);
    if s.len() == 0 {
        assert(s.to_multiset() =~= Multiset::<TermView>::empty());
        assert(s.filter(pred) =~= Seq::<TermView>::empty());
        assert(Multiset::<TermView>::empty().filter(pred) =~= Multiset::<TermView>::empty());
    } else {
        let dl = s.drop_last();
        let x = s.last();
        lemma_filter_to_multiset(dl, pred);
        assert(s =~= dl.push(x));
        assert(dl.push(x).to_multiset() =~= dl.to_multiset().insert(x));
        if pred(x) {
            assert(s.filter(pred) == dl.filter(pred).push(x));
            assert(dl.filter(pred).push(x).to_multiset() =~= dl.filter(pred).to_multiset().insert(
                x,
            ));
            assert(dl.to_multiset().insert(x).filter(pred) =~= dl.to_multiset().filter(
                pred,
            ).insert(x));
        } else {
            assert(s.filter(pred) == dl.filter(pred));
            assert(dl.to_multiset().insert(x).filter(pred) =~= dl.to_multiset().filter(pred));
        }
    }
}

/// Projecting coefficients out of sequences with equal multisets of terms
/// yields equal multisets of coefficients.
proof fn lemma_map_to_multiset(
    a: Seq<TermView>,
    b: Seq<TermView>,
    f: spec_fn(TermView) -> Seq<char>,
)
    requires
        a.to_multiset() == b.to_multiset(),
    ensures
        a.map_values(f).to_multiset() == b.map_values(f).to_multiset(),
    decreases a.len(),
{
    broadcast use vstd::seq_lib::group_to_multiset_ensures;
    broadcast use vstd::multiset::group_multiset_axioms;

    if a.len() == 0 {
        assert(b.len() == b.to_multiset().len());
        assert(a.map_values(f) =~= Seq::<Seq<char>>::empty());
        assert(b.map_values(f) =~= Seq::<Seq<char>>::empty());
    } else {
        let x = a.last();
        assert(a[a.len() - 1] == x);
        assert(a.contains(x));
        assert(b.to_multiset().count(x) > 0);
        assert(b.contains(x));
        let i: int = choose|i: int| 0 <= i < b.len() && b[i] == x;
        assert(a.remove(a.len() - 1) =~= a.drop_last());
        assert(a.drop_last().to_multiset() =~= a.to_multiset().remove(x));
        assert(b.remove(i).to_multiset() =~= b.to_multiset().remove(x));
        lemma_map_to_multiset(a.drop_last(), b.remove(i), f);

        assert(a.map_values(f) =~= a.drop_last().map_values(f).push(f(x)));
        assert(b.remove(i).map_values(f) =~= b.map_values(f).remove(i));
        assert(a.map_values(f).to_multiset() =~= a.drop_last().map_values(f).to_multiset().insert(
            f(x),
        ));
        assert(b.map_values(f)[i] == f(x));
        assert(b.map_values(f).remove(i).to_multiset() =~= b.map_values(f).to_multiset().remove(
            f(x),
        ));
        assert(b.map_values(f).contains(f(x)));
        assert(b.map_values(f).to_multiset().count(f(x)) > 0);
        assert(b.map_values(f).to_multiset() =~= b.map_values(f).to_multiset().remove(
            f(x),
        ).insert(f(x)));
    }
}

/// Aggregation cannot depend on the order of the input's terms: two term
/// sequences with the same multiset of terms fill every degree bucket with
/// the same multiset of terms, hence with the same multiset of
/// coefficients — each bucket's coefficient sum is a function of the terms
/// alone.
pub proof fn lemma_buckets_order_independent(ts1: Seq<TermView>, ts2: Seq<TermView>, d: u8)
    requires
        ts1.to_multiset() == ts2.to_multiset(),
    ensures
        terms_of_degree(ts1, d).to_multiset() == terms_of_degree(ts2, d).to_multiset(),
        bucket_coefficients(ts1, d).to_multiset() == bucket_coefficients(ts2, d).to_multiset(),
{
    lemma_filter_to_multiset(ts1, has_degree(d));
    lemma_filter_to_multiset(ts2, has_degree(d));
    lemma_map_to_multiset(terms_of_degree(ts1, d), terms_of_degree(ts2, d), coefficient_of());
}

} // verus!
