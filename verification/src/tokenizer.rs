//! Splitting a polynomial string into signed term buffers.
//!
//! After spaces and tabs are removed, the scan walks the string once.  A
//! sign character or the end of the string closes the buffer gathered so
//! far, provided it is nonempty; the character standing immediately before
//! the buffer, when it is a sign, is reattached as the term's sign.  Signs
//! are otherwise consumed as separators, so of a run of signs only the one
//! adjacent to the term counts — `--+-8` is a term `-8`, not `+8`.

use vstd::prelude::*;
use crate::charset::{
    is_sign, is_blank, is_core_char, all_core_chars, all_allowed_chars, check_sign, check_blank,
};
use crate::term::{Term, TermView, ParseError, terms_view, spec_parse_term, parse_term};

verus! {

/// The buffer `s[start..end]` with the character just before it, when that
/// is a sign, reattached in front.
pub open spec fn signed_chunk(s: Seq<char>, start: int, end: int) -> Seq<char> {
    if start > 0 && is_sign(s[start - 1]) {
        seq![s[start - 1]] + s.subrange(start, end)
    } else {
        s.subrange(start, end)
    }
}

/// The term buffers the scan still yields from position `i` on, the
/// current buffer having begun at `start`.  A sign, or running past the
/// end, closes a nonempty buffer; any other character extends it.
pub open spec fn chunks_from(s: Seq<char>, i: int, start: int) -> Seq<Seq<char>>
    decreases s.len() - i,
{
    if i >= s.len() {
        if start < i {
            seq![signed_chunk(s, start, i)]
        } else {
            Seq::empty()
        }
    } else if is_sign(s[i]) {
        if start < i {
            seq![signed_chunk(s, start, i)] + chunks_from(s, i + 1, i + 1)
        } else {
            chunks_from(s, i + 1, i + 1)
        }
    } else {
        chunks_from(s, i + 1, start)
    }
}

/// The signed term buffers of a cleaned polynomial string.
pub open spec fn term_buffers(s: Seq<char>) -> Seq<Seq<char>> {
    chunks_from(s, 0, 0)
}

/// `s` with every space and tab removed.
pub open spec fn strip_blanks(s: Seq<char>) -> Seq<char> {
    s.filter(|c: char| !is_blank(c))
}

/// What parsing a row of term buffers yields: the terms in order, or the
/// first buffer's error.
pub open spec fn spec_parse_terms(bufs: Seq<Seq<char>>) -> Result<Seq<TermView>, ParseError>
    decreases bufs.len(),
{
    if bufs.len() == 0 {
        Ok(Seq::empty())
    } else {
        match spec_parse_terms(bufs.drop_last()) {
            Err(e) => Err(e),
            Ok(ts) => match spec_parse_term(bufs.last()) {
                Err(e) => Err(e),
                Ok(t) => Ok(ts.push(t)),
            },
        }
    }
}

/// What tokenizing a cleaned string yields.
pub open spec fn spec_tokenize(s: Seq<char>) -> Result<Seq<TermView>, ParseError> {
    spec_parse_terms(term_buffers(s))
}

/// Once some prefix of the buffers fails, the whole row fails the same
/// way.
proof fn lemma_parse_terms_err_prefix(bufs: Seq<Seq<char>>, k: int, e: ParseError)
    requires
        0 <= k <= bufs.len(),
        spec_parse_terms(bufs.subrange(0, k)) == Err::<Seq<TermView>, ParseError>(e),
    ensures
        spec_parse_terms(bufs) == Err::<Seq<TermView>, ParseError>(e),
    decreases bufs.len() - k,
{
    if k == bufs.len() {
        assert(bufs.subrange(0, k) =~= bufs);
    } else {
        assert(bufs.subrange(0, k + 1).drop_last() =~= bufs.subrange(0, k));
        lemma_parse_terms_err_prefix(bufs, k + 1, e);
    }
}

/// Removes every space and tab, leaving the other characters in order.
pub fn strip_whitespace(s: &str) -> (r: String)
    ensures
        r@ == strip_blanks(s@),
{
    broadcast use vstd::seq_lib::group_seq_lib_default;

    let len = s.unicode_len();
    let mut out = String::new();
    let mut i: usize = 0;
    while i < len
        invariant
            0 <= i <= len,
            len == s@.len(),
            out@ == s@.subrange(0, i as int).filter(|c: char| !is_blank(c)),
        decreases len - i,
    {
        let c = s.get_char(i);
        let ghost pred = |c: char| !is_blank(c);
        proof {
            reveal(Seq::filter);
            assert(s@.subrange(0, i + 1 as int) =~= s@.subrange(0, i as int) + seq![c]);
            assert(seq![c].drop_last() =~= Seq::<char>::empty());
            assert(Seq::<char>::empty().filter(pred) =~= Seq::<char>::empty());
            if pred(c) {
                assert(seq![c].filter(pred) =~= seq![c]);
            } else {
                assert(seq![c].filter(pred) =~= Seq::<char>::empty());
            }
        }
        if !check_blank(c) {
            let piece = s.substring_char(i, i + 1);
            proof {
                assert(piece@ =~= seq![c]);
            }
            out.append(piece);
        }
        i = i + 1;
    }
    proof {
        assert(s@.subrange(0, len as int) =~= s@);
    }
    out
}

/// Cuts the buffer `s[start..end]` out of `s`, with its sign reattached.
fn make_signed_chunk(s: &str, start: usize, end: usize) -> (r: String)
    requires
        start <= end <= s@.len(),
    ensures
        r@ == signed_chunk(s@, start as int, end as int),
{
    let body = s.substring_char(start, end);
    if start > 0 {
        let p = s.get_char(start - 1);
        if check_sign(p) {
            let head = if p == '-' {
                "-"
            } else {
                "+"
            };
            proof {
                reveal_strlit("-");
                reveal_strlit("+");
                assert(head@ =~= seq![p]);
            }
            let r = String::from_str(head).concat(body);
            proof {
                assert(r@ =~= signed_chunk(s@, start as int, end as int));
            }
            return r;
        }
    }
    String::from_str(body)
}

/// Splits a cleaned string into its signed term buffers.
pub fn split_terms(s: &str) -> (r: Vec<String>)
    requires
        all_core_chars(s@),
    ensures
        r@.len() == term_buffers(s@).len(),
        forall|j: int| 0 <= j < r@.len() ==> #[trigger] r@[j]@ == term_buffers(s@)[j],
{
    let len = s.unicode_len();
    let mut out: Vec<String> = Vec::new();
    let mut start: usize = 0;
    let mut i: usize = 0;
    while i < len
        invariant
            0 <= start <= i <= len,
            len == s@.len(),
            term_buffers(s@) == Seq::new(out@.len(), |j: int| out@[j]@) + chunks_from(
                s@,
                i as int,
                start as int,
            ),
        decreases len - i,
    {
        let c = s.get_char(i);
        if check_sign(c) {
            if start < i {
                let chunk = make_signed_chunk(s, start, i);
                out.push(chunk);
                proof {
                    assert(Seq::new(out@.len(), |j: int| out@[j]@) =~= Seq::new(
                        (out@.len() - 1) as nat,
                        |j: int| out@[j]@,
                    ).push(chunk@));
                    assert(term_buffers(s@) =~= Seq::new(out@.len(), |j: int| out@[j]@)
                        + chunks_from(s@, i + 1 as int, i + 1 as int));
                }
            }
            start = i + 1;
        }
        i = i + 1;
    }
    if start < len {
        let chunk = make_signed_chunk(s, start, len);
        out.push(chunk);
        proof {
            assert(Seq::new(out@.len(), |j: int| out@[j]@) =~= Seq::new(
                (out@.len() - 1) as nat,
                |j: int| out@[j]@,
            ).push(chunk@));
        }
    }
    proof {
        assert(term_buffers(s@) =~= Seq::new(out@.len(), |j: int| out@[j]@));
    }
    out
}

/// Tokenizes a cleaned polynomial string into its terms, left to right;
/// the first ill-formed term decides the error.  The result is pinned to
/// [`spec_tokenize`] of the input alone, so tokenizing the same string
/// twice yields identical term sequences.
pub fn tokenize(s: &str) -> (r: Result<Vec<Term>, ParseError>)
    requires
        all_core_chars(s@),
    ensures
        match r {
            Ok(ts) => spec_tokenize(s@) == Ok::<Seq<TermView>, ParseError>(terms_view(ts@)),
            Err(e) => spec_tokenize(s@) == Err::<Seq<TermView>, ParseError>(e),
        },
{
    let bufs = split_terms(s);
    let ghost gbufs = term_buffers(s@);
    let mut out: Vec<Term> = Vec::new();
    let mut j: usize = 0;
    proof {
        assert(gbufs.subrange(0, 0) =~= Seq::<Seq<char>>::empty());
        assert(terms_view(out@) =~= Seq::<TermView>::empty());
    }
    while j < bufs.len()
        invariant
            0 <= j <= bufs.len(),
            gbufs == term_buffers(s@),
            bufs@.len() == gbufs.len(),
            forall|k: int| 0 <= k < gbufs.len() ==> #[trigger] bufs@[k]@ == gbufs[k],
            spec_parse_terms(gbufs.subrange(0, j as int)) == Ok::<Seq<TermView>, ParseError>(
                terms_view(out@),
            ),
        decreases bufs.len() - j,
    {
        proof {
            assert(gbufs.subrange(0, j + 1).drop_last() =~= gbufs.subrange(0, j as int));
            assert(gbufs.subrange(0, j + 1).last() == gbufs[j as int]);
            assert(bufs@[j as int]@ == gbufs[j as int]);
        }
        let ghost prev = out@;
        match parse_term(bufs[j].as_str()) {
            Ok(t) => {
                out.push(t);
                proof {
                    assert(terms_view(out@) =~= terms_view(prev).push(t@));
                    assert(spec_parse_terms(gbufs.subrange(0, j + 1))
                        == Ok::<Seq<TermView>, ParseError>(terms_view(out@)));
                }
            },
            Err(e) => {
                proof {
                    lemma_parse_terms_err_prefix(gbufs, j + 1, e);
                }
                return Err(e);
            },
        }
        j = j + 1;
    }
    proof {
        assert(gbufs.subrange(0, bufs@.len() as int) =~= gbufs);
    }
    Ok(out)
}

/// Stripping keeps every non-blank character, so a string over the full
/// input alphabet strips to one over the cleaned alphabet.
proof fn lemma_strip_core(s: Seq<char>)
    requires
        all_allowed_chars(s),
    ensures
        all_core_chars(strip_blanks(s)),
    decreases s.len(),
{
    reveal(Seq::filter);
    if s.len() > 0 {
        assert(forall|i: int| 0 <= i < s.drop_last().len() ==> crate::charset::is_allowed_char(
            #[trigger] s.drop_last()[i],
        ));
        lemma_strip_core(s.drop_last());
        let f = s.drop_last().filter(|c: char| !is_blank(c));
        if !is_blank(s.last()) {
            assert(strip_blanks(s) == f.push(s.last()));
            assert(forall|i: int| 0 <= i < f.len() ==> is_core_char(#[trigger] f.push(s.last())[i]));
            assert(is_core_char(f.push(s.last())[f.len() as int]));
        }
    }
}

/// The whole front end: strips spaces and tabs, then tokenizes.
pub fn parse_polynomial(s: &str) -> (r: Result<Vec<Term>, ParseError>)
    requires
        all_allowed_chars(s@),
    ensures
        match r {
            Ok(ts) => spec_tokenize(strip_blanks(s@)) == Ok::<Seq<TermView>, ParseError>(
                terms_view(ts@),
            ),
            Err(e) => spec_tokenize(strip_blanks(s@)) == Err::<Seq<TermView>, ParseError>(e),
        },
{
    let cleaned = strip_whitespace(s);
    proof {
        lemma_strip_core(s@);
    }
    tokenize(cleaned.as_str())
}

} // verus!
