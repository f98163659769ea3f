//! UTF-8 text as a hay: indices are byte offsets and a codeword is one
//! scalar value. Sub-sequence patterns of text run on the encoded bytes;
//! predicates on scalar values run codeword by codeword.

use crate::empty::{is_next_boundary, is_prev_boundary};
use crate::single::{is_pure_predicate, PredicateSearcher};
use crate::slice::{rtrimmed_from, trimmed_from, SliceChecker};
use crate::span::{occurs_at, Span};
use crate::span::Hay;
use vstd::prelude::*;
use vstd::string::{StrSliceExecFns, StringSliceAdditionalSpecFns};
use vstd::utf8::{
    decode_utf8, encode_utf8_decode_utf8, encode_utf8_valid_utf8,
    is_char_boundary_iff_not_is_continuation_byte, is_char_boundary_start_end_of_seq,
    valid_utf8_split,
};

verus! {

/// The scalar value that `bytes[a..c]` encodes.
pub open spec fn char_in(bytes: Seq<u8>, a: int, c: int) -> char {
    decode_utf8(bytes.subrange(a, c))[0]
}

/// `p` accepts the codeword of `hay` that starts at offset `a`.
pub open spec fn accepts_codeword_at(hay: &str, p: spec_fn(char) -> bool, a: int) -> bool {
    forall|c: int| #[trigger] is_next_boundary(hay, a, c) ==> p(char_in(hay.spec_bytes(), a, c))
}

/// `p` accepts the codeword of `hay` that ends at offset `c`.
pub open spec fn accepts_codeword_before(hay: &str, p: spec_fn(char) -> bool, c: int) -> bool {
    forall|a: int| #[trigger] is_prev_boundary(hay, c, a) ==> p(char_in(hay.spec_bytes(), a, c))
}

proof fn lemma_next_boundary_unique(hay: &str, a: int, c1: int, c2: int)
    requires
        is_next_boundary(hay, a, c1),
        is_next_boundary(hay, a, c2),
    ensures
        c1 == c2,
{
    if c1 < c2 {
        assert(!hay.is_boundary(c1));
    } else if c2 < c1 {
        assert(!hay.is_boundary(c2));
    }
}

proof fn lemma_prev_boundary_unique(hay: &str, c: int, a1: int, a2: int)
    requires
        is_prev_boundary(hay, c, a1),
        is_prev_boundary(hay, c, a2),
    ensures
        a1 == a2,
{
    if a1 < a2 {
        assert(!hay.is_boundary(a2));
    } else if a2 < a1 {
        assert(!hay.is_boundary(a1));
    }
}

/// The scalar value of the codeword `hay[i..j]`.
fn char_between(hay: &str, i: usize, j: usize) -> (r: char)
    requires
        i < j,
        hay.is_boundary(i as int),
        hay.is_boundary(j as int),
    ensures
        r == char_in(hay.spec_bytes(), i as int, j as int),
{
    let ghost bytes = hay.spec_bytes();
    proof {
        hay.lemma_boundaries();
        encode_utf8_valid_utf8(hay@);
        valid_utf8_split(bytes, i as int);
    }
    let (_, rest) = hay.split_at(i);
    proof {
        let rb = rest.spec_bytes();
        let k = (j - i) as int;
        if k < rb.len() {
            is_char_boundary_iff_not_is_continuation_byte(bytes, j as int);
            is_char_boundary_iff_not_is_continuation_byte(rb, k);
            assert(rb[k] == bytes[j as int]);
        } else {
            is_char_boundary_start_end_of_seq(rb);
        }
    }
    let (piece, _) = rest.split_at(j - i);
    proof {
        assert(piece.spec_bytes() =~= bytes.subrange(i as int, j as int));
        if piece@.len() == 0 {
            assert(piece.spec_bytes().len() == 0);
        }
        encode_utf8_decode_utf8(piece@);
    }
    piece.get_char(0)
}

impl<F: Fn(char) -> bool> PredicateSearcher<F> {
    /// Where the text starts once the scalar values that the predicate
    /// accepts are removed from its front.
    pub fn trim_start_str(&mut self, hay: &str) -> (r: usize)
        requires
            is_pure_predicate(old(self).pred_view()),
        ensures
            *final(self) == *old(self),
            hay.is_boundary(r as int),
            forall|a: int|
                0 <= a < r && #[trigger] hay.is_boundary(a) ==> accepts_codeword_at(
                    hay,
                    old(self).accepts(),
                    a,
                ),
            r < hay.hay_len() ==> !accepts_codeword_at(hay, old(self).accepts(), r as int),
            r < hay.hay_len() ==> forall|c: int| #[trigger]
                is_next_boundary(hay, r as int, c) ==> old(self).pred_view().ensures(
                    (char_in(hay.spec_bytes(), r as int, c),),
                    false,
                ),
    {
        proof {
            hay.lemma_boundaries();
        }
        let len = hay.end_index();
        let mut i: usize = 0;
        while i < len
            invariant
                len == hay.hay_len(),
                hay.is_boundary(len as int),
                i <= len,
                hay.is_boundary(i as int),
                is_pure_predicate(self.pred_view()),
                forall|a: int|
                    0 <= a < i && #[trigger] hay.is_boundary(a) ==> accepts_codeword_at(
                        hay,
                        self.accepts(),
                        a,
                    ),
            decreases len - i,
        {
            let j = hay.next_index(i);
            let c = char_between(hay, i, j);
            if !self.test(c) {
                proof {
                    assert(is_next_boundary(hay, i as int, j as int));
                    assert forall|c2: int| #[trigger]
                        is_next_boundary(hay, i as int, c2) implies self.pred_view().ensures(
                        (char_in(hay.spec_bytes(), i as int, c2),),
                        false,
                    ) by {
                        lemma_next_boundary_unique(hay, i as int, j as int, c2);
                    }
                }
                return i;
            }
            proof {
                assert forall|a: int|
                    0 <= a < j && #[trigger] hay.is_boundary(a) implies accepts_codeword_at(
                    hay,
                    self.accepts(),
                    a,
                ) by {
                    if a >= i {
                        assert(a == i);
                        assert forall|c2: int| #[trigger]
                            is_next_boundary(hay, a, c2) implies self.accepts()(
                            char_in(hay.spec_bytes(), a, c2),
                        ) by {
                            lemma_next_boundary_unique(hay, a, j as int, c2);
                        }
                    }
                }
            }
            i = j;
        }
        i
    }

    /// Where the text ends once the scalar values that the predicate accepts
    /// are removed from its back.
    pub fn trim_end_str(&mut self, hay: &str) -> (r: usize)
        requires
            is_pure_predicate(old(self).pred_view()),
        ensures
            *final(self) == *old(self),
            hay.is_boundary(r as int),
            forall|c: int|
                r < c <= hay.hay_len() && #[trigger] hay.is_boundary(c) ==> accepts_codeword_before(
                    hay,
                    old(self).accepts(),
                    c,
                ),
            r > 0 ==> !accepts_codeword_before(hay, old(self).accepts(), r as int),
            r > 0 ==> forall|a: int| #[trigger]
                is_prev_boundary(hay, r as int, a) ==> old(self).pred_view().ensures(
                    (char_in(hay.spec_bytes(), a, r as int),),
                    false,
                ),
    {
        proof {
            hay.lemma_boundaries();
        }
        let len = hay.end_index();
        let mut j: usize = len;
        while j > 0
            invariant
                len == hay.hay_len(),
                j <= len,
                hay.is_boundary(j as int),
                hay.is_boundary(0),
                is_pure_predicate(self.pred_view()),
                forall|c: int|
                    j < c <= len && #[trigger] hay.is_boundary(c) ==> accepts_codeword_before(
                        hay,
                        self.accepts(),
                        c,
                    ),
            decreases j,
        {
            let i = hay.prev_index(j);
            let c = char_between(hay, i, j);
            if !self.test(c) {
                proof {
                    assert(is_prev_boundary(hay, j as int, i as int));
                    assert forall|a2: int| #[trigger]
                        is_prev_boundary(hay, j as int, a2) implies self.pred_view().ensures(
                        (char_in(hay.spec_bytes(), a2, j as int),),
                        false,
                    ) by {
                        lemma_prev_boundary_unique(hay, j as int, i as int, a2);
                    }
                }
                return j;
            }
            proof {
                assert forall|c1: int|
                    i < c1 <= len && #[trigger] hay.is_boundary(c1) implies accepts_codeword_before(
                    hay,
                    self.accepts(),
                    c1,
                ) by {
                    if c1 <= j {
                        assert(c1 == j);
                        assert forall|a2: int| #[trigger]
                            is_prev_boundary(hay, c1, a2) implies self.accepts()(
                            char_in(hay.spec_bytes(), a2, c1),
                        ) by {
                            lemma_prev_boundary_unique(hay, c1, i as int, a2);
                        }
                    }
                }
            }
            j = i;
        }
        j
    }
}

proof fn lemma_valid_utf8_suffix(a: Seq<u8>, b: Seq<u8>)
    requires
        vstd::utf8::valid_utf8(a),
        vstd::utf8::valid_utf8(a + b),
    ensures
        vstd::utf8::valid_utf8(b),
    decreases a.len(),
{
    if a.len() == 0 {
        assert(a + b =~= b);
    } else {
        let ab = a + b;
        let l = vstd::utf8::length_of_first_scalar(a);
        assert(ab[0] == a[0]);
        assert(l <= a.len());
        assert forall|k: int| 0 <= k < l implies ab[k] == a[k] by {}
        assert(vstd::utf8::length_of_first_scalar(ab) == l);
        assert(vstd::utf8::pop_first_scalar(ab) =~= vstd::utf8::pop_first_scalar(a) + b);
        lemma_valid_utf8_suffix(vstd::utf8::pop_first_scalar(a), b);
    }
}

/// An occurrence of well-formed text in well-formed text starts and ends on
/// character boundaries.
pub proof fn lemma_text_match_aligned(hay: &str, x: Seq<u8>, i: int)
    requires
        vstd::utf8::valid_utf8(x),
        x.len() > 0,
        occurs_at(hay.spec_bytes(), x, i),
    ensures
        hay.is_boundary(i),
        hay.is_boundary(i + x.len()),
{
    let h = hay.spec_bytes();
    let n = x.len() as int;
    encode_utf8_valid_utf8(hay@);
    is_char_boundary_start_end_of_seq(x);
    is_char_boundary_start_end_of_seq(h);
    is_char_boundary_iff_not_is_continuation_byte(x, 0);
    assert(h[i + 0] == x[0]);
    is_char_boundary_iff_not_is_continuation_byte(h, i);
    valid_utf8_split(h, i);
    let rest = h.subrange(i, h.len() as int);
    let tail = h.subrange(i + n, h.len() as int);
    assert(rest =~= x + tail) by {
        assert forall|k: int| 0 <= k < n implies rest[k] == x[k] by {
            assert(h[i + k] == x[k]);
        }
    }
    lemma_valid_utf8_suffix(x, tail);
    if i + n < h.len() {
        is_char_boundary_start_end_of_seq(tail);
        is_char_boundary_iff_not_is_continuation_byte(tail, 0);
        is_char_boundary_iff_not_is_continuation_byte(h, i + n);
        assert(tail[0] == h[i + n]);
    }
}

proof fn lemma_trimmed_from_aligned(hay: &str, x: Seq<u8>, i: int)
    requires
        vstd::utf8::valid_utf8(x),
        hay.is_boundary(i),
    ensures
        hay.is_boundary(trimmed_from(hay.spec_bytes(), x, i)),
    decreases hay.spec_bytes().len() - i,
{
    hay.lemma_boundaries();
    if x.len() == 0 || i < 0 || !occurs_at(hay.spec_bytes(), x, i) {
    } else {
        lemma_text_match_aligned(hay, x, i);
        lemma_trimmed_from_aligned(hay, x, i + x.len());
    }
}

proof fn lemma_rtrimmed_from_aligned(hay: &str, x: Seq<u8>, j: int)
    requires
        vstd::utf8::valid_utf8(x),
        hay.is_boundary(j),
    ensures
        hay.is_boundary(rtrimmed_from(hay.spec_bytes(), x, j)),
    decreases j,
{
    if x.len() == 0 || j < x.len() || !occurs_at(hay.spec_bytes(), x, j - x.len()) {
    } else {
        lemma_text_match_aligned(hay, x, j - x.len());
        lemma_rtrimmed_from_aligned(hay, x, j - x.len());
    }
}

/// The same range of the text's bytes.
pub(crate) fn byte_span<'h>(span: Span<'h, str>) -> (r: Span<'h, [u8]>)
    requires
        span.wf(),
    ensures
        r.wf(),
        r.hay@ == span.hay.spec_bytes(),
        r.range == span.range,
{
    proof {
        span.hay.lemma_boundaries();
    }
    let (hay, range) = span.into_parts();
    Span::from_parts(hay.as_bytes(), range)
}

impl<'p> SliceChecker<'p, u8> {
    /// The checker of a text needle, which compares its encoded bytes.
    pub fn new_str(needle: &'p str) -> (r: Self)
        ensures
            r.needle_view() == needle.spec_bytes(),
            vstd::utf8::valid_utf8(r.needle_view()),
    {
        proof {
            encode_utf8_valid_utf8(needle@);
        }
        SliceChecker::new(needle.as_bytes())
    }

    /// Where the needle ends when it stands at the front of the text span.
    pub fn consume_str(&mut self, span: Span<'_, str>) -> (r: Option<usize>)
        requires
            span.wf(),
            vstd::utf8::valid_utf8(old(self).needle_view()),
        ensures
            *final(self) == *old(self),
            r is Some ==> span.hay.is_boundary(r->0 as int),
            r == (if span.range.start + old(self).needle_view().len() <= span.range.end
                && occurs_at(span.hay.spec_bytes(), old(self).needle_view(), span.range.start as int) {
                Some((span.range.start + old(self).needle_view().len()) as usize)
            } else {
                None
            }),
    {
        let ghost hay = span.hay;
        let ghost range = span.range;
        let r = self.consume(byte_span(span));
        proof {
            if r is Some && self.needle_view().len() > 0 {
                lemma_text_match_aligned(hay, self.needle_view(), range.start as int);
            }
        }
        r
    }

    /// Where the needle starts when it stands at the back of the text span.
    pub fn rconsume_str(&mut self, span: Span<'_, str>) -> (r: Option<usize>)
        requires
            span.wf(),
            vstd::utf8::valid_utf8(old(self).needle_view()),
        ensures
            *final(self) == *old(self),
            r is Some ==> span.hay.is_boundary(r->0 as int),
            r == (if span.range.start + old(self).needle_view().len() <= span.range.end
                && occurs_at(
                span.hay.spec_bytes(),
                old(self).needle_view(),
                span.range.end - old(self).needle_view().len(),
            ) {
                Some((span.range.end - old(self).needle_view().len()) as usize)
            } else {
                None
            }),
    {
        let ghost hay = span.hay;
        let ghost range = span.range;
        let r = self.rconsume(byte_span(span));
        proof {
            if r is Some && self.needle_view().len() > 0 {
                lemma_text_match_aligned(hay, self.needle_view(), r->0 as int);
            }
        }
        r
    }

    /// Removes copies of the needle from the front of the text and returns
    /// the byte offset where the rest starts.
    pub fn trim_start_str(&mut self, hay: &str) -> (r: usize)
        requires
            vstd::utf8::valid_utf8(old(self).needle_view()),
        ensures
            *final(self) == *old(self),
            r == trimmed_from(hay.spec_bytes(), old(self).needle_view(), 0),
            hay.is_boundary(r as int),
    {
        proof {
            hay.lemma_boundaries();
            lemma_trimmed_from_aligned(hay, self.needle_view(), 0);
        }
        self.trim_start(hay.as_bytes())
    }

    /// Removes copies of the needle from the back of the text and returns the
    /// byte offset where the rest ends.
    pub fn trim_end_str(&mut self, hay: &str) -> (r: usize)
        requires
            vstd::utf8::valid_utf8(old(self).needle_view()),
        ensures
            *final(self) == *old(self),
            r == rtrimmed_from(
                hay.spec_bytes(),
                old(self).needle_view(),
                hay.spec_bytes().len() as int,
            ),
            hay.is_boundary(r as int),
    {
        proof {
            hay.lemma_boundaries();
            lemma_rtrimmed_from_aligned(hay, self.needle_view(), hay.hay_len());
        }
        self.trim_end(hay.as_bytes())
    }
}

} // verus!
