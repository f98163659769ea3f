//! Spans: a hay together with the part of it that a search is restricted to,
//! and what it means for a pattern to occur in a hay.

use crate::element::Element;
use core::ops::Range;
use vstd::prelude::*;
use vstd::string::StringSliceAdditionalSpecFns;

verus! {

/// `needle` occurs in `hay` starting at index `i`.
pub open spec fn occurs_at<T>(hay: Seq<T>, needle: Seq<T>, i: int) -> bool {
    &&& 0 <= i
    &&& i + needle.len() <= hay.len()
    &&& forall|k: int| 0 <= k < needle.len() ==> hay[i + k] == #[trigger] needle[k]
}

/// A linearly indexed sequence whose indices are `usize` offsets and whose
/// codeword boundaries are some of the offsets in `0..=len`.
pub trait Hay {
    /// The number of offsets past the start: the hay's end index.
    spec fn hay_len(&self) -> int;

    /// Offset `i` lies between two codewords (or at an end).
    spec fn is_boundary(&self, i: int) -> bool;

    proof fn lemma_boundaries(&self)
        ensures
            self.is_boundary(0),
            self.is_boundary(self.hay_len()),
            forall|i: int| #[trigger] self.is_boundary(i) ==> 0 <= i <= self.hay_len(),
    ;

    fn start_index(&self) -> (r: usize)
        ensures
            r == 0,
    ;

    fn end_index(&self) -> (r: usize)
        ensures
            r == self.hay_len(),
    ;

    /// The boundary after the codeword that starts at `i`.
    fn next_index(&self, i: usize) -> (r: usize)
        requires
            self.is_boundary(i as int),
            i < self.hay_len(),
        ensures
            i < r <= self.hay_len(),
            self.is_boundary(r as int),
            forall|j: int| i < j < r ==> !#[trigger] self.is_boundary(j),
    ;

    /// The boundary before the codeword that ends at `i`.
    fn prev_index(&self, i: usize) -> (r: usize)
        requires
            self.is_boundary(i as int),
            0 < i,
        ensures
            r < i,
            self.is_boundary(r as int),
            forall|j: int| r < j < i ==> !#[trigger] self.is_boundary(j),
    ;
}

/// A slice: every element is a codeword.
impl<T> Hay for [T] {
    open spec fn hay_len(&self) -> int {
        self@.len() as int
    }

    open spec fn is_boundary(&self, i: int) -> bool {
        0 <= i <= self@.len()
    }

    proof fn lemma_boundaries(&self) {
    }

    fn start_index(&self) -> (r: usize) {
        0
    }

    fn end_index(&self) -> (r: usize) {
        self.len()
    }

    fn next_index(&self, i: usize) -> (r: usize) {
        let len = self.len();
        assert(i < len);
        i + 1
    }

    fn prev_index(&self, i: usize) -> (r: usize) {
        i - 1
    }
}

/// UTF-8 text indexed by byte offsets: a codeword is one scalar value.
impl Hay for str {
    open spec fn hay_len(&self) -> int {
        self.spec_bytes().len() as int
    }

    open spec fn is_boundary(&self, i: int) -> bool {
        vstd::utf8::is_char_boundary(self.spec_bytes(), i)
    }

    proof fn lemma_boundaries(&self) {
        vstd::utf8::encode_utf8_valid_utf8(self@);
        vstd::utf8::is_char_boundary_start_end_of_seq(self.spec_bytes());
        assert forall|i: int| #[trigger] self.is_boundary(i) implies 0 <= i <= self.hay_len() by {
            lemma_boundary_in_bounds(self.spec_bytes(), i);
        }
    }

    fn start_index(&self) -> (r: usize) {
        0
    }

    fn end_index(&self) -> (r: usize) {
        self.as_bytes().len()
    }

    fn next_index(&self, i: usize) -> (r: usize) {
        proof {
            self.lemma_boundaries();
        }
        let len = self.as_bytes().len();
        let mut j = i + 1;
        while !self.is_char_boundary(j)
            invariant
                i < j <= self.hay_len(),
                len == self.hay_len(),
                self.is_boundary(self.hay_len()),
                forall|k: int| i < k < j ==> !#[trigger] self.is_boundary(k),
            decreases self.hay_len() - j,
        {
            j += 1;
        }
        j
    }

    fn prev_index(&self, i: usize) -> (r: usize) {
        proof {
            self.lemma_boundaries();
        }
        let mut j = i - 1;
        while !self.is_char_boundary(j)
            invariant
                j < i,
                self.is_boundary(0),
                forall|k: int| j < k < i ==> !#[trigger] self.is_boundary(k),
            decreases j,
        {
            j -= 1;
        }
        j
    }
}

proof fn lemma_boundary_in_bounds(bytes: Seq<u8>, i: int)
    requires
        vstd::utf8::valid_utf8(bytes),
        vstd::utf8::is_char_boundary(bytes, i),
    ensures
        0 <= i <= bytes.len(),
{
}

/// A hay and a range of it that a search is restricted to. Match ranges that
/// a searcher reports are indices of the whole hay.
pub struct Span<'h, A: ?Sized> {
    pub hay: &'h A,
    pub range: Range<usize>,
}

impl<'h, A: Hay + ?Sized> Span<'h, A> {
    /// The range lies within the hay, between codeword boundaries.
    pub open spec fn wf(&self) -> bool {
        &&& self.range.start <= self.range.end
        &&& self.hay.is_boundary(self.range.start as int)
        &&& self.hay.is_boundary(self.range.end as int)
    }

    /// A span over the whole hay.
    pub fn from_hay(hay: &'h A) -> (r: Span<'h, A>)
        ensures
            r.wf(),
            r.hay == hay,
            r.range.start == 0,
            r.range.end == hay.hay_len(),
    {
        proof {
            hay.lemma_boundaries();
        }
        Span { hay, range: hay.start_index()..hay.end_index() }
    }

    /// Reassembles a span from a hay and a range within it.
    pub fn from_parts(hay: &'h A, range: Range<usize>) -> (r: Span<'h, A>)
        requires
            range.start <= range.end,
            hay.is_boundary(range.start as int),
            hay.is_boundary(range.end as int),
        ensures
            r.wf(),
            r.hay == hay,
            r.range == range,
    {
        Span { hay, range }
    }

    /// Splits the span into its hay and its range.
    pub fn into_parts(self) -> (r: (&'h A, Range<usize>))
        ensures
            r.0 == self.hay,
            r.1 == self.range,
    {
        (self.hay, self.range)
    }

    /// The same hay, restricted to `subrange` (indices of the whole hay).
    pub fn slice_unchecked(self, subrange: Range<usize>) -> (r: Span<'h, A>)
        requires
            self.wf(),
            self.range.start <= subrange.start <= subrange.end <= self.range.end,
            self.hay.is_boundary(subrange.start as int),
            self.hay.is_boundary(subrange.end as int),
        ensures
            r.wf(),
            r.hay == self.hay,
            r.range == subrange,
    {
        Span { hay: self.hay, range: subrange }
    }
}

/// Whether two slices hold the same elements.
pub fn slices_equal<T: Element>(x: &[T], y: &[T]) -> (r: bool)
    ensures
        r == (x@ == y@),
{
    if x.len() != y.len() {
        return false;
    }
    let mut i: usize = 0;
    while i < x.len()
        invariant
            x@.len() == y@.len(),
            i <= x@.len(),
            forall|k: int| 0 <= k < i ==> x@[k] == #[trigger] y@[k],
        decreases x@.len() - i,
    {
        if !x[i].same(&y[i]) {
            return false;
        }
        i += 1;
    }
    assert(x@ =~= y@);
    true
}

} // verus!
