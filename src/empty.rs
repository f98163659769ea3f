//! The searcher of an empty pattern: it matches the empty range at every
//! codeword boundary.

use crate::span::{Hay, Span};
use crate::single::starts_of;
use core::ops::Range;
use vstd::prelude::*;

verus! {

/// `j` is the first boundary of `hay` after `i`.
pub open spec fn is_next_boundary<A: Hay + ?Sized>(hay: &A, i: int, j: int) -> bool {
    &&& i < j
    &&& hay.is_boundary(j)
    &&& forall|k: int| i < k < j ==> !#[trigger] hay.is_boundary(k)
}

/// `j` is the last boundary of `hay` before `i`.
pub open spec fn is_prev_boundary<A: Hay + ?Sized>(hay: &A, i: int, j: int) -> bool {
    &&& j < i
    &&& hay.is_boundary(j)
    &&& forall|k: int| j < k < i ==> !#[trigger] hay.is_boundary(k)
}

/// The empty range at `i`.
pub open spec fn empty_at(r: Option<Range<usize>>, i: int) -> bool {
    match r {
        Some(m) => m.start == i && m.end == i,
        None => false,
    }
}

/// The boundaries of `hay` in `a..=b`, in increasing order.
pub open spec fn boundaries_between<A: Hay + ?Sized>(hay: &A, a: int, b: int) -> Seq<int>
    decreases b - a + 1,
{
    if b < a {
        Seq::empty()
    } else if hay.is_boundary(b) {
        boundaries_between(hay, a, b - 1).push(b)
    } else {
        boundaries_between(hay, a, b - 1)
    }
}

/// Every range in `v` is empty.
pub open spec fn all_empty(v: Seq<Range<usize>>) -> bool {
    forall|k: int| 0 <= k < v.len() ==> (#[trigger] v[k]).end == v[k].start
}

proof fn lemma_boundaries_skip<A: Hay + ?Sized>(hay: &A, a: int, c: int, b: int)
    requires
        a - 1 <= c <= b,
        forall|k: int| c < k <= b ==> !#[trigger] hay.is_boundary(k),
    ensures
        boundaries_between(hay, a, b) == boundaries_between(hay, a, c),
    decreases b - c,
{
    if c < b {
        lemma_boundaries_skip(hay, a, c, b - 1);
    }
}

proof fn lemma_boundaries_skip_front<A: Hay + ?Sized>(hay: &A, a: int, c: int, b: int)
    requires
        a <= c <= b + 1,
        forall|k: int| a <= k < c ==> !#[trigger] hay.is_boundary(k),
    ensures
        boundaries_between(hay, a, b) == boundaries_between(hay, c, b),
    decreases b - a + 1,
{
    if c <= b {
        lemma_boundaries_skip_front(hay, a, c, b - 1);
    } else if a <= b {
        lemma_boundaries_skip_front(hay, a, c - 1, b - 1);
        assert(boundaries_between(hay, c, b) == Seq::<int>::empty());
        assert(boundaries_between(hay, c - 1, b - 1) == Seq::<int>::empty());
    }
}

proof fn lemma_boundaries_cons<A: Hay + ?Sized>(hay: &A, a: int, b: int)
    requires
        a <= b,
        hay.is_boundary(a),
    ensures
        boundaries_between(hay, a, b) == seq![a] + boundaries_between(hay, a + 1, b),
    decreases b - a,
{
    if a < b {
        lemma_boundaries_cons(hay, a, b - 1);
        assert(boundaries_between(hay, a, b) =~= seq![a] + boundaries_between(hay, a + 1, b));
    } else {
        assert(boundaries_between(hay, a, a - 1) == Seq::<int>::empty());
        assert(boundaries_between(hay, a + 1, a) == Seq::<int>::empty());
        assert(boundaries_between(hay, a, b) =~= seq![a] + boundaries_between(hay, a + 1, b));
    }
}

/// Searcher of an empty pattern.
///
/// It finds every empty range between codewords of a hay: from the front,
/// first the one at the start of the span, then one codeword further on at
/// each call; from the back likewise.
pub struct EmptySearcher {
    consumed_start: bool,
    consumed_end: bool,
}

impl Default for EmptySearcher {
    /// A searcher that has reported nothing yet.
    fn default() -> (r: EmptySearcher)
        ensures
            !r.has_consumed_start(),
            !r.has_consumed_end(),
    {
        EmptySearcher { consumed_start: false, consumed_end: false }
    }
}

impl EmptySearcher {
    /// The forward search has reported the empty range at the span's start.
    pub closed spec fn has_consumed_start(&self) -> bool {
        self.consumed_start
    }

    /// The reverse search has reported the empty range at the span's end.
    pub closed spec fn has_consumed_end(&self) -> bool {
        self.consumed_end
    }

    /// A searcher that has reported nothing yet.
    pub fn new() -> (r: EmptySearcher)
        ensures
            !r.has_consumed_start(),
            !r.has_consumed_end(),
    {
        EmptySearcher { consumed_start: false, consumed_end: false }
    }

    /// The next empty match of `range` from the front, where every index is
    /// a codeword boundary.
    pub fn next(&mut self, range: Range<usize>) -> (r: Option<Range<usize>>)
        requires
            range.start <= range.end,
        ensures
            final(self).has_consumed_start(),
            final(self).has_consumed_end() == old(self).has_consumed_end(),
            !old(self).has_consumed_start() ==> empty_at(r, range.start as int),
            old(self).has_consumed_start() ==> if range.start == range.end {
                r is None
            } else {
                empty_at(r, range.start + 1)
            },
    {
        let mut start = range.start;
        if !self.consumed_start {
            self.consumed_start = true;
        } else if range.start >= range.end {
            return None;
        } else {
            start += 1;
        }
        Some(start..start)
    }

    /// The next empty match of `range` from the back, where every index is
    /// a codeword boundary.
    pub fn next_back(&mut self, range: Range<usize>) -> (r: Option<Range<usize>>)
        requires
            range.start <= range.end,
        ensures
            final(self).has_consumed_end(),
            final(self).has_consumed_start() == old(self).has_consumed_start(),
            !old(self).has_consumed_end() ==> empty_at(r, range.end as int),
            old(self).has_consumed_end() ==> if range.start == range.end {
                r is None
            } else {
                empty_at(r, range.end - 1)
            },
    {
        let mut end = range.end;
        if !self.consumed_end {
            self.consumed_end = true;
        } else if range.start >= range.end {
            return None;
        } else {
            end -= 1;
        }
        Some(end..end)
    }

    /// The next empty match of the span from the front.
    pub fn search<A: Hay + ?Sized>(&mut self, span: Span<'_, A>) -> (r: Option<Range<usize>>)
        requires
            span.wf(),
        ensures
            final(self).has_consumed_start(),
            final(self).has_consumed_end() == old(self).has_consumed_end(),
            !old(self).has_consumed_start() ==> empty_at(r, span.range.start as int),
            old(self).has_consumed_start() ==> if span.range.start == span.range.end {
                r is None
            } else {
                exists|j: int|
                    is_next_boundary(span.hay, span.range.start as int, j) && #[trigger] empty_at(
                        r,
                        j,
                    )
            },
    {
        let (hay, range) = span.into_parts();
        let start = if !self.consumed_start {
            self.consumed_start = true;
            range.start
        } else if range.start == range.end {
            return None;
        } else {
            proof {
                hay.lemma_boundaries();
            }
            let j = hay.next_index(range.start);
            assert(empty_at(Some(j..j), j as int));
            j
        };
        Some(start..start)
    }

    /// Every empty match of the hay, from the front: one at each boundary.
    pub fn match_ranges<A: Hay + ?Sized>(&mut self, hay: &A) -> (r: Vec<Range<usize>>)
        requires
            !old(self).has_consumed_start(),
        ensures
            final(self).has_consumed_start(),
            final(self).has_consumed_end() == old(self).has_consumed_end(),
            all_empty(r@),
            starts_of(r@) == boundaries_between(hay, 0, hay.hay_len()),
    {
        proof {
            hay.lemma_boundaries();
        }
        let len = hay.end_index();
        let mut out: Vec<Range<usize>> = Vec::new();
        let first = self.search(Span::from_hay(hay));
        let mut pos: usize = 0;
        match first {
            Some(m) => {
                pos = m.end;
                out.push(m);
            },
            None => {},
        }
        proof {
            assert(boundaries_between(hay, 0, -1) == Seq::<int>::empty());
            assert(starts_of(out@) =~= boundaries_between(hay, 0, 0));
        }
        loop
            invariant
                pos <= len,
                len == hay.hay_len(),
                hay.is_boundary(len as int),
                hay.is_boundary(pos as int),
                self.has_consumed_start(),
                self.has_consumed_end() == old(self).has_consumed_end(),
                all_empty(out@),
                starts_of(out@) == boundaries_between(hay, 0, pos as int),
            decreases len - pos,
        {
            let span = Span::from_parts(hay, pos..len);
            let found = self.search(span);
            match found {
                Some(m) => {
                    proof {
                        let j = choose|j: int|
                            is_next_boundary(hay, pos as int, j) && #[trigger] empty_at(
                                Some(m),
                                j,
                            );
                        lemma_boundaries_skip(hay, 0, pos as int, j - 1);
                        assert(starts_of(out@.push(m)) =~= starts_of(out@).push(m.start as int));
                    }
                    pos = m.end;
                    out.push(m);
                },
                None => {
                    return out;
                },
            }
        }
    }

    /// Every empty match of the hay, from the back: one at each boundary.
    pub fn rmatch_ranges<A: Hay + ?Sized>(&mut self, hay: &A) -> (r: Vec<Range<usize>>)
        requires
            !old(self).has_consumed_end(),
        ensures
            final(self).has_consumed_end(),
            final(self).has_consumed_start() == old(self).has_consumed_start(),
            all_empty(r@),
            starts_of(r@) == boundaries_between(hay, 0, hay.hay_len()).reverse(),
    {
        proof {
            hay.lemma_boundaries();
        }
        let len = hay.end_index();
        let mut out: Vec<Range<usize>> = Vec::new();
        let last = self.rsearch(Span::from_hay(hay));
        let mut pos: usize = len;
        match last {
            Some(m) => {
                pos = m.start;
                out.push(m);
            },
            None => {},
        }
        proof {
            assert(boundaries_between(hay, len as int, len as int - 1) == Seq::<int>::empty());
            assert(boundaries_between(hay, len as int, len as int) =~= seq![len as int]);
            assert(starts_of(out@) =~= boundaries_between(hay, len as int, len as int).reverse());
        }
        loop
            invariant
                pos <= len,
                len == hay.hay_len(),
                hay.is_boundary(0),
                hay.is_boundary(pos as int),
                self.has_consumed_end(),
                self.has_consumed_start() == old(self).has_consumed_start(),
                all_empty(out@),
                starts_of(out@) == boundaries_between(hay, pos as int, len as int).reverse(),
            decreases pos,
        {
            let span = Span::from_parts(hay, 0..pos);
            let found = self.rsearch(span);
            match found {
                Some(m) => {
                    proof {
                        let j = choose|j: int|
                            is_prev_boundary(hay, pos as int, j) && #[trigger] empty_at(
                                Some(m),
                                j,
                            );
                        lemma_boundaries_skip_front(hay, j + 1, pos as int, len as int);
                        lemma_boundaries_cons(hay, j, len as int);
                        assert(starts_of(out@.push(m)) =~= starts_of(out@).push(m.start as int));
                        assert((seq![j] + boundaries_between(hay, j + 1, len as int)).reverse()
                            =~= boundaries_between(hay, j + 1, len as int).reverse().push(j));
                    }
                    pos = m.start;
                    out.push(m);
                },
                None => {
                    return out;
                },
            }
        }
    }

    /// An empty pattern matches at the front of every span.
    pub fn consume<A: Hay + ?Sized>(&mut self, span: Span<'_, A>) -> (r: Option<usize>)
        ensures
            *final(self) == *old(self),
            r == Some(span.range.start),
    {
        let (_, range) = span.into_parts();
        Some(range.start)
    }

    /// An empty pattern trims nothing.
    pub fn trim_start<A: Hay + ?Sized>(&mut self, hay: &A) -> (r: usize)
        ensures
            *final(self) == *old(self),
            r == 0,
    {
        hay.start_index()
    }

    /// The next empty match of the span from the back.
    pub fn rsearch<A: Hay + ?Sized>(&mut self, span: Span<'_, A>) -> (r: Option<Range<usize>>)
        requires
            span.wf(),
        ensures
            final(self).has_consumed_end(),
            final(self).has_consumed_start() == old(self).has_consumed_start(),
            !old(self).has_consumed_end() ==> empty_at(r, span.range.end as int),
            old(self).has_consumed_end() ==> if span.range.start == span.range.end {
                r is None
            } else {
                exists|j: int|
                    is_prev_boundary(span.hay, span.range.end as int, j) && #[trigger] empty_at(
                        r,
                        j,
                    )
            },
    {
        let (hay, range) = span.into_parts();
        let end = if !self.consumed_end {
            self.consumed_end = true;
            range.end
        } else if range.start == range.end {
            return None;
        } else {
            let j = hay.prev_index(range.end);
            assert(empty_at(Some(j..j), j as int));
            j
        };
        Some(end..end)
    }

    /// An empty pattern matches at the back of every span.
    pub fn rconsume<A: Hay + ?Sized>(&mut self, span: Span<'_, A>) -> (r: Option<usize>)
        ensures
            *final(self) == *old(self),
            r == Some(span.range.end),
    {
        let (_, range) = span.into_parts();
        Some(range.end)
    }

    /// An empty pattern trims nothing.
    pub fn trim_end<A: Hay + ?Sized>(&mut self, hay: &A) -> (r: usize)
        ensures
            *final(self) == *old(self),
            r == hay.hay_len(),
    {
        hay.end_index()
    }
}

} // verus!
