//! The searcher capability tiers (forward, reverse, double-ended) and the
//! patterns that produce searchers.

use crate::element::Element;
use crate::empty::{empty_at, is_next_boundary, is_prev_boundary, EmptySearcher};
use crate::single::{is_pure_predicate, ElementSearcher, PredicateSearcher};
use crate::slice::SliceSearcher;
use crate::span::{occurs_at, Hay, Span};
use vstd::string::StringSliceAdditionalSpecFns;
use core::ops::Range;
use vstd::prelude::*;

verus! {

/// `r` lies within `span_range` and between codewords of `hay`.
pub open spec fn range_within<A: Hay + ?Sized>(
    hay: &A,
    span_range: Range<usize>,
    r: Option<Range<usize>>,
) -> bool {
    match r {
        Some(m) => {
            &&& span_range.start <= m.start <= m.end <= span_range.end
            &&& hay.is_boundary(m.start as int)
            &&& hay.is_boundary(m.end as int)
        },
        None => true,
    }
}

/// `r` is an index within `span_range` and between codewords of `hay`.
pub open spec fn index_within<A: Hay + ?Sized>(hay: &A, span_range: Range<usize>, r: Option<
    usize,
>) -> bool {
    match r {
        Some(e) => span_range.start <= e <= span_range.end && hay.is_boundary(e as int),
        None => true,
    }
}

/// A searcher of non-overlapping matches of a pattern from the front of a
/// hay.
pub trait Searcher<A: Hay + ?Sized>: Sized {
    /// The searcher's state is consistent.
    spec fn searcher_wf(&self) -> bool;

    /// What `consume` returns on the span of `hay` restricted to `range`.
    spec fn consume_spec(&self, hay: &A, range: Range<usize>) -> Option<usize>;

    /// `m` is a match of the pattern in `hay`.
    spec fn is_match(&self, hay: &A, m: Range<usize>) -> bool;

    /// The first range of the span in which the pattern is found. A match
    /// at the span's start itself may be passed over (the empty pattern does
    /// so once it has reported it).
    fn search(&mut self, span: Span<'_, A>) -> (r: Option<Range<usize>>)
        requires
            old(self).searcher_wf(),
            span.wf(),
        ensures
            final(self).searcher_wf(),
            range_within(span.hay, span.range, r),
            match r {
                Some(m) => {
                    &&& old(self).is_match(span.hay, m)
                    &&& forall|m2: Range<usize>|
                        span.range.start < m2.start < m.start && m2.end <= span.range.end
                            ==> !#[trigger] old(self).is_match(span.hay, m2)
                },
                None => forall|m2: Range<usize>|
                    span.range.start < m2.start && m2.end <= span.range.end ==> !#[trigger] old(
                        self,
                    ).is_match(span.hay, m2),
            },
    ;

    /// Where the pattern ends when it is found at the start of the span.
    fn consume(&mut self, span: Span<'_, A>) -> (r: Option<usize>)
        requires
            old(self).searcher_wf(),
            span.wf(),
        ensures
            *final(self) == *old(self),
            r == old(self).consume_spec(span.hay, span.range),
            index_within(span.hay, span.range, r),
    ;

    /// Where the hay starts once every prefix that matches is removed: by
    /// default, consumes matches until one is empty or none is left.
    fn trim_start(&mut self, hay: &A) -> (r: usize)
        requires
            old(self).searcher_wf(),
        ensures
            *final(self) == *old(self),
            hay.is_boundary(r as int),
            match old(self).consume_spec(hay, r..(hay.hay_len() as usize)) {
                Some(p) => p == r,
                None => true,
            },
            exists|chain: Seq<usize>|
                {
                    &&& chain.len() >= 1
                    &&& chain[0] == 0
                    &&& chain.last() == r
                    &&& forall|k: int|
                        0 <= k < chain.len() - 1 ==> #[trigger] old(
                            self,
                        ).consume_spec(hay, (Range { start: chain[k], end: hay.hay_len() as usize })) == Some(
                            chain[k + 1],
                        )
                },
    {
        let ghost s0 = *self;
        proof {
            hay.lemma_boundaries();
        }
        let mut offset = hay.start_index();
        let mut span = Span::from_hay(hay);
        let ghost mut chain: Seq<usize> = seq![0usize];
        loop
            invariant
                *self == *old(self),
                s0 == *old(self),
                self.searcher_wf(),
                span.wf(),
                span.hay == hay,
                span.range.end == hay.hay_len(),
                offset == span.range.start,
                chain.len() >= 1,
                chain[0] == 0,
                chain.last() == offset,
                forall|k: int|
                    0 <= k < chain.len() - 1 ==> #[trigger] s0.consume_spec(
                        hay,
                        (Range { start: chain[k], end: hay.hay_len() as usize }),
                    ) == Some(chain[k + 1]),
            decreases span.range.end - span.range.start,
        {
            let (start, end) = (span.range.start, span.range.end);
            assert(span.range == (start..end));
            proof {
                assert(chain[0] == 0 && chain.last() == offset);
            }
            match self.consume(span) {
                Some(pos) => {
                    if pos == start {
                        proof {
                            assert({
                            &&& chain.len() >= 1
                            &&& chain[0] == 0
                            &&& chain.last() == offset
                            &&& forall|k: int|
                                0 <= k < chain.len() - 1 ==> #[trigger] s0.consume_spec(hay, (Range { start: chain[k], end: hay.hay_len() as usize })) == Some(
                                    chain[k + 1],
                                )
                        });
                        }
                        return offset;
                    }
                    proof {
                        let old_chain = chain;
                        chain = chain.push(pos);
                        assert forall|k: int| 0 <= k < chain.len() - 1 implies #[trigger] s0.consume_spec(
                            hay,
                            (Range { start: chain[k], end: hay.hay_len() as usize }),
                        ) == Some(chain[k + 1]) by {
                            if k < old_chain.len() - 1 {
                                assert(chain[k] == old_chain[k] && chain[k + 1] == old_chain[k + 1]);
                            } else {
                                assert(chain[k] == start && chain[k + 1] == pos);
                                assert(end == hay.hay_len());
                            }
                        }
                    }
                    offset = pos;
                    span = Span::from_parts(hay, pos..end);
                },
                None => {
                    proof {
                        assert({
                            &&& chain.len() >= 1
                            &&& chain[0] == 0
                            &&& chain.last() == offset
                            &&& forall|k: int|
                                0 <= k < chain.len() - 1 ==> #[trigger] s0.consume_spec(hay, (Range { start: chain[k], end: hay.hay_len() as usize })) == Some(
                                    chain[k + 1],
                                )
                        });
                    }
                    return offset;
                },
            }
        }
    }
}

/// A searcher that can also search from the back of a hay.
pub trait ReverseSearcher<A: Hay + ?Sized>: Searcher<A> {
    /// What `rconsume` returns on the span of `hay` restricted to `range`.
    spec fn rconsume_spec(&self, hay: &A, range: Range<usize>) -> Option<usize>;

    /// The last range of the span in which the pattern is found. A match
    /// at the span's end itself may be passed over (the empty pattern does so
    /// once it has reported it).
    fn rsearch(&mut self, span: Span<'_, A>) -> (r: Option<Range<usize>>)
        requires
            old(self).searcher_wf(),
            span.wf(),
        ensures
            final(self).searcher_wf(),
            range_within(span.hay, span.range, r),
            match r {
                Some(m) => {
                    &&& old(self).is_match(span.hay, m)
                    &&& forall|m2: Range<usize>|
                        m.end < m2.end < span.range.end && span.range.start <= m2.start
                            ==> !#[trigger] old(self).is_match(span.hay, m2)
                },
                None => forall|m2: Range<usize>|
                    m2.end < span.range.end && span.range.start <= m2.start ==> !#[trigger] old(
                        self,
                    ).is_match(span.hay, m2),
            },
    ;

    /// Where the pattern starts when it is found at the end of the span.
    fn rconsume(&mut self, span: Span<'_, A>) -> (r: Option<usize>)
        requires
            old(self).searcher_wf(),
            span.wf(),
        ensures
            *final(self) == *old(self),
            r == old(self).rconsume_spec(span.hay, span.range),
            index_within(span.hay, span.range, r),
    ;

    /// Where the hay ends once every suffix that matches is removed: by
    /// default, consumes matches from the back until one is empty or none is
    /// left.
    fn trim_end(&mut self, hay: &A) -> (r: usize)
        requires
            old(self).searcher_wf(),
        ensures
            *final(self) == *old(self),
            hay.is_boundary(r as int),
            match old(self).rconsume_spec(hay, 0..r) {
                Some(p) => p == r,
                None => true,
            },
            exists|chain: Seq<usize>|
                {
                    &&& chain.len() >= 1
                    &&& chain[0] == hay.hay_len()
                    &&& chain.last() == r
                    &&& forall|k: int|
                        0 <= k < chain.len() - 1 ==> #[trigger] old(
                            self,
                        ).rconsume_spec(hay, (Range { start: 0usize, end: chain[k] })) == Some(chain[k + 1])
                },
    {
        let ghost s0 = *self;
        proof {
            hay.lemma_boundaries();
        }
        let mut offset = hay.end_index();
        let mut span = Span::from_hay(hay);
        let ghost mut chain: Seq<usize> = seq![offset];
        loop
            invariant
                *self == *old(self),
                s0 == *old(self),
                self.searcher_wf(),
                span.wf(),
                span.hay == hay,
                span.range.start == 0,
                offset == span.range.end,
                chain.len() >= 1,
                chain[0] == hay.hay_len(),
                chain.last() == offset,
                forall|k: int|
                    0 <= k < chain.len() - 1 ==> #[trigger] s0.rconsume_spec(
                        hay,
                        (Range { start: 0usize, end: chain[k] }),
                    ) == Some(chain[k + 1]),
            decreases span.range.end - span.range.start,
        {
            let (start, end) = (span.range.start, span.range.end);
            assert(span.range == (start..end));
            proof {
                assert(chain[0] == hay.hay_len() && chain.last() == offset);
            }
            match self.rconsume(span) {
                Some(pos) => {
                    if pos == end {
                        proof {
                            assert({
                            &&& chain.len() >= 1
                            &&& chain[0] == hay.hay_len()
                            &&& chain.last() == offset
                            &&& forall|k: int|
                                0 <= k < chain.len() - 1 ==> #[trigger] s0.rconsume_spec(hay, (Range { start: 0usize, end: chain[k] })) == Some(chain[k + 1])
                        });
                        }
                        return offset;
                    }
                    proof {
                        let old_chain = chain;
                        chain = chain.push(pos);
                        assert forall|k: int| 0 <= k < chain.len() - 1 implies #[trigger] s0.rconsume_spec(hay, (Range { start: 0usize, end: chain[k] })) == Some(
                            chain[k + 1],
                        ) by {
                            if k < old_chain.len() - 1 {
                                assert(chain[k] == old_chain[k] && chain[k + 1] == old_chain[k + 1]);
                            }
                        }
                    }
                    offset = pos;
                    span = Span::from_parts(hay, start..pos);
                },
                None => {
                    proof {
                        assert({
                            &&& chain.len() >= 1
                            &&& chain[0] == hay.hay_len()
                            &&& chain.last() == offset
                            &&& forall|k: int|
                                0 <= k < chain.len() - 1 ==> #[trigger] s0.rconsume_spec(hay, (Range { start: 0usize, end: chain[k] })) == Some(chain[k + 1])
                        });
                    }
                    return offset;
                },
            }
        }
    }
}

/// A searcher whose forward and reverse enumerations of matches are exact
/// reverses of each other, so that trimming both ends may happen in either
/// order.
pub trait DoubleEndedSearcher<A: Hay + ?Sized>: ReverseSearcher<A> {
    /// Two matches that start at different places do not overlap: the
    /// matches form one sequence, which a forward enumeration finds in order
    /// and a reverse one in the opposite order.
    proof fn lemma_matches_disjoint(&self, hay: &A, m1: Range<usize>, m2: Range<usize>)
        requires
            self.is_match(hay, m1),
            self.is_match(hay, m2),
            m1.start < m2.start,
        ensures
            m1.end <= m2.start,
    ;
}

/// A pattern: a value that can be turned into a searcher.
pub trait Pattern<A: Hay + ?Sized>: Sized {
    type Searcher: Searcher<A>;

    /// A searcher for `search` and `rsearch`.
    fn into_searcher(self) -> (r: Self::Searcher)
        ensures
            r.searcher_wf(),
    ;

    /// A searcher for `consume`, `rconsume` and trimming.
    fn into_consumer(self) -> (r: Self::Searcher)
        ensures
            r.searcher_wf(),
    ;
}

impl<A: Hay + ?Sized> Searcher<A> for EmptySearcher {
    open spec fn searcher_wf(&self) -> bool {
        true
    }

    open spec fn consume_spec(&self, hay: &A, range: Range<usize>) -> Option<usize> {
        Some(range.start)
    }

    open spec fn is_match(&self, hay: &A, m: Range<usize>) -> bool {
        m.start == m.end && hay.is_boundary(m.start as int)
    }

    fn search(&mut self, span: Span<'_, A>) -> (r: Option<Range<usize>>) {
        proof {
            span.hay.lemma_boundaries();
        }
        let ghost hay = span.hay;
        let ghost range = span.range;
        let ghost fresh = !self.has_consumed_start();
        let r = EmptySearcher::search(self, span);
        proof {
            if r is Some && !fresh {
                let j = choose|j: int|
                    is_next_boundary(hay, range.start as int, j) && #[trigger] empty_at(r, j);
                assert(empty_at(r, j));
            }
        }
        r
    }

    fn consume(&mut self, span: Span<'_, A>) -> (r: Option<usize>) {
        EmptySearcher::consume(self, span)
    }

    fn trim_start(&mut self, hay: &A) -> (r: usize) {
        proof {
            hay.lemma_boundaries();
            let chain = seq![0usize];
            assert(chain[0] == 0 && chain.last() == 0);
        }
        EmptySearcher::trim_start(self, hay)
    }
}

impl<A: Hay + ?Sized> ReverseSearcher<A> for EmptySearcher {
    open spec fn rconsume_spec(&self, hay: &A, range: Range<usize>) -> Option<usize> {
        Some(range.end)
    }

    fn rsearch(&mut self, span: Span<'_, A>) -> (r: Option<Range<usize>>) {
        proof {
            span.hay.lemma_boundaries();
        }
        let ghost hay = span.hay;
        let ghost range = span.range;
        let ghost fresh = !self.has_consumed_end();
        let r = EmptySearcher::rsearch(self, span);
        proof {
            if r is Some && !fresh {
                let j = choose|j: int|
                    is_prev_boundary(hay, range.end as int, j) && #[trigger] empty_at(r, j);
                assert(empty_at(r, j));
            }
        }
        r
    }

    fn rconsume(&mut self, span: Span<'_, A>) -> (r: Option<usize>) {
        EmptySearcher::rconsume(self, span)
    }

    fn trim_end(&mut self, hay: &A) -> (r: usize) {
        proof {
            hay.lemma_boundaries();
        }
        let r = EmptySearcher::trim_end(self, hay);
        proof {
            let chain = seq![r];
            assert(chain[0] == hay.hay_len() && chain.last() == r);
        }
        r
    }
}

impl<A: Hay + ?Sized> DoubleEndedSearcher<A> for EmptySearcher {
    proof fn lemma_matches_disjoint(&self, hay: &A, m1: Range<usize>, m2: Range<usize>) {
    }
}

impl<T: Element> Searcher<[T]> for ElementSearcher<T> {
    open spec fn searcher_wf(&self) -> bool {
        true
    }

    open spec fn is_match(&self, hay: &[T], m: Range<usize>) -> bool {
        m.end == m.start + 1 && m.start < hay@.len() && hay@[m.start as int] == self.elem_view()
    }

    open spec fn consume_spec(&self, hay: &[T], range: Range<usize>) -> Option<usize> {
        if range.start < range.end && hay@[range.start as int] == self.elem_view() {
            Some((range.start + 1) as usize)
        } else {
            None
        }
    }

    fn search(&mut self, span: Span<'_, [T]>) -> (r: Option<Range<usize>>) {
        let ghost hay = span.hay;
        let ghost range = span.range;
        let r = ElementSearcher::search(self, span);
        proof {
            assert(*self == *old(self));
            if r is Some {
                let m = r->0;
                assert forall|m2: Range<usize>|
                    range.start < m2.start < m.start && m2.end <= range.end implies !#[trigger] self.is_match(
                    hay,
                    m2,
                ) by {
                    if m2.end == m2.start + 1 && m2.start < hay@.len() {
                        assert(!self.accepts()(hay@[m2.start as int]));
                        assert(self.accepts()(hay@[m2.start as int]) == (hay@[m2.start as int]
                            == self.elem_view()));
                    }
                }
                assert(range.end <= hay@.len());
                assert(m.start < hay@.len() && m.end == m.start + 1);
                assert(self.accepts()(hay@[m.start as int]));
                assert(hay@[m.start as int] == self.elem_view());
                assert(self.is_match(hay, m));
            } else {
                assert forall|m2: Range<usize>|
                    range.start < m2.start && m2.end <= range.end implies !#[trigger] self.is_match(
                    hay,
                    m2,
                ) by {
                    if m2.end == m2.start + 1 && m2.start < hay@.len() {
                        assert(!self.accepts()(hay@[m2.start as int]));
                    }
                }
            }
        }
        r
    }

    fn consume(&mut self, span: Span<'_, [T]>) -> (r: Option<usize>) {
        ElementSearcher::consume(self, span)
    }
}

impl<T: Element> ReverseSearcher<[T]> for ElementSearcher<T> {
    open spec fn rconsume_spec(&self, hay: &[T], range: Range<usize>) -> Option<usize> {
        if range.start < range.end && hay@[range.end - 1] == self.elem_view() {
            Some((range.end - 1) as usize)
        } else {
            None
        }
    }

    fn rsearch(&mut self, span: Span<'_, [T]>) -> (r: Option<Range<usize>>) {
        let ghost hay = span.hay;
        let ghost range = span.range;
        let r = ElementSearcher::rsearch(self, span);
        proof {
            if r is Some {
                let m = r->0;
                assert forall|m2: Range<usize>|
                    m.end < m2.end < range.end && range.start <= m2.start implies !#[trigger] self.is_match(
                    hay,
                    m2,
                ) by {
                    if m2.end == m2.start + 1 && m2.start < hay@.len() {
                        assert(!self.accepts()(hay@[m2.start as int]));
                        assert(self.accepts()(hay@[m2.start as int]) == (hay@[m2.start as int]
                            == self.elem_view()));
                    }
                }
                assert(range.end <= hay@.len());
                assert(m.start < hay@.len() && m.end == m.start + 1);
                assert(self.accepts()(hay@[m.start as int]));
                assert(hay@[m.start as int] == self.elem_view());
                assert(self.is_match(hay, m));
            } else {
                assert forall|m2: Range<usize>|
                    m2.end < range.end && range.start <= m2.start implies !#[trigger] self.is_match(
                    hay,
                    m2,
                ) by {
                    if m2.end == m2.start + 1 && m2.start < hay@.len() {
                        assert(!self.accepts()(hay@[m2.start as int]));
                    }
                }
            }
        }
        r
    }

    fn rconsume(&mut self, span: Span<'_, [T]>) -> (r: Option<usize>) {
        ElementSearcher::rconsume(self, span)
    }
}

impl<T: Element> DoubleEndedSearcher<[T]> for ElementSearcher<T> {
    proof fn lemma_matches_disjoint(&self, hay: &[T], m1: Range<usize>, m2: Range<usize>) {
    }
}

impl<T: Copy, F: Fn(T) -> bool> Searcher<[T]> for PredicateSearcher<F> {
    open spec fn searcher_wf(&self) -> bool {
        is_pure_predicate(self.pred_view())
    }

    open spec fn is_match(&self, hay: &[T], m: Range<usize>) -> bool {
        m.end == m.start + 1 && m.start < hay@.len() && self.accepts()(hay@[m.start as int])
    }

    open spec fn consume_spec(&self, hay: &[T], range: Range<usize>) -> Option<usize> {
        if range.start < range.end && self.accepts()(hay@[range.start as int]) {
            Some((range.start + 1) as usize)
        } else {
            None
        }
    }

    fn search(&mut self, span: Span<'_, [T]>) -> (r: Option<Range<usize>>) {
        PredicateSearcher::search(self, span)
    }

    fn consume(&mut self, span: Span<'_, [T]>) -> (r: Option<usize>) {
        PredicateSearcher::consume(self, span)
    }
}

impl<T: Copy, F: Fn(T) -> bool> ReverseSearcher<[T]> for PredicateSearcher<F> {
    open spec fn rconsume_spec(&self, hay: &[T], range: Range<usize>) -> Option<usize> {
        if range.start < range.end && self.accepts()(hay@[range.end - 1]) {
            Some((range.end - 1) as usize)
        } else {
            None
        }
    }

    fn rsearch(&mut self, span: Span<'_, [T]>) -> (r: Option<Range<usize>>) {
        PredicateSearcher::rsearch(self, span)
    }

    fn rconsume(&mut self, span: Span<'_, [T]>) -> (r: Option<usize>) {
        PredicateSearcher::rconsume(self, span)
    }
}

impl<T: Copy, F: Fn(T) -> bool> DoubleEndedSearcher<[T]> for PredicateSearcher<F> {
    proof fn lemma_matches_disjoint(&self, hay: &[T], m1: Range<usize>, m2: Range<usize>) {
    }
}

impl<'p, T: Element> Searcher<[T]> for SliceSearcher<'p, T> {
    open spec fn searcher_wf(&self) -> bool {
        self.wf()
    }

    open spec fn is_match(&self, hay: &[T], m: Range<usize>) -> bool {
        m.end == m.start + self.needle_view().len() && occurs_at(
            hay@,
            self.needle_view(),
            m.start as int,
        )
    }

    open spec fn consume_spec(&self, hay: &[T], range: Range<usize>) -> Option<usize> {
        if range.start + self.needle_view().len() <= range.end && occurs_at(
            hay@,
            self.needle_view(),
            range.start as int,
        ) {
            Some((range.start + self.needle_view().len()) as usize)
        } else {
            None
        }
    }

    fn search(&mut self, span: Span<'_, [T]>) -> (r: Option<Range<usize>>) {
        SliceSearcher::search(self, span)
    }

    fn consume(&mut self, span: Span<'_, [T]>) -> (r: Option<usize>) {
        SliceSearcher::consume(self, span)
    }
}

impl<'p, T: Element> ReverseSearcher<[T]> for SliceSearcher<'p, T> {
    open spec fn rconsume_spec(&self, hay: &[T], range: Range<usize>) -> Option<usize> {
        if range.start + self.needle_view().len() <= range.end && occurs_at(
            hay@,
            self.needle_view(),
            range.end - self.needle_view().len(),
        ) {
            Some((range.end - self.needle_view().len()) as usize)
        } else {
            None
        }
    }

    fn rsearch(&mut self, span: Span<'_, [T]>) -> (r: Option<Range<usize>>) {
        SliceSearcher::rsearch(self, span)
    }

    fn rconsume(&mut self, span: Span<'_, [T]>) -> (r: Option<usize>) {
        SliceSearcher::rconsume(self, span)
    }
}

impl<'p> Searcher<str> for SliceSearcher<'p, u8> {
    open spec fn searcher_wf(&self) -> bool {
        self.wf() && vstd::utf8::valid_utf8(self.needle_view())
    }

    open spec fn is_match(&self, hay: &str, m: Range<usize>) -> bool {
        &&& m.end == m.start + self.needle_view().len()
        &&& occurs_at(hay.spec_bytes(), self.needle_view(), m.start as int)
        &&& hay.is_boundary(m.start as int)
        &&& hay.is_boundary(m.end as int)
    }

    open spec fn consume_spec(&self, hay: &str, range: Range<usize>) -> Option<usize> {
        if range.start + self.needle_view().len() <= range.end && occurs_at(
            hay.spec_bytes(),
            self.needle_view(),
            range.start as int,
        ) {
            Some((range.start + self.needle_view().len()) as usize)
        } else {
            None
        }
    }

    fn search(&mut self, span: Span<'_, str>) -> (r: Option<Range<usize>>) {
        self.search_str(span)
    }

    fn consume(&mut self, span: Span<'_, str>) -> (r: Option<usize>) {
        self.consume_str(span)
    }
}

impl<'p> ReverseSearcher<str> for SliceSearcher<'p, u8> {
    open spec fn rconsume_spec(&self, hay: &str, range: Range<usize>) -> Option<usize> {
        if range.start + self.needle_view().len() <= range.end && occurs_at(
            hay.spec_bytes(),
            self.needle_view(),
            range.end - self.needle_view().len(),
        ) {
            Some((range.end - self.needle_view().len()) as usize)
        } else {
            None
        }
    }

    fn rsearch(&mut self, span: Span<'_, str>) -> (r: Option<Range<usize>>) {
        self.rsearch_str(span)
    }

    fn rconsume(&mut self, span: Span<'_, str>) -> (r: Option<usize>) {
        self.rconsume_str(span)
    }
}

impl<'p, T: Element> Pattern<[T]> for &'p [T] {
    type Searcher = SliceSearcher<'p, T>;

    fn into_searcher(self) -> (r: SliceSearcher<'p, T>) {
        SliceSearcher::new(self)
    }

    fn into_consumer(self) -> (r: SliceSearcher<'p, T>) {
        SliceSearcher::new(self)
    }
}

impl<'p> Pattern<str> for &'p str {
    type Searcher = SliceSearcher<'p, u8>;

    fn into_searcher(self) -> (r: SliceSearcher<'p, u8>) {
        SliceSearcher::new_str(self)
    }

    fn into_consumer(self) -> (r: SliceSearcher<'p, u8>) {
        SliceSearcher::new_str(self)
    }
}

} // verus!
