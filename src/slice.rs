//! Sub-sequence patterns over slices: the searcher form runs Two-Way (or the
//! empty searcher for an empty needle), the checker form compares directly.

use crate::element::Element;
use crate::empty::{empty_at, is_next_boundary, is_prev_boundary, EmptySearcher};
use crate::span::{occurs_at, slices_equal, Hay, Span};
use crate::text::lemma_text_match_aligned;
use crate::two_way::{no_match_starting, TwoWaySearcher};
use core::ops::Range;
use vstd::prelude::*;
use vstd::string::StringSliceAdditionalSpecFns;

verus! {

/// Where trimming copies of `needle` off the front of `hay`, starting at
/// `i`, stops.
pub open spec fn trimmed_from<T>(hay: Seq<T>, needle: Seq<T>, i: int) -> int
    decreases hay.len() - i,
{
    if needle.len() == 0 || i < 0 || !occurs_at(hay, needle, i) {
        i
    } else {
        trimmed_from(hay, needle, i + needle.len())
    }
}

/// Where trimming copies of `needle` off the back of `hay`, ending at `j`,
/// stops.
pub open spec fn rtrimmed_from<T>(hay: Seq<T>, needle: Seq<T>, j: int) -> int
    decreases j,
{
    if needle.len() == 0 || j < needle.len() || !occurs_at(hay, needle, j - needle.len()) {
        j
    } else {
        rtrimmed_from(hay, needle, j - needle.len())
    }
}

/// Where the gap before the `k`-th range of `v` starts: at the end of the
/// range before it, or at 0.
pub open spec fn gap_start(v: Seq<Range<usize>>, k: int) -> int {
    if k == 0 {
        0
    } else {
        v[k - 1].end as int
    }
}

/// A match range `m` of `needle` inside `range` of `hay`.
pub open spec fn is_match_in<T>(hay: Seq<T>, needle: Seq<T>, range: Range<usize>, m: Range<
    usize,
>) -> bool {
    &&& range.start <= m.start
    &&& m.end == m.start + needle.len()
    &&& m.end <= range.end
    &&& occurs_at(hay, needle, m.start as int)
}

enum SliceSearcherImpl<'p, T> {
    TwoWay(TwoWaySearcher<'p, T>),
    Empty(EmptySearcher),
}

/// The searcher of a sub-sequence pattern.
pub struct SliceSearcher<'p, T>(SliceSearcherImpl<'p, T>);

/// The consumer of a sub-sequence pattern: it checks for the needle at
/// either end of a span.
pub struct SliceChecker<'p, T>(&'p [T]);

impl<'p, T: Element> SliceSearcher<'p, T> {
    /// The needle that is searched for.
    pub closed spec fn needle_view(&self) -> Seq<T> {
        match self.0 {
            SliceSearcherImpl::TwoWay(s) => s.needle_view(),
            SliceSearcherImpl::Empty(_) => Seq::empty(),
        }
    }

    /// The searcher's preprocessing is consistent with its needle.
    pub closed spec fn wf(&self) -> bool {
        match self.0 {
            SliceSearcherImpl::TwoWay(s) => s.wf(),
            SliceSearcherImpl::Empty(_) => true,
        }
    }

    /// How many times the searches have compared an element of the needle
    /// with one of the hay.
    pub closed spec fn comparisons(&self) -> nat {
        match self.0 {
            SliceSearcherImpl::TwoWay(s) => s.comparisons(),
            SliceSearcherImpl::Empty(_) => 0,
        }
    }

    /// The searches' comparisons are bounded by twice the distance they
    /// scan (see `TwoWaySearcher::linear`).
    pub closed spec fn linear(&self) -> bool {
        match self.0 {
            SliceSearcherImpl::TwoWay(s) => s.linear(),
            SliceSearcherImpl::Empty(_) => true,
        }
    }

    /// For an empty needle: the forward search has reported the empty match
    /// at the start of a span.
    pub closed spec fn empty_started(&self) -> bool {
        match self.0 {
            SliceSearcherImpl::TwoWay(_) => false,
            SliceSearcherImpl::Empty(e) => e.has_consumed_start(),
        }
    }

    /// For an empty needle: the reverse search has reported the empty match
    /// at the end of a span.
    pub closed spec fn empty_back_started(&self) -> bool {
        match self.0 {
            SliceSearcherImpl::TwoWay(_) => false,
            SliceSearcherImpl::Empty(e) => e.has_consumed_end(),
        }
    }

    /// The searcher of `needle`: Two-Way, or the empty searcher when the
    /// needle is empty.
    pub fn new(needle: &'p [T]) -> (r: Self)
        ensures
            r.wf(),
            r.needle_view() == needle@,
            r.comparisons() == 0,
            !r.empty_started(),
            !r.empty_back_started(),
    {
        if needle.len() == 0 {
            assert(needle@ =~= Seq::<T>::empty());
            SliceSearcher(SliceSearcherImpl::Empty(EmptySearcher::new()))
        } else {
            SliceSearcher(SliceSearcherImpl::TwoWay(TwoWaySearcher::new(needle)))
        }
    }

    /// Searches the span from the front for the needle.
    pub fn search(&mut self, span: Span<'_, [T]>) -> (r: Option<Range<usize>>)
        requires
            old(self).wf(),
            span.wf(),
        ensures
            final(self).wf(),
            final(self).needle_view() == old(self).needle_view(),
            final(self).empty_started() == (old(self).needle_view().len() == 0),
            final(self).empty_back_started() == old(self).empty_back_started(),
            old(self).needle_view().len() == 0 ==> if old(self).empty_started() {
                if span.range.start == span.range.end {
                    r is None
                } else {
                    r is Some && r->0.start == span.range.start + 1
                }
            } else {
                r is Some && r->0.start == span.range.start
            },
            match r {
                Some(m) => is_match_in(span.hay@, old(self).needle_view(), span.range, m),
                None => true,
            },
            final(self).linear() == old(self).linear(),
            old(self).linear() ==> match r {
                Some(m) => final(self).comparisons() <= old(self).comparisons() + 2 * (m.end - span.range.start),
                None => final(self).comparisons() <= old(self).comparisons() + 2 * (
                span.range.end - span.range.start),
            },
            old(self).needle_view().len() > 0 ==> match r {
                Some(m) => no_match_starting(
                    span.hay@,
                    old(self).needle_view(),
                    span.range.start as int,
                    m.start as int,
                    span.range.end as int,
                ),
                None => no_match_starting(
                    span.hay@,
                    old(self).needle_view(),
                    span.range.start as int,
                    span.range.end as int,
                    span.range.end as int,
                ),
            },
    {
        let (hay, range) = span.into_parts();
        match &mut self.0 {
            SliceSearcherImpl::TwoWay(searcher) => {
                proof {
                    searcher.lemma_needle_nonempty();
                }
                searcher.next(hay, range)
            },
            SliceSearcherImpl::Empty(searcher) => {
                let r = searcher.next(range);
                proof {
                    if r is Some {
                        assert(occurs_at(hay@, Seq::<T>::empty(), r->0.start as int));
                    }
                }
                r
            },
        }
    }

    /// The consumer of the same needle.
    fn checker(&self) -> (r: SliceChecker<'p, T>)
        ensures
            r.needle_view() == self.needle_view(),
    {
        match &self.0 {
            SliceSearcherImpl::TwoWay(s) => SliceChecker(s.needle()),
            SliceSearcherImpl::Empty(_) => {
                let none: &'p [T] = &[];
                assert(none@ =~= Seq::<T>::empty());
                SliceChecker(none)
            },
        }
    }

    /// Where the needle ends when it stands at the front of the span.
    pub fn consume(&mut self, span: Span<'_, [T]>) -> (r: Option<usize>)
        requires
            span.wf(),
        ensures
            *final(self) == *old(self),
            r == (if span.range.start + old(self).needle_view().len() <= span.range.end
                && occurs_at(span.hay@, old(self).needle_view(), span.range.start as int) {
                Some((span.range.start + old(self).needle_view().len()) as usize)
            } else {
                None
            }),
    {
        self.checker().consume(span)
    }

    /// Where the needle starts when it stands at the back of the span.
    pub fn rconsume(&mut self, span: Span<'_, [T]>) -> (r: Option<usize>)
        requires
            span.wf(),
        ensures
            *final(self) == *old(self),
            r == (if span.range.start + old(self).needle_view().len() <= span.range.end
                && occurs_at(
                span.hay@,
                old(self).needle_view(),
                span.range.end - old(self).needle_view().len(),
            ) {
                Some((span.range.end - old(self).needle_view().len()) as usize)
            } else {
                None
            }),
    {
        self.checker().rconsume(span)
    }

    /// Removes copies of the needle from the front of the hay and returns
    /// where the rest starts.
    pub fn trim_start(&mut self, hay: &[T]) -> (r: usize)
        ensures
            *final(self) == *old(self),
            r == trimmed_from(hay@, old(self).needle_view(), 0),
            r <= hay@.len(),
    {
        self.checker().trim_start(hay)
    }

    /// Removes copies of the needle from the back of the hay and returns
    /// where the rest ends.
    pub fn trim_end(&mut self, hay: &[T]) -> (r: usize)
        ensures
            *final(self) == *old(self),
            r == rtrimmed_from(hay@, old(self).needle_view(), hay@.len() as int),
            r <= hay@.len(),
    {
        self.checker().trim_end(hay)
    }

    /// Every match of the needle in the hay, from the front: each search
    /// starts where the previous match ended.
    pub fn match_ranges(&mut self, hay: &[T]) -> (r: Vec<Range<usize>>)
        requires
            old(self).wf(),
            !old(self).empty_started(),
        ensures
            final(self).wf(),
            old(self).linear() ==> final(self).comparisons() <= old(self).comparisons() + 2
                * hay@.len(),
            forall|k: int|
                0 <= k < r@.len() ==> is_match_in(
                    hay@,
                    old(self).needle_view(),
                    0..hay@.len() as usize,
                    #[trigger] r@[k],
                ),
            forall|k: int|
                0 <= k < r@.len() - 1 ==> (#[trigger] r@[k]).end <= r@[k + 1].start && r@[k].start
                    < r@[k + 1].start,
            old(self).needle_view().len() > 0 ==> {
                &&& forall|k: int|
                    0 <= k < r@.len() ==> no_match_starting(
                        hay@,
                        old(self).needle_view(),
                        gap_start(r@, k),
                        (#[trigger] r@[k]).start as int,
                        hay@.len() as int,
                    )
                &&& no_match_starting(
                    hay@,
                    old(self).needle_view(),
                    gap_start(r@, r@.len() as int),
                    hay@.len() as int,
                    hay@.len() as int,
                )
            },
            old(self).needle_view().len() == 0 ==> {
                &&& r@.len() == hay@.len() + 1
                &&& forall|k: int|
                    0 <= k < r@.len() ==> (#[trigger] r@[k]).start == k && r@[k].end == k
            },
    {
        let ghost needle = self.needle_view();
        let len = hay.len();
        let mut out: Vec<Range<usize>> = Vec::new();
        let mut pos: usize = 0;
        loop
            invariant
                self.wf(),
                self.needle_view() == needle,
                needle == old(self).needle_view(),
                pos <= len == hay@.len(),
                self.empty_started() ==> needle.len() == 0,
                needle.len() == 0 && out@.len() > 0 ==> self.empty_started(),
                out@.len() > 0 ==> out@.last().end == pos,
                pos == gap_start(out@, out@.len() as int),
                needle.len() == 0 ==> {
                    &&& out@.len() == (if self.empty_started() {
                        pos + 1
                    } else {
                        0int
                    })
                    &&& forall|k: int|
                        0 <= k < out@.len() ==> (#[trigger] out@[k]).start == k && out@[k].end == k
                },
                self.linear() ==> self.comparisons() <= old(self).comparisons() + 2 * pos,
                self.linear() == old(self).linear(),
                needle.len() > 0 ==> forall|k: int|
                    0 <= k < out@.len() ==> no_match_starting(
                        hay@,
                        needle,
                        gap_start(out@, k),
                        (#[trigger] out@[k]).start as int,
                        hay@.len() as int,
                    ),
                forall|k: int|
                    0 <= k < out@.len() ==> is_match_in(
                        hay@,
                        needle,
                        0..hay@.len() as usize,
                        #[trigger] out@[k],
                    ),
                forall|k: int|
                    0 <= k < out@.len() - 1 ==> (#[trigger] out@[k]).end <= out@[k + 1].start
                        && out@[k].start < out@[k + 1].start,
            decreases len - pos, if self.empty_started() {
                0int
            } else {
                1int
            },
        {
            let span = Span::from_parts(hay, pos..len);
            match self.search(span) {
                Some(m) => {
                    proof {
                        if out@.len() > 0 {
                            assert(out@.last().start <= out@.last().end);
                        }
                        let ghost before = out@;
                        assert forall|k: int| 0 <= k < before.len() implies gap_start(
                            before.push(m),
                            k,
                        ) == gap_start(before, k) && before.push(m)[k] == before[k] by {}
                        assert(gap_start(before.push(m), before.len() as int) == pos);
                    }
                    pos = m.end;
                    out.push(m);
                },
                None => {
                    return out;
                },
            }
        }
    }

    /// Searches the span from the back for the needle.
    pub fn rsearch(&mut self, span: Span<'_, [T]>) -> (r: Option<Range<usize>>)
        requires
            old(self).wf(),
            span.wf(),
        ensures
            final(self).wf(),
            final(self).needle_view() == old(self).needle_view(),
            final(self).empty_back_started() == (old(self).needle_view().len() == 0),
            final(self).empty_started() == old(self).empty_started(),
            old(self).needle_view().len() == 0 ==> if old(self).empty_back_started() {
                if span.range.start == span.range.end {
                    r is None
                } else {
                    r is Some && r->0.start == span.range.end - 1
                }
            } else {
                r is Some && r->0.start == span.range.end
            },
            match r {
                Some(m) => is_match_in(span.hay@, old(self).needle_view(), span.range, m),
                None => true,
            },
            final(self).linear() == old(self).linear(),
            old(self).linear() ==> match r {
                Some(m) => final(self).comparisons() <= old(self).comparisons() + 2 * (span.range.end - m.start),
                None => final(self).comparisons() <= old(self).comparisons() + 2 * (
                span.range.end - span.range.start),
            },
            old(self).needle_view().len() > 0 ==> match r {
                Some(m) => no_match_starting(
                    span.hay@,
                    old(self).needle_view(),
                    m.start + 1,
                    span.range.end as int,
                    span.range.end as int,
                ),
                None => no_match_starting(
                    span.hay@,
                    old(self).needle_view(),
                    span.range.start as int,
                    span.range.end as int,
                    span.range.end as int,
                ),
            },
    {
        let (hay, range) = span.into_parts();
        match &mut self.0 {
            SliceSearcherImpl::TwoWay(searcher) => {
                proof {
                    searcher.lemma_needle_nonempty();
                }
                searcher.next_back(hay, range)
            },
            SliceSearcherImpl::Empty(searcher) => {
                let r = searcher.next_back(range);
                proof {
                    if r is Some {
                        assert(occurs_at(hay@, Seq::<T>::empty(), r->0.start as int));
                    }
                }
                r
            },
        }
    }
}

impl<'p> SliceSearcher<'p, u8> {
    /// The searcher of a text needle: Two-Way on its encoded bytes, or the
    /// empty searcher, which steps from one character boundary to the next.
    pub fn new_str(needle: &'p str) -> (r: Self)
        ensures
            r.wf(),
            r.needle_view() == needle.spec_bytes(),
            vstd::utf8::valid_utf8(r.needle_view()),
            r.comparisons() == 0,
            !r.empty_started(),
            !r.empty_back_started(),
    {
        proof {
            vstd::utf8::encode_utf8_valid_utf8(needle@);
        }
        SliceSearcher::new(needle.as_bytes())
    }

    /// Searches the text span from the front for the needle. The range is in
    /// bytes and lies on character boundaries.
    pub fn search_str(&mut self, span: Span<'_, str>) -> (r: Option<Range<usize>>)
        requires
            old(self).wf(),
            span.wf(),
            vstd::utf8::valid_utf8(old(self).needle_view()),
        ensures
            final(self).wf(),
            final(self).needle_view() == old(self).needle_view(),
            final(self).empty_started() == (old(self).needle_view().len() == 0),
            final(self).empty_back_started() == old(self).empty_back_started(),
            old(self).needle_view().len() == 0 ==> if old(self).empty_started() {
                if span.range.start == span.range.end {
                    r is None
                } else {
                    exists|j: int|
                        is_next_boundary(span.hay, span.range.start as int, j) && #[trigger] empty_at(
                            r,
                            j,
                        )
                }
            } else {
                empty_at(r, span.range.start as int)
            },
            final(self).linear() == old(self).linear(),
            match r {
                Some(m) => {
                    &&& is_match_in(span.hay.spec_bytes(), old(self).needle_view(), span.range, m)
                    &&& span.hay.is_boundary(m.start as int)
                    &&& span.hay.is_boundary(m.end as int)
                },
                None => true,
            },
            old(self).needle_view().len() > 0 ==> match r {
                Some(m) => no_match_starting(
                    span.hay.spec_bytes(),
                    old(self).needle_view(),
                    span.range.start as int,
                    m.start as int,
                    span.range.end as int,
                ),
                None => no_match_starting(
                    span.hay.spec_bytes(),
                    old(self).needle_view(),
                    span.range.start as int,
                    span.range.end as int,
                    span.range.end as int,
                ),
            },
    {
        proof {
            span.hay.lemma_boundaries();
        }
        match &mut self.0 {
            SliceSearcherImpl::TwoWay(searcher) => {
                let (hay, range) = span.into_parts();
                proof {
                    searcher.lemma_needle_nonempty();
                }
                let r = searcher.next(hay.as_bytes(), range);
                proof {
                    if r is Some {
                        lemma_text_match_aligned(hay, old(self).needle_view(), r->0.start as int);
                    }
                }
                r
            },
            SliceSearcherImpl::Empty(searcher) => {
                let ghost hay = span.hay;
                let r = searcher.search(span);
                proof {
                    if r is Some {
                        assert(occurs_at(hay.spec_bytes(), Seq::<u8>::empty(), r->0.start as int));
                    }
                }
                r
            },
        }
    }

    /// Where the needle ends when it stands at the front of the text span.
    pub fn consume_str(&mut self, span: Span<'_, str>) -> (r: Option<usize>)
        requires
            span.wf(),
            vstd::utf8::valid_utf8(old(self).needle_view()),
        ensures
            *final(self) == *old(self),
            r == (if span.range.start + old(self).needle_view().len() <= span.range.end
                && occurs_at(span.hay.spec_bytes(), old(self).needle_view(), span.range.start as int) {
                Some((span.range.start + old(self).needle_view().len()) as usize)
            } else {
                None
            }),
            r is Some ==> span.hay.is_boundary(r->0 as int),
    {
        self.checker().consume_str(span)
    }

    /// Where the needle starts when it stands at the back of the text span.
    pub fn rconsume_str(&mut self, span: Span<'_, str>) -> (r: Option<usize>)
        requires
            span.wf(),
            vstd::utf8::valid_utf8(old(self).needle_view()),
        ensures
            *final(self) == *old(self),
            r == (if span.range.start + old(self).needle_view().len() <= span.range.end
                && occurs_at(
                span.hay.spec_bytes(),
                old(self).needle_view(),
                span.range.end - old(self).needle_view().len(),
            ) {
                Some((span.range.end - old(self).needle_view().len()) as usize)
            } else {
                None
            }),
            r is Some ==> span.hay.is_boundary(r->0 as int),
    {
        self.checker().rconsume_str(span)
    }

    /// Searches the text span from the back for the needle. The range is in
    /// bytes and lies on character boundaries.
    pub fn rsearch_str(&mut self, span: Span<'_, str>) -> (r: Option<Range<usize>>)
        requires
            old(self).wf(),
            span.wf(),
            vstd::utf8::valid_utf8(old(self).needle_view()),
        ensures
            final(self).wf(),
            final(self).needle_view() == old(self).needle_view(),
            final(self).empty_back_started() == (old(self).needle_view().len() == 0),
            final(self).empty_started() == old(self).empty_started(),
            old(self).needle_view().len() == 0 ==> if old(self).empty_back_started() {
                if span.range.start == span.range.end {
                    r is None
                } else {
                    exists|j: int|
                        is_prev_boundary(span.hay, span.range.end as int, j) && #[trigger] empty_at(
                            r,
                            j,
                        )
                }
            } else {
                empty_at(r, span.range.end as int)
            },
            final(self).linear() == old(self).linear(),
            match r {
                Some(m) => {
                    &&& is_match_in(span.hay.spec_bytes(), old(self).needle_view(), span.range, m)
                    &&& span.hay.is_boundary(m.start as int)
                    &&& span.hay.is_boundary(m.end as int)
                },
                None => true,
            },
            old(self).needle_view().len() > 0 ==> match r {
                Some(m) => no_match_starting(
                    span.hay.spec_bytes(),
                    old(self).needle_view(),
                    m.start + 1,
                    span.range.end as int,
                    span.range.end as int,
                ),
                None => no_match_starting(
                    span.hay.spec_bytes(),
                    old(self).needle_view(),
                    span.range.start as int,
                    span.range.end as int,
                    span.range.end as int,
                ),
            },
    {
        proof {
            span.hay.lemma_boundaries();
        }
        match &mut self.0 {
            SliceSearcherImpl::TwoWay(searcher) => {
                let (hay, range) = span.into_parts();
                proof {
                    searcher.lemma_needle_nonempty();
                }
                let r = searcher.next_back(hay.as_bytes(), range);
                proof {
                    if r is Some {
                        lemma_text_match_aligned(hay, old(self).needle_view(), r->0.start as int);
                    }
                }
                r
            },
            SliceSearcherImpl::Empty(searcher) => {
                let ghost hay = span.hay;
                let r = searcher.rsearch(span);
                proof {
                    if r is Some {
                        assert(occurs_at(hay.spec_bytes(), Seq::<u8>::empty(), r->0.start as int));
                    }
                }
                r
            },
        }
    }
}

impl<'p, T: Element> SliceChecker<'p, T> {
    /// The needle that is checked for.
    pub closed spec fn needle_view(&self) -> Seq<T> {
        self.0@
    }

    /// The checker of `needle`; it needs no preprocessing.
    pub fn new(needle: &'p [T]) -> (r: Self)
        ensures
            r.needle_view() == needle@,
    {
        SliceChecker(needle)
    }

    /// The needle occurs in `hay` at `i`.
    fn matches_at(&self, hay: &[T], i: usize) -> (r: bool)
        requires
            i + self.needle_view().len() <= hay@.len(),
        ensures
            r == occurs_at(hay@, self.needle_view(), i as int),
    {
        let n = self.0.len();
        let len = hay.len();
        assert(i + n <= len);
        let window = &hay[i..(i + n)];
        let r = slices_equal(window, self.0);
        proof {
            if r {
                assert forall|k: int| 0 <= k < n implies hay@[i + k] == #[trigger] self.0@[k] by {
                    assert(window@[k] == hay@[i + k]);
                }
            } else {
                if occurs_at(hay@, self.0@, i as int) {
                    assert(window@ =~= self.0@);
                }
            }
        }
        r
    }

    /// The hay starts with the needle.
    pub fn is_prefix_of(self, hay: &[T]) -> (r: bool)
        ensures
            r == occurs_at(hay@, self.needle_view(), 0),
    {
        if self.0.len() > hay.len() {
            return false;
        }
        self.matches_at(hay, 0)
    }

    /// The hay ends with the needle.
    pub fn is_suffix_of(self, hay: &[T]) -> (r: bool)
        ensures
            r == (self.needle_view().len() <= hay@.len() && occurs_at(
                hay@,
                self.needle_view(),
                hay@.len() - self.needle_view().len(),
            )),
    {
        if self.0.len() > hay.len() {
            return false;
        }
        self.matches_at(hay, hay.len() - self.0.len())
    }

    /// Where the needle ends when it stands at the front of the span.
    pub fn consume(&mut self, span: Span<'_, [T]>) -> (r: Option<usize>)
        requires
            span.wf(),
        ensures
            *final(self) == *old(self),
            r == (if span.range.start + old(self).needle_view().len() <= span.range.end
                && occurs_at(span.hay@, old(self).needle_view(), span.range.start as int) {
                Some((span.range.start + old(self).needle_view().len()) as usize)
            } else {
                None
            }),
    {
        let (hay, range) = span.into_parts();
        if range.end - range.start < self.0.len() {
            return None;
        }
        if self.matches_at(hay, range.start) {
            Some(range.start + self.0.len())
        } else {
            None
        }
    }

    /// Where the needle starts when it stands at the back of the span.
    pub fn rconsume(&mut self, span: Span<'_, [T]>) -> (r: Option<usize>)
        requires
            span.wf(),
        ensures
            *final(self) == *old(self),
            r == (if span.range.start + old(self).needle_view().len() <= span.range.end
                && occurs_at(span.hay@, old(self).needle_view(), span.range.end - old(self).needle_view().len()) {
                Some((span.range.end - old(self).needle_view().len()) as usize)
            } else {
                None
            }),
    {
        let (hay, range) = span.into_parts();
        if range.end - range.start < self.0.len() {
            return None;
        }
        let start = range.end - self.0.len();
        if self.matches_at(hay, start) {
            Some(start)
        } else {
            None
        }
    }

    /// Removes copies of the needle from the front of the hay, one after
    /// another, and returns where the rest starts. An empty needle trims
    /// nothing.
    pub fn trim_start(&mut self, hay: &[T]) -> (r: usize)
        ensures
            *final(self) == *old(self),
            r == trimmed_from(hay@, old(self).needle_view(), 0),
            r <= hay@.len(),
    {
        let needle_len = self.0.len();
        if needle_len == 0 {
            return 0;
        }
        let mut i: usize = 0;
        loop
            invariant
                i <= hay@.len(),
                needle_len == self.needle_view().len(),
                needle_len > 0,
                trimmed_from(hay@, self.needle_view(), i as int) == trimmed_from(
                    hay@,
                    self.needle_view(),
                    0,
                ),
            decreases hay@.len() - i,
        {
            if hay.len() - i < needle_len {
                return i;
            }
            if !self.matches_at(hay, i) {
                return i;
            }
            i = i + needle_len;
        }
    }

    /// Removes copies of the needle from the back of the hay, one after
    /// another, and returns where the rest ends. An empty needle trims
    /// nothing.
    pub fn trim_end(&mut self, hay: &[T]) -> (r: usize)
        ensures
            *final(self) == *old(self),
            r == rtrimmed_from(hay@, old(self).needle_view(), hay@.len() as int),
            r <= hay@.len(),
    {
        let needle_len = self.0.len();
        let mut j = hay.len();
        if needle_len == 0 {
            return j;
        }
        loop
            invariant
                j <= hay@.len(),
                needle_len == self.needle_view().len(),
                needle_len > 0,
                rtrimmed_from(hay@, self.needle_view(), j as int) == rtrimmed_from(
                    hay@,
                    self.needle_view(),
                    hay@.len() as int,
                ),
            decreases j,
        {
            if j < needle_len {
                return j;
            }
            if !self.matches_at(hay, j - needle_len) {
                return j;
            }
            j -= needle_len;
        }
    }
}

} // verus!
