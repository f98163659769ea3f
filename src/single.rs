//! Patterns that match one element at a time: a given element, or any
//! element that a predicate accepts. Their searchers are double-ended.

use crate::element::Element;
use crate::span::Span;
use core::ops::Range;
use vstd::prelude::*;

verus! {

/// `r` is where trimming the elements that `p` accepts off the front of `h`
/// stops: all before it are accepted, the one at it is not.
pub open spec fn is_front_trim<T>(h: Seq<T>, p: spec_fn(T) -> bool, r: int) -> bool {
    &&& 0 <= r <= h.len()
    &&& forall|k: int| 0 <= k < r ==> #[trigger] p(h[k])
    &&& r < h.len() ==> !p(h[r])
}

/// `r` is where trimming the elements that `p` accepts off the back of `h`
/// stops: all from it on are accepted, the one before it is not.
pub open spec fn is_back_trim<T>(h: Seq<T>, p: spec_fn(T) -> bool, r: int) -> bool {
    &&& 0 <= r <= h.len()
    &&& forall|k: int| r <= k < h.len() ==> #[trigger] p(h[k])
    &&& r > 0 ==> !p(h[r - 1])
}

/// `m` is the first single-element match of `p` in `range` of `h`.
pub open spec fn is_first_single<T>(h: Seq<T>, p: spec_fn(T) -> bool, range: Range<usize>, m: Range<
    usize,
>) -> bool {
    &&& range.start <= m.start < range.end
    &&& m.end == m.start + 1
    &&& p(h[m.start as int])
    &&& forall|k: int| range.start <= k < m.start ==> !#[trigger] p(h[k])
}

/// `m` is the last single-element match of `p` in `range` of `h`.
pub open spec fn is_last_single<T>(h: Seq<T>, p: spec_fn(T) -> bool, range: Range<usize>, m: Range<
    usize,
>) -> bool {
    &&& range.start <= m.start < range.end
    &&& m.end == m.start + 1
    &&& p(h[m.start as int])
    &&& forall|k: int| m.end <= k < range.end ==> !#[trigger] p(h[k])
}

/// The outcome of a search for single elements that `p` accepts, from the
/// front of `range`.
pub open spec fn single_search_result<T>(h: Seq<T>, p: spec_fn(T) -> bool, range: Range<usize>, r: Option<
    Range<usize>,
>) -> bool {
    match r {
        Some(m) => is_first_single(h, p, range, m),
        None => forall|k: int| range.start <= k < range.end ==> !#[trigger] p(h[k]),
    }
}

/// The outcome of a search for single elements that `p` accepts, from the
/// back of `range`.
pub open spec fn single_rsearch_result<T>(h: Seq<T>, p: spec_fn(T) -> bool, range: Range<usize>, r: Option<
    Range<usize>,
>) -> bool {
    match r {
        Some(m) => is_last_single(h, p, range, m),
        None => forall|k: int| range.start <= k < range.end ==> !#[trigger] p(h[k]),
    }
}

/// The indices in `a..b` of the elements of `h` that `p` accepts, in
/// increasing order.
pub open spec fn accepted_between<T>(h: Seq<T>, p: spec_fn(T) -> bool, a: int, b: int) -> Seq<
    int,
>
    decreases b - a,
{
    if b <= a {
        Seq::empty()
    } else if p(h[b - 1]) {
        accepted_between(h, p, a, b - 1).push(b - 1)
    } else {
        accepted_between(h, p, a, b - 1)
    }
}

/// The starts of a sequence of ranges.
pub open spec fn starts_of(v: Seq<Range<usize>>) -> Seq<int> {
    v.map_values(|m: Range<usize>| m.start as int)
}

/// Every range in `v` holds one element.
pub open spec fn all_single(v: Seq<Range<usize>>) -> bool {
    forall|k: int| 0 <= k < v.len() ==> (#[trigger] v[k]).end == v[k].start + 1
}

proof fn lemma_accepted_skip_back<T>(h: Seq<T>, p: spec_fn(T) -> bool, a: int, c: int, b: int)
    requires
        a <= c <= b,
        forall|k: int| c <= k < b ==> !#[trigger] p(h[k]),
    ensures
        accepted_between(h, p, a, b) == accepted_between(h, p, a, c),
    decreases b - c,
{
    if c < b {
        lemma_accepted_skip_back(h, p, a, c, b - 1);
    }
}

proof fn lemma_accepted_skip_front<T>(h: Seq<T>, p: spec_fn(T) -> bool, a: int, c: int, b: int)
    requires
        a <= c <= b,
        forall|k: int| a <= k < c ==> !#[trigger] p(h[k]),
    ensures
        accepted_between(h, p, a, b) == accepted_between(h, p, c, b),
    decreases b - a,
{
    if c < b {
        lemma_accepted_skip_front(h, p, a, c, b - 1);
    } else if a < b {
        lemma_accepted_skip_front(h, p, a, c - 1, b - 1);
        assert(accepted_between(h, p, c, b) == Seq::<int>::empty());
        assert(accepted_between(h, p, c - 1, b - 1) == Seq::<int>::empty());
    }
}

proof fn lemma_accepted_cons<T>(h: Seq<T>, p: spec_fn(T) -> bool, a: int, b: int)
    requires
        a < b,
        p(h[a]),
    ensures
        accepted_between(h, p, a, b) == seq![a] + accepted_between(h, p, a + 1, b),
    decreases b - a,
{
    if a + 1 < b {
        lemma_accepted_cons(h, p, a, b - 1);
        if p(h[b - 1]) {
            assert(accepted_between(h, p, a, b) =~= seq![a] + accepted_between(h, p, a + 1, b));
        }
    } else {
        assert(accepted_between(h, p, a, a) == Seq::<int>::empty());
        assert(accepted_between(h, p, a, b) =~= seq![a] + accepted_between(h, p, a + 1, b));
    }
}

/// The searcher of a single element.
pub struct ElementSearcher<T> {
    elem: T,
}

impl<T: Element> ElementSearcher<T> {
    /// The element that is searched for.
    pub closed spec fn elem_view(&self) -> T {
        self.elem
    }

    /// What the pattern accepts: the element itself.
    pub open spec fn accepts(&self) -> spec_fn(T) -> bool {
        |x: T| x == self.elem_view()
    }

    /// The searcher of `elem`.
    pub fn new(elem: T) -> (r: Self)
        ensures
            r.elem_view() == elem,
    {
        ElementSearcher { elem }
    }

    /// The first occurrence of the element in the span.
    pub fn search(&mut self, span: Span<'_, [T]>) -> (r: Option<Range<usize>>)
        requires
            span.wf(),
        ensures
            *final(self) == *old(self),
            single_search_result(span.hay@, old(self).accepts(), span.range, r),
    {
        let (hay, range) = span.into_parts();
        let mut i = range.start;
        while i < range.end
            invariant
                range.start <= i <= range.end <= hay@.len(),
                hay@ == span.hay@,
                range == span.range,
                forall|k: int| range.start <= k < i ==> !#[trigger] self.accepts()(hay@[k]),
            decreases range.end - i,
        {
            if hay[i].same(&self.elem) {
                assert(self.accepts()(hay@[i as int]));
                return Some(i..(i + 1));
            }
            i += 1;
        }
        None
    }

    /// The last occurrence of the element in the span.
    pub fn rsearch(&mut self, span: Span<'_, [T]>) -> (r: Option<Range<usize>>)
        requires
            span.wf(),
        ensures
            *final(self) == *old(self),
            single_rsearch_result(span.hay@, old(self).accepts(), span.range, r),
    {
        let (hay, range) = span.into_parts();
        let mut j = range.end;
        while j > range.start
            invariant
                range.start <= j <= range.end <= hay@.len(),
                hay@ == span.hay@,
                range == span.range,
                forall|k: int| j <= k < range.end ==> !#[trigger] self.accepts()(hay@[k]),
            decreases j,
        {
            if hay[j - 1].same(&self.elem) {
                assert(self.accepts()(hay@[j - 1]));
                return Some((j - 1)..j);
            }
            j -= 1;
        }
        None
    }

    /// The end of the element when it stands at the front of the span.
    pub fn consume(&mut self, span: Span<'_, [T]>) -> (r: Option<usize>)
        requires
            span.wf(),
        ensures
            *final(self) == *old(self),
            r == (if span.range.start < span.range.end && span.hay@[span.range.start as int]
                == old(self).elem_view() {
                Some((span.range.start + 1) as usize)
            } else {
                None
            }),
    {
        let (hay, range) = span.into_parts();
        if range.start < range.end && hay[range.start].same(&self.elem) {
            Some(range.start + 1)
        } else {
            None
        }
    }

    /// The start of the element when it stands at the back of the span.
    pub fn rconsume(&mut self, span: Span<'_, [T]>) -> (r: Option<usize>)
        requires
            span.wf(),
        ensures
            *final(self) == *old(self),
            r == (if span.range.start < span.range.end && span.hay@[span.range.end - 1]
                == old(self).elem_view() {
                Some((span.range.end - 1) as usize)
            } else {
                None
            }),
    {
        let (hay, range) = span.into_parts();
        if range.start < range.end && hay[range.end - 1].same(&self.elem) {
            Some(range.end - 1)
        } else {
            None
        }
    }

    /// Every occurrence of the element in the hay, from the front.
    pub fn match_ranges(&mut self, hay: &[T]) -> (r: Vec<Range<usize>>)
        ensures
            *final(self) == *old(self),
            all_single(r@),
            starts_of(r@) == accepted_between(hay@, old(self).accepts(), 0, hay@.len() as int),
    {
        let mut out: Vec<Range<usize>> = Vec::new();
        let mut pos: usize = 0;
        let len = hay.len();
        loop
            invariant
                pos <= len == hay@.len(),
                *self == *old(self),
                all_single(out@),
                starts_of(out@) == accepted_between(hay@, self.accepts(), 0, pos as int),
            decreases len - pos,
        {
            let span = Span::from_parts(hay, pos..len);
            match self.search(span) {
                Some(m) => {
                    proof {
                        lemma_accepted_skip_back(
                            hay@,
                            self.accepts(),
                            0,
                            pos as int,
                            m.start as int,
                        );
                        assert(starts_of(out@.push(m)) =~= starts_of(out@).push(m.start as int));
                    }
                    pos = m.end;
                    out.push(m);
                },
                None => {
                    proof {
                        lemma_accepted_skip_back(hay@, self.accepts(), 0, pos as int, len as int);
                    }
                    return out;
                },
            }
        }
    }

    /// Every occurrence of the element in the hay, from the back.
    pub fn rmatch_ranges(&mut self, hay: &[T]) -> (r: Vec<Range<usize>>)
        ensures
            *final(self) == *old(self),
            all_single(r@),
            starts_of(r@) == accepted_between(
                hay@,
                old(self).accepts(),
                0,
                hay@.len() as int,
            ).reverse(),
    {
        let mut out: Vec<Range<usize>> = Vec::new();
        let mut pos: usize = hay.len();
        let len = hay.len();
        loop
            invariant
                pos <= len == hay@.len(),
                *self == *old(self),
                all_single(out@),
                starts_of(out@) == accepted_between(
                    hay@,
                    self.accepts(),
                    pos as int,
                    len as int,
                ).reverse(),
            decreases pos,
        {
            let span = Span::from_parts(hay, 0..pos);
            match self.rsearch(span) {
                Some(m) => {
                    proof {
                        let p = self.accepts();
                        lemma_accepted_skip_front(hay@, p, m.end as int, pos as int, len as int);
                        lemma_accepted_cons(hay@, p, m.start as int, len as int);
                        assert(starts_of(out@.push(m)) =~= starts_of(out@).push(m.start as int));
                        assert((seq![m.start as int] + accepted_between(
                            hay@,
                            p,
                            m.end as int,
                            len as int,
                        )).reverse() =~= accepted_between(
                            hay@,
                            p,
                            m.end as int,
                            len as int,
                        ).reverse().push(m.start as int));
                    }
                    pos = m.start;
                    out.push(m);
                },
                None => {
                    proof {
                        lemma_accepted_skip_front(hay@, self.accepts(), 0, pos as int, len as int);
                    }
                    return out;
                },
            }
        }
    }

    /// Where the hay starts once every copy of the element is removed from
    /// its front.
    pub fn trim_start(&mut self, hay: &[T]) -> (r: usize)
        ensures
            *final(self) == *old(self),
            is_front_trim(hay@, old(self).accepts(), r as int),
    {
        let mut i: usize = 0;
        while i < hay.len() && hay[i].same(&self.elem)
            invariant
                i <= hay@.len(),
                forall|k: int| 0 <= k < i ==> #[trigger] self.accepts()(hay@[k]),
            decreases hay@.len() - i,
        {
            i += 1;
        }
        i
    }

    /// Where the hay ends once every copy of the element is removed from its
    /// back.
    pub fn trim_end(&mut self, hay: &[T]) -> (r: usize)
        ensures
            *final(self) == *old(self),
            is_back_trim(hay@, old(self).accepts(), r as int),
    {
        let mut j: usize = hay.len();
        while j > 0 && hay[j - 1].same(&self.elem)
            invariant
                j <= hay@.len(),
                forall|k: int| j <= k < hay@.len() ==> #[trigger] self.accepts()(hay@[k]),
            decreases j,
        {
            j -= 1;
        }
        j
    }
}

/// `f` can be called on every element and gives one answer for each.
pub open spec fn is_pure_predicate<T, F: Fn(T) -> bool>(f: F) -> bool {
    &&& forall|x: T| #[trigger] f.requires((x,))
    &&& forall|x: T, a: bool, b: bool|
        #[trigger] f.ensures((x,), a) && #[trigger] f.ensures((x,), b) ==> a == b
}

/// `f` rejects, by returning `false`, every element of `h` in `lo..hi`.
pub open spec fn rejects_all<T, F: Fn(T) -> bool>(f: F, h: Seq<T>, lo: int, hi: int) -> bool {
    forall|k: int| lo <= k < hi ==> #[trigger] f.ensures((h[k],), false)
}

/// The searcher of the elements that a predicate accepts.
pub struct PredicateSearcher<F> {
    pred: F,
}

impl<F> PredicateSearcher<F> {
    /// The predicate.
    pub closed spec fn pred_view(&self) -> F {
        self.pred
    }

    /// What the pattern accepts: the elements on which the predicate holds.
    pub open spec fn accepts<T>(&self) -> spec_fn(T) -> bool where F: Fn(T) -> bool {
        |x: T| self.pred_view().ensures((x,), true)
    }

    /// The searcher of the elements that `pred` accepts.
    pub fn new(pred: F) -> (r: Self)
        ensures
            r.pred_view() == pred,
    {
        PredicateSearcher { pred }
    }

    pub(crate) fn test<T: Copy>(&self, x: T) -> (r: bool) where F: Fn(T) -> bool
        requires
            is_pure_predicate(self.pred_view()),
        ensures
            r == self.accepts()(x),
            self.pred_view().ensures((x,), r),
    {
        let r = (self.pred)(x);
        proof {
            if !r {
                if self.pred.ensures((x,), true) {
                    assert(self.pred.ensures((x,), r));
                }
            }
        }
        r
    }

    /// The first element in the span that the predicate accepts.
    pub fn search<T: Copy>(&mut self, span: Span<'_, [T]>) -> (r: Option<Range<usize>>) where
        F: Fn(T) -> bool,
        requires
            span.wf(),
            is_pure_predicate(old(self).pred_view()),
        ensures
            *final(self) == *old(self),
            single_search_result(span.hay@, old(self).accepts(), span.range, r),
            match r {
                Some(m) => rejects_all(
                    old(self).pred_view(),
                    span.hay@,
                    span.range.start as int,
                    m.start as int,
                ),
                None => rejects_all(
                    old(self).pred_view(),
                    span.hay@,
                    span.range.start as int,
                    span.range.end as int,
                ),
            },
    {
        let (hay, range) = span.into_parts();
        let mut i = range.start;
        while i < range.end
            invariant
                range.start <= i <= range.end <= hay@.len(),
                hay@ == span.hay@,
                range == span.range,
                is_pure_predicate(self.pred_view()),
                rejects_all(self.pred_view(), hay@, range.start as int, i as int),
                forall|k: int| range.start <= k < i ==> !#[trigger] self.accepts()(hay@[k]),
            decreases range.end - i,
        {
            if self.test(hay[i]) {
                return Some(i..(i + 1));
            }
            i += 1;
        }
        None
    }

    /// The last element in the span that the predicate accepts.
    pub fn rsearch<T: Copy>(&mut self, span: Span<'_, [T]>) -> (r: Option<Range<usize>>) where
        F: Fn(T) -> bool,
        requires
            span.wf(),
            is_pure_predicate(old(self).pred_view()),
        ensures
            *final(self) == *old(self),
            single_rsearch_result(span.hay@, old(self).accepts(), span.range, r),
            match r {
                Some(m) => rejects_all(
                    old(self).pred_view(),
                    span.hay@,
                    m.end as int,
                    span.range.end as int,
                ),
                None => rejects_all(
                    old(self).pred_view(),
                    span.hay@,
                    span.range.start as int,
                    span.range.end as int,
                ),
            },
    {
        let (hay, range) = span.into_parts();
        let mut j = range.end;
        while j > range.start
            invariant
                range.start <= j <= range.end <= hay@.len(),
                hay@ == span.hay@,
                range == span.range,
                is_pure_predicate(self.pred_view()),
                rejects_all(self.pred_view(), hay@, j as int, range.end as int),
                forall|k: int| j <= k < range.end ==> !#[trigger] self.accepts()(hay@[k]),
            decreases j,
        {
            if self.test(hay[j - 1]) {
                return Some((j - 1)..j);
            }
            j -= 1;
        }
        None
    }

    /// The end of the first element of the span when the predicate accepts it.
    pub fn consume<T: Copy>(&mut self, span: Span<'_, [T]>) -> (r: Option<usize>) where
        F: Fn(T) -> bool,
        requires
            span.wf(),
            is_pure_predicate(old(self).pred_view()),
        ensures
            *final(self) == *old(self),
            r == (if span.range.start < span.range.end && old(self).accepts()(
                span.hay@[span.range.start as int],
            ) {
                Some((span.range.start + 1) as usize)
            } else {
                None
            }),
            r is None && span.range.start < span.range.end ==> old(self).pred_view().ensures(
                (span.hay@[span.range.start as int],),
                false,
            ),
    {
        let (hay, range) = span.into_parts();
        if range.start < range.end && self.test(hay[range.start]) {
            Some(range.start + 1)
        } else {
            None
        }
    }

    /// The start of the last element of the span when the predicate accepts
    /// it.
    pub fn rconsume<T: Copy>(&mut self, span: Span<'_, [T]>) -> (r: Option<usize>) where
        F: Fn(T) -> bool,
        requires
            span.wf(),
            is_pure_predicate(old(self).pred_view()),
        ensures
            *final(self) == *old(self),
            r == (if span.range.start < span.range.end && old(self).accepts()(
                span.hay@[span.range.end - 1],
            ) {
                Some((span.range.end - 1) as usize)
            } else {
                None
            }),
            r is None && span.range.start < span.range.end ==> old(self).pred_view().ensures(
                (span.hay@[span.range.end - 1],),
                false,
            ),
    {
        let (hay, range) = span.into_parts();
        if range.start < range.end && self.test(hay[range.end - 1]) {
            Some(range.end - 1)
        } else {
            None
        }
    }

    /// Where the hay starts once the elements that the predicate accepts are
    /// removed from its front.
    pub fn trim_start<T: Copy>(&mut self, hay: &[T]) -> (r: usize) where F: Fn(T) -> bool
        requires
            is_pure_predicate(old(self).pred_view()),
        ensures
            *final(self) == *old(self),
            is_front_trim(hay@, old(self).accepts(), r as int),
            r < hay@.len() ==> old(self).pred_view().ensures((hay@[r as int],), false),
    {
        let mut i: usize = 0;
        while i < hay.len() && self.test(hay[i])
            invariant
                i <= hay@.len(),
                is_pure_predicate(self.pred_view()),
                forall|k: int| 0 <= k < i ==> #[trigger] self.accepts()(hay@[k]),
            decreases hay@.len() - i,
        {
            i += 1;
        }
        i
    }

    /// Where the hay ends once the elements that the predicate accepts are
    /// removed from its back.
    pub fn trim_end<T: Copy>(&mut self, hay: &[T]) -> (r: usize) where F: Fn(T) -> bool
        requires
            is_pure_predicate(old(self).pred_view()),
        ensures
            *final(self) == *old(self),
            is_back_trim(hay@, old(self).accepts(), r as int),
            r > 0 ==> old(self).pred_view().ensures((hay@[r - 1],), false),
    {
        let mut j: usize = hay.len();
        while j > 0 && self.test(hay[j - 1])
            invariant
                j <= hay@.len(),
                is_pure_predicate(self.pred_view()),
                forall|k: int| j <= k < hay@.len() ==> #[trigger] self.accepts()(hay@[k]),
            decreases j,
        {
            j -= 1;
        }
        j
    }
}

} // verus!
