//! Laws that relate the searchers' operations to one another.

use crate::empty::{all_empty, boundaries_between};
use crate::single::{accepted_between, all_single, is_back_trim, is_first_single, is_front_trim, starts_of};
use crate::slice::{is_match_in, rtrimmed_from, trimmed_from};
use crate::two_way::no_match_starting;
use crate::span::occurs_at;
use core::ops::Range;
use vstd::prelude::*;

verus! {

proof fn lemma_front_trim_unique<T>(h: Seq<T>, p: spec_fn(T) -> bool, r1: int, r2: int)
    requires
        is_front_trim(h, p, r1),
        is_front_trim(h, p, r2),
    ensures
        r1 == r2,
{
    if r1 < r2 {
        assert(p(h[r1]));
    } else if r2 < r1 {
        assert(p(h[r2]));
    }
}

proof fn lemma_back_trim_unique<T>(h: Seq<T>, p: spec_fn(T) -> bool, r1: int, r2: int)
    requires
        is_back_trim(h, p, r1),
        is_back_trim(h, p, r2),
    ensures
        r1 == r2,
{
    if r1 < r2 {
        assert(p(h[r2 - 1]));
    } else if r2 < r1 {
        assert(p(h[r1 - 1]));
    }
}

/// Trimming the elements that a pattern accepts off the front of what is
/// left after trimming them off the front removes nothing more; likewise at
/// the back.
pub proof fn lemma_single_trim_idempotent<T>(h: Seq<T>, p: spec_fn(T) -> bool, r: int, s: int)
    ensures
        is_front_trim(h, p, r) ==> is_front_trim(h.subrange(r, h.len() as int), p, 0),
        is_back_trim(h, p, s) ==> is_back_trim(h.subrange(0, s), p, s),
{
}

/// For a double-ended pattern that accepts single elements, trimming the
/// front and then the back leaves the same elements as trimming the back and
/// then the front.
pub proof fn lemma_single_trim_commutes<T>(
    h: Seq<T>,
    p: spec_fn(T) -> bool,
    a: int,
    b: int,
    c: int,
    d: int,
)
    requires
        is_front_trim(h, p, a),
        is_back_trim(h.subrange(a, h.len() as int), p, b),
        is_back_trim(h, p, c),
        is_front_trim(h.subrange(0, c), p, d),
    ensures
        h.subrange(a, a + b) == h.subrange(d, c),
{
    let rest = h.subrange(a, h.len() as int);
    let init = h.subrange(0, c);
    if a == h.len() {
        if c > 0 {
            assert(p(h[c - 1]));
        }
        assert(rest.len() == 0);
        assert(init.len() == 0);
        assert(h.subrange(a, a + b) =~= h.subrange(d, c));
    } else {
        assert(!p(h[a]));
        assert(a < c);
        assert(is_back_trim(rest, p, c - a)) by {
            assert forall|k: int| c - a <= k < rest.len() implies #[trigger] p(rest[k]) by {
                assert(rest[k] == h[a + k]);
            }
            assert(rest[c - a - 1] == h[c - 1]);
        }
        lemma_back_trim_unique(rest, p, b, c - a);
        assert(is_front_trim(init, p, a)) by {
            assert forall|k: int| 0 <= k < a implies #[trigger] p(init[k]) by {
                assert(init[k] == h[k]);
            }
            assert(init[a] == h[a]);
        }
        lemma_front_trim_unique(init, p, d, a);
        assert(h.subrange(a, a + b) =~= h.subrange(d, c));
    }
}

/// Where a single-element pattern is consumed at the front of a span, the
/// first match that a search of the span finds starts at the span's start
/// and ends where the consumption ended.
pub proof fn lemma_single_consume_agrees<T>(
    h: Seq<T>,
    p: spec_fn(T) -> bool,
    range: core::ops::Range<usize>,
    m: core::ops::Range<usize>,
)
    requires
        range.start < range.end <= h.len(),
        p(h[range.start as int]),
        is_first_single(h, p, range, m),
    ensures
        m.start == range.start,
        m.end == range.start + 1,
{
    if m.start > range.start {
        assert(!p(h[range.start as int]));
    }
}

proof fn lemma_trimmed_from_stops<T>(h: Seq<T>, x: Seq<T>, i: int)
    requires
        0 <= i,
    ensures
        i <= trimmed_from(h, x, i),
        i <= h.len() ==> trimmed_from(h, x, i) <= h.len(),
        x.len() == 0 || !occurs_at(h, x, trimmed_from(h, x, i)),
    decreases h.len() - i,
{
    if x.len() == 0 || !occurs_at(h, x, i) {
    } else {
        lemma_trimmed_from_stops(h, x, i + x.len());
    }
}

proof fn lemma_rtrimmed_from_stops<T>(h: Seq<T>, x: Seq<T>, j: int)
    requires
        0 <= j <= h.len(),
    ensures
        0 <= rtrimmed_from(h, x, j) <= j,
        x.len() == 0 || rtrimmed_from(h, x, j) < x.len() || !occurs_at(
            h,
            x,
            rtrimmed_from(h, x, j) - x.len(),
        ),
    decreases j,
{
    if x.len() == 0 || j < x.len() || !occurs_at(h, x, j - x.len()) {
    } else {
        lemma_rtrimmed_from_stops(h, x, j - x.len());
    }
}

/// Trimming copies of a sub-sequence off the front of what is left after
/// trimming them off the front removes nothing more; likewise at the back.
pub proof fn lemma_slice_trim_idempotent<T>(h: Seq<T>, x: Seq<T>)
    ensures
        ({
            let r = trimmed_from(h, x, 0);
            trimmed_from(h.subrange(r, h.len() as int), x, 0) == 0
        }),
        ({
            let s = rtrimmed_from(h, x, h.len() as int);
            let init = h.subrange(0, s);
            rtrimmed_from(init, x, init.len() as int) == init.len()
        }),
{
    let r = trimmed_from(h, x, 0);
    lemma_trimmed_from_stops(h, x, 0);
    let rest = h.subrange(r, h.len() as int);
    if x.len() > 0 && occurs_at(rest, x, 0) {
        assert(occurs_at(h, x, r)) by {
            assert forall|k: int| 0 <= k < x.len() implies h[r + k] == #[trigger] x[k] by {
                assert(rest[0 + k] == h[r + k]);
            }
        }
    }
    let s = rtrimmed_from(h, x, h.len() as int);
    lemma_rtrimmed_from_stops(h, x, h.len() as int);
    let init = h.subrange(0, s);
    if x.len() > 0 && init.len() >= x.len() && occurs_at(init, x, init.len() - x.len()) {
        assert(occurs_at(h, x, s - x.len())) by {
            assert forall|k: int| 0 <= k < x.len() implies h[s - x.len() + k] == #[trigger] x[k] by {
                assert(init[init.len() - x.len() + k] == h[s - x.len() + k]);
            }
        }
    }
}

/// For a double-ended pattern that accepts single elements, the matches that
/// a forward enumeration finds are those of a reverse enumeration, in the
/// opposite order.
pub proof fn lemma_single_reversal_agrees<T>(
    h: Seq<T>,
    p: spec_fn(T) -> bool,
    forward: Seq<Range<usize>>,
    reverse: Seq<Range<usize>>,
)
    requires
        all_single(forward),
        all_single(reverse),
        starts_of(forward) == accepted_between(h, p, 0, h.len() as int),
        starts_of(reverse) == accepted_between(h, p, 0, h.len() as int).reverse(),
    ensures
        forward == reverse.reverse(),
{
    assert(forward.len() == starts_of(forward).len());
    assert(reverse.len() == starts_of(reverse).len());
    assert forall|k: int| 0 <= k < forward.len() implies #[trigger] forward[k]
        == reverse.reverse()[k] by {
        let j = reverse.len() - 1 - k;
        assert(starts_of(forward)[k] == forward[k].start as int);
        assert(starts_of(reverse)[j] == reverse[j].start as int);
        assert(reverse.reverse()[k] == reverse[j]);
    }
    assert(forward =~= reverse.reverse());
}

proof fn lemma_slice_boundaries<T>(hay: &[T], b: int)
    requires
        -1 <= b <= hay@.len(),
    ensures
        boundaries_between(hay, 0, b) =~= Seq::new((b + 1) as nat, |i: int| i),
    decreases b + 1,
{
    if b >= 0 {
        lemma_slice_boundaries(hay, b - 1);
    }
}

/// Enumerating an empty pattern over a slice of `k` elements yields `k + 1`
/// empty matches, one at each index from `0` to `k`.
pub proof fn lemma_empty_matches_of_slice<T>(hay: &[T], r: Seq<Range<usize>>)
    requires
        all_empty(r),
        starts_of(r) == boundaries_between(hay, 0, hay@.len() as int),
    ensures
        r.len() == hay@.len() + 1,
        forall|i: int| 0 <= i < r.len() ==> (#[trigger] r[i]).start == i && r[i].end == i,
{
    lemma_slice_boundaries(hay, hay@.len() as int);
    assert(r.len() == starts_of(r).len());
    assert forall|i: int| 0 <= i < r.len() implies (#[trigger] r[i]).start == i && r[i].end
        == i by {
        assert(starts_of(r)[i] == r[i].start as int);
    }
}

/// Where a sub-sequence is consumed at the front of a span, a search of the
/// span that skips no occurrence finds the match that starts at the span's
/// start and ends where the consumption ended.
pub proof fn lemma_slice_consume_agrees<T>(
    h: Seq<T>,
    x: Seq<T>,
    range: Range<usize>,
    m: Range<usize>,
)
    requires
        range.start + x.len() <= range.end,
        occurs_at(h, x, range.start as int),
        is_match_in(h, x, range, m),
        no_match_starting(h, x, range.start as int, m.start as int, range.end as int),
    ensures
        m.start == range.start,
        m.end == range.start + x.len(),
{
}

/// For the empty pattern, the matches that a forward enumeration finds are
/// those of a reverse enumeration, in the opposite order.
pub proof fn lemma_empty_reversal_agrees<A: crate::span::Hay + ?Sized>(
    hay: &A,
    forward: Seq<Range<usize>>,
    reverse: Seq<Range<usize>>,
)
    requires
        all_empty(forward),
        all_empty(reverse),
        starts_of(forward) == boundaries_between(hay, 0, hay.hay_len()),
        starts_of(reverse) == boundaries_between(hay, 0, hay.hay_len()).reverse(),
    ensures
        forward == reverse.reverse(),
{
    assert(forward.len() == starts_of(forward).len());
    assert(reverse.len() == starts_of(reverse).len());
    assert forall|k: int| 0 <= k < forward.len() implies #[trigger] forward[k]
        == reverse.reverse()[k] by {
        let j = reverse.len() - 1 - k;
        assert(starts_of(forward)[k] == forward[k].start as int);
        assert(starts_of(reverse)[j] == reverse[j].start as int);
        assert(reverse.reverse()[k] == reverse[j]);
    }
    assert(forward =~= reverse.reverse());
}

} // verus!
