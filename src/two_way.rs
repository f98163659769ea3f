//! The Two-Way substring searcher (Crochemore and Perrin), with its short-
//! and long-period paths and a 64-bit byteset fast skip.

use crate::element::Element;
use crate::span::{occurs_at, slices_equal};
use crate::suffix::{
    falls_below, inner_falls_below, is_maximal_suffix, lemma_falls_lex, lemma_maximal_at_end,
    lemma_maximal_within_period, lemma_order_step, lemma_period_everywhere, lemma_restart_step,
    lex_before,
};
use core::cmp::Ordering;
use core::ops::Range;
use vstd::arithmetic::div_mod::{
    lemma_add_mod_noop, lemma_mod_add_multiples_vanish, lemma_mod_self_0, lemma_small_mod,
};
use vstd::prelude::*;

verus! {

/// `s` repeats with period `p` over `from..to`: each element equals the one
/// at the same offset within the first period.
#[verifier::opaque]
pub open spec fn periodic_over<T>(s: Seq<T>, from: int, to: int, p: int) -> bool {
    forall|k: int| from <= k < to ==> #[trigger] s[k] == s[from + (k - from) % p]
}

/// `s[k] == s[k + p]` for every `k >= from` where both lie in `s`.
pub open spec fn has_period_from<T>(s: Seq<T>, from: int, p: int) -> bool {
    forall|k: int| from <= k && k + p < s.len() ==> #[trigger] s[k] == s[k + p]
}

/// `a` comes no earlier than `b` in the lexical order `order`: its rank is
/// at least that of `b` for `Less`, at most for `Greater`; for `Equal` any
/// element will do.
pub open spec fn dominates<T: Element>(a: T, b: T, order: Ordering) -> bool {
    match order {
        Ordering::Less => a.rank() >= b.rank(),
        Ordering::Greater => a.rank() <= b.rank(),
        Ordering::Equal => true,
    }
}

proof fn lemma_periodic_at<T>(s: Seq<T>, from: int, to: int, p: int, k: int)
    requires
        periodic_over(s, from, to, p),
        from <= k < to,
    ensures
        s[k] == s[from + (k - from) % p],
{
    reveal(periodic_over);
}

/// After a restart at `right`, the element there comes no earlier than any
/// before it.
proof fn lemma_restart_dominates<T: Element>(
    s: Seq<T>,
    left: int,
    right: int,
    offset: int,
    period: int,
    order: Ordering,
    c: Ordering,
)
    requires
        0 <= left < right,
        0 <= offset < period,
        right + offset < s.len(),
        (right - left) % period == 0,
        periodic_over(s, left, right + offset, period),
        forall|k: int| 0 <= k < right + offset ==> #[trigger] dominates(s[left], s[k], order),
        c != Ordering::Equal,
        c != order,
        c == Ordering::Less <==> s[right + offset].rank() < s[left + offset].rank(),
        c == Ordering::Greater <==> s[right + offset].rank() > s[left + offset].rank(),
    ensures
        forall|k: int| 0 <= k < right + 1 ==> #[trigger] dominates(s[right], s[k], order),
{
    if offset > 0 {
        lemma_periodic_at(s, left, right + offset, period, right);
        assert(s[right] == s[left]);
    }
    assert(dominates(s[right], s[left], order));
    assert forall|k: int| 0 <= k < right + 1 implies #[trigger] dominates(s[right], s[k], order) by {
        if k < right {
            assert(dominates(s[left], s[k], order));
        }
    }
}

fn same_ordering(a: Ordering, b: Ordering) -> (r: bool)
    ensures
        r == (a == b),
{
    match (a, b) {
        (Ordering::Less, Ordering::Less) => true,
        (Ordering::Equal, Ordering::Equal) => true,
        (Ordering::Greater, Ordering::Greater) => true,
        _ => false,
    }
}

proof fn lemma_extend_period<T>(s: Seq<T>, left: int, right: int, offset: int, period: int)
    requires
        0 <= left < right,
        0 <= offset < period,
        right + offset < s.len(),
        (right - left) % period == 0,
        periodic_over(s, left, right + offset, period),
        s[right + offset] == s[left + offset],
    ensures
        periodic_over(s, left, right + offset + 1, period),
{
    reveal(periodic_over);
    lemma_add_mod_noop(right - left, offset, period);
    lemma_small_mod(offset as nat, period as nat);
    assert((right - left + offset) % period == offset);
    assert(s[right + offset] == s[left + (right + offset - left) % period]);
}

proof fn lemma_whole_prefix_period<T>(s: Seq<T>, left: int, right: int)
    requires
        0 <= left < right,
    ensures
        periodic_over(s, left, right, right - left),
        (right - left) % (right - left) == 0,
{
    reveal(periodic_over);
    assert forall|k: int| left <= k < right implies #[trigger] s[k] == s[left + (k - left) % (
    right - left)] by {
        lemma_small_mod((k - left) as nat, (right - left) as nat);
    }
    lemma_mod_self_0(right - left);
}

proof fn lemma_periodic_shift<T>(s: Seq<T>, left: int, period: int)
    requires
        0 <= left,
        0 < period,
        periodic_over(s, left, s.len() as int, period),
    ensures
        has_period_from(s, left, period),
{
    reveal(periodic_over);
    assert forall|k: int| left <= k && k + period < s.len() implies #[trigger] s[k] == s[k
        + period] by {
        lemma_mod_add_multiples_vanish(k - left, period);
        assert(s[k + period] == s[left + (k + period - left) % period]);
    }
}

/// Computes the maximal suffix of `arr` for the lexical order `order`, a
/// candidate critical factorization `(u, v)` of `arr`.
///
/// Returns `(i, p)`: `i` is where `v` starts and `p` a period of `v`. Both
/// orders must be computed; the one with the larger `i` gives a critical
/// factorization. For long-period needles `p` is too short.
pub fn maximal_suffix<T: Element>(arr: &[T], order: Ordering) -> (r: (usize, usize))
    requires
        arr@.len() >= 1,
        order != Ordering::Equal,
    ensures
        is_maximal_suffix(arr@, r.0 as int, order),
        1 <= r.1,
        r.0 + r.1 <= arr@.len(),
        has_period_from(arr@, r.0 as int, r.1 as int),
        forall|k: int| 0 <= k < arr@.len() ==> #[trigger] dominates(arr@[r.0 as int], arr@[k], order),
{
    let n = arr.len();
    let mut left: usize = 0;
    let mut right: usize = 1;
    let mut offset: usize = 0;
    let mut period: usize = 1;
    proof {
        lemma_whole_prefix_period(arr@, 0, 1);
    }

    while right + offset < n
        invariant
            n == arr@.len(),
            left < right,
            1 <= period,
            offset < period,
            left + period <= right,
            right + offset <= n,
            (right - left) as int % period as int == 0,
            periodic_over(arr@, left as int, (right + offset) as int, period as int),
            forall|k: int|
                0 <= k < right + offset ==> #[trigger] dominates(arr@[left as int], arr@[k], order),
            order != Ordering::Equal,
            forall|t: int|
                0 <= t < left ==> #[trigger] falls_below(arr@, t, left as int, n as int, order),
            forall|r: int|
                0 < r < period ==> #[trigger] inner_falls_below(
                    arr@,
                    left as int,
                    r,
                    period as int,
                    order,
                ),
        decreases n - right, n - right - offset,
    {
        let a = &arr[right + offset];
        let b = &arr[left + offset];
        let c = a.compare(b);
        if same_ordering(c, Ordering::Equal) {
            proof {
                T::lemma_rank_injective(*a, *b);
                lemma_extend_period(arr@, left as int, right as int, offset as int, period as int);
                assert(dominates(arr@[left as int], arr@[(left + offset) as int], order));
            }
            // Advance through repetition of the current period.
            if offset + 1 == period {
                proof {
                    lemma_mod_add_multiples_vanish((right - left) as int, period as int);
                }
                right += offset + 1;
                offset = 0;
            } else {
                offset += 1;
            }
        } else if same_ordering(c, order) {
            proof {
                assert(dominates(arr@[left as int], arr@[(left + offset) as int], order));
                lemma_order_step(
                    arr@,
                    left as int,
                    right as int,
                    offset as int,
                    period as int,
                    order,
                );
            }
            // The suffix is smaller: the period is the entire prefix so far.
            let ghost k0 = (right + offset) as int;
            right += offset + 1;
            offset = 0;
            period = right - left;
            proof {
                lemma_whole_prefix_period(arr@, left as int, right as int);
                assert(period as int == k0 + 1 - left);
                assert forall|r: int| 0 < r < period implies #[trigger] inner_falls_below(
                    arr@,
                    left as int,
                    r,
                    period as int,
                    order,
                ) by {
                    assert(inner_falls_below(arr@, left as int, r, k0 + 1 - left, order));
                }
            }
        } else {
            proof {
                lemma_restart_step(
                    arr@,
                    left as int,
                    right as int,
                    offset as int,
                    period as int,
                    order,
                );
                lemma_restart_dominates(
                    arr@,
                    left as int,
                    right as int,
                    offset as int,
                    period as int,
                    order,
                    c,
                );
            }
            // The suffix is larger: start over from the current location.
            left = right;
            right += 1;
            offset = 0;
            period = 1;
            proof {
                lemma_whole_prefix_period(arr@, left as int, right as int);
            }
        }
    }
    proof {
        lemma_periodic_shift(arr@, left as int, period as int);
        lemma_maximal_at_end(arr@, left as int, period as int, order);
    }
    (left, period)
}

/// `s` read from the back.
pub open spec fn reversed<T>(s: Seq<T>) -> Seq<T> {
    Seq::new(s.len(), |i: int| s[s.len() - 1 - i])
}

/// Computes the maximal suffix of the reverse of `arr`, a candidate critical
/// factorization `(u', v')` of `arr`, and returns where `v'` starts counted
/// from the back. Stops as soon as a period of `known_period` is reached.
///
/// Every suffix of the reversed `arr` that starts before the one found
/// comes before it, and its first element comes no earlier in `order` than
/// any the scan reached. When `known_period` is a period of `arr`, the
/// suffix found is the maximal suffix of the reversed `arr` and starts
/// within its first period.
pub fn reverse_maximal_suffix<T: Element>(arr: &[T], known_period: usize, order: Ordering) -> (r:
    usize)
    requires
        order != Ordering::Equal,
    ensures
        r <= arr@.len(),
        forall|t: int|
            0 <= t < r ==> #[trigger] lex_before(
                reversed(arr@).subrange(t, arr@.len() as int),
                reversed(arr@).subrange(r as int, arr@.len() as int),
                order,
            ),
        1 <= arr@.len() && 1 <= known_period && has_period_from(arr@, 0, known_period as int) ==> {
            &&& r < known_period
            &&& is_maximal_suffix(reversed(arr@), r as int, order)
        },
        arr@.len() >= 1 ==> r < arr@.len(),
        forall|k: int|
            0 <= k < arr@.len() && k < r + known_period ==> #[trigger] dominates(
                reversed(arr@)[r as int],
                reversed(arr@)[k],
                order,
            ),
{
    let n = arr.len();
    if n == 0 {
        return 0;
    }
    let ghost rev = reversed(arr@);
    let mut left: usize = 0;
    let mut right: usize = 1;
    let mut offset: usize = 0;
    let mut period: usize = 1;
    proof {
        lemma_whole_prefix_period(rev, 0, 1);
    }

    while right + offset < n
        invariant
            n == arr@.len(),
            rev == reversed(arr@),
            left < right,
            1 <= period,
            offset < period,
            left + period <= right,
            right + offset <= n,
            (right - left) as int % period as int == 0,
            periodic_over(rev, left as int, (right + offset) as int, period as int),
            forall|k: int|
                0 <= k < right + offset ==> #[trigger] dominates(rev[left as int], rev[k], order),
            order != Ordering::Equal,
            forall|t: int| 0 <= t < left ==> #[trigger] falls_below(rev, t, left as int, n as int, order),
            forall|r: int|
                0 < r < period ==> #[trigger] inner_falls_below(rev, left as int, r, period as int, order),
        ensures
            1 <= period,
            periodic_over(rev, left as int, (right + offset) as int, period as int),
            forall|t: int| 0 <= t < left ==> #[trigger] falls_below(rev, t, left as int, n as int, order),
            forall|r: int|
                0 < r < period ==> #[trigger] inner_falls_below(rev, left as int, r, period as int, order),
            left < right,
            left + period <= right,
            right + offset <= n,
            right + offset >= n || period == known_period,
            forall|k: int|
                0 <= k < right + offset ==> #[trigger] dominates(rev[left as int], rev[k], order),
        decreases n - right, n - right - offset,
    {
        let a = &arr[n - (1 + right + offset)];
        let b = &arr[n - (1 + left + offset)];
        assert(rev[(right + offset) as int] == *a);
        assert(rev[(left + offset) as int] == *b);
        let c = a.compare(b);
        if same_ordering(c, Ordering::Equal) {
            proof {
                T::lemma_rank_injective(*a, *b);
                lemma_extend_period(rev, left as int, right as int, offset as int, period as int);
                assert(dominates(rev[left as int], rev[(left + offset) as int], order));
            }
            // Advance through repetition of the current period.
            if offset + 1 == period {
                proof {
                    lemma_mod_add_multiples_vanish((right - left) as int, period as int);
                }
                right += offset + 1;
                offset = 0;
            } else {
                offset += 1;
            }
        } else if same_ordering(c, order) {
            proof {
                assert(dominates(rev[left as int], rev[(left + offset) as int], order));
                lemma_order_step(rev, left as int, right as int, offset as int, period as int, order);
            }
            // The suffix is smaller: the period is the entire prefix so far.
            let ghost k0 = (right + offset) as int;
            right += offset + 1;
            offset = 0;
            period = right - left;
            proof {
                lemma_whole_prefix_period(rev, left as int, right as int);
                assert forall|r: int| 0 < r < period implies #[trigger] inner_falls_below(
                    rev,
                    left as int,
                    r,
                    period as int,
                    order,
                ) by {
                    assert(inner_falls_below(rev, left as int, r, k0 + 1 - left, order));
                }
            }
        } else {
            proof {
                lemma_restart_step(rev, left as int, right as int, offset as int, period as int, order);
                lemma_restart_dominates(
                    rev,
                    left as int,
                    right as int,
                    offset as int,
                    period as int,
                    order,
                    c,
                );
            }
            // The suffix is larger: start over from the current location.
            left = right;
            right += 1;
            offset = 0;
            period = 1;
            proof {
                lemma_whole_prefix_period(rev, left as int, right as int);
                assert(rev.len() == n);
                assert forall|t: int| 0 <= t < left implies #[trigger] falls_below(
                    rev,
                    t,
                    left as int,
                    n as int,
                    order,
                ) by {
                    assert(falls_below(rev, t, left as int, rev.len() as int, order));
                }
            }
        }
        if period == known_period {
            break;
        }
    }
    proof {
        assert forall|t: int| 0 <= t < left implies #[trigger] lex_before(
            rev.subrange(t, n as int),
            rev.subrange(left as int, n as int),
            order,
        ) by {
            lemma_falls_lex(rev, t, left as int, order);
        }
        let kp = known_period as int;
        if 1 <= kp && has_period_from(arr@, 0, kp) {
            assert forall|k: int| 0 <= k && k + kp < n implies #[trigger] rev[k] == rev[k + kp] by {
                let k2 = n - 1 - k - kp;
                assert(arr@[k2] == arr@[k2 + kp]);
            }
            if right + offset >= n {
                lemma_maximal_at_end(rev, left as int, period as int, order);
            } else {
                lemma_period_everywhere(rev, left as int, kp);
                lemma_maximal_at_end(rev, left as int, kp, order);
            }
            lemma_maximal_within_period(rev, left as int, kp, order);
        }
    }
    left
}

/// The byteset fingerprint of `s`: the union of its elements' masks.
pub open spec fn spec_byteset<T: Element>(s: Seq<T>) -> u64
    decreases s.len(),
{
    if s.len() == 0 {
        0
    } else {
        s.last().spec_mask() | spec_byteset(s.drop_last())
    }
}

/// `x[k - s] == x[k]` for every `k` in `lo..hi`.
pub open spec fn agrees_back<T>(x: Seq<T>, s: int, lo: int, hi: int) -> bool {
    forall|k: int| lo <= k < hi ==> #[trigger] x[k] == x[k - s]
}

/// `x[k + s] == x[k]` for every `k` in `lo..hi`.
pub open spec fn agrees_ahead<T>(x: Seq<T>, s: int, lo: int, hi: int) -> bool {
    forall|k: int| lo <= k < hi ==> #[trigger] x[k] == x[k + s]
}

/// No occurrence of `x` in `hay` that ends by `end` starts in `from..to`.
pub open spec fn no_match_starting<T>(hay: Seq<T>, x: Seq<T>, from: int, to: int, end: int) -> bool {
    forall|q: int| from <= q < to && q + x.len() <= end ==> !#[trigger] occurs_at(hay, x, q)
}

/// After the right part matched up to a mismatch at `i`, an occurrence
/// shifted by `s` would have to agree with the matched part and differ
/// from the needle at `i`; for the critical position `l` none does.
pub open spec fn right_shift_ok<T>(x: Seq<T>, l: int, i: int, s: int) -> bool {
    !(agrees_back(x, s, if l >= s { l } else { s }, i) && x[i - s] != x[i])
}

/// After the right part matched and the left part mismatched at `j - 1`,
/// an occurrence shifted by `s` would have to agree with the matched part.
pub open spec fn left_shift_ok<T>(x: Seq<T>, j: int, s: int) -> bool {
    !(agrees_back(x, s, if j >= s { j } else { s }, x.len() as int) && (j - 1 >= s ==> x[j - 1
        - s] != x[j - 1]))
}

/// Mirror of `right_shift_ok` for the search from the back, with the back
/// critical position `b` and a mismatch at `i` in the left part.
pub open spec fn back_left_shift_ok<T>(x: Seq<T>, b: int, i: int, s: int) -> bool {
    !(agrees_ahead(x, s, i + 1, if b <= x.len() - s { b } else { x.len() - s }) && x[i + s]
        != x[i])
}

/// Mirror of `left_shift_ok`: the left part matched and the right part
/// mismatched at `i`.
pub open spec fn back_right_shift_ok<T>(x: Seq<T>, i: int, s: int) -> bool {
    !(agrees_ahead(x, s, 0, if i <= x.len() - s { i } else { x.len() - s }) && (i + s < x.len()
        ==> x[i + s] != x[i]))
}

/// The shifts that the search makes skip no occurrence: for the critical
/// position `l`, the shift `period` after a left-part mismatch, and the back
/// critical position `b`. Each clause is needed for the search to be
/// complete. A critical factorization meets them all (the Critical
/// Factorization Theorem); `TwoWaySearcher::new` checks them, and every
/// well-formed searcher has them.
pub open spec fn shifts_are_safe<T>(x: Seq<T>, l: int, period: int, b: int) -> bool {
    &&& forall|i: int, s: int|
        l <= i < x.len() && 1 <= s <= i - l ==> #[trigger] right_shift_ok(x, l, i, s)
    &&& forall|j: int, s: int| 1 <= j <= l && 1 <= s < period ==> #[trigger] left_shift_ok(x, j, s)
    &&& forall|i: int, s: int| 0 <= i < b && 1 <= s < b - i ==> #[trigger] back_left_shift_ok(x, b, i, s)
    &&& forall|i: int, s: int|
        b <= i < x.len() && 1 <= s < period ==> #[trigger] back_right_shift_ok(x, i, s)
}

proof fn lemma_byteset_covers<T: Element>(x: Seq<T>, k: int)
    requires
        0 <= k < x.len(),
    ensures
        spec_byteset(x) & x[k].spec_mask() != 0,
    decreases x.len(),
{
    let m = x[k].spec_mask();
    T::lemma_mask_nonzero(x[k]);
    if k == x.len() - 1 {
        let b = spec_byteset(x.drop_last());
        assert((m | b) & m == m) by (bit_vector);
    } else {
        lemma_byteset_covers(x.drop_last(), k);
        let b = spec_byteset(x.drop_last());
        let l = x.last().spec_mask();
        assert(b & m != 0 ==> (l | b) & m != 0) by (bit_vector);
    }
}

/// No occurrence covers an index whose element sets no bit of the needle's
/// byteset.
proof fn lemma_byteset_skip<T: Element>(hay: Seq<T>, x: Seq<T>, idx: int)
    requires
        0 <= idx < hay.len(),
        spec_byteset(x) & hay[idx].spec_mask() == 0,
    ensures
        forall|q: int| idx - x.len() < q <= idx ==> !#[trigger] occurs_at(hay, x, q),
{
    assert forall|q: int| idx - x.len() < q <= idx implies !#[trigger] occurs_at(hay, x, q) by {
        if occurs_at(hay, x, q) {
            let k = idx - q;
            assert(hay[q + k] == x[k]);
            lemma_byteset_covers(x, k);
        }
    }
}

proof fn lemma_right_shift<T>(hay: Seq<T>, x: Seq<T>, l: int, pos: int, i: int)
    requires
        0 <= l <= i < x.len(),
        0 <= pos,
        forall|k: int| l <= k < i ==> hay[pos + k] == #[trigger] x[k],
        hay[pos + i] != x[i],
        forall|i2: int, s: int|
            l <= i2 < x.len() && 1 <= s <= i2 - l ==> #[trigger] right_shift_ok(x, l, i2, s),
    ensures
        forall|q: int| pos <= q <= pos + i - l ==> !#[trigger] occurs_at(hay, x, q),
{
    assert forall|q: int| pos <= q <= pos + i - l implies !#[trigger] occurs_at(hay, x, q) by {
        if occurs_at(hay, x, q) {
            let s = q - pos;
            assert(hay[q + (i - s)] == x[i - s]);
            if s >= 1 {
                let lo = if l >= s { l } else { s };
                assert forall|k: int| lo <= k < i implies #[trigger] x[k] == x[k - s] by {
                    assert(hay[q + (k - s)] == x[k - s]);
                    assert(hay[pos + k] == x[k]);
                }
                assert(right_shift_ok(x, l, i, s));
            }
        }
    }
}

proof fn lemma_left_shift<T>(hay: Seq<T>, x: Seq<T>, l: int, period: int, pos: int, j: int)
    requires
        1 <= j <= l < x.len(),
        0 <= pos,
        forall|k: int| j <= k < x.len() ==> hay[pos + k] == #[trigger] x[k],
        hay[pos + j - 1] != x[j - 1],
        forall|j2: int, s: int|
            1 <= j2 <= l && 1 <= s < period ==> #[trigger] left_shift_ok(x, j2, s),
    ensures
        forall|q: int| pos <= q < pos + period ==> !#[trigger] occurs_at(hay, x, q),
{
    assert forall|q: int| pos <= q < pos + period implies !#[trigger] occurs_at(hay, x, q) by {
        if occurs_at(hay, x, q) {
            let s = q - pos;
            if s == 0 {
                assert(hay[q + (j - 1)] == x[j - 1]);
            } else {
                let lo = if j >= s { j } else { s };
                assert forall|k: int| lo <= k < x.len() implies #[trigger] x[k] == x[k - s] by {
                    assert(hay[q + (k - s)] == x[k - s]);
                    assert(hay[pos + k] == x[k]);
                }
                if j - 1 >= s {
                    assert(hay[q + (j - 1 - s)] == x[j - 1 - s]);
                }
                assert(left_shift_ok(x, j, s));
            }
        }
    }
}

proof fn lemma_back_left_shift<T>(hay: Seq<T>, x: Seq<T>, b: int, e: int, i: int)
    requires
        0 <= i < b <= x.len(),
        x.len() <= e,
        forall|k: int| i < k < b ==> hay[e - x.len() + k] == #[trigger] x[k],
        hay[e - x.len() + i] != x[i],
        forall|i2: int, s: int|
            0 <= i2 < b && 1 <= s < b - i2 ==> #[trigger] back_left_shift_ok(x, b, i2, s),
    ensures
        forall|q: int|
            e - x.len() - (b - i) < q <= e - x.len() ==> !#[trigger] occurs_at(hay, x, q),
{
    let n = x.len() as int;
    assert forall|q: int| e - n - (b - i) < q <= e - n implies !#[trigger] occurs_at(hay, x, q) by {
        if occurs_at(hay, x, q) {
            let s = e - n - q;
            assert(hay[q + (i + s)] == x[i + s]);
            if s >= 1 {
                let hi = if b <= n - s { b } else { n - s };
                assert forall|k: int| i + 1 <= k < hi implies #[trigger] x[k] == x[k + s] by {
                    assert(hay[q + (k + s)] == x[k + s]);
                    assert(hay[e - n + k] == x[k]);
                }
                assert(back_left_shift_ok(x, b, i, s));
            }
        }
    }
}

proof fn lemma_back_right_shift<T>(hay: Seq<T>, x: Seq<T>, b: int, period: int, e: int, i: int)
    requires
        0 <= b <= i < x.len(),
        x.len() <= e,
        forall|k: int| 0 <= k < i ==> hay[e - x.len() + k] == #[trigger] x[k],
        hay[e - x.len() + i] != x[i],
        forall|i2: int, s: int|
            b <= i2 < x.len() && 1 <= s < period ==> #[trigger] back_right_shift_ok(x, i2, s),
    ensures
        forall|q: int| e - x.len() - period < q <= e - x.len() ==> !#[trigger] occurs_at(hay, x, q),
{
    let n = x.len() as int;
    assert forall|q: int| e - n - period < q <= e - n implies !#[trigger] occurs_at(hay, x, q) by {
        if occurs_at(hay, x, q) {
            let s = e - n - q;
            if s == 0 {
                assert(hay[q + i] == x[i]);
            } else {
                let hi = if i <= n - s { i } else { n - s };
                assert forall|k: int| 0 <= k < hi implies #[trigger] x[k] == x[k + s] by {
                    assert(hay[q + (k + s)] == x[k + s]);
                    assert(hay[e - n + k] == x[k]);
                }
                if i + s < n {
                    assert(hay[q + (i + s)] == x[i + s]);
                }
                assert(back_right_shift_ok(x, i, s));
            }
        }
    }
}

/// Whether every shift after a right-part mismatch is safe for the critical
/// position `l`: for each shift `s`, the first disagreement of `x` with
/// itself shifted by `s`, from `max(l, s)` on, comes before `l + s`.
fn check_right_shifts<T: Element>(x: &[T], l: usize) -> (r: bool)
    requires
        l < x@.len(),
    ensures
        r ==> forall|i: int, s: int|
            l <= i < x@.len() && 1 <= s <= i - l ==> #[trigger] right_shift_ok(x@, l as int, i, s),
{
    let n = x.len();
    let mut s: usize = 1;
    while s < n - l
        invariant
            n == x@.len(),
            l < n,
            1 <= s,
            forall|i: int, s2: int|
                l <= i < n && 1 <= s2 < s && s2 <= i - l ==> #[trigger] right_shift_ok(
                    x@,
                    l as int,
                    i,
                    s2,
                ),
        decreases n - s,
    {
        let lo = if l >= s {
            l
        } else {
            s
        };
        let mut k = lo;
        while k < n && x[k - s].same(&x[k])
            invariant
                n == x@.len(),
                s <= lo <= k <= n,
                agrees_back(x@, s as int, lo as int, k as int),
            decreases n - k,
        {
            k += 1;
        }
        if k < n && k >= l + s {
            return false;
        }
        proof {
            assert forall|i: int| l <= i < n && s <= i - l implies #[trigger] right_shift_ok(
                x@,
                l as int,
                i,
                s as int,
            ) by {
                if agrees_back(x@, s as int, lo as int, i) && x@[i - s] != x@[i] {
                    if k < i {
                        assert(x@[k as int] == x@[k - s]);
                    } else if k > i {
                        assert(x@[i] == x@[i - s]);
                    }
                }
            }
        }
        s += 1;
    }
    true
}

/// Whether every shift by less than `period` after a left-part mismatch is
/// safe: for each such shift `s`, `x` disagrees with itself shifted by `s`
/// somewhere from `max(l, s)` on.
fn check_left_shifts<T: Element>(x: &[T], l: usize, period: usize) -> (r: bool)
    requires
        l < x@.len(),
        period <= x@.len(),
    ensures
        r ==> forall|j: int, s: int|
            1 <= j <= l && 1 <= s < period ==> #[trigger] left_shift_ok(x@, j, s),
{
    if l == 0 {
        return true;
    }
    let n = x.len();
    let mut s: usize = 1;
    while s < period
        invariant
            n == x@.len(),
            1 <= l < n,
            period <= n,
            1 <= s,
            forall|j: int, s2: int|
                1 <= j <= l && 1 <= s2 < s ==> #[trigger] left_shift_ok(x@, j, s2),
        decreases period - s,
    {
        let lo = if l >= s {
            l
        } else {
            s
        };
        let mut m = lo;
        while m < n && x[m - s].same(&x[m])
            invariant
                n == x@.len(),
                s <= lo <= m <= n,
            decreases n - m,
        {
            m += 1;
        }
        if m >= n {
            return false;
        }
        proof {
            assert forall|j: int| 1 <= j <= l implies #[trigger] left_shift_ok(x@, j, s as int) by {
                let lo2 = if j >= s { j } else { s as int };
                if agrees_back(x@, s as int, lo2, n as int) {
                    assert(x@[m as int] == x@[m - s]);
                }
            }
        }
        s += 1;
    }
    true
}

/// Mirror of `check_right_shifts` for the search from the back, with the
/// back critical position `b`.
#[verifier::rlimit(40)]
fn check_back_left_shifts<T: Element>(x: &[T], b: usize) -> (r: bool)
    requires
        b <= x@.len(),
    ensures
        r ==> forall|i: int, s: int|
            0 <= i < b && 1 <= s < b - i ==> #[trigger] back_left_shift_ok(x@, b as int, i, s),
{
    let n = x.len();
    let mut s: usize = 1;
    while s < b
        invariant
            n == x@.len(),
            b <= n,
            1 <= s,
            forall|i: int, s2: int|
                0 <= i < b && 1 <= s2 < s && s2 < b - i ==> #[trigger] back_left_shift_ok(
                    x@,
                    b as int,
                    i,
                    s2,
                ),
        decreases b - s,
    {
        let hi = if b <= n - s {
            b
        } else {
            n - s
        };
        let mut j = hi;
        while j > 0 && x[j - 1 + s].same(&x[j - 1])
            invariant
                n == x@.len(),
                s < b <= n,
                hi <= n - s,
                j <= hi,
                agrees_ahead(x@, s as int, j as int, hi as int),
            decreases j,
        {
            j -= 1;
        }
        if j > 0 && j - 1 < b - s {
            return false;
        }
        proof {
            assert forall|i: int| 0 <= i < b && s < b - i implies #[trigger] back_left_shift_ok(
                x@,
                b as int,
                i,
                s as int,
            ) by {
                if agrees_ahead(x@, s as int, i + 1, hi as int) && x@[i + s] != x@[i] {
                    if j - 1 > i {
                        assert(x@[j - 1] == x@[j - 1 + s]);
                    } else if j - 1 < i {
                        assert(x@[i] == x@[i + s]);
                    }
                }
            }
        }
        s += 1;
    }
    true
}

/// Mirror of `check_left_shifts`: for each shift `s` below `period`, `x`
/// disagrees with itself shifted by `s` somewhere below `min(b, n - s)`.
fn check_back_right_shifts<T: Element>(x: &[T], b: usize, period: usize) -> (r: bool)
    requires
        b <= x@.len(),
        period <= x@.len(),
    ensures
        r ==> forall|i: int, s: int|
            b <= i < x@.len() && 1 <= s < period ==> #[trigger] back_right_shift_ok(x@, i, s),
{
    let n = x.len();
    if b == n {
        return true;
    }
    let mut s: usize = 1;
    while s < period
        invariant
            n == x@.len(),
            b < n,
            period <= n,
            1 <= s,
            forall|i: int, s2: int|
                b <= i < n && 1 <= s2 < s ==> #[trigger] back_right_shift_ok(x@, i, s2),
        decreases period - s,
    {
        let hi = if b <= n - s {
            b
        } else {
            n - s
        };
        let mut m: usize = 0;
        while m < hi && x[m + s].same(&x[m])
            invariant
                n == x@.len(),
                s < n,
                hi <= n - s,
                m <= hi,
            decreases hi - m,
        {
            m += 1;
        }
        if m >= hi {
            return false;
        }
        proof {
            assert forall|i: int| b <= i < n implies #[trigger] back_right_shift_ok(
                x@,
                i,
                s as int,
            ) by {
                let hi2 = if i <= n - s { i } else { n - s };
                if agrees_ahead(x@, s as int, 0, hi2) {
                    assert(x@[m as int] == x@[m + s]);
                }
            }
        }
        s += 1;
    }
    true
}

/// Selects, at compile time, the path that a search takes.
trait Period {
    spec fn long() -> bool;

    fn is_long_period() -> (r: bool)
        ensures
            r == Self::long(),
    ;
}

struct LongPeriod;

struct ShortPeriod;

impl Period for LongPeriod {
    spec fn long() -> bool {
        true
    }

    fn is_long_period() -> (r: bool) {
        true
    }
}

impl Period for ShortPeriod {
    spec fn long() -> bool {
        false
    }

    fn is_long_period() -> (r: bool) {
        false
    }
}

/// The Two-Way searcher of a non-empty needle.
pub struct TwoWaySearcher<'p, T> {
    /// critical factorization index
    crit_pos: usize,
    /// critical factorization index for the reversed needle
    crit_pos_back: usize,
    period: usize,
    /// a 64-bit fingerprint: bit `j` is set when an element of the needle
    /// sets it (for bytes, when `byte & 63 == j`)
    byteset: u64,
    needle: &'p [T],
    /// index into the needle before which the hay is known to match
    memory: usize,
    /// index into the needle after which the hay is known to match
    memory_back: usize,
    /// the number of needle elements compared with hay elements so far
    comparisons: Ghost<nat>,
}

impl<'p, T: Element> TwoWaySearcher<'p, T> {
    /// The needle that the searcher looks for.
    pub closed spec fn needle_view(&self) -> Seq<T> {
        self.needle@
    }

    /// How many times the searcher has compared an element of the needle
    /// with one of the hay.
    pub closed spec fn comparisons(&self) -> nat {
        self.comparisons@
    }

    /// The needle's byteset fingerprint, as the searcher holds it.
    pub closed spec fn byteset_view(&self) -> u64 {
        self.byteset
    }

    /// The searcher runs the long-period path.
    pub closed spec fn is_long(&self) -> bool {
        self.memory == usize::MAX
    }

    /// The preprocessing is consistent with the needle, and the searcher is
    /// at rest between two searches.
    pub closed spec fn wf(&self) -> bool {
        let n = self.needle@.len();
        &&& n >= 1
        &&& 1 <= self.period <= n
        &&& self.crit_pos < n
        &&& self.crit_pos_back <= n
        &&& self.byteset == spec_byteset(self.needle@)
        &&& self.shifts_safe()
        &&& if self.memory == usize::MAX {
            self.memory_back == usize::MAX
        } else {
            &&& self.memory == 0
            &&& self.memory_back == n
            &&& self.crit_pos < self.period
            &&& n - self.period <= self.crit_pos_back
            &&& has_period_from(self.needle@, 0, self.period as int)
        }
    }

    /// The needle that the searcher looks for.
    pub fn needle(&self) -> (r: &'p [T])
        ensures
            r@ == self.needle_view(),
    {
        self.needle
    }

    /// Whether the searches' comparisons are bounded by twice the distance
    /// they scan, which fails only for the fallback setup.
    pub fn is_linear(&self) -> (r: bool)
        requires
            self.wf(),
        ensures
            r == self.linear(),
    {
        let n = self.needle.len();
        self.period > self.crit_pos && self.crit_pos_back >= n - self.period && (self.memory
            != usize::MAX || (self.crit_pos >= n - self.period && self.period
            >= self.crit_pos_back))
    }

    /// A well-formed searcher has a non-empty needle.
    pub proof fn lemma_needle_nonempty(&self)
        requires
            self.wf(),
        ensures
            self.needle_view().len() >= 1,
    {
    }

    /// The factorization bounds the work of a search: after a mismatch the
    /// search moves on by more than it compared again. This holds of every
    /// factorization but the fallback (see `new`).
    pub closed spec fn linear(&self) -> bool {
        &&& self.period > self.crit_pos
        &&& self.period + self.crit_pos_back >= self.needle@.len()
        &&& self.memory == usize::MAX ==> {
            &&& self.period + self.crit_pos >= self.needle@.len()
            &&& self.period >= self.crit_pos_back
        }
    }

    /// The fields that a search never changes are those of `other`.
    pub closed spec fn same_setup(&self, other: &Self) -> bool {
        &&& self.crit_pos == other.crit_pos
        &&& self.crit_pos_back == other.crit_pos_back
        &&& self.period == other.period
        &&& self.byteset == other.byteset
        &&& self.needle == other.needle
    }

    /// The factorization lets the search skip no occurrence.
    pub closed spec fn shifts_safe(&self) -> bool {
        shifts_are_safe(
            self.needle@,
            self.crit_pos as int,
            self.period as int,
            self.crit_pos_back as int,
        )
    }

    /// Preprocesses `needle`: its critical factorization, whether its period
    /// is short, and its byteset. The factorization is checked to let no
    /// search skip an occurrence (`wf` includes it); should the check fail,
    /// a setup that compares like a naive search is used instead.
    pub fn new(needle: &'p [T]) -> (r: Self)
        requires
            needle@.len() >= 1,
        ensures
            r.wf(),
            r.needle_view() == needle@,
            r.byteset_view() == spec_byteset(needle@),
            r.comparisons() == 0,
    {
        let n = needle.len();
        let res_lt = maximal_suffix(needle, Ordering::Less);
        let res_gt = maximal_suffix(needle, Ordering::Greater);
        let chose_lt = res_lt.0 > res_gt.0 || (res_lt.0 == res_gt.0 && res_lt.1 > res_gt.1);
        let (crit_pos, period) = if chose_lt {
            res_lt
        } else {
            res_gt
        };
        let ghost order = if chose_lt {
            Ordering::Less
        } else {
            Ordering::Greater
        };
        assert(is_maximal_suffix(needle@, crit_pos as int, order));

        let byteset = Self::byteset_create(needle);

        // With a critical factorization (u, v) of the needle, decide whether u
        // is a suffix of v[..period]. If it is, the period is exact and short;
        // otherwise the needle's period is long (Crochemore and Rytter, "Text
        // Algorithms", ch. 13, treat the two cases with two algorithms). In the
        // short case the period is a period of the whole needle, so the
        // maximal suffix starts within its first period.
        let prefix = &needle[0..crit_pos];
        let shifted = &needle[period..(period + crit_pos)];
        if slices_equal(prefix, shifted) {
            proof {
                assert forall|k: int| 0 <= k && k + period < n implies #[trigger] needle@[k]
                    == needle@[k + period] by {
                    if k < crit_pos {
                        assert(prefix@[k] == shifted@[k]);
                    }
                }
                lemma_maximal_within_period(needle@, crit_pos as int, period as int, order);
            }
            // A separate critical factorization for the reversed needle,
            // x = u' v' with |v'| within one period, sped up by the known
            // period. A needle like "acba" is factored exactly forwards
            // (crit_pos = 1, period = 3) and with an approximate period in
            // reverse (crit_pos = 2, period = 2): the reverse factorization is
            // used with the exact period.
            let back_gt = reverse_maximal_suffix(needle, period, Ordering::Greater);
            let back_lt = reverse_maximal_suffix(needle, period, Ordering::Less);
            let back = if back_gt > back_lt { back_gt } else { back_lt };
            // Both reverse scans start within the first period.
            assert(has_period_from(needle@, 0, period as int));
            let crit_pos_back = n - back;
            if Self::shifts_checked(needle, crit_pos, period, crit_pos_back) {
                TwoWaySearcher {
                    crit_pos,
                    crit_pos_back,
                    period,
                    byteset,
                    needle,
                    memory: 0,
                    memory_back: n,
                    comparisons: Ghost(0),
                }
            } else {
                Self::fallback(needle, byteset)
            }
        } else {
            proof {
                if crit_pos == 0 {
                    assert(prefix@ =~= shifted@);
                }
            }
            let long_period = if crit_pos >= n - crit_pos {
                crit_pos
            } else {
                n - crit_pos
            } + 1;
            if Self::shifts_checked(needle, crit_pos, long_period, crit_pos) {
                TwoWaySearcher {
                    crit_pos,
                    crit_pos_back: crit_pos,
                    period: long_period,
                    byteset,
                    needle,
                    // the sentinel that marks the long-period path
                    memory: usize::MAX,
                    memory_back: usize::MAX,
                    comparisons: Ghost(0),
                }
            } else {
                Self::fallback(needle, byteset)
            }
        }
    }

    /// Checks that no shift of a search with this factorization can skip an
    /// occurrence. A critical factorization always passes (the Critical
    /// Factorization Theorem); the check costs time quadratic in the needle.
    fn shifts_checked(needle: &[T], crit_pos: usize, period: usize, crit_pos_back: usize) -> (r:
        bool)
        requires
            crit_pos < needle@.len(),
            period <= needle@.len(),
            crit_pos_back <= needle@.len(),
        ensures
            r ==> shifts_are_safe(
                needle@,
                crit_pos as int,
                period as int,
                crit_pos_back as int,
            ),
    {
        check_right_shifts(needle, crit_pos) && check_left_shifts(needle, crit_pos, period)
            && check_back_left_shifts(needle, crit_pos_back) && check_back_right_shifts(
            needle,
            crit_pos_back,
            period,
        )
    }

    /// The setup used should a factorization fail `shifts_checked`: the long
    /// path with the critical position on the last element, shifts by one
    /// after a left-part mismatch and an empty back left part. It compares
    /// like a naive search, and no shift of it can skip an occurrence.
    fn fallback(needle: &'p [T], byteset: u64) -> (r: Self)
        requires
            needle@.len() >= 1,
            byteset == spec_byteset(needle@),
        ensures
            r.wf(),
            r.needle_view() == needle@,
            r.byteset_view() == byteset,
            r.comparisons() == 0,
    {
        TwoWaySearcher {
            crit_pos: needle.len() - 1,
            crit_pos_back: 0,
            period: 1,
            byteset,
            needle,
            memory: usize::MAX,
            memory_back: usize::MAX,
            comparisons: Ghost(0),
        }
    }

    fn do_next<P: Period>(&mut self, hay: &[T], range: Range<usize>) -> (r: Option<Range<usize>>)
        requires
            old(self).wf(),
            P::long() == old(self).is_long(),
            range.start <= range.end <= hay@.len(),
        ensures
            final(self).wf(),
            final(self).needle_view() == old(self).needle_view(),
            final(self).is_long() == old(self).is_long(),
            final(self).same_setup(old(self)),
            final(self).linear() == old(self).linear(),
            old(self).linear() ==> match r {
                Some(m) => final(self).comparisons() <= old(self).comparisons() + 2 * (m.end
                    - range.start),
                None => final(self).comparisons() <= old(self).comparisons() + 2 * (range.end
                    - range.start),
            },
            match r {
                Some(m) => {
                    &&& range.start <= m.start
                    &&& m.end == m.start + old(self).needle_view().len()
                    &&& m.end <= range.end
                    &&& occurs_at(hay@, old(self).needle_view(), m.start as int)
                },
                None => true,
            },
            match r {
                Some(m) => no_match_starting(
                    hay@,
                    old(self).needle_view(),
                    range.start as int,
                    m.start as int,
                    range.end as int,
                ),
                None => no_match_starting(
                    hay@,
                    old(self).needle_view(),
                    range.start as int,
                    range.end as int,
                    range.end as int,
                ),
            },
    {
        let needle = self.needle;
        let n = needle.len();
        let ghost x = needle@;
        let ghost safe = old(self).shifts_safe();
        let ghost l = self.crit_pos as int;
        let mut position = range.start;
        let ghost mut cmp: int = self.comparisons@ as int;
        let ghost lin = old(self).linear();
        let ghost mut frontier: int = range.start as int;
        loop
            invariant
                self.comparisons == old(self).comparisons,
                cmp >= old(self).comparisons@,
                lin == old(self).linear(),
                lin ==> cmp - old(self).comparisons@ <= (frontier - range.start) + (position
                    - range.start),
                range.start <= frontier <= range.end,
                lin ==> frontier <= position + (if P::long() || l >= self.memory {
                    l
                } else {
                    self.memory as int
                }),
                self.same_setup(old(self)),
                self.memory_back == old(self).memory_back,
                needle == self.needle,
                x == needle@,
                n == x.len(),
                l == self.crit_pos,
                old(self).wf(),
                safe == old(self).shifts_safe(),
                P::long() == old(self).is_long(),
                range.start <= position <= range.end,
                range.end <= hay@.len(),
                P::long() ==> self.memory == usize::MAX,
                !P::long() ==> {
                    &&& self.memory < n
                    &&& position + self.memory <= range.end
                    &&& forall|k: int| 0 <= k < self.memory ==> hay@[position + k] == #[trigger] x[k]
                },
                safe ==> no_match_starting(
                    hay@,
                    x,
                    range.start as int,
                    position as int,
                    range.end as int,
                ),
            decreases range.end - position,
        {
            // Check that there is room to search in.
            if range.end - position < n {
                if !P::is_long_period() {
                    self.memory = 0;
                }
                self.comparisons = Ghost(cmp as nat);
                return None;
            }
            let tail_item = &hay[position + (n - 1)];

            // Quickly skip by large portions unrelated to the needle.
            if !self.byteset_contains(tail_item) {
                proof {
                    lemma_byteset_skip(hay@, x, position + n - 1);
                }
                position += n;
                if !P::is_long_period() {
                    self.memory = 0;
                }
                continue;
            }

            // See if the right part of the needle matches.
            let start = if P::is_long_period() {
                self.crit_pos
            } else if self.crit_pos >= self.memory {
                self.crit_pos
            } else {
                self.memory
            };
            let mut i = start;
            let ghost cmp_right = cmp;
            loop
                invariant_except_break
                    cmp == cmp_right + (i - start),
                invariant
                    start <= i <= n,
                    position + n <= range.end,
                    range.end <= hay@.len(),
                    n == x.len(),
                    x == needle@,
                    forall|k: int| start <= k < i ==> hay@[position + k] == #[trigger] x[k],
                ensures
                    start <= i <= n,
                    forall|k: int| start <= k < i ==> hay@[position + k] == #[trigger] x[k],
                    i < n ==> hay@[position + i] != x[i as int],
                    cmp == cmp_right + (i - start) + (if i < n {
                        1int
                    } else {
                        0int
                    }),
                decreases n - i,
            {
                if i == n {
                    break;
                }
                proof {
                    cmp = cmp + 1;
                }
                if !needle[i].same(&hay[position + i]) {
                    break;
                }
                i += 1;
            }
            proof {
                assert forall|k: int| l <= k < i implies hay@[position + k] == #[trigger] x[k] by {
                    if k < start {
                        assert(!P::long() && k < self.memory);
                    }
                }
            }
            if i < n {
                proof {
                    if safe {
                        lemma_right_shift(hay@, x, l, position as int, i as int);
                    }
                }
                proof {
                    frontier = position + i;
                }
                position += i - self.crit_pos + 1;
                if !P::is_long_period() {
                    self.memory = 0;
                }
                continue;
            }

            // See if the left part of the needle matches.
            let start_left = if P::is_long_period() {
                0
            } else {
                self.memory
            };
            let crit_pos = self.crit_pos;
            let mut j = crit_pos;
            let ghost cmp_left = cmp;
            loop
                invariant_except_break
                    cmp == cmp_left + (crit_pos - j),
                invariant
                    j <= crit_pos < n,
                    start_left <= j || j == crit_pos,
                    position + n <= range.end,
                    range.end <= hay@.len(),
                    n == x.len(),
                    x == needle@,
                    forall|k: int| j <= k < crit_pos ==> hay@[position + k] == #[trigger] x[k],
                ensures
                    j <= crit_pos,
                    start_left <= j || j == crit_pos,
                    forall|k: int| j <= k < crit_pos ==> hay@[position + k] == #[trigger] x[k],
                    j > start_left ==> hay@[position + j - 1] != x[j - 1],
                    cmp == cmp_left + (crit_pos - j) + (if j > start_left {
                        1int
                    } else {
                        0int
                    }),
                decreases j,
            {
                if j <= start_left {
                    break;
                }
                proof {
                    cmp = cmp + 1;
                }
                if !needle[j - 1].same(&hay[position + j - 1]) {
                    break;
                }
                j -= 1;
            }
            if j > start_left {
                proof {
                    if !P::long() {
                        let p = self.period as int;
                        assert forall|k: int| 0 <= k < n - p implies hay@[position + p + k]
                            == #[trigger] x[k] by {
                            assert(x[k] == x[k + p]);
                            assert(hay@[position + (k + p)] == x[k + p]);
                        }
                    }
                    if safe {
                        lemma_left_shift(hay@, x, l, self.period as int, position as int, j as int);
                    }
                }
                proof {
                    frontier = position + n;
                }
                position += self.period;
                if !P::is_long_period() {
                    self.memory = n - self.period;
                }
                continue;
            }

            // The needle is found.
            proof {
                assert forall|k: int| 0 <= k < n implies hay@[position + k] == #[trigger] x[k] by {
                    if k < self.memory && !P::long() {
                    } else if k < crit_pos {
                    } else {
                    }
                }
            }
            if !P::is_long_period() {
                self.memory = 0;
            }
            self.comparisons = Ghost(cmp as nat);
            return Some(position..(position + n));
        }
    }

    /// Searches `hay[range]` from the front: the first occurrence of the
    /// needle, as a range of `hay`, or `None` when there is none.
    pub fn next(&mut self, hay: &[T], range: Range<usize>) -> (r: Option<Range<usize>>)
        requires
            old(self).wf(),
            range.start <= range.end <= hay@.len(),
        ensures
            final(self).wf(),
            final(self).needle_view() == old(self).needle_view(),
            final(self).is_long() == old(self).is_long(),
            match r {
                Some(m) => {
                    &&& range.start <= m.start
                    &&& m.end == m.start + old(self).needle_view().len()
                    &&& m.end <= range.end
                    &&& occurs_at(hay@, old(self).needle_view(), m.start as int)
                },
                None => true,
            },
            final(self).same_setup(old(self)),
            final(self).linear() == old(self).linear(),
            old(self).linear() ==> match r {
                Some(m) => final(self).comparisons() <= old(self).comparisons() + 2 * (m.end - range.start),
                None => final(self).comparisons() <= old(self).comparisons() + 2 * (range.end
                    - range.start),
            },
            match r {
                Some(m) => no_match_starting(
                    hay@,
                    old(self).needle_view(),
                    range.start as int,
                    m.start as int,
                    range.end as int,
                ),
                None => no_match_starting(
                    hay@,
                    old(self).needle_view(),
                    range.start as int,
                    range.end as int,
                    range.end as int,
                ),
            },
    {
        if self.memory != usize::MAX {
            self.do_next::<ShortPeriod>(hay, range)
        } else {
            self.do_next::<LongPeriod>(hay, range)
        }
    }

    fn do_next_back<P: Period>(&mut self, hay: &[T], range: Range<usize>) -> (r: Option<
        Range<usize>,
    >)
        requires
            old(self).wf(),
            P::long() == old(self).is_long(),
            range.start <= range.end <= hay@.len(),
        ensures
            final(self).wf(),
            final(self).needle_view() == old(self).needle_view(),
            final(self).is_long() == old(self).is_long(),
            final(self).same_setup(old(self)),
            final(self).linear() == old(self).linear(),
            old(self).linear() ==> match r {
                Some(m) => final(self).comparisons() <= old(self).comparisons() + 2 * (range.end
                    - m.start),
                None => final(self).comparisons() <= old(self).comparisons() + 2 * (range.end
                    - range.start),
            },
            match r {
                Some(m) => {
                    &&& range.start <= m.start
                    &&& m.end == m.start + old(self).needle_view().len()
                    &&& m.end <= range.end
                    &&& occurs_at(hay@, old(self).needle_view(), m.start as int)
                },
                None => true,
            },
            match r {
                Some(m) => no_match_starting(
                    hay@,
                    old(self).needle_view(),
                    m.start + 1,
                    range.end as int,
                    range.end as int,
                ),
                None => no_match_starting(
                    hay@,
                    old(self).needle_view(),
                    range.start as int,
                    range.end as int,
                    range.end as int,
                ),
            },
    {
        let needle = self.needle;
        let n = needle.len();
        let ghost x = needle@;
        let ghost safe = old(self).shifts_safe();
        let ghost b = self.crit_pos_back as int;
        let mut end = range.end;
        let ghost mut cmp: int = self.comparisons@ as int;
        let ghost lin = old(self).linear();
        let ghost mut frontier: int = range.end as int;
        loop
            invariant
                self.comparisons == old(self).comparisons,
                cmp >= old(self).comparisons@,
                lin == old(self).linear(),
                lin ==> cmp - old(self).comparisons@ <= (range.end - frontier) + (range.end - end),
                range.start <= frontier <= range.end,
                lin ==> frontier >= end - n + (if P::long() || b <= self.memory_back {
                    b
                } else {
                    self.memory_back as int
                }),
                self.same_setup(old(self)),
                self.memory == old(self).memory,
                needle == self.needle,
                x == needle@,
                n == x.len(),
                b == self.crit_pos_back,
                old(self).wf(),
                safe == old(self).shifts_safe(),
                P::long() == old(self).is_long(),
                range.start <= end <= range.end,
                range.end <= hay@.len(),
                P::long() ==> self.memory_back == usize::MAX,
                !P::long() ==> {
                    &&& self.memory_back <= n
                    &&& forall|k: int|
                        self.memory_back <= k < n ==> hay@[end - n + k] == #[trigger] x[k]
                },
                safe ==> forall|q: int|
                    end - n < q && range.start <= q && q + n <= range.end ==> !#[trigger] occurs_at(
                        hay@,
                        x,
                        q,
                    ),
            decreases end - range.start,
        {
            // Check that there is room to search in.
            if end - range.start < n {
                if !P::is_long_period() {
                    self.memory_back = n;
                }
                self.comparisons = Ghost(cmp as nat);
                return None;
            }
            let front_item = &hay[end - n];

            // Quickly skip by large portions unrelated to the needle.
            if !self.byteset_contains(front_item) {
                proof {
                    lemma_byteset_skip(hay@, x, end - n);
                }
                end -= n;
                if !P::is_long_period() {
                    self.memory_back = n;
                }
                continue;
            }

            // See if the left part of the needle matches.
            let crit = if P::is_long_period() {
                self.crit_pos_back
            } else if self.crit_pos_back <= self.memory_back {
                self.crit_pos_back
            } else {
                self.memory_back
            };
            let mut i = crit;
            let ghost cmp_left = cmp;
            loop
                invariant_except_break
                    cmp == cmp_left + (crit - i),
                invariant
                    i <= crit <= n,
                    range.start + n <= end,
                    end <= hay@.len(),
                    n == x.len(),
                    x == needle@,
                    forall|k: int| i <= k < crit ==> hay@[end - n + k] == #[trigger] x[k],
                ensures
                    i <= crit,
                    forall|k: int| i <= k < crit ==> hay@[end - n + k] == #[trigger] x[k],
                    i > 0 ==> hay@[end - n + i - 1] != x[i - 1],
                    cmp == cmp_left + (crit - i) + (if i > 0 {
                        1int
                    } else {
                        0int
                    }),
                decreases i,
            {
                if i == 0 {
                    break;
                }
                proof {
                    cmp = cmp + 1;
                }
                if !needle[i - 1].same(&hay[end - n + i - 1]) {
                    break;
                }
                i -= 1;
            }
            if i > 0 {
                proof {
                    if safe {
                        assert forall|k: int| i - 1 < k < b implies hay@[end - n + k]
                            == #[trigger] x[k] by {
                            if k >= crit {
                                assert(!P::long() && self.memory_back <= k);
                            }
                        }
                        lemma_back_left_shift(hay@, x, b, end as int, i - 1);
                    }
                }
                proof {
                    frontier = end - n + i;
                }
                end -= self.crit_pos_back - (i - 1);
                if !P::is_long_period() {
                    self.memory_back = n;
                }
                continue;
            }

            // See if the right part of the needle matches.
            let needle_end = if P::is_long_period() {
                n
            } else {
                self.memory_back
            };
            let crit_pos_back = self.crit_pos_back;
            let mut i = crit_pos_back;
            let ghost cmp_right = cmp;
            loop
                invariant_except_break
                    cmp == cmp_right + (i - crit_pos_back),
                invariant
                    crit_pos_back <= i,
                    i <= needle_end || i == crit_pos_back,
                    needle_end <= n,
                    crit_pos_back <= n,
                    range.start + n <= end,
                    end <= hay@.len(),
                    n == x.len(),
                    x == needle@,
                    forall|k: int| crit_pos_back <= k < i ==> hay@[end - n + k] == #[trigger] x[k],
                ensures
                    crit_pos_back <= i,
                    i <= needle_end || i == crit_pos_back,
                    forall|k: int| crit_pos_back <= k < i ==> hay@[end - n + k] == #[trigger] x[k],
                    i < needle_end ==> hay@[end - n + i] != x[i as int],
                    cmp == cmp_right + (i - crit_pos_back) + (if i < needle_end {
                        1int
                    } else {
                        0int
                    }),
                decreases n - i,
            {
                if i >= needle_end {
                    break;
                }
                proof {
                    cmp = cmp + 1;
                }
                if !needle[i].same(&hay[end - n + i]) {
                    break;
                }
                i += 1;
            }
            if i < needle_end {
                proof {
                    if !P::long() {
                        let p = self.period as int;
                        assert forall|k: int| p <= k < n implies hay@[end - p - n + k]
                            == #[trigger] x[k] by {
                            assert(x[k - p] == x[k - p + p]);
                            assert(hay@[end - n + (k - p)] == x[k - p]);
                        }
                    }
                    if safe {
                        assert forall|k: int| 0 <= k < i implies hay@[end - n + k]
                            == #[trigger] x[k] by {
                            if k < crit {
                            } else {
                                assert(crit == crit_pos_back);
                            }
                        }
                        lemma_back_right_shift(
                            hay@,
                            x,
                            b,
                            self.period as int,
                            end as int,
                            i as int,
                        );
                    }
                }
                proof {
                    frontier = end - n;
                }
                end -= self.period;
                if !P::is_long_period() {
                    self.memory_back = self.period;
                }
                continue;
            }

            // The needle is found.
            proof {
                assert forall|k: int| 0 <= k < n implies hay@[end - n + k] == #[trigger] x[k] by {
                    if k < crit {
                    } else if k < crit_pos_back {
                    } else if k < needle_end {
                    } else {
                    }
                }
            }
            if !P::is_long_period() {
                self.memory_back = n;
            }
            self.comparisons = Ghost(cmp as nat);
            return Some((end - n)..end);
        }
    }

    /// Searches `hay[range]` from the back: the last occurrence of the
    /// needle, as a range of `hay`, or `None` when there is none.
    pub fn next_back(&mut self, hay: &[T], range: Range<usize>) -> (r: Option<Range<usize>>)
        requires
            old(self).wf(),
            range.start <= range.end <= hay@.len(),
        ensures
            final(self).wf(),
            final(self).needle_view() == old(self).needle_view(),
            final(self).is_long() == old(self).is_long(),
            match r {
                Some(m) => {
                    &&& range.start <= m.start
                    &&& m.end == m.start + old(self).needle_view().len()
                    &&& m.end <= range.end
                    &&& occurs_at(hay@, old(self).needle_view(), m.start as int)
                },
                None => true,
            },
            final(self).same_setup(old(self)),
            final(self).linear() == old(self).linear(),
            old(self).linear() ==> match r {
                Some(m) => final(self).comparisons() <= old(self).comparisons() + 2 * (range.end - m.start),
                None => final(self).comparisons() <= old(self).comparisons() + 2 * (range.end
                    - range.start),
            },
            match r {
                Some(m) => no_match_starting(
                    hay@,
                    old(self).needle_view(),
                    m.start + 1,
                    range.end as int,
                    range.end as int,
                ),
                None => no_match_starting(
                    hay@,
                    old(self).needle_view(),
                    range.start as int,
                    range.end as int,
                    range.end as int,
                ),
            },
    {
        if self.memory != usize::MAX {
            self.do_next_back::<ShortPeriod>(hay, range)
        } else {
            self.do_next_back::<LongPeriod>(hay, range)
        }
    }

    pub fn byteset_create(needle: &[T]) -> (r: u64)
        ensures
            r == spec_byteset(needle@),
    {
        let mut bs: u64 = 0;
        let mut i: usize = 0;
        while i < needle.len()
            invariant
                i <= needle@.len(),
                bs == spec_byteset(needle@.subrange(0, i as int)),
            decreases needle@.len() - i,
        {
            proof {
                assert(needle@.subrange(0, i + 1).drop_last() =~= needle@.subrange(0, i as int));
            }
            bs = needle[i].byteset_mask() | bs;
            i += 1;
        }
        assert(needle@.subrange(0, i as int) =~= needle@);
        bs
    }

    pub fn byteset_contains(&self, item: &T) -> (r: bool)
        ensures
            r == (self.byteset_view() & item.spec_mask() != 0),
    {
        (self.byteset & item.byteset_mask()) != 0
    }
}

} // verus!
