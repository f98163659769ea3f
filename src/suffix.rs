//! Lexical order on suffixes, and the facts that show the maximal-suffix
//! scans correct.

use crate::element::Element;
use crate::two_way::periodic_over;
use core::cmp::Ordering;
use vstd::arithmetic::div_mod::{
    lemma_fundamental_div_mod, lemma_mod_multiples_vanish, lemma_small_mod,
};
use vstd::prelude::*;

verus! {

/// `a` comes strictly before `b` in the element order that `order` picks:
/// by rank for `Less`, by reversed rank for `Greater`.
pub open spec fn below<T: Element>(a: T, b: T, order: Ordering) -> bool {
    match order {
        Ordering::Less => a.rank() < b.rank(),
        Ordering::Greater => a.rank() > b.rank(),
        Ordering::Equal => false,
    }
}

/// `a` comes before `b` in the lexical order that `order` picks for
/// elements; a proper prefix comes before the sequence.
pub open spec fn lex_before<T: Element>(a: Seq<T>, b: Seq<T>, order: Ordering) -> bool {
    ||| exists|m: int|
        0 <= m < a.len() && m < b.len() && (forall|l: int| 0 <= l < m ==> a[l] == b[l])
            && #[trigger] below(a[m], b[m], order)
    ||| a.len() < b.len() && forall|l: int| 0 <= l < a.len() ==> a[l] == b[l]
}

/// The suffix of `s` at `i` is its maximal suffix for `order`: every other
/// suffix comes before it.
pub open spec fn is_maximal_suffix<T: Element>(s: Seq<T>, i: int, order: Ordering) -> bool {
    &&& 0 <= i < s.len()
    &&& forall|t: int|
        0 <= t < s.len() && t != i ==> #[trigger] lex_before(
            s.subrange(t, s.len() as int),
            s.subrange(i, s.len() as int),
            order,
        )
}

/// `s[t + l] == s[u + l]`.
pub open spec fn same_at<T>(s: Seq<T>, t: int, u: int, l: int) -> bool {
    s[t + l] == s[u + l]
}

/// The suffixes of `s` at `t` and `u` agree on `m` elements, then the one at
/// `t` falls below, all before index `k`.
pub open spec fn falls_below_at<T: Element>(
    s: Seq<T>,
    t: int,
    u: int,
    k: int,
    order: Ordering,
    m: int,
) -> bool {
    &&& 0 <= t
    &&& 0 <= u
    &&& 0 <= m
    &&& t + m < k
    &&& u + m < k
    &&& k <= s.len()
    &&& forall|l: int| 0 <= l < m ==> #[trigger] same_at(s, t, u, l)
    &&& below(s[t + m], s[u + m], order)
}

/// Before index `k`, the suffix of `s` at `t` is seen to come before the
/// one at `u`.
pub open spec fn falls_below<T: Element>(s: Seq<T>, t: int, u: int, k: int, order: Ordering) -> bool {
    exists|m: int| #[trigger] falls_below_at(s, t, u, k, order, m)
}

/// Within the period `p` that starts at `i`, the suffix at `i + r` is seen
/// to come before the one at `i`.
pub open spec fn inner_falls_below<T: Element>(
    s: Seq<T>,
    i: int,
    r: int,
    p: int,
    order: Ordering,
) -> bool {
    falls_below(s, i + r, i, i + p, order)
}

pub proof fn lemma_shift_mod(x: int, l: int, p: int)
    requires
        p > 0,
    ensures
        (x + l) % p == (x % p + l) % p,
{
    lemma_fundamental_div_mod(x, p);
    assert(x + l == p * (x / p) + (x % p + l));
    lemma_mod_multiples_vanish(x / p, x % p + l, p);
}

pub proof fn lemma_class<T>(s: Seq<T>, i: int, k: int, p: int, a: int, b: int)
    requires
        periodic_over(s, i, k, p),
        i <= a < k,
        i <= b < k,
        (a - i) % p == (b - i) % p,
    ensures
        s[a] == s[b],
{
    reveal(periodic_over);
}

pub proof fn lemma_falls_mono<T: Element>(
    s: Seq<T>,
    t: int,
    u: int,
    k: int,
    k2: int,
    order: Ordering,
)
    requires
        falls_below(s, t, u, k, order),
        k <= k2 <= s.len(),
    ensures
        falls_below(s, t, u, k2, order),
{
    let m = choose|m: int| #[trigger] falls_below_at(s, t, u, k, order, m);
    assert(falls_below_at(s, t, u, k2, order, m));
}

pub proof fn lemma_falls_trans<T: Element>(
    s: Seq<T>,
    t: int,
    u: int,
    v: int,
    k: int,
    order: Ordering,
)
    requires
        falls_below(s, t, u, k, order),
        falls_below(s, u, v, k, order),
    ensures
        falls_below(s, t, v, k, order),
{
    let m1 = choose|m: int| #[trigger] falls_below_at(s, t, u, k, order, m);
    let m2 = choose|m: int| #[trigger] falls_below_at(s, u, v, k, order, m);
    let m = if m1 <= m2 {
        m1
    } else {
        m2
    };
    assert forall|l: int| 0 <= l < m implies #[trigger] same_at(s, t, v, l) by {
        assert(same_at(s, t, u, l));
        assert(same_at(s, u, v, l));
    }
    if m1 < m2 {
        assert(same_at(s, u, v, m1));
    } else if m2 < m1 {
        assert(same_at(s, t, u, m2));
    }
    assert(falls_below_at(s, t, v, k, order, m));
}

/// The scan found the element at `j + k` below the one at `i + k`: the
/// period becomes everything from `i` through `j + k`, and every proper
/// suffix of that new period falls below it within it.
pub proof fn lemma_order_step<T: Element>(
    s: Seq<T>,
    i: int,
    j: int,
    k: int,
    p: int,
    order: Ordering,
)
    requires
        0 <= i,
        1 <= p,
        i + p <= j,
        0 <= k < p,
        j + k < s.len(),
        (j - i) % p == 0,
        periodic_over(s, i, j + k, p),
        forall|r: int| 0 < r < p ==> #[trigger] inner_falls_below(s, i, r, p, order),
        below(s[j + k], s[i + k], order),
    ensures
        forall|r: int|
            0 < r < j + k + 1 - i ==> #[trigger] inner_falls_below(s, i, r, j + k + 1 - i, order),
{
    let kk = j + k;
    assert forall|r: int| 0 < r < kk + 1 - i implies #[trigger] inner_falls_below(
        s,
        i,
        r,
        kk + 1 - i,
        order,
    ) by {
        let t = i + r;
        let rr = r % p;
        lemma_fundamental_div_mod(r, p);
        lemma_fundamental_div_mod(j - i, p);
        if rr == 0 {
            let m = kk - t;
            assert forall|l: int| 0 <= l < m implies #[trigger] same_at(s, t, i, l) by {
                lemma_shift_mod(r, l, p);
                lemma_class(s, i, kk, p, t + l, i + l);
            }
            assert(m == p * ((j - i) / p - r / p) + k) by (nonlinear_arith)
                requires
                    m == j + k - i - r,
                    j - i == p * ((j - i) / p) + (j - i) % p,
                    (j - i) % p == 0,
                    r == p * (r / p) + rr,
                    rr == 0,
            ;
            lemma_mod_multiples_vanish((j - i) / p - r / p, k, p);
            lemma_small_mod(k as nat, p as nat);
            lemma_class(s, i, kk, p, i + m, i + k);
            assert(falls_below_at(s, t, i, kk + 1, order, m));
        } else {
            assert(inner_falls_below(s, i, rr, p, order));
            let m2 = choose|m: int| #[trigger] falls_below_at(s, i + rr, i, i + p, order, m);
            if t + m2 < kk {
                assert forall|l: int| 0 <= l <= m2 implies s[t + l] == #[trigger] s[i + rr + l] by {
                    lemma_shift_mod(r, l, p);
                    lemma_small_mod(rr as nat, p as nat);
                    lemma_shift_mod(rr, l, p);
                    lemma_class(s, i, kk, p, t + l, i + rr + l);
                }
                assert forall|l: int| 0 <= l < m2 implies #[trigger] same_at(s, t, i, l) by {
                    assert(same_at(s, i + rr, i, l));
                    assert(s[t + l] == s[i + rr + l]);
                }
                assert(s[t + m2] == s[i + rr + m2]);
                assert(falls_below_at(s, t, i, kk + 1, order, m2));
            } else {
                let m = kk - t;
                assert forall|l: int| 0 <= l < m implies #[trigger] same_at(s, t, i, l) by {
                    lemma_shift_mod(r, l, p);
                    lemma_small_mod(rr as nat, p as nat);
                    lemma_shift_mod(rr, l, p);
                    lemma_class(s, i, kk, p, t + l, i + rr + l);
                    assert(same_at(s, i + rr, i, l));
                }
                assert(rr + m == p * ((j - i) / p - r / p) + k) by (nonlinear_arith)
                    requires
                        m == j + k - i - r,
                        j - i == p * ((j - i) / p) + (j - i) % p,
                        (j - i) % p == 0,
                        r == p * (r / p) + rr,
                ;
                lemma_mod_multiples_vanish((j - i) / p - r / p, k, p);
                lemma_small_mod(k as nat, p as nat);
                lemma_small_mod((rr + m) as nat, p as nat);
                assert(rr + m == k);
                if m < m2 {
                    assert(same_at(s, i + rr, i, m));
                }
                assert(falls_below_at(s, t, i, kk + 1, order, m));
            }
        }
    }
}

/// The scan found the element at `j + k` above the one at `i + k`: the scan
/// restarts at `j`, and every suffix that starts before `j` falls below it.
pub proof fn lemma_restart_step<T: Element>(
    s: Seq<T>,
    i: int,
    j: int,
    k: int,
    p: int,
    order: Ordering,
)
    requires
        0 <= i,
        1 <= p,
        i + p <= j,
        0 <= k < p,
        j + k < s.len(),
        (j - i) % p == 0,
        periodic_over(s, i, j + k, p),
        forall|r: int| 0 < r < p ==> #[trigger] inner_falls_below(s, i, r, p, order),
        forall|t: int| 0 <= t < i ==> #[trigger] falls_below(s, t, i, s.len() as int, order),
        below(s[i + k], s[j + k], order),
    ensures
        forall|t: int| 0 <= t < j ==> #[trigger] falls_below(s, t, j, s.len() as int, order),
{
    let n = s.len() as int;
    let kk = j + k;
    lemma_fundamental_div_mod(j - i, p);
    assert forall|l: int| 0 <= l < k implies #[trigger] same_at(s, i, j, l) by {
        lemma_shift_mod(j - i, l, p);
        lemma_mod_multiples_vanish((j - i) / p, l, p);
        lemma_class(s, i, kk, p, i + l, j + l);
    }
    assert(falls_below_at(s, i, j, kk + 1, order, k));
    lemma_falls_mono(s, i, j, kk + 1, n, order);
    assert forall|t: int| 0 <= t < j implies #[trigger] falls_below(s, t, j, n, order) by {
        if t < i {
            lemma_falls_trans(s, t, i, j, n, order);
        } else if t > i {
            let r = t - i;
            let rr = r % p;
            lemma_fundamental_div_mod(r, p);
            if rr == 0 {
                assert forall|l: int| 0 <= l < k implies #[trigger] same_at(s, t, j, l) by {
                    lemma_shift_mod(r, l, p);
                    lemma_shift_mod(j - i, l, p);
                    lemma_class(s, i, kk, p, t + l, j + l);
                }
                lemma_shift_mod(r, k, p);
                lemma_class(s, i, kk, p, t + k, i + k);
                assert(falls_below_at(s, t, j, kk + 1, order, k));
                lemma_falls_mono(s, t, j, kk + 1, n, order);
            } else {
                assert(inner_falls_below(s, i, rr, p, order));
                let m2 = choose|m: int| #[trigger] falls_below_at(s, i + rr, i, i + p, order, m);
                assert(r / p < (j - i) / p) by (nonlinear_arith)
                    requires
                        r == p * (r / p) + rr,
                        j - i == p * ((j - i) / p),
                        0 <= rr,
                        r < j - i,
                        p > 0,
                ;
                assert(p * (r / p) + p <= p * ((j - i) / p)) by (nonlinear_arith)
                    requires
                        r / p < (j - i) / p,
                        p > 0,
                ;
                assert forall|l: int| 0 <= l <= m2 implies s[t + l] == #[trigger] s[i + rr + l] by {
                    lemma_shift_mod(r, l, p);
                    lemma_small_mod(rr as nat, p as nat);
                    lemma_shift_mod(rr, l, p);
                    lemma_class(s, i, kk, p, t + l, i + rr + l);
                }
                assert forall|l: int| 0 <= l < m2 implies #[trigger] same_at(s, t, i, l) by {
                    assert(same_at(s, i + rr, i, l));
                    assert(s[t + l] == s[i + rr + l]);
                }
                assert(s[t + m2] == s[i + rr + m2]);
                assert(falls_below_at(s, t, i, kk + 1, order, m2));
                lemma_falls_mono(s, t, i, kk + 1, n, order);
                lemma_falls_trans(s, t, i, j, n, order);
            }
        }
    }
}

/// At the end of a scan of all of `s`, the suffix at `i` is maximal.
pub proof fn lemma_maximal_at_end<T: Element>(s: Seq<T>, i: int, p: int, order: Ordering)
    requires
        0 <= i,
        1 <= p,
        i + p <= s.len(),
        periodic_over(s, i, s.len() as int, p),
        forall|r: int| 0 < r < p ==> #[trigger] inner_falls_below(s, i, r, p, order),
        forall|t: int| 0 <= t < i ==> #[trigger] falls_below(s, t, i, s.len() as int, order),
    ensures
        is_maximal_suffix(s, i, order),
{
    let n = s.len() as int;
    assert forall|t: int| 0 <= t < n && t != i implies #[trigger] lex_before(
        s.subrange(t, n),
        s.subrange(i, n),
        order,
    ) by {
        let a = s.subrange(t, n);
        let b = s.subrange(i, n);
        if t < i {
            assert(falls_below(s, t, i, n, order));
            let m = choose|m: int| #[trigger] falls_below_at(s, t, i, n, order, m);
            assert forall|l: int| 0 <= l < m implies a[l] == b[l] by {
                assert(same_at(s, t, i, l));
            }
            assert(below(a[m], b[m], order));
        } else {
            let r = t - i;
            let rr = r % p;
            lemma_fundamental_div_mod(r, p);
            if rr == 0 {
                assert forall|l: int| 0 <= l < a.len() implies a[l] == b[l] by {
                    lemma_shift_mod(r, l, p);
                    lemma_class(s, i, n, p, t + l, i + l);
                }
            } else {
                assert(inner_falls_below(s, i, rr, p, order));
                let m2 = choose|m: int| #[trigger] falls_below_at(s, i + rr, i, i + p, order, m);
                assert forall|l: int| 0 <= l < n - t && l <= m2 implies s[t + l]
                    == #[trigger] s[i + rr + l] by {
                    lemma_shift_mod(r, l, p);
                    lemma_small_mod(rr as nat, p as nat);
                    lemma_shift_mod(rr, l, p);
                    lemma_class(s, i, n, p, t + l, i + rr + l);
                }
                if t + m2 < n {
                    assert forall|l: int| 0 <= l < m2 implies a[l] == b[l] by {
                        assert(same_at(s, i + rr, i, l));
                        assert(s[t + l] == s[i + rr + l]);
                    }
                    assert(s[t + m2] == s[i + rr + m2]);
                    assert(below(a[m2], b[m2], order));
                } else {
                    assert forall|l: int| 0 <= l < a.len() implies a[l] == b[l] by {
                        assert(same_at(s, i + rr, i, l));
                        assert(s[t + l] == s[i + rr + l]);
                    }
                }
            }
        }
    }
}

/// A suffix seen to fall below another comes before it.
pub proof fn lemma_falls_lex<T: Element>(s: Seq<T>, t: int, i: int, order: Ordering)
    requires
        falls_below(s, t, i, s.len() as int, order),
    ensures
        lex_before(s.subrange(t, s.len() as int), s.subrange(i, s.len() as int), order),
{
    let n = s.len() as int;
    let a = s.subrange(t, n);
    let b = s.subrange(i, n);
    let m = choose|m: int| #[trigger] falls_below_at(s, t, i, n, order, m);
    assert forall|l: int| 0 <= l < m implies a[l] == b[l] by {
        assert(same_at(s, t, i, l));
    }
    assert(below(a[m], b[m], order));
}

/// A sequence with period `p` from its start repeats with period `p` from
/// any `from` on.
pub proof fn lemma_period_everywhere<T>(s: Seq<T>, from: int, p: int)
    requires
        0 <= from,
        1 <= p,
        forall|k: int| 0 <= k && k + p < s.len() ==> #[trigger] s[k] == s[k + p],
    ensures
        periodic_over(s, from, s.len() as int, p),
{
    reveal(periodic_over);
    assert forall|k: int| from <= k < s.len() implies #[trigger] s[k] == s[from + (k - from) % p] by {
        lemma_period_back(s, from, p, k);
    }
}

proof fn lemma_period_back<T>(s: Seq<T>, from: int, p: int, k: int)
    requires
        0 <= from <= k < s.len(),
        1 <= p,
        forall|k2: int| 0 <= k2 && k2 + p < s.len() ==> #[trigger] s[k2] == s[k2 + p],
    ensures
        s[k] == s[from + (k - from) % p],
    decreases k - from,
{
    if k - from < p {
        lemma_small_mod((k - from) as nat, p as nat);
    } else {
        lemma_period_back(s, from, p, k - p);
        assert(s[k - p] == s[(k - p) + p]);
        lemma_mod_multiples_vanish(1, k - p - from, p);
        assert(k - from == p * 1 + (k - p - from));
    }
}

/// A sequence with period `p` from its start has its maximal suffix within
/// the first period.
pub proof fn lemma_maximal_within_period<T: Element>(s: Seq<T>, i: int, p: int, order: Ordering)
    requires
        is_maximal_suffix(s, i, order),
        1 <= p,
        forall|k: int| 0 <= k && k + p < s.len() ==> #[trigger] s[k] == s[k + p],
    ensures
        i < p,
{
    let n = s.len() as int;
    if i >= p {
        let t = i - p;
        assert(lex_before(s.subrange(t, n), s.subrange(i, n), order));
        let a = s.subrange(t, n);
        let b = s.subrange(i, n);
        if exists|m: int|
            0 <= m < a.len() && m < b.len() && (forall|l: int| 0 <= l < m ==> a[l] == b[l])
                && #[trigger] below(a[m], b[m], order) {
            let m = choose|m: int|
                0 <= m < a.len() && m < b.len() && (forall|l: int| 0 <= l < m ==> a[l] == b[l])
                    && #[trigger] below(a[m], b[m], order);
            assert(s[t + m] == s[t + m + p]);
        }
    }
}

} // verus!
