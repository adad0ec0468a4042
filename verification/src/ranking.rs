//! Ranking groups by their average delay and selecting the worst.
//!
//! An average is the exact fraction of total over count. Two averages are
//! ordered by multiplying out the fractions, so no rounding takes part in
//! the ranking.

use vstd::prelude::*;
use crate::summary::{accumulator_views, AccumulatorView, DelayAccumulator};

verus! {

/// An accumulator that has an average: it has counted at least one record,
/// and its total is one that so many delays can add up to. Its maximum plays
/// no part.
pub open spec fn rankable(a: AccumulatorView) -> bool {
    a.wf() && a.count >= 1
}

/// The average of `a` is less than the average of `b`.
pub open spec fn average_below(a: AccumulatorView, b: AccumulatorView) -> bool {
    a.total * b.count < b.total * a.count
}

/// The entry at `i` is the worst of `entries`: none has a higher average,
/// and every later one has a lower average.
pub open spec fn is_worst(entries: Seq<AccumulatorView>, i: int) -> bool {
    &&& 0 <= i < entries.len()
    &&& forall|j: int| 0 <= j < entries.len() ==> !average_below(entries[i], #[trigger] entries[j])
    &&& forall|j: int| i < j < entries.len() ==> average_below(#[trigger] entries[j], entries[i])
}

/// Two fractions `x / c` and `y / d` with positive denominators are ordered
/// as their whole parts are, and as their remainders where the whole parts
/// agree.
proof fn lemma_fraction_order(x: int, c: int, y: int, d: int)
    requires
        c > 0,
        d > 0,
    ensures
        x * d < y * c <==> (x / c < y / d || (x / c == y / d && (x % c) * d < (y % d) * c)),
{
    let q = x / c;
    let r = x % c;
    let p = y / d;
    let s = y % d;
    assert(x == c * q + r && 0 <= r < c) by (nonlinear_arith)
        requires
            c > 0,
            q == x / c,
            r == x % c,
    ;
    assert(y == d * p + s && 0 <= s < d) by (nonlinear_arith)
        requires
            d > 0,
            p == y / d,
            s == y % d,
    ;
    let m = c * d;
    assert(x * d == q * m + r * d && y * c == p * m + s * c && m == c * d) by (nonlinear_arith)
        requires
            x == c * q + r,
            y == d * p + s,
            m == c * d,
    ;
    assert(0 <= r * d < m && 0 <= s * c < m) by (nonlinear_arith)
        requires
            0 <= r < c,
            0 <= s < d,
            m == c * d,
    ;
    if q < p {
        assert((q + 1) * m <= p * m) by (nonlinear_arith)
            requires
                q + 1 <= p,
                m > 0,
        ;
        assert((q + 1) * m == q * m + m) by (nonlinear_arith);
    } else if p < q {
        assert((p + 1) * m <= q * m) by (nonlinear_arith)
            requires
                p + 1 <= q,
                m > 0,
        ;
        assert((p + 1) * m == p * m + m) by (nonlinear_arith);
    }
}

/// Raising every delay by the same amount does not change how two averages
/// are ordered.
proof fn lemma_shifted_order(a: AccumulatorView, b: AccumulatorView, k: int)
    ensures
        average_below(a, b) <==> (a.total + k * a.count) * b.count < (b.total + k * b.count)
            * a.count,
{
    assert((a.total + k * a.count) * b.count == a.total * b.count + k * (a.count * b.count))
        by (nonlinear_arith);
    assert((b.total + k * b.count) * a.count == b.total * a.count + k * (a.count * b.count))
        by (nonlinear_arith);
}

/// Averages are ordered transitively: if `low` is not above `mid` and `mid`
/// is not above `high`, then `low` is not above `high`.
pub proof fn lemma_average_transitive(low: AccumulatorView, mid: AccumulatorView, high: AccumulatorView)
    requires
        low.count >= 1,
        mid.count >= 1,
        high.count >= 1,
        !average_below(mid, low),
        !average_below(high, mid),
    ensures
        !average_below(high, low),
{
    let (tl, cl) = (low.total, low.count as int);
    let (tm, cm) = (mid.total, mid.count as int);
    let (th, ch) = (high.total, high.count as int);
    assert(tl * cm * ch <= tm * cl * ch) by (nonlinear_arith)
        requires
            tl * cm <= tm * cl,
            ch > 0,
    ;
    assert(tm * ch * cl <= th * cm * cl) by (nonlinear_arith)
        requires
            tm * ch <= th * cm,
            cl > 0,
    ;
    assert(tm * cl * ch == tm * ch * cl) by (nonlinear_arith);
    assert(tl * cm * ch == (tl * ch) * cm && th * cm * cl == (th * cl) * cm) by (nonlinear_arith);
    assert(tl * ch <= th * cl) by (nonlinear_arith)
        requires
            (tl * ch) * cm <= (th * cl) * cm,
            cm > 0,
    ;
}

/// Whether the average of `a` is less than the average of `b`, decided
/// exactly and without overflow.
pub fn average_is_below(a: &DelayAccumulator, b: &DelayAccumulator) -> (r: bool)
    requires
        rankable(a@),
        rankable(b@),
    ensures
        r == average_below(a@, b@),
{
    let count_a: u128 = a.count as u128;
    let count_b: u128 = b.count as u128;
    proof {
        assert(count_a * 0x8000_0000 <= 0xffff_ffff_ffff_ffff * 0x8000_0000) by (nonlinear_arith)
            requires
                count_a <= 0xffff_ffff_ffff_ffff,
        ;
        assert(count_b * 0x8000_0000 <= 0xffff_ffff_ffff_ffff * 0x8000_0000) by (nonlinear_arith)
            requires
                count_b <= 0xffff_ffff_ffff_ffff,
        ;
        assert(0x7fff_ffff * count_a <= 0x7fff_ffff * 0xffff_ffff_ffff_ffff) by (nonlinear_arith)
            requires
                count_a <= 0xffff_ffff_ffff_ffff,
        ;
        assert(0x7fff_ffff * count_b <= 0x7fff_ffff * 0xffff_ffff_ffff_ffff) by (nonlinear_arith)
            requires
                count_b <= 0xffff_ffff_ffff_ffff,
        ;
    }
    // Raised by 2^31 minutes a record, no total is negative.
    let raised_a: u128 = (a.total + (count_a * 0x8000_0000) as i128) as u128;
    let raised_b: u128 = (b.total + (count_b * 0x8000_0000) as i128) as u128;
    let whole_a: u128 = raised_a / count_a;
    let whole_b: u128 = raised_b / count_b;
    let rest_a: u128 = raised_a % count_a;
    let rest_b: u128 = raised_b % count_b;
    proof {
        lemma_shifted_order(a@, b@, 0x8000_0000);
        lemma_fraction_order(raised_a as int, count_a as int, raised_b as int, count_b as int);
        assert(rest_a * count_b <= 0xffff_ffff_ffff_ffff * 0xffff_ffff_ffff_ffff)
            by (nonlinear_arith)
            requires
                rest_a <= 0xffff_ffff_ffff_ffff,
                count_b <= 0xffff_ffff_ffff_ffff,
        ;
        assert(rest_b * count_a <= 0xffff_ffff_ffff_ffff * 0xffff_ffff_ffff_ffff)
            by (nonlinear_arith)
            requires
                rest_b <= 0xffff_ffff_ffff_ffff,
                count_a <= 0xffff_ffff_ffff_ffff,
        ;
    }
    if whole_a != whole_b {
        whole_a < whole_b
    } else {
        rest_a * count_b < rest_b * count_a
    }
}

/// Selects the worst entry: the one with the highest average, and among
/// several with that average the last. Returns its index, or `None` where
/// there is no entry at all.
pub fn worst_of(entries: &Vec<DelayAccumulator>) -> (r: Option<usize>)
    requires
        forall|i: int| 0 <= i < entries.len() ==> rankable(#[trigger] entries[i]@),
    ensures
        match r {
            Some(i) => is_worst(accumulator_views(entries@), i as int),
            None => entries.len() == 0,
        },
{
    if entries.len() == 0 {
        return None;
    }
    let ghost views = accumulator_views(entries@);
    let mut best: usize = 0;
    let mut j: usize = 1;
    while j < entries.len()
        invariant
            best < j <= entries.len(),
            views == accumulator_views(entries@),
            forall|i: int| 0 <= i < entries.len() ==> rankable(#[trigger] entries[i]@),
            forall|k: int| 0 <= k < j ==> !average_below(views[best as int], #[trigger] views[k]),
            forall|k: int| best < k < j ==> average_below(#[trigger] views[k], views[best as int]),
        decreases entries.len() - j,
    {
        assert(views[j as int] == entries[j as int]@);
        assert(views[best as int] == entries[best as int]@);
        if !average_is_below(&entries[j], &entries[best]) {
            proof {
                assert forall|k: int| 0 <= k < j + 1 implies !average_below(
                    views[j as int],
                    #[trigger] views[k],
                ) by {
                    if k < j {
                        assert(views[k] == entries[k]@);
                        lemma_average_transitive(views[k], views[best as int], views[j as int]);
                    }
                }
            }
            best = j;
        }
        j = j + 1;
    }
    Some(best)
}

/// At most one entry is the worst of a sequence.
pub proof fn lemma_worst_is_unique(entries: Seq<AccumulatorView>, i: int, j: int)
    requires
        is_worst(entries, i),
        is_worst(entries, j),
    ensures
        i == j,
{
    if i < j {
        assert(average_below(entries[j], entries[i]));
        assert(!average_below(entries[j], entries[i]));
    } else if j < i {
        assert(average_below(entries[i], entries[j]));
        assert(!average_below(entries[i], entries[j]));
    }
}

} // verus!
