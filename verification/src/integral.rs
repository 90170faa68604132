//! The integral engine: exact signed area under a piecewise-linear curve.
//!
//! Areas are exact: for a channel `c` of a curve `s`, the signed area in
//! real units is `trap_sum(s, c) / (2 * SCALE * SCALE)`, where
//! [`trap_sum`] is twice the trapezoid-rule sum over stored micro-unit
//! coordinates.  The executable computation follows the segment
//! decomposition (triangle atop a rectangle for same-signed ends, two
//! triangles either side of the crossing otherwise) and is proved equal
//! to the trapezoid sum on every segment.

use vstd::prelude::*;
use vstd::arithmetic::div_mod::lemma_div_multiples_vanish;
use vstd::math::abs;
use vstd::math::min;

use crate::COORD_MAX;
use crate::MAX_POINTS;
use crate::model::Channel;
use crate::model::Point;
use crate::model::chan_of;
use crate::model::point_ok;
use crate::model::times_sorted;

verus! {

/// Largest magnitude of one segment's doubled area:
/// `2 * COORD_MAX * 2 * COORD_MAX`.
pub const SEG2_MAX: i128 = 4_000_000_000_000_000_000_000_000;

/// The sign convention of the engine: zero counts as non-negative.
pub open spec fn sgn(v: int) -> int {
    if v >= 0 {
        1
    } else {
        -1
    }
}

/// Twice the trapezoid-rule sum of a channel over stored coordinates:
/// the sum over consecutive samples of `(t1 - t0) * (v0 + v1)`.
/// An empty or single-sample curve sums to zero.
pub open spec fn trap_sum(s: Seq<Point>, c: Channel) -> int
    decreases s.len(),
{
    if s.len() < 2 {
        0
    } else {
        trap_sum(s.drop_last(), c) + (s[s.len() - 1].time - s[s.len() - 2].time) * (chan_of(
            s[s.len() - 2],
            c,
        ) + chan_of(s[s.len() - 1], c))
    }
}

/// Law: on a segment whose end values share a sign, the engine's
/// decomposition — the triangular excess `dt * |v1 - v0| / 2 * sgn(v1)`
/// atop the rectangular base `dt * min(|v0|, |v1|) * sgn(v1)` — equals
/// the trapezoid rule `dt * (v0 + v1) / 2` exactly (both sides doubled
/// here).
pub proof fn lemma_same_sign_decomposition(dt: int, v0: int, v1: int)
    requires
        dt >= 0,
        (v0 >= 0 && v1 >= 0) || (v0 < 0 && v1 < 0),
    ensures
        dt * (abs(v1 - v0) as int) * sgn(v1) + 2 * dt * min(abs(v0) as int, abs(v1) as int) * sgn(
            v1,
        ) == dt * (v0 + v1),
{
    if v0 >= 0 && v1 >= 0 {
        if v1 >= v0 {
            assert(dt * (v1 - v0) * 1 + 2 * dt * v0 * 1 == dt * (v0 + v1)) by (nonlinear_arith);
        } else {
            assert(dt * (v0 - v1) * 1 + 2 * dt * v1 * 1 == dt * (v0 + v1)) by (nonlinear_arith);
        }
    } else {
        if abs(v1 - v0) == v1 - v0 {
            assert(dt * (v1 - v0) * -1 + 2 * dt * (-v1) * -1 == dt * (v0 + v1)) by (nonlinear_arith);
        } else {
            assert(dt * (v0 - v1) * -1 + 2 * dt * (-v0) * -1 == dt * (v0 + v1)) by (nonlinear_arith);
        }
    }
}

/// Law: a segment that crosses zero (`v0 > 0`, `v1 < 0`) splits at its
/// zero crossing, a time `t1 = dt * v0 / (v0 - v1)` past the first
/// sample, with `t2 = dt - t1` remaining.  Both parts are non-negative,
/// and the two triangle areas `t1 * v0 / 2` and `t2 * v1 / 2` sum to
/// the trapezoid rule `dt * (v0 + v1) / 2`.  Stated exactly with the
/// positive denominator `v0 - v1` cleared and all areas doubled:
/// `t1n / den` is the crossing time and `t2n / den` the remainder.
pub proof fn lemma_zero_crossing_split(dt: int, v0: int, v1: int)
    requires
        dt >= 0,
        v0 > 0,
        v1 < 0,
    ensures
        ({
            let den = v0 - v1;
            let t1n = dt * v0;
            let t2n = dt * den - t1n;
            &&& den > 0
            &&& t1n >= 0
            &&& t2n >= 0
            &&& t1n * v0 + t2n * v1 == dt * (v0 + v1) * den
        }),
{
    let den = v0 - v1;
    let t1n = dt * v0;
    let t2n = dt * den - t1n;
    assert(t1n >= 0) by (nonlinear_arith)
        requires
            dt >= 0,
            v0 > 0,
            t1n == dt * v0,
    ;
    assert(t2n == dt * (-v1)) by (nonlinear_arith)
        requires
            t2n == dt * den - t1n,
            den == v0 - v1,
            t1n == dt * v0,
    ;
    assert(dt * (-v1) >= 0) by (nonlinear_arith)
        requires
            dt >= 0,
            v1 < 0,
    ;
    assert(t1n * v0 + t2n * v1 == dt * (v0 + v1) * den) by (nonlinear_arith)
        requires
            den == v0 - v1,
            t1n == dt * v0,
            t2n == dt * den - t1n,
    ;
}

/// Exact division of `n` by `d` when the quotient `q` is known: used by
/// the crossing branch, whose numerator is divisible by construction.
fn exact_div(n: i128, d: i128, Ghost(q): Ghost<int>) -> (r: i128)
    requires
        d != 0,
        n == q * d,
        -0x4000_0000_0000_0000_0000_0000_0000 <= q <= 0x4000_0000_0000_0000_0000_0000_0000,
        i128::MIN < n,
        i128::MIN < d,
    ensures
        r == q,
{
    let nd: i128 = if d < 0 {
        -n
    } else {
        n
    };
    let dd: i128 = if d < 0 {
        -d
    } else {
        d
    };
    proof {
        assert(nd == q * dd) by (nonlinear_arith)
            requires
                n == q * d,
                (d < 0 ==> nd == -n && dd == -d) && (d >= 0 ==> nd == n && dd == d),
                d != 0,
        ;
    }
    if nd >= 0 {
        proof {
            assert(q >= 0) by (nonlinear_arith)
                requires
                    nd == q * dd,
                    nd >= 0,
                    dd > 0,
            ;
            lemma_div_multiples_vanish(q, dd as int);
            assert(dd * q == q * dd) by (nonlinear_arith);
        }
        let r: u128 = (nd as u128) / (dd as u128);
        r as i128
    } else {
        proof {
            assert(q < 0 && -nd == (-q) * dd) by (nonlinear_arith)
                requires
                    nd == q * dd,
                    nd < 0,
                    dd > 0,
            ;
            lemma_div_multiples_vanish(-q, dd as int);
            assert(dd * (-q) == (-q) * dd) by (nonlinear_arith);
        }
        let r: u128 = ((-nd) as u128) / (dd as u128);
        -(r as i128)
    }
}

/// Doubled signed area of one segment, by the engine's sign case split.
/// A zero-width segment (`t0 == t1`) contributes zero area; the
/// crossing branch never divides by zero since its end values strictly
/// straddle zero.
fn seg_area2(t0: i64, v0: i64, t1: i64, v1: i64) -> (r: i128)
    requires
        t0 <= t1,
        0 <= t0 <= COORD_MAX,
        0 <= t1 <= COORD_MAX,
        -COORD_MAX <= v0 <= COORD_MAX,
        -COORD_MAX <= v1 <= COORD_MAX,
    ensures
        r == (t1 - t0) * (v0 + v1),
        -SEG2_MAX <= r <= SEG2_MAX,
{
    let dt: i128 = (t1 as i128) - (t0 as i128);
    let a0: i128 = v0 as i128;
    let a1: i128 = v1 as i128;
    proof {
        assert(-SEG2_MAX <= dt * (a0 + a1) <= SEG2_MAX) by (nonlinear_arith)
            requires
                0 <= dt <= COORD_MAX,
                -COORD_MAX <= a0 <= COORD_MAX,
                -COORD_MAX <= a1 <= COORD_MAX,
                COORD_MAX == 1_000_000_000_000,
                SEG2_MAX == 4_000_000_000_000_000_000_000_000,
        ;
    }
    match (v0 >= 0, v1 >= 0) {
        (true, true) | (false, false) => {
            let dv_abs: i128 = if a1 >= a0 {
                a1 - a0
            } else {
                a0 - a1
            };
            let b0: i128 = if a0 >= 0 {
                a0
            } else {
                -a0
            };
            let b1: i128 = if a1 >= 0 {
                a1
            } else {
                -a1
            };
            let base: i128 = if b0 <= b1 {
                b0
            } else {
                b1
            };
            let s: i128 = if v1 >= 0 {
                1
            } else {
                -1
            };
            proof {
                lemma_same_sign_decomposition(dt as int, a0 as int, a1 as int);
                assert(dv_abs == abs(a1 - a0) && base == min(abs(a0 as int) as int, abs(
                    a1 as int,
                ) as int) && s == sgn(a1 as int));
                assert(0 <= dt * dv_abs <= SEG2_MAX && -SEG2_MAX <= dt * dv_abs * s <= SEG2_MAX && 0
                    <= 2 * dt * base <= SEG2_MAX && -SEG2_MAX <= 2 * dt * base * s <= SEG2_MAX) by (nonlinear_arith)
                    requires
                        0 <= dt <= 1_000_000_000_000,
                        0 <= dv_abs <= 2_000_000_000_000,
                        0 <= base <= 1_000_000_000_000,
                        s == 1 || s == -1,
                        SEG2_MAX == 4_000_000_000_000_000_000_000_000,
                ;
            }
            dt * dv_abs * s + 2 * dt * base * s
        },
        (true, false) | (false, true) => {
            let d: i128 = a0 - a1;
            proof {
                assert(0 <= a0 * a0 <= 1_000_000_000_000_000_000_000_000 && 0 <= a1 * a1
                    <= 1_000_000_000_000_000_000_000_000) by (nonlinear_arith)
                    requires
                        -1_000_000_000_000 <= a0 <= 1_000_000_000_000,
                        -1_000_000_000_000 <= a1 <= 1_000_000_000_000,
                ;
                assert(dt * (a0 * a0 - a1 * a1) == (dt * (a0 + a1)) * (a0 - a1)
                    && -4_000_000_000_000_000_000_000_000_000_000_000_000 <= dt * (a0 * a0 - a1
                    * a1) <= 4_000_000_000_000_000_000_000_000_000_000_000_000) by (nonlinear_arith)
                    requires
                        0 <= dt <= 1_000_000_000_000,
                        -1_000_000_000_000 <= a0 <= 1_000_000_000_000,
                        -1_000_000_000_000 <= a1 <= 1_000_000_000_000,
                ;
            }
            let n: i128 = dt * (a0 * a0 - a1 * a1);
            exact_div(n, d, Ghost((dt * (a0 + a1)) as int))
        },
    }
}

/// Exact doubled trapezoid sum of one channel: the signed area under
/// the channel's polyline in real units is the result divided by
/// `2 * SCALE * SCALE`.  Positions must already be non-decreasing; an
/// empty or single-sample curve yields exactly zero.
pub fn integral_of_points(points: &Vec<Point>, c: Channel) -> (r: i128)
    requires
        times_sorted(points@),
        points@.len() <= MAX_POINTS,
        forall|i: int| 0 <= i < points@.len() ==> point_ok(#[trigger] points@[i]),
    ensures
        r == trap_sum(points@, c),
        points@.len() < 2 ==> r == 0,
{
    if points.len() < 2 {
        return 0;
    }
    let ghost s = points@;
    let mut acc: i128 = 0;
    let mut k: usize = 1;
    proof {
        assert(s.take(1).len() == 1);
    }
    while k < points.len()
        invariant
            1 <= k <= s.len(),
            s == points@,
            2 <= s.len() <= MAX_POINTS,
            times_sorted(s),
            forall|i: int| 0 <= i < s.len() ==> point_ok(#[trigger] s[i]),
            acc == trap_sum(s.take(k as int), c),
            -(k as int) * SEG2_MAX <= acc <= (k as int) * SEG2_MAX,
        decreases s.len() - k,
    {
        let p0 = points[k - 1];
        let p1 = points[k];
        let v0: i64 = match c {
            Channel::X => p0.val.x,
            Channel::Y => p0.val.y,
        };
        let v1: i64 = match c {
            Channel::X => p1.val.x,
            Channel::Y => p1.val.y,
        };
        let seg: i128 = seg_area2(p0.time, v0, p1.time, v1);
        proof {
            let t = s.take(k + 1 as int);
            assert(t.drop_last() =~= s.take(k as int));
            assert(t[t.len() - 1] == s[k as int] && t[t.len() - 2] == s[k - 1 as int]);
            assert(trap_sum(t, c) == trap_sum(s.take(k as int), c) + (s[k as int].time - s[k
                - 1 as int].time) * (chan_of(s[k - 1 as int], c) + chan_of(s[k as int], c)));
            assert(seg == (s[k as int].time - s[k - 1 as int].time) * (chan_of(
                s[k - 1 as int],
                c,
            ) + chan_of(s[k as int], c)));
        }
        acc = acc + seg;
        k = k + 1;
    }
    proof {
        assert(s.take(s.len() as int) =~= s);
    }
    acc
}

/// Law: the integral of a constant-value channel over a curve spanning
/// `T = last time - first time` equals `v * T` — doubled here:
/// `trap_sum == 2 * v * T`.
pub proof fn lemma_constant_curve_integral(s: Seq<Point>, c: Channel, v: int)
    requires
        s.len() >= 1,
        forall|i: int| 0 <= i < s.len() ==> chan_of(#[trigger] s[i], c) == v,
    ensures
        trap_sum(s, c) == 2 * v * (s[s.len() - 1].time - s[0].time),
    decreases s.len(),
{
    if s.len() == 1 {
        assert(trap_sum(s, c) == 0);
    } else {
        let t = s.drop_last();
        assert(forall|i: int| 0 <= i < t.len() ==> chan_of(#[trigger] t[i], c) == v);
        lemma_constant_curve_integral(t, c, v);
        let tn = s[s.len() - 1].time as int;
        let tp = s[s.len() - 2].time as int;
        let t0 = s[0].time as int;
        assert(trap_sum(s, c) == 2 * v * (tp - t0) + (tn - tp) * (v + v));
        assert(2 * v * (tp - t0) + (tn - tp) * (v + v) == 2 * v * (tn - t0)) by (nonlinear_arith);
    }
}

} // verus!
