//! Renormalization: rescaling each channel so its largest magnitude
//! becomes exactly one real unit ([`SCALE`] in stored micro-units).
//!
//! A channel whose values are all zero has no meaningful scale; dividing
//! by its maximum would be a division by zero, so such a channel is
//! deliberately left untouched.

use vstd::prelude::*;
use vstd::arithmetic::div_mod::lemma_div_is_ordered;
use vstd::arithmetic::div_mod::lemma_div_multiples_vanish;
use vstd::arithmetic::div_mod::lemma_div_pos_is_pos;
use vstd::math::abs;

use crate::COORD_MAX;
use crate::SCALE;
use crate::model::Channel;
use crate::model::Point;
use crate::model::TemplateApp;
use crate::model::Value;
use crate::model::chan_of;
use crate::model::point_ok;
use crate::model::spec_mul_div_pos;

verus! {

/// The largest magnitude a channel takes over a curve (zero when empty).
pub open spec fn max_abs(s: Seq<Point>, c: Channel) -> int
    decreases s.len(),
{
    if s.len() == 0 {
        0
    } else {
        let t = max_abs(s.drop_last(), c);
        let a = abs(chan_of(s[s.len() - 1], c)) as int;
        if a >= t {
            a
        } else {
            t
        }
    }
}

/// One value rescaled so that magnitude `m` maps to `SCALE`, rounding
/// the magnitude down.
pub open spec fn renorm_val(v: int, m: int) -> int {
    spec_mul_div_pos(v, SCALE as int, m)
}

/// A whole curve rescaled per channel; a channel whose maximum `m` is
/// zero keeps its values.
pub open spec fn renorm_points(s: Seq<Point>, mx: int, my: int) -> Seq<Point> {
    Seq::new(
        s.len(),
        |i: int|
            Point {
                time: s[i].time,
                val: Value {
                    x: if mx == 0 {
                        s[i].val.x
                    } else {
                        renorm_val(s[i].val.x as int, mx) as i64
                    },
                    y: if my == 0 {
                        s[i].val.y
                    } else {
                        renorm_val(s[i].val.y as int, my) as i64
                    },
                },
            },
    )
}

/// Rescaling against a channel maximum `m` keeps magnitudes within one
/// real unit, and maps the extreme values exactly onto it.
pub proof fn lemma_renorm_val_bounds(v: int, m: int)
    requires
        0 < m,
        -m <= v <= m,
    ensures
        -SCALE <= renorm_val(v, m) <= SCALE,
        v == m || v == -m ==> renorm_val(v, m) == SCALE || renorm_val(v, m) == -SCALE,
{
    lemma_div_multiples_vanish(SCALE as int, m);
    assert(m * (SCALE as int) == (SCALE as int) * m);
    if v >= 0 {
        assert(0 <= v * (SCALE as int) <= m * (SCALE as int)) by (nonlinear_arith)
            requires
                0 <= v <= m,
                SCALE > 0,
        ;
        lemma_div_is_ordered(v * (SCALE as int), m * (SCALE as int), m);
        lemma_div_pos_is_pos(v * (SCALE as int), m);
    } else {
        assert(0 <= (-v) * (SCALE as int) <= m * (SCALE as int)) by (nonlinear_arith)
            requires
                0 <= -v <= m,
                SCALE > 0,
        ;
        lemma_div_is_ordered((-v) * (SCALE as int), m * (SCALE as int), m);
        lemma_div_pos_is_pos((-v) * (SCALE as int), m);
    }
}

/// Every element's magnitude is at most the channel maximum.
pub proof fn lemma_max_abs_ge(s: Seq<Point>, c: Channel, i: int)
    requires
        0 <= i < s.len(),
    ensures
        abs(chan_of(s[i], c)) <= max_abs(s, c),
        max_abs(s, c) >= 0,
    decreases s.len(),
{
    if i == s.len() - 1 {
        if s.len() > 1 {
            lemma_max_abs_ge(s.drop_last(), c, 0);
        }
    } else {
        lemma_max_abs_ge(s.drop_last(), c, i);
        assert(s.drop_last()[i] == s[i]);
    }
}

/// The channel maximum is attained by some element.
pub proof fn lemma_max_abs_achieved(s: Seq<Point>, c: Channel)
    requires
        s.len() > 0,
    ensures
        exists|i: int| 0 <= i < s.len() && abs(chan_of(#[trigger] s[i], c)) == max_abs(s, c),
    decreases s.len(),
{
    let last = s.len() - 1;
    let a = abs(chan_of(s[last], c)) as int;
    if s.len() == 1 {
        assert(max_abs(s.drop_last(), c) == 0);
        assert(abs(chan_of(s[0], c)) == max_abs(s, c));
    } else {
        let t = max_abs(s.drop_last(), c);
        if a >= t {
            assert(abs(chan_of(s[last], c)) == max_abs(s, c));
        } else {
            lemma_max_abs_achieved(s.drop_last(), c);
            let i = choose|i: int|
                0 <= i < s.drop_last().len() && abs(chan_of(#[trigger] s.drop_last()[i], c))
                    == max_abs(s.drop_last(), c);
            assert(s.drop_last()[i] == s[i]);
            assert(abs(chan_of(s[i], c)) == max_abs(s, c));
        }
    }
}

/// If every element's magnitude is at most `b`, so is the maximum.
pub proof fn lemma_max_abs_le(s: Seq<Point>, c: Channel, b: int)
    requires
        b >= 0,
        forall|i: int| 0 <= i < s.len() ==> abs(chan_of(#[trigger] s[i], c)) <= b,
    ensures
        max_abs(s, c) <= b,
    decreases s.len(),
{
    if s.len() > 0 {
        assert(forall|i: int|
            0 <= i < s.drop_last().len() ==> abs(chan_of(#[trigger] s.drop_last()[i], c)) <= b);
        lemma_max_abs_le(s.drop_last(), c, b);
    }
}

/// The channel maximum of a curve, computed by scan.
fn max_abs_exec(points: &Vec<Point>, c: Channel) -> (r: i64)
    requires
        forall|i: int| 0 <= i < points@.len() ==> point_ok(#[trigger] points@[i]),
    ensures
        r == max_abs(points@, c),
        0 <= r <= COORD_MAX,
{
    let mut r: i64 = 0;
    let mut k: usize = 0;
    let n = points.len();
    proof {
        assert(points@.take(0) =~= Seq::<Point>::empty());
    }
    while k < n
        invariant
            k <= n,
            n == points@.len(),
            forall|i: int| 0 <= i < points@.len() ==> point_ok(#[trigger] points@[i]),
            r == max_abs(points@.take(k as int), c),
            0 <= r <= COORD_MAX,
        decreases n - k,
    {
        let v: i64 = match c {
            Channel::X => points[k].val.x,
            Channel::Y => points[k].val.y,
        };
        let a: i64 = if v < 0 {
            -v
        } else {
            v
        };
        proof {
            let t = points@.take(k + 1 as int);
            assert(t.drop_last() =~= points@.take(k as int));
            assert(t[t.len() - 1] == points@[k as int]);
            assert(a == abs(chan_of(points@[k as int], c)));
        }
        if a > r {
            r = a;
        }
        k = k + 1;
    }
    proof {
        assert(points@.take(n as int) =~= points@);
    }
    r
}

/// One value rescaled against a positive channel maximum `m`.
fn renorm_val_exec(v: i64, m: i64) -> (r: i64)
    requires
        0 < m <= COORD_MAX,
        -m <= v <= m,
    ensures
        r == renorm_val(v as int, m as int),
        -SCALE <= r <= SCALE,
        (v == m || v == -m) ==> (r == SCALE || r == -SCALE),
{
    let va: u64 = if v < 0 {
        (-v) as u64
    } else {
        v as u64
    };
    let p: u64 = va * (SCALE as u64);
    let q: u64 = p / (m as u64);
    proof {
        lemma_div_is_ordered(p as int, m * (SCALE as int), m as int);
        lemma_div_multiples_vanish(SCALE as int, m as int);
        assert(va * (SCALE as int) <= m * (SCALE as int)) by (nonlinear_arith)
            requires
                0 <= va <= m,
                SCALE > 0,
        ;
        assert(q <= SCALE);
        if va == m {
            assert(q == SCALE);
        }
    }
    if v < 0 {
        -(q as i64)
    } else {
        q as i64
    }
}

impl TemplateApp {
    /// Rescale both channels so the largest magnitude of each becomes
    /// exactly `SCALE` (one real unit).  A channel that is all zero is
    /// left untouched; times and multipliers never change.
    pub fn renormalize(&mut self)
        requires
            old(self).wf(),
        ensures
            final(self).wf(),
            final(self).time_mult == old(self).time_mult,
            final(self).x_mult == old(self).x_mult,
            final(self).y_mult == old(self).y_mult,
            final(self).points@ =~= renorm_points(
                old(self).points@,
                max_abs(old(self).points@, Channel::X),
                max_abs(old(self).points@, Channel::Y),
            ),
            max_abs(old(self).points@, Channel::X) != 0 ==> max_abs(
                final(self).points@,
                Channel::X,
            ) == SCALE,
            max_abs(old(self).points@, Channel::Y) != 0 ==> max_abs(
                final(self).points@,
                Channel::Y,
            ) == SCALE,
    {
        let ghost s0 = self.points@;
        let mx: i64 = max_abs_exec(&self.points, Channel::X);
        let my: i64 = max_abs_exec(&self.points, Channel::Y);
        let n = self.points.len();
        let mut k: usize = 0;
        while k < n
            invariant
                k <= n,
                n == self.points@.len(),
                n == s0.len(),
                self.time_mult == old(self).time_mult,
                self.x_mult == old(self).x_mult,
                self.y_mult == old(self).y_mult,
                forall|i: int| k <= i < n ==> #[trigger] self.points@[i] == s0[i],
                forall|i: int|
                    0 <= i < k ==> #[trigger] self.points@[i] == renorm_points(
                        s0,
                        mx as int,
                        my as int,
                    )[i],
                forall|i: int| 0 <= i < n ==> point_ok(#[trigger] s0[i]),
                mx == max_abs(s0, Channel::X),
                my == max_abs(s0, Channel::Y),
                0 <= mx <= COORD_MAX,
                0 <= my <= COORD_MAX,
            decreases n - k,
        {
            let p = self.points[k];
            proof {
                lemma_max_abs_ge(s0, Channel::X, k as int);
                lemma_max_abs_ge(s0, Channel::Y, k as int);
            }
            let nx: i64 = if mx == 0 {
                p.val.x
            } else {
                renorm_val_exec(p.val.x, mx)
            };
            let ny: i64 = if my == 0 {
                p.val.y
            } else {
                renorm_val_exec(p.val.y, my)
            };
            self.points[k] = Point { time: p.time, val: Value { x: nx, y: ny } };
            k = k + 1;
        }
        proof {
            let s1 = self.points@;
            let rn = renorm_points(s0, mx as int, my as int);
            assert(s1 =~= rn);
            assert forall|a: int, b: int| 0 <= a <= b < n implies s1[a].time <= s1[b].time by {
                assert(s1[a].time == s0[a].time && s1[b].time == s0[b].time);
            }
            assert forall|i: int| 0 <= i < n implies point_ok(#[trigger] s1[i]) by {
                lemma_max_abs_ge(s0, Channel::X, i);
                lemma_max_abs_ge(s0, Channel::Y, i);
                if mx != 0 {
                    lemma_renorm_val_bounds(s0[i].val.x as int, mx as int);
                    assert(-SCALE <= s1[i].val.x <= SCALE);
                }
                if my != 0 {
                    lemma_renorm_val_bounds(s0[i].val.y as int, my as int);
                    assert(-SCALE <= s1[i].val.y <= SCALE);
                }
            }
            if mx != 0 {
                lemma_max_abs_achieved(s0, Channel::X);
                let w = choose|i: int|
                    0 <= i < s0.len() && abs(chan_of(#[trigger] s0[i], Channel::X)) == max_abs(s0, Channel::X);
                lemma_div_multiples_vanish(SCALE as int, mx as int);
                assert((mx as int) * (SCALE as int) == (SCALE as int) * (mx as int));
                assert(abs(chan_of(s1[w], Channel::X)) == SCALE);
                lemma_max_abs_ge(s1, Channel::X, w);
                assert forall|i: int| 0 <= i < n implies abs(
                    chan_of(#[trigger] s1[i], Channel::X),
                ) <= SCALE as int by {
                    lemma_max_abs_ge(s0, Channel::X, i);
                    lemma_renorm_val_bounds(s0[i].val.x as int, mx as int);
                }
                lemma_max_abs_le(s1, Channel::X, SCALE as int);
            }
            if my != 0 {
                lemma_max_abs_achieved(s0, Channel::Y);
                let w = choose|i: int|
                    0 <= i < s0.len() && abs(chan_of(#[trigger] s0[i], Channel::Y)) == max_abs(s0, Channel::Y);
                lemma_div_multiples_vanish(SCALE as int, my as int);
                assert((my as int) * (SCALE as int) == (SCALE as int) * (my as int));
                assert(abs(chan_of(s1[w], Channel::Y)) == SCALE);
                lemma_max_abs_ge(s1, Channel::Y, w);
                assert forall|i: int| 0 <= i < n implies abs(
                    chan_of(#[trigger] s1[i], Channel::Y),
                ) <= SCALE as int by {
                    lemma_max_abs_ge(s0, Channel::Y, i);
                    lemma_renorm_val_bounds(s0[i].val.y as int, my as int);
                }
                lemma_max_abs_le(s1, Channel::Y, SCALE as int);
            }
        }
    }
}

} // verus!
