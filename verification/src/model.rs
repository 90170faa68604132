//! The point model: samples, the curve invariants, and the editing state.

use vstd::prelude::*;
use vstd::arithmetic::div_mod::lemma_div_is_ordered;
use vstd::arithmetic::div_mod::lemma_div_multiples_vanish;

use crate::COORD_MAX;
use crate::MAX_POINTS;
use crate::MULT_MAX;
use crate::SCALE;

verus! {

/// Largest magnitude a display-space value may take.
pub const DISPLAY_MAX: i64 = 1_000_000_000_000_000_000;

/// One sample's dependent values, one per channel, in micro-units.
#[derive(Clone, Copy, PartialEq, Eq, Structural, Debug)]
pub struct Value {
    pub x: i64,
    pub y: i64,
}

impl Value {
    pub fn new(x: i64, y: i64) -> (r: Value)
        ensures
            r.x == x,
            r.y == y,
    {
        Value { x, y }
    }
}

/// One sample: an ordering coordinate and its dependent values.
#[derive(Clone, Copy, PartialEq, Eq, Structural, Debug)]
pub struct Point {
    pub time: i64,
    pub val: Value,
}

impl Point {
    pub fn new(time: i64, val: Value) -> (r: Point)
        ensures
            r.time == time,
            r.val == val,
    {
        Point { time, val }
    }
}

/// A dependent channel of the curve.
#[derive(Clone, Copy, PartialEq, Eq, Structural, Debug)]
pub enum Channel {
    X,
    Y,
}

/// The stored value of one channel of a sample.
pub open spec fn chan_of(p: Point, c: Channel) -> int {
    match c {
        Channel::X => p.val.x as int,
        Channel::Y => p.val.y as int,
    }
}

/// A dependent value stays within the machine bound.
pub open spec fn val_ok(v: i64) -> bool {
    -COORD_MAX <= v <= COORD_MAX
}

/// An ordering coordinate is non-negative and within the machine bound.
pub open spec fn time_ok(t: i64) -> bool {
    0 <= t <= COORD_MAX
}

/// All coordinates of one sample are in range.
pub open spec fn point_ok(p: Point) -> bool {
    time_ok(p.time) && val_ok(p.val.x) && val_ok(p.val.y)
}

/// Ordering coordinates never decrease along the sequence.
pub open spec fn times_sorted(s: Seq<Point>) -> bool {
    forall|i: int, j: int| 0 <= i <= j < s.len() ==> s[i].time <= s[j].time
}

/// The curve invariant: at least two samples, a bounded count, sorted
/// times, and every coordinate in range.
pub open spec fn curve_ok(s: Seq<Point>) -> bool {
    &&& 2 <= s.len() <= MAX_POINTS
    &&& times_sorted(s)
    &&& forall|i: int| 0 <= i < s.len() ==> point_ok(#[trigger] s[i])
}

/// A display multiplier is at least one real unit and bounded.
pub open spec fn mult_ok(m: i64) -> bool {
    SCALE <= m <= MULT_MAX
}

/// The editing session: the curve and one display multiplier per axis.
pub struct TemplateApp {
    pub points: Vec<Point>,
    pub time_mult: i64,
    pub x_mult: i64,
    pub y_mult: i64,
}

impl TemplateApp {
    /// Well-formedness of the whole editing state.
    pub open spec fn wf(self) -> bool {
        &&& curve_ok(self.points@)
        &&& mult_ok(self.time_mult)
        &&& mult_ok(self.x_mult)
        &&& mult_ok(self.y_mult)
    }

    /// A fresh session: a flat default segment from the origin to one
    /// real unit on every axis, with unit multipliers.
    pub fn new() -> (r: TemplateApp)
        ensures
            r.wf(),
            r.points@ =~= seq![
                Point { time: 0, val: Value { x: 0, y: 0 } },
                Point { time: SCALE, val: Value { x: SCALE, y: SCALE } },
            ],
            r.time_mult == SCALE,
            r.x_mult == SCALE,
            r.y_mult == SCALE,
    {
        let mut points: Vec<Point> = Vec::new();
        points.push(Point { time: 0, val: Value { x: 0, y: 0 } });
        points.push(Point { time: SCALE, val: Value { x: SCALE, y: SCALE } });
        TemplateApp { points, time_mult: SCALE, x_mult: SCALE, y_mult: SCALE }
    }
}

/// Clamp `v` into `[lo, hi]`; when the range is empty the lower bound
/// wins, so the result is never below `lo`.
pub open spec fn clamp_sp(v: int, lo: int, hi: int) -> int {
    let m = if v > hi {
        hi
    } else {
        v
    };
    if m < lo {
        lo
    } else {
        m
    }
}

/// Exact scaling by a positive ratio, rounding the magnitude down:
/// `sign(v) * (|v| * num / den)`.
pub open spec fn spec_mul_div_pos(v: int, num: int, den: int) -> int {
    if v >= 0 {
        (v * num) / den
    } else {
        -(((-v) * num) / den)
    }
}

/// A stored value as shown on screen: scaled up by the multiplier.
pub open spec fn spec_to_display(v: int, m: int) -> int {
    spec_mul_div_pos(v, m, SCALE as int)
}

/// A displayed value back-computed to storage: divided by the multiplier.
pub open spec fn spec_from_display(d: int, m: int) -> int {
    spec_mul_div_pos(d, SCALE as int, m)
}

/// Computes `sign(v) * (|v| * num / den)` exactly in 128-bit arithmetic.
fn mul_div_pos(v: i64, num: i64, den: i64) -> (r: i64)
    requires
        0 < num <= 1_000_000_000_000,
        0 < den <= 1_000_000_000_000,
        -DISPLAY_MAX <= v <= DISPLAY_MAX,
        (if v >= 0 {
            v as int
        } else {
            -(v as int)
        }) * num <= DISPLAY_MAX * den,
    ensures
        r == spec_mul_div_pos(v as int, num as int, den as int),
        -DISPLAY_MAX <= r <= DISPLAY_MAX,
{
    let va: u128 = if v < 0 {
        (-v) as u128
    } else {
        v as u128
    };
    let p: u128 = va * (num as u128);
    let q: u128 = p / (den as u128);
    proof {
        lemma_div_is_ordered(p as int, DISPLAY_MAX * den, den as int);
        lemma_div_multiples_vanish(DISPLAY_MAX as int, den as int);
        assert(den * DISPLAY_MAX == DISPLAY_MAX * den);
        assert(q <= DISPLAY_MAX);
    }
    if v < 0 {
        -(q as i64)
    } else {
        q as i64
    }
}

/// The display multiplier is a pure view transform: this is the
/// on-screen value of a stored coordinate.
pub fn to_display(v: i64, m: i64) -> (r: i64)
    requires
        -COORD_MAX <= v <= COORD_MAX,
        mult_ok(m),
    ensures
        r == spec_to_display(v as int, m as int),
        -DISPLAY_MAX <= r <= DISPLAY_MAX,
{
    proof {
        assert((if v >= 0 {
            v as int
        } else {
            -(v as int)
        }) * m <= DISPLAY_MAX * SCALE) by (nonlinear_arith)
            requires
                -COORD_MAX <= v <= COORD_MAX,
                SCALE <= m <= MULT_MAX,
                COORD_MAX == 1_000_000_000_000,
                MULT_MAX == 1_000_000_000_000,
                SCALE == 1_000_000,
                DISPLAY_MAX == 1_000_000_000_000_000_000,
        ;
    }
    mul_div_pos(v, m, SCALE)
}

/// A displayed coordinate back-computed to its stored value.
pub fn from_display(d: i64, m: i64) -> (r: i64)
    requires
        -DISPLAY_MAX <= d <= DISPLAY_MAX,
        mult_ok(m),
    ensures
        r == spec_from_display(d as int, m as int),
        -DISPLAY_MAX <= r <= DISPLAY_MAX,
{
    proof {
        assert((if d >= 0 {
            d as int
        } else {
            -(d as int)
        }) * SCALE <= DISPLAY_MAX * m) by (nonlinear_arith)
            requires
                -DISPLAY_MAX <= d <= DISPLAY_MAX,
                SCALE <= m,
                DISPLAY_MAX > 0,
                SCALE == 1_000_000,
        ;
    }
    mul_div_pos(d, SCALE, m)
}

/// An axis of the editor, for choosing a display multiplier.
#[derive(Clone, Copy, PartialEq, Eq, Structural, Debug)]
pub enum Axis {
    Time,
    X,
    Y,
}

impl TemplateApp {
    /// The multiplier shown for one axis.
    pub open spec fn mult_of(self, a: Axis) -> int {
        match a {
            Axis::Time => self.time_mult as int,
            Axis::X => self.x_mult as int,
            Axis::Y => self.y_mult as int,
        }
    }

    /// Set one axis's display multiplier, clamped to its legal range.
    /// The curve itself never changes: multipliers are display-only.
    pub fn set_mult(&mut self, a: Axis, m: i64)
        requires
            old(self).wf(),
        ensures
            final(self).wf(),
            final(self).points@ == old(self).points@,
            final(self).mult_of(a) == clamp_sp(m as int, SCALE as int, MULT_MAX as int),
            forall|b: Axis| b != a ==> final(self).mult_of(b) == old(self).mult_of(b),
    {
        let c: i64 = {
            let t = if m > MULT_MAX {
                MULT_MAX
            } else {
                m
            };
            if t < SCALE {
                SCALE
            } else {
                t
            }
        };
        match a {
            Axis::Time => {
                self.time_mult = c;
            },
            Axis::X => {
                self.x_mult = c;
            },
            Axis::Y => {
                self.y_mult = c;
            },
        }
    }

    /// Drag one sample's ordering coordinate to `new_time` (stored
    /// space).  The target is clamped to `[predecessor's time, SCALE]`,
    /// and every later sample shifts rigidly by the same delta, so
    /// samples never cross.  When the shift would push a time past
    /// `COORD_MAX`, the drag is refused and nothing changes.
    pub fn drag_time(&mut self, i: usize, new_time: i64) -> (moved: bool)
        requires
            old(self).wf(),
            i < old(self).points@.len(),
        ensures
            final(self).wf(),
            final(self).time_mult == old(self).time_mult,
            final(self).x_mult == old(self).x_mult,
            final(self).y_mult == old(self).y_mult,
            final(self).points@.len() == old(self).points@.len(),
            forall|j: int|
                0 <= j < final(self).points@.len() ==> (#[trigger] final(self).points@[j]).val
                    == old(self).points@[j].val,
            forall|j: int|
                0 <= j < i ==> (#[trigger] final(self).points@[j]).time == old(self).points@[j].time,
            ({
                let lo: int = if i == 0 {
                    0
                } else {
                    old(self).points@[i - 1].time as int
                };
                let d = clamp_sp(new_time as int, lo, SCALE as int) - old(
                    self,
                ).points@[i as int].time;
                &&& (moved <==> old(self).points@[old(self).points@.len() - 1].time + d
                    <= COORD_MAX)
                &&& (moved ==> forall|j: int|
                    i <= j < final(self).points@.len() ==> (#[trigger] final(self).points@[j]).time == old(
                        self,
                    ).points@[j].time + d)
                &&& (!moved ==> final(self).points@ == old(self).points@)
            }),
    {
        let ghost s0 = self.points@;
        let n = self.points.len();
        let lo: i64 = if i == 0 {
            0
        } else {
            self.points[i - 1].time
        };
        let cl: i64 = {
            let t = if new_time > SCALE {
                SCALE
            } else {
                new_time
            };
            if t < lo {
                lo
            } else {
                t
            }
        };
        let d: i64 = cl - self.points[i].time;
        let lastt: i64 = self.points[n - 1].time;
        if lastt + d > COORD_MAX {
            return false;
        }
        let mut j: usize = i;
        while j < n
            invariant
                i <= j <= n,
                n == self.points@.len(),
                n == s0.len(),
                2 <= n <= MAX_POINTS,
                i < n,
                times_sorted(s0),
                forall|k: int| 0 <= k < n ==> point_ok(#[trigger] s0[k]),
                cl == clamp_sp(
                    new_time as int,
                    if i == 0 {
                        0
                    } else {
                        s0[i - 1].time as int
                    },
                    SCALE as int,
                ),
                d == cl - s0[i as int].time,
                0 <= cl <= COORD_MAX,
                s0[n - 1].time + d <= COORD_MAX,
                self.time_mult == old(self).time_mult,
                self.x_mult == old(self).x_mult,
                self.y_mult == old(self).y_mult,
                forall|k: int| 0 <= k < i ==> #[trigger] self.points@[k] == s0[k],
                forall|k: int|
                    i <= k < j ==> #[trigger] self.points@[k] == (Point {
                        time: (s0[k].time + d) as i64,
                        val: s0[k].val,
                    }),
                forall|k: int| j <= k < n ==> #[trigger] self.points@[k] == s0[k],
            decreases n - j,
        {
            let p = self.points[j];
            proof {
                assert(s0[i as int].time <= s0[j as int].time && s0[j as int].time <= s0[n
                    - 1].time);
            }
            let nt: i64 = p.time + d;
            self.points[j] = Point { time: nt, val: p.val };
            j = j + 1;
        }
        proof {
            let s1 = self.points@;
            assert forall|a: int, b: int| 0 <= a <= b < n implies s1[a].time <= s1[b].time by {
                if b < i {
                } else if a < i {
                    assert(i >= 1);
                    assert(s0[a].time <= s0[i - 1].time);
                    assert(s0[i as int].time <= s0[b].time);
                    assert(s1[b].time == s0[b].time + d);
                    assert(s0[b].time + d >= s0[i as int].time + d);
                } else {
                    assert(s1[a].time == s0[a].time + d && s1[b].time == s0[b].time + d);
                }
            }
            assert forall|k: int| 0 <= k < n implies point_ok(#[trigger] s1[k]) by {
                if i <= k {
                    assert(s0[i as int].time <= s0[k].time && s0[k].time <= s0[n - 1].time);
                    assert(s1[k].time == s0[k].time + d);
                }
            }
        }
        true
    }

    /// Drag one sample's dependent value on channel `c` to `new_val`
    /// (stored space), clamped to `[0, SCALE]`.  No other sample and no
    /// other channel is touched.
    pub fn drag_val(&mut self, i: usize, c: Channel, new_val: i64)
        requires
            old(self).wf(),
            i < old(self).points@.len(),
        ensures
            final(self).wf(),
            final(self).time_mult == old(self).time_mult,
            final(self).x_mult == old(self).x_mult,
            final(self).y_mult == old(self).y_mult,
            final(self).points@.len() == old(self).points@.len(),
            forall|j: int|
                0 <= j < final(self).points@.len() && j != i ==> #[trigger] final(self).points@[j] == old(
                    self,
                ).points@[j],
            final(self).points@[i as int].time == old(self).points@[i as int].time,
            chan_of(final(self).points@[i as int], c) == clamp_sp(new_val as int, 0, SCALE as int),
            match c {
                Channel::X => final(self).points@[i as int].val.y == old(self).points@[i as int].val.y,
                Channel::Y => final(self).points@[i as int].val.x == old(self).points@[i as int].val.x,
            },
    {
        let cl: i64 = {
            let t = if new_val > SCALE {
                SCALE
            } else {
                new_val
            };
            if t < 0 {
                0
            } else {
                t
            }
        };
        let p = self.points[i];
        let nv = match c {
            Channel::X => Value { x: cl, y: p.val.y },
            Channel::Y => Value { x: p.val.x, y: cl },
        };
        self.points[i] = Point { time: p.time, val: nv };
        proof {
            let s0 = old(self).points@;
            let s1 = self.points@;
            assert forall|a: int, b: int| 0 <= a <= b < s1.len() implies s1[a].time
                <= s1[b].time by {
                assert(s1[a].time == s0[a].time && s1[b].time == s0[b].time);
            }
        }
    }

    /// Insert a duplicate of sample `i` directly after it, at the same
    /// coordinate; the caller may then drag it apart.  Refused only
    /// when the curve is already at its maximum length.
    pub fn add_point(&mut self, i: usize) -> (added: bool)
        requires
            old(self).wf(),
            i < old(self).points@.len(),
        ensures
            final(self).wf(),
            final(self).time_mult == old(self).time_mult,
            final(self).x_mult == old(self).x_mult,
            final(self).y_mult == old(self).y_mult,
            added <==> old(self).points@.len() < MAX_POINTS,
            added ==> final(self).points@ == old(self).points@.insert(
                i + 1,
                old(self).points@[i as int],
            ),
            !added ==> final(self).points@ == old(self).points@,
    {
        if self.points.len() >= MAX_POINTS {
            false
        } else {
            let ghost s0 = self.points@;
            let p = self.points[i];
            self.points.insert(i + 1, p);
            proof {
                let s1 = self.points@;
                assert forall|a: int, b: int| 0 <= a <= b < s1.len() implies s1[a].time
                    <= s1[b].time by {
                    let a0 = if a <= i {
                        a
                    } else {
                        a - 1
                    };
                    let b0 = if b <= i {
                        b
                    } else {
                        b - 1
                    };
                    assert(s1[a].time == s0[a0].time && s1[b].time == s0[b0].time);
                    assert(s0[a0].time <= s0[b0].time);
                }
                assert forall|k: int| 0 <= k < s1.len() implies point_ok(#[trigger] s1[k]) by {
                    let k0 = if k <= i {
                        k
                    } else {
                        k - 1
                    };
                    assert(s1[k] == s0[k0]);
                }
            }
            true
        }
    }

    /// Remove sample `i`.  Refused when the curve holds only two
    /// samples: a curve never shrinks below the minimum length.
    pub fn remove_point(&mut self, i: usize) -> (removed: bool)
        requires
            old(self).wf(),
            i < old(self).points@.len(),
        ensures
            final(self).wf(),
            final(self).time_mult == old(self).time_mult,
            final(self).x_mult == old(self).x_mult,
            final(self).y_mult == old(self).y_mult,
            removed <==> old(self).points@.len() > 2,
            removed ==> final(self).points@ == old(self).points@.remove(i as int),
            !removed ==> final(self).points@ == old(self).points@,
    {
        if self.points.len() <= 2 {
            false
        } else {
            let ghost s0 = self.points@;
            self.points.remove(i);
            proof {
                let s1 = self.points@;
                assert forall|a: int, b: int| 0 <= a <= b < s1.len() implies s1[a].time
                    <= s1[b].time by {
                    let a0 = if a < i {
                        a
                    } else {
                        a + 1
                    };
                    let b0 = if b < i {
                        b
                    } else {
                        b + 1
                    };
                    assert(s1[a].time == s0[a0].time && s1[b].time == s0[b0].time);
                    assert(s0[a0].time <= s0[b0].time);
                }
                assert forall|k: int| 0 <= k < s1.len() implies point_ok(#[trigger] s1[k]) by {
                    let k0 = if k < i {
                        k
                    } else {
                        k + 1
                    };
                    assert(s1[k] == s0[k0]);
                }
            }
            true
        }
    }

    /// Drag a sample's ordering coordinate as shown on screen: the
    /// displayed value is back-computed through the time multiplier,
    /// then applied as a stored-space drag.
    pub fn drag_time_display(&mut self, i: usize, display_time: i64) -> (moved: bool)
        requires
            old(self).wf(),
            i < old(self).points@.len(),
            -DISPLAY_MAX <= display_time <= DISPLAY_MAX,
        ensures
            final(self).wf(),
            final(self).time_mult == old(self).time_mult,
            final(self).x_mult == old(self).x_mult,
            final(self).y_mult == old(self).y_mult,
            final(self).points@.len() == old(self).points@.len(),
            forall|j: int|
                0 <= j < final(self).points@.len() ==> (#[trigger] final(self).points@[j]).val
                    == old(self).points@[j].val,
            forall|j: int|
                0 <= j < i ==> (#[trigger] final(self).points@[j]).time == old(self).points@[j].time,
            ({
                let nt = spec_from_display(display_time as int, old(self).time_mult as int);
                let lo: int = if i == 0 {
                    0
                } else {
                    old(self).points@[i - 1].time as int
                };
                let d = clamp_sp(nt, lo, SCALE as int) - old(self).points@[i as int].time;
                &&& (moved <==> old(self).points@[old(self).points@.len() - 1].time + d
                    <= COORD_MAX)
                &&& (moved ==> forall|j: int|
                    i <= j < final(self).points@.len() ==> (#[trigger] final(self).points@[j]).time == old(
                        self,
                    ).points@[j].time + d)
                &&& (!moved ==> final(self).points@ == old(self).points@)
            }),
    {
        let nt: i64 = from_display(display_time, self.time_mult);
        self.drag_time(i, nt)
    }

    /// Drag a sample's dependent value as shown on screen: the
    /// displayed value is back-computed through the channel's
    /// multiplier, then applied as a stored-space drag.
    pub fn drag_val_display(&mut self, i: usize, c: Channel, display_val: i64)
        requires
            old(self).wf(),
            i < old(self).points@.len(),
            -DISPLAY_MAX <= display_val <= DISPLAY_MAX,
        ensures
            final(self).wf(),
            final(self).time_mult == old(self).time_mult,
            final(self).x_mult == old(self).x_mult,
            final(self).y_mult == old(self).y_mult,
            final(self).points@.len() == old(self).points@.len(),
            forall|j: int|
                0 <= j < final(self).points@.len() && j != i ==> #[trigger] final(self).points@[j] == old(
                    self,
                ).points@[j],
            final(self).points@[i as int].time == old(self).points@[i as int].time,
            chan_of(final(self).points@[i as int], c) == clamp_sp(
                spec_from_display(
                    display_val as int,
                    match c {
                        Channel::X => old(self).x_mult as int,
                        Channel::Y => old(self).y_mult as int,
                    },
                ),
                0,
                SCALE as int,
            ),
            match c {
                Channel::X => final(self).points@[i as int].val.y == old(self).points@[i as int].val.y,
                Channel::Y => final(self).points@[i as int].val.x == old(self).points@[i as int].val.x,
            },
    {
        let m: i64 = match c {
            Channel::X => self.x_mult,
            Channel::Y => self.y_mult,
        };
        let nv: i64 = from_display(display_val, m);
        self.drag_val(i, c, nv)
    }

    /// The per-frame render list: every sample scaled to display space
    /// through the three multipliers.  Consecutive entries are the line
    /// segments the presentation layer draws; the stored curve is not
    /// touched.
    pub fn display_points(&self) -> (r: Vec<Point>)
        requires
            self.wf(),
        ensures
            r@.len() == self.points@.len(),
            forall|j: int|
                0 <= j < r@.len() ==> #[trigger] r@[j] == (Point {
                    time: spec_to_display(
                        self.points@[j].time as int,
                        self.time_mult as int,
                    ) as i64,
                    val: Value {
                        x: spec_to_display(self.points@[j].val.x as int, self.x_mult as int) as i64,
                        y: spec_to_display(self.points@[j].val.y as int, self.y_mult as int) as i64,
                    },
                }),
    {
        let mut r: Vec<Point> = Vec::new();
        let mut j: usize = 0;
        let n = self.points.len();
        while j < n
            invariant
                j <= n,
                n == self.points@.len(),
                self.wf(),
                r@.len() == j,
                forall|k: int|
                    0 <= k < j ==> #[trigger] r@[k] == (Point {
                        time: spec_to_display(
                            self.points@[k].time as int,
                            self.time_mult as int,
                        ) as i64,
                        val: Value {
                            x: spec_to_display(
                                self.points@[k].val.x as int,
                                self.x_mult as int,
                            ) as i64,
                            y: spec_to_display(
                                self.points@[k].val.y as int,
                                self.y_mult as int,
                            ) as i64,
                        },
                    }),
            decreases n - j,
        {
            let p = self.points[j];
            let dp = Point {
                time: to_display(p.time, self.time_mult),
                val: Value {
                    x: to_display(p.val.x, self.x_mult),
                    y: to_display(p.val.y, self.y_mult),
                },
            };
            r.push(dp);
            j = j + 1;
        }
        r
    }
}

} // verus!
