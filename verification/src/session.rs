//! The per-frame controller operations that tie the codec, the point
//! model and the integral engine together.

use vstd::prelude::*;

use crate::COORD_MAX;
use crate::MAX_POINTS;
use crate::SCALE;
use crate::codec::encode_points;
use crate::codec::encode_points_sp;
use crate::codec::parse_points;
use crate::codec::parse_points_sp;
use crate::codec::point_bounded;
use crate::integral::integral_of_points;
use crate::integral::trap_sum;
use crate::model::Channel;
use crate::model::Point;
use crate::model::TemplateApp;
use crate::model::curve_ok;
use crate::model::point_ok;
use crate::norm::max_abs;
use crate::norm::renorm_points;

verus! {

/// Whether a parsed sample list satisfies the curve invariant: length
/// in range, non-decreasing non-negative times, coordinates in range.
fn check_curve_ok(ps: &Vec<Point>) -> (r: bool)
    ensures
        r == curve_ok(ps@),
{
    let n = ps.len();
    if n < 2 || n > MAX_POINTS {
        return false;
    }
    let mut k: usize = 0;
    while k < n
        invariant
            n == ps@.len(),
            k <= n,
            forall|i: int| 0 <= i < k ==> point_ok(#[trigger] ps@[i]),
            forall|i: int, j: int| 0 <= i <= j < k ==> ps@[i].time <= ps@[j].time,
        decreases n - k,
    {
        let p = ps[k];
        if p.time < 0 || p.time > COORD_MAX || p.val.x < -COORD_MAX || p.val.x > COORD_MAX
            || p.val.y < -COORD_MAX || p.val.y > COORD_MAX {
            return false;
        }
        if k > 0 && ps[k - 1].time > p.time {
            return false;
        }
        proof {
            assert forall|i: int| 0 <= i <= k implies ps@[i].time <= ps@[k as int].time by {
                if i < k {
                    assert(ps@[i].time <= ps@[k - 1].time);
                }
            }
        }
        k = k + 1;
    }
    true
}

impl TemplateApp {
    /// The curve's text form, recomputed every frame for display.
    pub fn to_text(&self) -> (r: Vec<u8>)
        requires
            self.wf(),
        ensures
            r@ == encode_points_sp(self.points@),
    {
        proof {
            assert forall|q: int| 0 <= q < self.points@.len() implies point_bounded(
                #[trigger] self.points@[q],
            ) by {
                assert(point_ok(self.points@[q]));
            }
        }
        encode_points(&self.points)
    }

    /// Replace the whole curve from an edited text.  The edit is
    /// accepted only when it decodes and the decoded list satisfies the
    /// curve invariant; an accepted curve is renormalized per channel.
    /// A rejected edit leaves the curve untouched, silently.
    pub fn replace_from_text(&mut self, txt: &Vec<u8>) -> (accepted: bool)
        requires
            old(self).wf(),
        ensures
            final(self).wf(),
            final(self).time_mult == old(self).time_mult,
            final(self).x_mult == old(self).x_mult,
            final(self).y_mult == old(self).y_mult,
            accepted <==> match parse_points_sp(txt@) {
                Option::Some(ps) => curve_ok(ps),
                Option::None => false,
            },
            accepted ==> match parse_points_sp(txt@) {
                Option::Some(ps) => {
                    &&& final(self).points@ =~= renorm_points(
                        ps,
                        max_abs(ps, Channel::X),
                        max_abs(ps, Channel::Y),
                    )
                    &&& (max_abs(ps, Channel::X) != 0 ==> max_abs(final(self).points@, Channel::X)
                        == SCALE)
                    &&& (max_abs(ps, Channel::Y) != 0 ==> max_abs(final(self).points@, Channel::Y)
                        == SCALE)
                },
                Option::None => false,
            },
            !accepted ==> final(self).points@ == old(self).points@,
    {
        match parse_points(txt) {
            Option::None => false,
            Option::Some(ps) => {
                if check_curve_ok(&ps) {
                    self.points = ps;
                    self.renormalize();
                    true
                } else {
                    false
                }
            },
        }
    }

    /// The signed areas under both channels, recomputed from the stored
    /// (unscaled) curve: each result is exact once divided by
    /// `2 * SCALE * SCALE`.
    pub fn integrals(&self) -> (r: (i128, i128))
        requires
            self.wf(),
        ensures
            r.0 == trap_sum(self.points@, Channel::X),
            r.1 == trap_sum(self.points@, Channel::Y),
    {
        let ix = integral_of_points(&self.points, Channel::X);
        let iy = integral_of_points(&self.points, Channel::Y);
        (ix, iy)
    }
}

} // verus!
