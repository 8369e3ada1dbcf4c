//! Laws of slowing down for obstacles, in fixed point.
use super::{alarm_for, held_up, in_the_way, Alarm, Margins, Velocity};
use crate::fixed::Fixed;
use crate::scalar::Scalar;
use crate::units::{law_over_in_order, law_times_in_order};
use crate::types::AviaPointMsg;
use vstd::prelude::*;

verus! {

/// The distances to stop and to slow down at are in order, and nothing is cut off.
pub open spec fn are_margins(m: Margins<Fixed>) -> bool {
    0 <= m.stop_dist.raw < m.slow_dist.raw <= 0x1_0000_0000
}

/// The share of its speed that an obstacle leaves the robot, in units.
proof fn lemma_share(d: Fixed, m: Margins<Fixed>)
    requires
        are_margins(m),
        m.stop_dist.raw <= d.raw <= m.slow_dist.raw,
    ensures
        ({
            let s = d.minus_spec(m.stop_dist).over_spec(m.slow_dist.minus_spec(m.stop_dist)).raw;
            let all = m.slow_dist.raw - m.stop_dist.raw;
            let left = d.raw - m.stop_dist.raw;
            &&& 0 <= s <= 65536
            &&& s * all <= left * 65536 < s * all + all
        }),
{
    let all = m.slow_dist.raw - m.stop_dist.raw;
    let left = d.raw - m.stop_dist.raw;
    let s = (left * 65536) / all;
    assert(0 <= s <= 65536 && s * all <= left * 65536 < s * all + all) by (nonlinear_arith)
        requires
            s == (left * 65536) / all,
            0 <= left <= all,
            all > 0,
    ;
}

/// Between the two distances a robot that drives forward is slowed in proportion to how far
/// it is beyond the stopping distance, up to the rounding; its turn stays.
pub proof fn law_slows_in_proportion(v: Velocity<Fixed>, d: Fixed, m: Margins<Fixed>)
    requires
        are_margins(m),
        0 < v.vx.raw <= 0x1000_0000,
        m.stop_dist.raw <= d.raw < m.slow_dist.raw,
    ensures
        ({
            let to = held_up(v, Some(d), m);
            let all = m.slow_dist.raw - m.stop_dist.raw;
            let left = d.raw - m.stop_dist.raw;
            &&& alarm_for(v.vx, Some(d), m) == Alarm::Slow
            &&& 0 <= to.vx.raw <= v.vx.raw
            &&& to.vx.raw * all <= v.vx.raw * left
            &&& v.vx.raw * left * 65536 < (to.vx.raw + 1) * all * 65536 + v.vx.raw * all
            &&& to.wz == v.wz
        }),
{
    lemma_share(d, m);
    let all = m.slow_dist.raw - m.stop_dist.raw;
    let left = d.raw - m.stop_dist.raw;
    let share = d.minus_spec(m.stop_dist).over_spec(m.slow_dist.minus_spec(m.stop_dist));
    let (x, s) = (v.vx.raw as int, share.raw as int);
    let t = (x * s) / 65536;
    assert(0 <= x * s <= x * 65536) by (nonlinear_arith)
        requires
            x > 0,
            0 <= s <= 65536,
    ;
    assert(v.vx.times_spec(share).raw == t);
    assert(t * 65536 <= x * s < t * 65536 + 65536);
    assert((t * 65536) * all <= (x * s) * all < (t * 65536 + 65536) * all) by (nonlinear_arith)
        requires
            t * 65536 <= x * s < t * 65536 + 65536,
            all > 0,
    ;
    assert(x * (s * all) <= x * (left * 65536) < x * (s * all) + x * all) by (nonlinear_arith)
        requires
            s * all <= left * 65536 < s * all + all,
            x > 0,
    ;
    assert((x * s) * all == x * (s * all)) by (nonlinear_arith);
    assert((t * 65536) * all == (t * all) * 65536) by (nonlinear_arith);
    assert((t * 65536 + 65536) * all == ((t + 1) * all) * 65536) by (nonlinear_arith);
    assert(x * (left * 65536) == (x * left) * 65536) by (nonlinear_arith);
}

/// The nearer an obstacle, the slower the robot drives towards it; none leaves it its speed,
/// and one that is near enough none.
pub proof fn law_nearer_is_slower(v: Velocity<Fixed>, a: Fixed, b: Fixed, m: Margins<Fixed>)
    requires
        are_margins(m),
        0 < v.vx.raw <= 0x1000_0000,
        0 <= a.raw <= b.raw,
    ensures
        0 <= held_up(v, Some(a), m).vx.raw <= held_up(v, Some(b), m).vx.raw <= v.vx.raw,
        held_up(v, None, m) == v,
        a.raw < m.stop_dist.raw ==> held_up(v, Some(a), m).vx.raw == 0 && held_up(
            v,
            Some(a),
            m,
        ).wz.raw == 0,
        b.raw >= m.slow_dist.raw ==> held_up(v, Some(b), m) == v,
{
    if m.stop_dist.raw <= a.raw < m.slow_dist.raw {
        law_slows_in_proportion(v, a, m);
    }
    if m.stop_dist.raw <= b.raw < m.slow_dist.raw {
        law_slows_in_proportion(v, b, m);
        if m.stop_dist.raw <= a.raw {
            let (p, q) = (a.minus_spec(m.stop_dist), b.minus_spec(m.stop_dist));
            let all = m.slow_dist.minus_spec(m.stop_dist);
            law_over_in_order(p, q, all);
            law_times_in_order(v.vx, p.over_spec(all), q.over_spec(all));
        }
    }
}

/// A robot that does not drive forward keeps its command, whatever is ahead.
pub proof fn law_backing_is_free(v: Velocity<Fixed>, d: Option<Fixed>, m: Margins<Fixed>)
    requires
        v.vx.raw <= 0,
    ensures
        held_up(v, d, m) == v,
        alarm_for(v.vx, d, m) == Alarm::Clear,
{
}

/// A point is in the way of the body between the floor and the top of the body, ahead of
/// the lidar, and within the half width to either side.
pub proof fn law_in_the_way_of_body(p: AviaPointMsg<Fixed>, lidar_height: Fixed, half_width: Fixed)
    requires
        0 <= lidar_height.raw <= 0x1_0000_0000,
    ensures
        in_the_way::<Fixed, Fixed>(p, lidar_height, half_width) <==> {
            let (low, high) = (Fixed::ratio_spec(5, 100).raw, Fixed::ratio_spec(6, 10).raw);
            &&& low - lidar_height.raw <= p.z.raw <= high
            &&& p.x.raw >= low
            &&& p.y.magnitude_spec().raw <= half_width.raw
        },
{
    assert(Fixed::ratio_spec(5, 100).raw == 3276);
    assert(Fixed::ratio_spec(6, 10).raw == 39321);
}

} // verus!
