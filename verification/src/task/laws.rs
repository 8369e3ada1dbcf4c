//! Laws of following a path.
use super::{
    ahead, aim_error, arrived, between, drive_rate, driven, leg, legs, lowered, nearest, normed,
    path_step, raised, resampled, target, turn_rate, Phase, TaskParams, TaskState, TaskWaypoint,
};
use crate::astar::Waypoint;
use crate::dwa::dist_spec;
use crate::exact::{exact_angles, has_angles, lemma_commutes, lemma_trade};
use crate::fixed::{Fixed, ONE};
use crate::scalar::{is_reading, lt, pi, radians, tau, whole, Scalar};
use crate::units::{law_distance_in_units, law_over_in_order, law_times_in_order};
use vstd::prelude::*;

verus! {

/// Half a turn and a full turn in units.
proof fn lemma_turns()
    ensures
        pi::<Fixed>().raw == 205887,
        tau::<Fixed>().raw == 411774,
{
}

/// So many full turns in units.
pub open spec fn full_turns(k: int) -> int {
    k * tau::<Fixed>().raw
}

/// Two angles differ by full turns.
pub open spec fn is_same_direction(a: int, b: int) -> bool {
    exists|k: int| a == b + #[trigger] full_turns(k)
}

proof fn lemma_same_direction(a: int, b: int, k: int)
    requires
        a == b + k * tau::<Fixed>().raw,
    ensures
        is_same_direction(a, b),
{
    assert(a == b + full_turns(k));
}

proof fn lemma_lowered_turns(a: Fixed) -> (k: int)
    ensures
        lowered(a).raw == a.raw + k * 411774,
    decreases super::excess(a.key(), pi::<Fixed>().key()),
{
    lemma_turns();
    if lt(pi::<Fixed>(), a) && lt(a.minus_spec(tau::<Fixed>()), a) {
        let k = lemma_lowered_turns(a.minus_spec(tau::<Fixed>()));
        assert((k - 1) * 411774 == k * 411774 - 411774);
        k - 1
    } else {
        0
    }
}

proof fn lemma_raised_turns(a: Fixed) -> (k: int)
    ensures
        raised(a).raw == a.raw + k * 411774,
    decreases super::excess(pi::<Fixed>().negate_spec().key(), a.key()),
{
    lemma_turns();
    if lt(a, pi::<Fixed>().negate_spec()) && lt(a, a.plus_spec(tau::<Fixed>())) {
        let k = lemma_raised_turns(a.plus_spec(tau::<Fixed>()));
        assert((k + 1) * 411774 == k * 411774 + 411774);
        k + 1
    } else {
        0
    }
}

/// A wrapped fixed-point angle is the same direction as the angle.
pub proof fn law_wrapped_angle_is_same(a: Fixed)
    ensures
        is_same_direction(normed(a).raw as int, a.raw as int),
{
    lemma_turns();
    if super::is_lower_end(a) {
        lemma_same_direction(normed(a).raw as int, a.raw as int, 1);
    } else {
        let k = lemma_lowered_turns(a);
        let m = lemma_raised_turns(lowered(a));
        assert((k + m) * 411774 == k * 411774 + m * 411774);
        lemma_same_direction(normed(a).raw as int, a.raw as int, k + m);
    }
}

/// A small angle, in units.
pub open spec fn is_moderate(a: Fixed) -> bool {
    -0x100_0000_0000 <= a.raw <= 0x100_0000_0000
}

/// Turned by the error, the robot would face its target.
pub proof fn law_error_faces_target(
    p: TaskParams<Fixed>,
    path: Seq<Waypoint<Fixed>>,
    pose: [Fixed; 3],
)
    requires
        is_moderate(pose[2]),
    ensures
        ({
            let to = target(path, pose[0], pose[1], p.lookahead);
            let bearing = to.y.minus_spec(pose[1]).atan2_spec(to.x.minus_spec(pose[0]));
            is_moderate(bearing) ==> is_same_direction(
                aim_error(p, path, pose).raw + pose[2].raw,
                bearing.raw as int,
            )
        }),
{
    let to = target(path, pose[0], pose[1], p.lookahead);
    let bearing = to.y.minus_spec(pose[1]).atan2_spec(to.x.minus_spec(pose[0]));
    let d = bearing.minus_spec(pose[2]);
    law_wrapped_angle_is_same(d);
    if is_moderate(bearing) {
        let e = aim_error(p, path, pose).raw as int;
        let k = choose|k: int| e == d.raw + #[trigger] full_turns(k);
        lemma_same_direction(e + pose[2].raw, bearing.raw as int, k);
    }
}

/// The robot turns towards its target, the faster the larger the error: twice the share of
/// half a turn that the error is, of the largest speed, and no faster than that.
pub proof fn law_turns_towards_target(p: TaskParams<Fixed>, diff: Fixed)
    requires
        0 <= p.max_wz.raw <= 0x1000_0000,
        -pi::<Fixed>().raw <= diff.raw <= pi::<Fixed>().raw,
    ensures
        ({
            let full = 2 * (p.max_wz.raw * diff.raw);
            let half = pi::<Fixed>().raw as int;
            let t = turn_rate(p, diff).raw as int;
            &&& -p.max_wz.raw <= t <= p.max_wz.raw
            &&& t == p.max_wz.raw && full > t * half - 3 * half || t == -p.max_wz.raw && full < t
                * half + 3 * half || full - 3 * half < t * half <= full
            &&& diff.raw >= 0 ==> t >= 0
            &&& diff.raw <= 0 ==> t <= 0
        }),
{
    lemma_turns();
    let m = p.max_wz.raw as int;
    let d = diff.raw as int;
    let w = m * d;
    assert(-0x1000_0000 * 205887 <= w <= 0x1000_0000 * 205887) by (nonlinear_arith)
        requires
            w == m * d,
            0 <= m <= 0x1000_0000,
            -205887 <= d <= 205887,
    ;
    assert((d >= 0 ==> w >= 0) && (d <= 0 ==> w <= 0)) by (nonlinear_arith)
        requires
            w == m * d,
            m >= 0,
    ;
    let a = w / 65536;
    let b = (a * 65536) / 205887;
    assert(p.max_wz.times_spec(diff).raw == a);
    assert(p.max_wz.times_spec(diff).over_spec(pi::<Fixed>()).raw == b);
    assert(whole::<Fixed>(2).raw == 131072);
    assert((b * 131072) / 65536 == 2 * b);
    let v = p.max_wz.times_spec(diff).over_spec(pi::<Fixed>()).times_spec(whole::<Fixed>(2));
    assert(v.raw == 2 * b);
}

/// Larger errors make for faster turns.
pub proof fn law_turn_grows_with_error(p: TaskParams<Fixed>, a: Fixed, b: Fixed)
    requires
        p.max_wz.raw >= 0,
        a.raw <= b.raw,
    ensures
        turn_rate(p, a).raw <= turn_rate(p, b).raw,
{
    lemma_turns();
    let half = pi::<Fixed>();
    law_times_in_order(p.max_wz, a, b);
    let (x, y) = (p.max_wz.times_spec(a), p.max_wz.times_spec(b));
    law_over_in_order(x, y, half);
    law_times_in_order(whole::<Fixed>(2), x.over_spec(half), y.over_spec(half));
}

/// The robot drives the slower the larger the error: with none at its largest speed, above
/// half of it while the error is below three tenths of half a turn, below half of it from a
/// third on, and not at all from seven tenths on.
pub proof fn law_drives_slower_when_askew(p: TaskParams<Fixed>, diff: Fixed)
    requires
        0 <= p.max_vx.raw <= 0x1000_0000,
        -0x1_0000_0000 <= diff.raw <= 0x1_0000_0000,
    ensures
        ({
            let v = drive_rate(p, diff).raw as int;
            let d = diff.magnitude_spec().raw as int;
            let half = pi::<Fixed>().raw as int;
            &&& 0 <= v <= p.max_vx.raw
            &&& d == 0 ==> v == p.max_vx.raw
            &&& 10 * d <= 3 * half ==> 2 * v >= p.max_vx.raw - 1
            &&& 3 * d >= half ==> 2 * v <= p.max_vx.raw
            &&& 10 * d >= 7 * half ==> v == 0
        }),
{
    lemma_turns();
    let x = p.max_vx.raw as int;
    let d = diff.magnitude_spec().raw as int;
    let q = (d * 65536) / 205887;
    let share = diff.magnitude_spec().over_spec(pi::<Fixed>());
    assert(share.raw == q);
    let turn = crate::scalar::lesser_spec(share, whole::<Fixed>(1));
    let t = if q > 65536 {
        65536
    } else {
        q
    };
    assert(turn.raw == t);
    let k = Fixed::ratio_spec(8, 5);
    assert(k.raw == 104857);
    let r = (104857 * t) / 65536;
    assert(k.times_spec(turn).raw == r);
    let left = whole::<Fixed>(1).minus_spec(k.times_spec(turn));
    let f = 65536 - r;
    assert(left.raw == f);
    let g = (x * f) / 65536;
    assert(-0x1000_0000 * 65536 <= x * f <= 0x1000_0000 * 65536) by (nonlinear_arith)
        requires
            0 <= x <= 0x1000_0000,
            -65536 <= f <= 65536,
    ;
    assert(p.max_vx.times_spec(left).raw == g);
    assert(f == 65536 ==> g == x) by (nonlinear_arith)
        requires
            g == (x * f) / 65536,
    ;
    assert(f >= 32768 ==> x * f >= x * 32768) by (nonlinear_arith)
        requires
            x >= 0,
    ;
    assert(0 <= f <= 32768 ==> 0 <= x * f <= x * 32768) by (nonlinear_arith)
        requires
            x >= 0,
    ;
    assert(f <= 0 ==> x * f <= 0) by (nonlinear_arith)
        requires
            x >= 0,
    ;
    assert(10 * d <= 3 * 205887 ==> f >= 32768);
    assert(3 * d >= 205887 ==> f <= 32768);
    assert(10 * d >= 7 * 205887 ==> f <= 0);
}

/// The nearest point of a path is one of its points, none of them is nearer, and those
/// before it are further away.
pub proof fn law_nearest_is_nearest(path: Seq<Waypoint<Fixed>>, x: Fixed, y: Fixed, n: nat)
    requires
        0 < n <= path.len(),
    ensures
        ({
            let b = nearest(path, x, y, n)->0;
            &&& nearest(path, x, y, n) is Some
            &&& 0 <= b.0 < n
            &&& b.1 == dist_spec(x, y, path[b.0].x, path[b.0].y)
            &&& forall|i: int|
                0 <= i < n ==> b.1.raw <= dist_spec(
                    x,
                    y,
                    (#[trigger] path[i]).x,
                    path[i].y,
                ).raw
            &&& forall|i: int|
                0 <= i < b.0 ==> b.1.raw < dist_spec(x, y, (#[trigger] path[i]).x, path[i].y).raw
        }),
    decreases n,
{
    if n > 1 {
        law_nearest_is_nearest(path, x, y, (n - 1) as nat);
    } else {
        assert(nearest(path, x, y, 0) is None);
    }
}

/// Going ahead on a path stops at the last point before one that is too far away.
pub proof fn law_ahead_within_lookahead<S: Scalar>(
    path: Seq<Waypoint<S>>,
    x: S,
    y: S,
    look: S,
    t: int,
)
    requires
        0 <= t < path.len(),
    ensures
        ({
            let e = ahead(path, x, y, look, t);
            &&& t <= e < path.len()
            &&& forall|i: int|
                t < i <= e ==> lt(dist_spec(x, y, (#[trigger] path[i]).x, path[i].y), look)
            &&& e + 1 == path.len() || !lt(dist_spec(x, y, path[e + 1].x, path[e + 1].y), look)
        }),
    decreases path.len() - t,
{
    if t + 1 < path.len() && lt(dist_spec(x, y, path[t + 1].x, path[t + 1].y), look) {
        law_ahead_within_lookahead(path, x, y, look, t + 1);
    }
}

/// The target is a point of the path: the nearest one, or one further on that is within the
/// lookahead distance.
pub proof fn law_target_on_path(
    path: Seq<Waypoint<Fixed>>,
    x: Fixed,
    y: Fixed,
    look: Fixed,
) -> (i: int)
    requires
        path.len() > 0,
    ensures
        0 <= i < path.len(),
        target(path, x, y, look) == path[i],
        i == (nearest(path, x, y, path.len())->0).0 || dist_spec(x, y, path[i].x, path[i].y).raw
            < look.raw,
        i >= (nearest(path, x, y, path.len())->0).0,
        i + 1 == path.len() || dist_spec(x, y, path[i + 1].x, path[i + 1].y).raw >= look.raw,
{
    law_nearest_is_nearest(path, x, y, path.len());
    let from = (nearest(path, x, y, path.len())->0).0;
    law_ahead_within_lookahead(path, x, y, look, from);
    ahead(path, x, y, look, from)
}

/// A coordinate that is not too far out.
pub open spec fn is_close(a: Fixed) -> bool {
    -0x10_0000_0000 <= a.raw <= 0x10_0000_0000
}

/// The robot has arrived where the end of the path is within the arrival distance, up to
/// the rounding.
pub proof fn law_arrived_at_end(
    p: TaskParams<Fixed>,
    path: Seq<Waypoint<Fixed>>,
    x: Fixed,
    y: Fixed,
)
    requires
        path.len() > 0,
        p.arrive.raw >= 0,
        is_close(x),
        is_close(y),
        is_close(path.last().x),
        is_close(path.last().y),
    ensures
        ({
            let (dx, dy) = (x.raw - path.last().x.raw, y.raw - path.last().y.raw);
            let r = p.arrive.raw as int;
            &&& dx * dx + dy * dy <= r * r ==> arrived(p, path, x, y)
            &&& arrived(p, path, x, y) ==> dx * dx + dy * dy < (r + 1) * (r + 1) + 2 * ONE
        }),
{
    let e = path.last();
    let (a, b) = (x.minus_spec(e.x), y.minus_spec(e.y));
    let r = p.arrive.raw as int;
    law_distance_in_units(a, b);
    let d = dist_spec(x, y, e.x, e.y).raw as int;
    assert(d <= r ==> (d + 1) * (d + 1) <= (r + 1) * (r + 1)) by (nonlinear_arith)
        requires
            d >= 0,
    ;
    assert(d > r ==> d * d > r * r) by (nonlinear_arith)
        requires
            r >= 0,
    ;
}

/// In exact arithmetic the points of a leg are at equal distances on the way from its start
/// to its end.
pub proof fn law_leg_is_even<S: Scalar>(a: Waypoint<S>, b: Waypoint<S>, i: int, n: int)
    requires
        exact_angles::<S>(),
        n > 0,
    ensures
        ({
            let m = between(a, b, i, n);
            let (k, all) = (whole::<S>(i), whole::<S>(n));
            &&& m.x.minus_spec(a.x).times_spec(all) == b.x.minus_spec(a.x).times_spec(k)
            &&& m.y.minus_spec(a.y).times_spec(all) == b.y.minus_spec(a.y).times_spec(k)
        }),
{
    reveal(exact_angles);
    let value = choose|value: spec_fn(S) -> real| #[trigger] is_reading(value) && has_angles(value);
    lemma_even(value, a.x, b.x, i, n);
    lemma_even(value, a.y, b.y, i, n);
}

proof fn lemma_even<S: Scalar>(value: spec_fn(S) -> real, a: S, b: S, i: int, n: int)
    requires
        is_reading(value),
        has_angles(value),
        n > 0,
    ensures
        ({
            let t = whole::<S>(i).over_spec(whole::<S>(n));
            a.plus_spec(t.times_spec(b.minus_spec(a))).minus_spec(a).times_spec(whole(n))
                == b.minus_spec(a).times_spec(whole(i))
        }),
{
    let (p, q) = (whole::<S>(i), whole::<S>(n));
    let t = p.over_spec(q);
    assert(value(p) == i as real && value(q) == n as real) by {
        reveal(is_reading);
    }
    assert(value(t) * value(q) == value(p)) by {
        reveal(has_angles);
        assert(value(q) != 0int as real);
    }
    let d = b.minus_spec(a);
    let l = a.plus_spec(t.times_spec(d)).minus_spec(a).times_spec(q);
    let r = d.times_spec(p);
    reveal(is_reading);
    lemma_commutes(value(t), value(d));
    lemma_trade(value(d), value(t), value(q));
    assert(value(l) == (value(t) * value(d)) * value(q));
    assert(value(r) == value(d) * value(p));
    assert(value(l) == value(r));
}

/// A leg has as few points as keep neighbours at most a step apart, up to the rounding, and
/// begins at its start.
pub proof fn law_leg_has_enough_points(
    a: Waypoint<Fixed>,
    b: Waypoint<Fixed>,
    max_step: Fixed,
)
    requires
        16 < max_step.raw,
        is_close(a.x),
        is_close(a.y),
        is_close(b.x),
        is_close(b.y),
    ensures
        ({
            let d = dist_spec(b.x, b.y, a.x, a.y).raw as int;
            let n = leg(a, b, max_step).len() as int;
            let s = max_step.raw as int;
            &&& d >= 0
            &&& (n - 1) * s < d || n == 0
            &&& d * ONE < n * s * ONE + s
            &&& n > 0 ==> leg(a, b, max_step)[0] == a
        }),
{
    let d = dist_spec(b.x, b.y, a.x, a.y).raw as int;
    let s = max_step.raw as int;
    let (x, y) = (b.x.minus_spec(a.x), b.y.minus_spec(a.y));
    law_distance_in_units(x, y);
    lemma_distance_bound(x.raw as int, y.raw as int, d);
    let q = (d * 65536) / s;
    assert(q * s <= d * 65536 < q * s + s && 0 <= q <= 0x1000_0000_0000_0000) by (nonlinear_arith)
        requires
            q == (d * 65536) / s,
            s > 16,
            0 <= d <= 0x40_0000_0000,
    ;
    let n = -((-q) / 65536);
    assert(n * 65536 >= q && (n - 1) * 65536 < q);
    assert(n >= 0);
    let share = dist_spec(b.x, b.y, a.x, a.y).over_spec(max_step);
    assert(share.raw == q);
    assert(share.ceil_spec().raw == n * 65536);
    assert(share.ceil_spec().to_index_spec() == n);
    assert(leg(a, b, max_step).len() == n);
    assert((n * 65536) * s >= q * s && (q - (n - 1) * 65536) * s >= s) by (nonlinear_arith)
        requires
            n * 65536 >= q,
            q - (n - 1) * 65536 >= 1,
            s > 0,
    ;
    assert((n * 65536) * s == (n * s) * 65536 && (q - (n - 1) * 65536) * s == q * s - ((n - 1) * s)
        * 65536) by (nonlinear_arith);
    if n > 0 {
        let t = whole::<Fixed>(0).over_spec(whole::<Fixed>(n));
        assert(t.raw == 0) by {
            assert(0int / (whole::<Fixed>(n).raw as int) == 0) by (nonlinear_arith)
                requires
                    whole::<Fixed>(n).raw > 0,
            ;
        }
        assert(t.times_spec(x).raw == 0) by (nonlinear_arith)
            requires
                t.raw == 0,
                t.times_spec(x).raw == crate::fixed::clip((t.raw * x.raw) / (ONE as int)),
                ONE == 65536,
        ;
        assert(t.times_spec(y).raw == 0) by (nonlinear_arith)
            requires
                t.raw == 0,
                t.times_spec(y).raw == crate::fixed::clip((t.raw * y.raw) / (ONE as int)),
                ONE == 65536,
        ;
        assert(between(a, b, 0, n) == a);
        assert(leg(a, b, max_step)[0] == between(a, b, 0, n));
    }
}

proof fn lemma_distance_bound(x: int, y: int, d: int)
    requires
        -0x20_0000_0000 <= x <= 0x20_0000_0000,
        -0x20_0000_0000 <= y <= 0x20_0000_0000,
        d >= 0,
        d * d <= x * x + y * y,
    ensures
        d <= 0x40_0000_0000,
{
    assert(x * x <= 0x20_0000_0000 * 0x20_0000_0000) by (nonlinear_arith)
        requires
            -0x20_0000_0000 <= x <= 0x20_0000_0000,
    ;
    assert(y * y <= 0x20_0000_0000 * 0x20_0000_0000) by (nonlinear_arith)
        requires
            -0x20_0000_0000 <= y <= 0x20_0000_0000,
    ;
    assert(d <= 0x40_0000_0000) by (nonlinear_arith)
        requires
            d >= 0,
            d * d <= 0x20_0000_0000 * 0x20_0000_0000 + 0x20_0000_0000 * 0x20_0000_0000,
    ;
}

/// A leg begins where it stands among the others.
proof fn lemma_leg_in_path<S: Scalar>(path: Seq<Waypoint<S>>, max_step: S, k: nat, j: nat)
    requires
        j < k,
    ensures
        legs(path, max_step, j).len() + leg(path[j as int], path[j as int + 1], max_step).len() <= legs(
            path,
            max_step,
            k,
        ).len(),
        leg(path[j as int], path[j as int + 1], max_step).len() > 0 ==> legs(path, max_step, k)[legs(
            path,
            max_step,
            j,
        ).len() as int] == leg(path[j as int], path[j as int + 1], max_step)[0],
    decreases k,
{
    if j + 1 < k {
        lemma_leg_in_path(path, max_step, (k - 1) as nat, j);
    }
}

/// A path with points added keeps its own points, except those that the next one lies upon.
pub proof fn law_resampled_keeps_points(path: Seq<Waypoint<Fixed>>, max_step: Fixed, j: int)
    requires
        16 < max_step.raw,
        path.len() >= 2,
        0 <= j < path.len(),
        forall|i: int| 0 <= i < path.len() ==> is_close((#[trigger] path[i]).x) && is_close(path[i].y),
        j + 1 < path.len() ==> dist_spec(path[j + 1].x, path[j + 1].y, path[j].x, path[j].y).raw
            > max_step.raw / 65536 + 1,
    ensures
        resampled(path, max_step).contains(path[j]),
        resampled(path, max_step).last() == path.last(),
{
    let r = resampled(path, max_step);
    assert(r[r.len() - 1] == path.last());
    if j + 1 < path.len() {
        let (a, b) = (path[j], path[j + 1]);
        assert(is_close(a.x) && is_close(b.x));
        law_leg_has_enough_points(a, b, max_step);
        let n = leg(a, b, max_step).len();
        let d = dist_spec(b.x, b.y, a.x, a.y).raw as int;
        assert(n > 0);
        let k = (path.len() - 1) as nat;
        lemma_leg_in_path(path, max_step, k, j as nat);
        let at = legs(path, max_step, j as nat).len() as int;
        assert(r[at] == a);
    } else {
        assert(r[r.len() - 1] == path[j]);
    }
}

/// At the end of its path the robot turns in place until it faces the heading, and then goes
/// on: it does not drive, and turns only while the error is above the tolerance.
pub proof fn law_turns_in_place_at_end(
    task: Seq<TaskWaypoint<Fixed>>,
    p: TaskParams<Fixed>,
    a: TaskState<Fixed>,
    pose: [Fixed; 3],
    now: Fixed,
)
    requires
        arrived(p, a.path, pose[0], pose[1]),
    ensures
        ({
            let (b, c) = driven(task, p, a, pose, now);
            let diff = normed(radians(task[a.idx].yaw_deg->0).minus_spec(pose[2]));
            let askew = task[a.idx].yaw_deg is Some && diff.magnitude_spec().raw > p.yaw_tol.raw;
            &&& c.vx.raw == 0
            &&& askew ==> b.phase == Phase::Aligning && b.idx == a.idx && b.path == a.path && c.wz
                == turn_rate(p, diff)
            &&& !askew ==> c.wz.raw == 0 && b.phase != Phase::Aligning
        }),
{
}

/// Neighbouring points of a path that is followed are at most half the lookahead distance
/// apart, or a tenth of a meter if that is more.
pub proof fn law_path_step(p: TaskParams<Fixed>)
    requires
        0 <= p.lookahead.raw <= 0x1_0000_0000,
    ensures
        ({
            let s = path_step(p).raw as int;
            let tenth = Fixed::ratio_spec(1, 10).raw;
            &&& s >= tenth
            &&& 2 * s >= p.lookahead.raw - 1
            &&& s == tenth || 2 * s <= p.lookahead.raw
        }),
{
    let l = p.lookahead.raw as int;
    assert(Fixed::ratio_spec(1, 2).raw == 32768);
    assert(Fixed::ratio_spec(1, 10).raw == 6553);
    assert((l * 32768) / 65536 == l / 2);
    assert(p.lookahead.times_spec(Fixed::ratio_spec(1, 2)).raw == l / 2);
}

} // verus!
