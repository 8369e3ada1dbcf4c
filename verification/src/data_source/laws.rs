//! Laws of the simulated motion, in exact arithmetic.
use super::{
    four_points, ground_points, motion_at, noise, seen_from, stops, wall_column, wall_points,
    world_spec, yard_half, SimParams, SimPose,
};
use crate::exact::{exact_angles, has_angles, is_unit, lemma_commutes};
use crate::frames::{lemma_less_times, lemma_pulled};
use crate::linear::V3;
use crate::places::law_rotation_undone;
use crate::scalar::{exact_arithmetic, is_reading, lt, whole, zero, Scalar};
use crate::sphere::{lemma_nothing, lemma_signs};
use vstd::prelude::*;

verus! {

/// Gravity in the world.
pub open spec fn weight<W: Scalar>() -> V3<W> {
    V3::new(zero::<W>(), zero::<W>(), W::ratio_spec(981, 100).negate_spec())
}

/// On the circle, the force that is felt and gravity together pull the robot to the centre,
/// as much as the circle needs: its place times the square of the angular velocity, against
/// the place. The robot turns at that angular velocity.
pub proof fn law_force_keeps_on_circle<W: Scalar>(t: W, p: &SimParams<W>)
    requires
        exact_arithmetic::<W>(),
        !lt(t, p.init_static),
        is_unit(SimPose::at_spec(t, p).rot),
    ensures
        ({
            let pose = SimPose::at_spec(t, p);
            let (force, turn) = motion_at(t, p);
            let place = V3::new(pose.pos.x, pose.pos.y, zero::<W>());
            &&& pose.rot.rotate(force).sum(weight()) == place.scaled(
                p.omega.times_spec(p.omega),
            ).opposite()
            &&& turn == V3::new(zero::<W>(), zero::<W>(), p.omega)
            &&& pose.pos.z == p.height
        }),
{
    reveal(exact_arithmetic);
    let value = choose|value: spec_fn(W) -> real| #[trigger] is_reading(value);
    let pose = SimPose::at_spec(t, p);
    let yaw = super::circle_angle(t, p);
    let o = zero::<W>();
    let g = W::ratio_spec(981, 100);
    let pull = p.omega.negate_spec().times_spec(p.omega).times_spec(p.radius);
    let (c, s) = (yaw.cos_spec(), yaw.sin_spec());
    let a = V3::new(pull.times_spec(c), pull.times_spec(s), o);
    let down = V3::new(o, o, g.negate_spec());
    law_rotation_undone(pose.rot, a.diff(down));
    let left = a.diff(down).sum(weight());
    let place = V3::new(pose.pos.x, pose.pos.y, o);
    let square = p.omega.times_spec(p.omega);
    let right = place.scaled(square).opposite();
    let (w, r) = (value(p.omega), value(p.radius));
    lemma_pulled_in(w, r, value(c));
    lemma_pulled_in(w, r, value(s));
    lemma_nothing(w * w);
    reveal(is_reading);
    assert(value(left.x) == value(right.x));
    assert(value(left.y) == value(right.y));
    assert(value(left.z) == value(right.z));
}

proof fn lemma_pulled_in(w: real, r: real, c: real)
    ensures
        (((-w) * w) * r) * c == -((r * c) * (w * w)),
{
    lemma_signs(w, w);
    lemma_signs(w * w, r);
    lemma_signs((w * w) * r, c);
    assert(((w * w) * r) * c == (r * c) * (w * w)) by (nonlinear_arith);
}

/// At rest the force that is felt is against gravity, and nothing turns.
pub proof fn law_force_holds_at_rest<W: Scalar>(t: W, p: &SimParams<W>)
    requires
        exact_arithmetic::<W>(),
        lt(t, p.init_static),
    ensures
        motion_at(t, p).0.sum(weight()) == V3::<W>::zeros(),
        motion_at(t, p).1 == V3::<W>::zeros(),
        SimPose::at_spec(t, p).pos == V3::new(p.radius, zero::<W>(), p.height),
{
    reveal(exact_arithmetic);
    let value = choose|value: spec_fn(W) -> real| #[trigger] is_reading(value);
    reveal(is_reading);
    let left = motion_at(t, p).0.sum(weight());
    assert(value(left.x) == value(zero::<W>()));
    assert(value(left.z) == value(zero::<W>()));
}

/// A point of the world is where it is seen from a pose.
pub proof fn law_seen_point_is_there<W: Scalar>(pose: SimPose<W>, wp: V3<W>)
    requires
        exact_arithmetic::<W>(),
        is_unit(pose.rot),
    ensures
        pose.rot.rotate(seen_from(pose, wp)).sum(pose.pos) == wp,
{
    law_rotation_undone(pose.rot, wp.diff(pose.pos));
    reveal(exact_arithmetic);
    let value = choose|value: spec_fn(W) -> real| #[trigger] is_reading(value);
    reveal(is_reading);
    let r = wp.diff(pose.pos).sum(pose.pos);
    assert(value(r.x) == value(wp.x));
    assert(value(r.y) == value(wp.y));
    assert(value(r.z) == value(wp.z));
}

/// The noise of a state of the generator goes with the state from minus one to one.
pub proof fn law_noise_is_even<W: Scalar>(s: u64)
    requires
        exact_angles::<W>(),
    ensures
        noise::<W>(s).times_spec(whole(u64::MAX as int)) == whole::<W>(2 * s - u64::MAX),
{
    reveal(exact_angles);
    let value = choose|value: spec_fn(W) -> real| #[trigger] is_reading(value) && has_angles(value);
    let (a, b) = (W::ratio_spec(s as int, 1), W::ratio_spec(u64::MAX as int, 1));
    let q = a.over_spec(b);
    let m = (u64::MAX as int) as real;
    assert(value(b) == m && value(a) == (s as int) as real) by {
        reveal(is_reading);
    }
    assert(value(q) * m == value(a)) by {
        reveal(has_angles);
    }
    let two = 2int as real;
    lemma_less_times(value(q) * two, 1int as real, m);
    lemma_pulled(value(q), two, m);
    lemma_commutes(1int as real, m);
    lemma_nothing(m);
    reveal(is_reading);
    let l = noise::<W>(s).times_spec(whole(u64::MAX as int));
    let r = whole::<W>(2 * s - u64::MAX);
    assert(value(r) == value(a) * two - m);
    assert(value(l) == value(r));
}

/// A point of the world is on the ground or on a wall.
pub open spec fn is_of_yard<W: Scalar>(p: V3<W>) -> bool {
    let half = yard_half::<W>();
    ||| p.z == zero::<W>()
    ||| p.x == half
    ||| p.x == half.negate_spec()
    ||| p.y == half
    ||| p.y == half.negate_spec()
}

proof fn lemma_ground<W: Scalar>(xs: Seq<W>, k: nat)
    ensures
        forall|i: int|
            0 <= i < ground_points(xs, k).len() ==> (#[trigger] ground_points(xs, k)[i]).z
                == zero::<W>(),
        ground_points(xs, k).len() == k * xs.len(),
    decreases k,
{
    if k > 0 {
        lemma_ground(xs, (k - 1) as nat);
        let n = xs.len();
        assert(k * n == (k - 1) * n + n) by (nonlinear_arith);
    } else {
        assert(0 * xs.len() == 0) by (nonlinear_arith);
    }
}

proof fn lemma_column_of_wall<W: Scalar>(x: W, zs: Seq<W>, k: nat)
    ensures
        forall|i: int|
            0 <= i < wall_column(x, zs, yard_half::<W>(), k).len() ==> is_of_yard(
                #[trigger] wall_column(x, zs, yard_half::<W>(), k)[i],
            ),
        wall_column(x, zs, yard_half::<W>(), k).len() == 4 * k,
    decreases k,
{
    if k > 0 {
        lemma_column_of_wall(x, zs, (k - 1) as nat);
        let half = yard_half::<W>();
        let four = four_points(x, zs[k - 1], half);
        assert(is_of_yard(four[0]) && is_of_yard(four[1]) && is_of_yard(four[2]) && is_of_yard(
            four[3],
        ));
        let (was, is) = (wall_column(x, zs, half, (k - 1) as nat), wall_column(x, zs, half, k));
        assert forall|i: int| 0 <= i < is.len() implies is_of_yard(#[trigger] is[i]) by {
            if i < was.len() {
                assert(is[i] == was[i]);
            } else {
                let j = i - was.len();
                assert(is[i] == four[j]);
                assert(j == 0 || j == 1 || j == 2 || j == 3);
            }
        }
    }
}

proof fn lemma_walls<W: Scalar>(xs: Seq<W>, zs: Seq<W>, k: nat)
    ensures
        forall|i: int|
            0 <= i < wall_points(xs, zs, yard_half::<W>(), k).len() ==> is_of_yard(
                #[trigger] wall_points(xs, zs, yard_half::<W>(), k)[i],
            ),
    decreases k,
{
    if k > 0 {
        lemma_walls(xs, zs, (k - 1) as nat);
        lemma_column_of_wall(xs[k - 1], zs, zs.len());
        let half = yard_half::<W>();
        let (was, more) = (
            wall_points(xs, zs, half, (k - 1) as nat),
            wall_column(xs[k - 1], zs, half, zs.len()),
        );
        let is = wall_points(xs, zs, half, k);
        assert forall|i: int| 0 <= i < is.len() implies is_of_yard(#[trigger] is[i]) by {
            if i < was.len() {
                assert(is[i] == was[i]);
            } else {
                assert(is[i] == more[i - was.len()]);
            }
        }
    }
}

/// The world is a yard: every point of it is on the ground or on one of the walls.
pub proof fn law_world_is_yard<W: Scalar>(i: int)
    requires
        0 <= i < world_spec::<W>().len(),
    ensures
        is_of_yard(world_spec::<W>()[i]),
{
    let half = yard_half::<W>();
    let step = W::ratio_spec(4, 10);
    let xs = stops(half.negate_spec(), half, step);
    let zs = stops(zero::<W>(), W::ratio_spec(6, 1), step);
    lemma_ground(xs, xs.len());
    lemma_walls(xs, zs, xs.len());
    let ground = ground_points(xs, xs.len());
    if i < ground.len() {
        assert(world_spec::<W>()[i] == ground[i]);
    } else {
        assert(world_spec::<W>()[i] == wall_points(xs, zs, half, xs.len())[i - ground.len()]);
    }
}

} // verus!
