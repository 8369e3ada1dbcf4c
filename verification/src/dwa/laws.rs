//! Laws of the local planner.
use super::{
    angular_window, answer, at_goal, collides, cost_at, dist_spec, feasible, gap_to, horizon_steps,
    law_command_is_cheapest, law_none_means_blocked, linear_window, pose_after, sample_of, sampled,
    touches, wrapped, DwaCmd, DwaGoal, DwaParams, DwaState, Obstacle, Pose,
};
use crate::exact::lemma_spread_two;
use crate::fixed::{Fixed, ONE};
use crate::scalar::{
    clamp_spec, exact_arithmetic, is_reading, law_exact_undone, lt, pi, whole, zero, Scalar,
};
use crate::units::{law_distance_in_units, law_over_in_order, law_times_in_order};
use vstd::prelude::*;

verus! {

/// The square of the distance between a pose and an obstacle, in units.
pub open spec fn apart(at: Pose<Fixed>, o: Obstacle<Fixed>) -> int {
    (at.x.raw - o.x.raw) * (at.x.raw - o.x.raw) + (at.y.raw - o.y.raw) * (at.y.raw - o.y.raw)
}

/// The distance at which the robot touches an obstacle, in units.
pub open spec fn reach(p: DwaParams<Fixed>, o: Obstacle<Fixed>) -> int {
    o.radius.raw + p.robot_radius.raw
}

/// Squares grow with the number.
proof fn lemma_squares(a: int, b: int)
    requires
        0 <= a <= b,
    ensures
        a * a <= b * b,
{
    assert(a * a <= b * b) by (nonlinear_arith)
        requires
            0 <= a <= b,
    ;
}

proof fn lemma_clipped_square(a: int, b: int)
    requires
        0 <= a <= b || b <= a <= 0,
    ensures
        a * a <= b * b,
{
    if 0 <= a <= b {
        lemma_squares(a, b);
    } else {
        lemma_squares(-a, -b);
        assert((-a) * (-a) == a * a) by (nonlinear_arith);
        assert((-b) * (-b) == b * b) by (nonlinear_arith);
    }
}

/// A gap that is not negative keeps the robot out of reach.
proof fn lemma_gap_is_clear(p: DwaParams<Fixed>, at: Pose<Fixed>, o: Obstacle<Fixed>)
    requires
        reach(p, o) >= 0,
        p.robot_radius.raw >= 0,
        !lt(gap_to(p, at, o), zero::<Fixed>()),
    ensures
        apart(at, o) >= reach(p, o) * reach(p, o),
{
    let dx = at.x.minus_spec(o.x);
    let dy = at.y.minus_spec(o.y);
    law_distance_in_units(dx, dy);
    let d = dx.times_spec(dx).plus_spec(dy.times_spec(dy)).root_spec().raw as int;
    assert(d >= reach(p, o));
    lemma_squares(reach(p, o), d);
    lemma_clipped_square(dx.raw as int, at.x.raw - o.x.raw);
    lemma_clipped_square(dy.raw as int, at.y.raw - o.y.raw);
}

/// A negative gap means that the robot is in reach, up to the rounding of distances.
proof fn lemma_gap_is_blocked(p: DwaParams<Fixed>, at: Pose<Fixed>, o: Obstacle<Fixed>)
    requires
        lt(gap_to(p, at, o), zero::<Fixed>()),
        p.robot_radius.raw >= 0,
        o.radius.raw >= 0,
        -0x40_0000_0000 <= at.x.raw - o.x.raw <= 0x40_0000_0000,
        -0x40_0000_0000 <= at.y.raw - o.y.raw <= 0x40_0000_0000,
    ensures
        apart(at, o) < reach(p, o) * reach(p, o) + 2 * ONE,
{
    let dx = at.x.minus_spec(o.x);
    let dy = at.y.minus_spec(o.y);
    law_distance_in_units(dx, dy);
    let d = dx.times_spec(dx).plus_spec(dy.times_spec(dy)).root_spec().raw as int;
    assert(d < reach(p, o));
    lemma_squares(d + 1, reach(p, o));
}

/// In fixed point, a command for a robot that is not at its goal keeps clear of every
/// obstacle: at each time step of its trajectory the centre of the robot is at least as far
/// from the centre of the obstacle as both radii together.
pub proof fn law_command_keeps_clear(
    p: DwaParams<Fixed>,
    s: DwaState<Fixed>,
    goal: DwaGoal<Fixed>,
    obstacles: Seq<Obstacle<Fixed>>,
    c: DwaCmd<Fixed>,
    k: nat,
    j: int,
)
    requires
        !at_goal(s, goal),
        answer(p, s, goal, obstacles) == Some(c),
        1 <= k <= horizon_steps(p),
        0 <= j < obstacles.len(),
        p.robot_radius.raw >= 0,
        obstacles[j].radius.raw >= 0,
    ensures
        ({
            let at = pose_after(s.pose, c, p.dt, k);
            let o = obstacles[j];
            let sum = o.radius.raw + p.robot_radius.raw;
            let dx = at.x.raw - o.x.raw;
            let dy = at.y.raw - o.y.raw;
            dx * dx + dy * dy >= sum * sum
        }),
{
    law_command_is_cheapest(p, s, goal, obstacles, c);
    let at = pose_after(s.pose, c, p.dt, k);
    assert(!touches(p, at, obstacles, obstacles.len() as int));
    lemma_gap_is_clear(p, at, obstacles[j]);
}

/// The pose is near enough to the obstacle for its distance to be told apart.
pub open spec fn is_within_range(at: Pose<Fixed>, o: Obstacle<Fixed>) -> bool {
    &&& -0x40_0000_0000 <= at.x.raw - o.x.raw <= 0x40_0000_0000
    &&& -0x40_0000_0000 <= at.y.raw - o.y.raw <= 0x40_0000_0000
}

/// In fixed point, the planner gives up for a reason: where it gives no command, each
/// sampled velocity leads, at some time step, so near to an obstacle that the distance of
/// the centres is below both radii together, up to the rounding of distances.
pub proof fn law_blocked_by_an_obstacle(
    p: DwaParams<Fixed>,
    s: DwaState<Fixed>,
    goal: DwaGoal<Fixed>,
    obstacles: Seq<Obstacle<Fixed>>,
    a: int,
    b: int,
)
    requires
        answer(p, s, goal, obstacles) is None,
        0 <= a < p.n_v,
        0 <= b < p.n_w,
        p.robot_radius.raw >= 0,
        forall|j: int| 0 <= j < obstacles.len() ==> (#[trigger] obstacles[j]).radius.raw >= 0,
        forall|k: nat, j: int|
            1 <= k <= horizon_steps(p) && 0 <= j < obstacles.len() ==> is_within_range(
                #[trigger] pose_after(s.pose, sampled(p, s, a, b), p.dt, k),
                #[trigger] obstacles[j],
            ),
    ensures
        exists|k: nat, j: int|
            1 <= k <= horizon_steps(p) && 0 <= j < obstacles.len() && {
                let at = #[trigger] pose_after(s.pose, sampled(p, s, a, b), p.dt, k);
                let o = #[trigger] obstacles[j];
                let sum = o.radius.raw + p.robot_radius.raw;
                let dx = at.x.raw - o.x.raw;
                let dy = at.y.raw - o.y.raw;
                dx * dx + dy * dy < sum * sum + 2 * ONE
            },
{
    law_none_means_blocked(p, s, goal, obstacles);
    assert(!feasible(p, s, obstacles, a, b));
    let c = sampled(p, s, a, b);
    assert(collides(p, s.pose, c, obstacles, horizon_steps(p)));
    let k = choose|k: nat|
        1 <= k <= horizon_steps(p) && touches(
            p,
            #[trigger] pose_after(s.pose, c, p.dt, k),
            obstacles,
            obstacles.len() as int,
        );
    let at = pose_after(s.pose, c, p.dt, k);
    let j = choose|j: int|
        0 <= j < obstacles.len() && lt(
            #[trigger] gap_to(p, at, obstacles[j]),
            zero::<Fixed>(),
        );
    assert(is_within_range(at, obstacles[j]));
    lemma_gap_is_blocked(p, at, obstacles[j]);
}

/// In exact arithmetic a time step turns the robot by the angular velocity and moves it
/// along its new heading by the linear velocity, each times the time, and not aside.
pub proof fn law_step_along_heading<S: Scalar>(at: Pose<S>, c: DwaCmd<S>, dt: S)
    requires
        exact_arithmetic::<S>(),
        ({
            let t = pose_after(at, c, dt, 1).theta;
            t.cos_spec().times_spec(t.cos_spec()).plus_spec(t.sin_spec().times_spec(t.sin_spec()))
                == whole::<S>(1)
        }),
    ensures
        ({
            let to = pose_after(at, c, dt, 1);
            let (cos, sin) = (to.theta.cos_spec(), to.theta.sin_spec());
            let (dx, dy) = (to.x.minus_spec(at.x), to.y.minus_spec(at.y));
            &&& to.theta.minus_spec(at.theta) == c.angular.times_spec(dt)
            &&& dx.times_spec(cos).plus_spec(dy.times_spec(sin)) == c.linear.times_spec(dt)
            &&& dx.times_spec(sin) == dy.times_spec(cos)
        }),
{
    reveal_with_fuel(pose_after, 2);
    let to = pose_after(at, c, dt, 1);
    let (cos, sin) = (to.theta.cos_spec(), to.theta.sin_spec());
    law_exact_undone(at.theta, c.angular.times_spec(dt));
    law_exact_undone(at.x, c.linear.times_spec(cos).times_spec(dt));
    law_exact_undone(at.y, c.linear.times_spec(sin).times_spec(dt));
    reveal(exact_arithmetic);
    reveal(is_reading);
    let value = choose|value: spec_fn(S) -> real| #[trigger] is_reading(value);
    let (v, t, a, b) = (value(c.linear), value(dt), value(cos), value(sin));
    assert(((v * a) * t) * a == (v * t) * (a * a)) by (nonlinear_arith);
    assert(((v * b) * t) * b == (v * t) * (b * b)) by (nonlinear_arith);
    assert(((v * a) * t) * b == ((v * b) * t) * a) by (nonlinear_arith);
    let m = v * t;
    lemma_spread_two(m, a * a, b * b);
    let one = 1int as real;
    assert(m * one == m) by (nonlinear_arith)
        requires
            one == 1int as real,
    ;
    assert(value(cos.times_spec(cos).plus_spec(sin.times_spec(sin))) == one);
    let (dx, dy) = (to.x.minus_spec(at.x), to.y.minus_spec(at.y));
    assert(value(dx.times_spec(cos).plus_spec(dy.times_spec(sin))) == value(
        c.linear.times_spec(dt),
    ));
    assert(value(dx.times_spec(sin)) == value(dy.times_spec(cos)));
}

/// Numbers far from the ends of their range.
pub open spec fn is_small(a: Fixed) -> bool {
    -0x100_0000_0000 <= a.raw <= 0x100_0000_0000
}

/// In fixed point, a robot that does not turn runs straight on: every time step takes it as
/// far as the first, in the same direction.
pub proof fn law_straight_run(from: Pose<Fixed>, c: DwaCmd<Fixed>, dt: Fixed, k: nat)
    requires
        c.angular.raw == 0,
        k <= 0x10_0000,
        is_small(from.x),
        is_small(from.y),
        is_small(from.theta),
        ({
            let to = pose_after(from, c, dt, 1);
            is_small(to.x) && is_small(to.y)
        }),
    ensures
        ({
            let once = pose_after(from, c, dt, 1);
            let to = pose_after(from, c, dt, k);
            &&& to.theta == from.theta
            &&& to.x.raw - from.x.raw == k * (once.x.raw - from.x.raw)
            &&& to.y.raw - from.y.raw == k * (once.y.raw - from.y.raw)
        }),
    decreases k,
{
    reveal_with_fuel(pose_after, 2);
    let once = pose_after(from, c, dt, 1);
    let (a, b) = (once.x.raw - from.x.raw, once.y.raw - from.y.raw);
    assert(0 * dt.raw == 0);
    if k > 0 {
        let j = (k - 1) as nat;
        law_straight_run(from, c, dt, j);
        assert(k * a == j * a + a) by (nonlinear_arith)
            requires
                k == j + 1,
        ;
        assert(k * b == j * b + b) by (nonlinear_arith)
            requires
                k == j + 1,
        ;
        lemma_far(j as int, a);
        lemma_far(j as int, b);
    }
}

proof fn lemma_far(j: int, a: int)
    requires
        0 <= j <= 0x10_0000,
        -0x200_0000_0000 <= a <= 0x200_0000_0000,
    ensures
        -0x2000_0000_0000_0000 <= j * a <= 0x2000_0000_0000_0000,
{
    assert(-0x2000_0000_0000_0000 <= j * a <= 0x2000_0000_0000_0000)
        by (nonlinear_arith)
        requires
            0 <= j <= 0x10_0000,
            -0x200_0000_0000 <= a <= 0x200_0000_0000,
    ;
}

/// A sample of a range lies in it.
proof fn lemma_sample_within(lo: Fixed, hi: Fixed, i: int, n: int)
    requires
        is_small(lo),
        is_small(hi),
        lo.raw <= hi.raw,
        0 <= i < n <= 0x10_0000,
    ensures
        lo.raw <= sample_of((lo, hi), i, n).raw <= hi.raw,
{
    let d = hi.raw - lo.raw;
    if n == 1 {
        let sum = lo.raw + hi.raw;
        assert((32768 * sum) / 65536 == sum / 2);
        assert(Fixed::ratio_spec(1, 2).raw == 32768);
    } else {
        let m = n - 1;
        let one = ONE as int;
        assert(0 <= d * i <= d * m && d * (i * one) == (d * i) * one) by (nonlinear_arith)
            requires
                d >= 0,
                0 <= i <= m,
        ;
        assert(d * m <= 0x200_0000_0000 * 0x10_0000) by (nonlinear_arith)
            requires
                0 <= d <= 0x200_0000_0000,
                0 <= m <= 0x10_0000,
        ;
        let part = d * i;
        assert((part * one) / one == part) by (nonlinear_arith)
            requires
                one == 65536,
        ;
        let q = (part * one) / (m * one);
        assert(0 <= q <= d) by (nonlinear_arith)
            requires
                q == (part * one) / (m * one),
                0 <= part <= d * m,
                m > 0,
                one == 65536,
        ;
        assert(whole::<Fixed>(i).raw == i * one);
        assert(whole::<Fixed>(m).raw == m * one);
        assert((hi.minus_spec(lo)).raw == d);
        assert(hi.minus_spec(lo).times_spec(whole::<Fixed>(i)).raw == part);
    }
}

/// In fixed point, every sampled velocity can be reached: from the current one within one
/// time step of the largest acceleration, and within the speed limits. The current
/// velocity is taken to be within the limits.
pub proof fn law_samples_within_reach(p: DwaParams<Fixed>, s: DwaState<Fixed>, i: int, j: int)
    requires
        0 <= i < p.n_v <= 0x10_0000,
        0 <= j < p.n_w <= 0x10_0000,
        0 <= s.v.raw <= p.max_v.raw <= 0x100_0000_0000,
        -p.max_w.raw <= s.w.raw <= p.max_w.raw <= 0x100_0000_0000,
        0 <= p.acc_v.times_spec(p.dt).raw,
        0 <= p.acc_w.times_spec(p.dt).raw,
    ensures
        ({
            let c = sampled(p, s, i, j);
            let dv = p.acc_v.times_spec(p.dt).raw;
            let dw = p.acc_w.times_spec(p.dt).raw;
            &&& s.v.raw - dv <= c.linear.raw <= s.v.raw + dv
            &&& 0 <= c.linear.raw <= p.max_v.raw
            &&& s.w.raw - dw <= c.angular.raw <= s.w.raw + dw
            &&& -p.max_w.raw <= c.angular.raw <= p.max_w.raw
        }),
{
    let v = linear_window(p, s);
    let w = angular_window(p, s);
    lemma_sample_within(v.0, v.1, i, p.n_v as int);
    lemma_sample_within(w.0, w.1, j, p.n_w as int);
}

/// The samples go over the whole window: the first is its lower end and the last its upper
/// end.
pub proof fn law_samples_span_window(p: DwaParams<Fixed>, s: DwaState<Fixed>)
    requires
        2 <= p.n_v <= 0x10_0000,
        2 <= p.n_w <= 0x10_0000,
        0 <= s.v.raw <= p.max_v.raw <= 0x100_0000_0000,
        -p.max_w.raw <= s.w.raw <= p.max_w.raw <= 0x100_0000_0000,
        0 <= p.acc_v.times_spec(p.dt).raw,
        0 <= p.acc_w.times_spec(p.dt).raw,
    ensures
        ({
            let first = sampled(p, s, 0, 0);
            let last = sampled(p, s, p.n_v - 1, p.n_w - 1);
            let dv = p.acc_v.times_spec(p.dt).raw;
            let dw = p.acc_w.times_spec(p.dt).raw;
            &&& first.linear.raw == 0 || first.linear.raw == s.v.raw - dv
            &&& last.linear.raw == p.max_v.raw || last.linear.raw == s.v.raw + dv
            &&& first.angular.raw == -p.max_w.raw || first.angular.raw == s.w.raw - dw
            &&& last.angular.raw == p.max_w.raw || last.angular.raw == s.w.raw + dw
        }),
{
    let v = linear_window(p, s);
    let w = angular_window(p, s);
    lemma_sample_ends(v.0, v.1, p.n_v as int);
    lemma_sample_ends(w.0, w.1, p.n_w as int);
}

proof fn lemma_sample_ends(lo: Fixed, hi: Fixed, n: int)
    requires
        is_small(lo),
        is_small(hi),
        lo.raw <= hi.raw,
        2 <= n <= 0x10_0000,
    ensures
        sample_of((lo, hi), 0, n) == lo,
        sample_of((lo, hi), n - 1, n) == hi,
{
    let d = hi.raw - lo.raw;
    let m = n - 1;
    let one = ONE as int;
    let part = d * m;
    assert(d * (m * one) == part * one && d * (0 * one) == 0) by (nonlinear_arith)
        requires
            part == d * m,
    ;
    assert(0 <= part <= 0x200_0000_0000 * 0x10_0000) by (nonlinear_arith)
        requires
            0 <= d <= 0x200_0000_0000,
            0 <= m <= 0x10_0000,
            part == d * m,
    ;
    assert((part * one) / one == part) by (nonlinear_arith)
        requires
            one == 65536,
    ;
    assert((part * one) / (m * one) == d) by (nonlinear_arith)
        requires
            part == d * m,
            m > 0,
            one == 65536,
    ;
    assert(0int / (m * one) == 0) by (nonlinear_arith)
        requires
            m > 0,
            one == 65536,
    ;
    assert(whole::<Fixed>(m).raw == m * one);
    assert(whole::<Fixed>(0).raw == 0);
    assert(hi.minus_spec(lo).raw == d);
    assert(hi.minus_spec(lo).times_spec(whole::<Fixed>(m)).raw == part);
    assert(hi.minus_spec(lo).times_spec(whole::<Fixed>(0)).raw == 0);
}

/// How far the heading of a pose is off the direction of the goal.
pub open spec fn heading_error<S: Scalar>(end: Pose<S>, goal: DwaGoal<S>) -> S {
    wrapped(
        goal.y.minus_spec(end.y).atan2_spec(goal.x.minus_spec(end.x)).minus_spec(end.theta),
    ).magnitude_spec()
}

/// In fixed point, the cost says what is better: to end nearer to the goal and heading
/// more towards it, to keep further from obstacles and to drive faster never costs more.
pub proof fn law_better_is_cheaper(
    p: DwaParams<Fixed>,
    goal: DwaGoal<Fixed>,
    end: Pose<Fixed>,
    worse: Pose<Fixed>,
    c: DwaCmd<Fixed>,
    slower: DwaCmd<Fixed>,
    clear: Fixed,
    nearer: Fixed,
)
    requires
        p.w_goal.raw >= 0,
        p.w_clearance.raw >= 0,
        p.w_speed.raw >= 0,
        p.max_v.raw > 0,
        apart_from_goal(end, goal) <= apart_from_goal(worse, goal),
        heading_error(end, goal).raw <= heading_error(worse, goal).raw,
        nearer.raw <= clear.raw,
        slower.linear.raw <= c.linear.raw,
    ensures
        cost_at(p, goal, end, c, clear).raw <= cost_at(p, goal, worse, slower, nearer).raw,
{
    let one = whole::<Fixed>(1);
    let five = whole::<Fixed>(5);
    let ten = whole::<Fixed>(10);
    let o = zero::<Fixed>();
    let pi_ = pi::<Fixed>();
    assert(pi_.raw > 0);
    let (a, b) = (heading_error(end, goal), heading_error(worse, goal));
    law_over_in_order(a, b, pi_);
    law_times_in_order(p.w_goal, a.over_spec(pi_), b.over_spec(pi_));
    let (d, e) = (
        dist_spec(end.x, end.y, goal.x, goal.y),
        dist_spec(worse.x, worse.y, goal.x, goal.y),
    );
    law_times_in_order(p.w_goal, d, e);
    law_over_in_order(p.w_goal.times_spec(d), p.w_goal.times_spec(e), ten);
    let (r, s) = (clamp_spec(clear, o, five), clamp_spec(nearer, o, five));
    law_over_in_order(s, r, five);
    law_times_in_order(
        p.w_clearance,
        one.minus_spec(r.over_spec(five)),
        one.minus_spec(s.over_spec(five)),
    );
    law_over_in_order(slower.linear, c.linear, p.max_v);
    law_times_in_order(
        p.w_speed,
        one.minus_spec(c.linear.over_spec(p.max_v)),
        one.minus_spec(slower.linear.over_spec(p.max_v)),
    );
}

/// The distance of a pose from the goal.
pub open spec fn apart_from_goal(at: Pose<Fixed>, goal: DwaGoal<Fixed>) -> int {
    dist_spec(at.x, at.y, goal.x, goal.y).raw as int
}

/// A product grows by a unit once its factor has grown by enough.
proof fn lemma_strictly(w: Fixed, a: Fixed, b: Fixed)
    requires
        w.raw >= 0,
        0 <= a.raw <= b.raw,
        w.raw * (b.raw - a.raw) >= ONE,
        w.times_spec(b).raw < i64::MAX,
    ensures
        w.times_spec(a).raw < w.times_spec(b).raw,
{
    let (x, y, z) = (w.raw as int, a.raw as int, b.raw as int);
    assert(x * z == x * y + x * (z - y) && x * y >= 0) by (nonlinear_arith)
        requires
            x >= 0,
            y >= 0,
    ;
}

/// A quotient by a whole number, in units.
proof fn lemma_shared(a: Fixed, n: int)
    requires
        0 < n < 100,
    ensures
        a.over_spec(whole::<Fixed>(n)).raw == a.raw as int / n,
{
    let x = a.raw as int;
    let one = ONE as int;
    assert((x * one) / (n * one) == x / n) by (nonlinear_arith)
        requires
            n > 0,
            one == 65536,
    ;
    assert(-0x8000_0000_0000_0000 <= x / n <= 0x7fff_ffff_ffff_ffff) by (nonlinear_arith)
        requires
            n > 0,
            -0x8000_0000_0000_0000 <= x <= 0x7fff_ffff_ffff_ffff,
    ;
}

/// In fixed point, what is better by enough costs less: heading, distance, clearance and
/// speed all count, by their weights.
pub proof fn law_enough_better_is_cheaper(
    p: DwaParams<Fixed>,
    goal: DwaGoal<Fixed>,
    end: Pose<Fixed>,
    worse: Pose<Fixed>,
    c: DwaCmd<Fixed>,
    slower: DwaCmd<Fixed>,
    clear: Fixed,
    nearer: Fixed,
)
    requires
        p.w_goal.raw >= 0,
        p.w_clearance.raw >= 0,
        p.w_speed.raw >= 0,
        p.max_v.raw > 0,
        apart_from_goal(end, goal) <= apart_from_goal(worse, goal),
        heading_error(end, goal).raw <= heading_error(worse, goal).raw,
        0 <= nearer.raw <= clear.raw <= 5 * ONE,
        0 <= slower.linear.raw <= c.linear.raw <= p.max_v.raw,
        cost_at(p, goal, worse, slower, nearer).raw < i64::MAX,
        p.w_goal.times_spec(dist_spec(worse.x, worse.y, goal.x, goal.y)).raw < i64::MAX,
        ({
            let half = pi::<Fixed>();
            let a = heading_error(end, goal).over_spec(half).raw;
            let b = heading_error(worse, goal).over_spec(half).raw;
            let fast = c.linear.over_spec(p.max_v).raw;
            let slow = slower.linear.over_spec(p.max_v).raw;
            ||| p.w_goal.raw * (b - a) >= ONE
            ||| p.w_goal.raw * (apart_from_goal(worse, goal) - apart_from_goal(end, goal)) >= 20
                * ONE
            ||| p.w_clearance.raw * (clear.raw / 5 - nearer.raw / 5) >= ONE
            ||| p.w_speed.raw * (fast - slow) >= ONE
        }),
    ensures
        cost_at(p, goal, end, c, clear).raw < cost_at(p, goal, worse, slower, nearer).raw,
{
    let one = whole::<Fixed>(1);
    let five = whole::<Fixed>(5);
    let ten = whole::<Fixed>(10);
    let o = zero::<Fixed>();
    let half = pi::<Fixed>();
    assert(half.raw > 0);
    let (a, b) = (heading_error(end, goal).over_spec(half), heading_error(worse, goal).over_spec(half));
    law_over_in_order(heading_error(end, goal), heading_error(worse, goal), half);
    law_times_in_order(p.w_goal, a, b);
    let (d, e) = (
        dist_spec(end.x, end.y, goal.x, goal.y),
        dist_spec(worse.x, worse.y, goal.x, goal.y),
    );
    law_distance_in_units(end.x.minus_spec(goal.x), end.y.minus_spec(goal.y));
    law_distance_in_units(worse.x.minus_spec(goal.x), worse.y.minus_spec(goal.y));
    law_times_in_order(p.w_goal, d, e);
    law_over_in_order(p.w_goal.times_spec(d), p.w_goal.times_spec(e), ten);
    assert(clamp_spec(clear, o, five) == clear && clamp_spec(nearer, o, five) == nearer);
    law_over_in_order(nearer, clear, five);
    lemma_shared(clear, 5);
    lemma_shared(nearer, 5);
    let (r, s) = (one.minus_spec(clear.over_spec(five)), one.minus_spec(nearer.over_spec(five)));
    assert(0 <= r.raw <= s.raw <= ONE);
    law_times_in_order(p.w_clearance, r, s);
    law_over_in_order(slower.linear, c.linear, p.max_v);
    law_over_in_order(c.linear, p.max_v, p.max_v);
    let m = p.max_v.raw as int;
    assert((m * ONE) / m == ONE) by (nonlinear_arith)
        requires
            m > 0,
            ONE == 65536,
    ;
    let (f, g) = (
        one.minus_spec(c.linear.over_spec(p.max_v)),
        one.minus_spec(slower.linear.over_spec(p.max_v)),
    );
    assert(0 <= f.raw <= g.raw <= ONE);
    law_times_in_order(p.w_speed, f, g);
    if p.w_goal.raw * (b.raw - a.raw) >= ONE {
        lemma_strictly(p.w_goal, a, b);
    }
    if p.w_clearance.raw * (s.raw - r.raw) >= ONE {
        lemma_strictly(p.w_clearance, r, s);
    }
    if p.w_speed.raw * (g.raw - f.raw) >= ONE {
        lemma_strictly(p.w_speed, f, g);
    }
    let gap = p.w_goal.raw * (e.raw - d.raw);
    if gap >= 20 * ONE {
        let (x, y, z) = (p.w_goal.raw as int, d.raw as int, e.raw as int);
        assert(x * z == x * y + gap && x * y >= 0) by (nonlinear_arith)
            requires
                gap == x * (z - y),
                x >= 0,
                y >= 0,
        ;
        let (h, k) = (p.w_goal.times_spec(d).raw as int, p.w_goal.times_spec(e).raw as int);
        assert(k >= h + 10);
        lemma_shared(p.w_goal.times_spec(d), 10);
        lemma_shared(p.w_goal.times_spec(e), 10);
    }
}

/// In fixed point, the time steps of a trajectory fill its horizon, with less than a step
/// left, and are one at least.
pub proof fn law_steps_fill_horizon(p: DwaParams<Fixed>)
    requires
        16 < p.dt.raw,
        0 <= p.horizon.raw <= 0x1_0000_0000_0000,
    ensures
        horizon_steps(p) >= 1,
        p.horizon.raw < (horizon_steps(p) + 1) * p.dt.raw,
        p.horizon.raw >= p.dt.raw ==> horizon_steps(p) * p.dt.raw <= p.horizon.raw,
{
    let (h, d) = (p.horizon.raw as int, p.dt.raw as int);
    let q = (h * ONE) / d;
    assert(0 <= q <= 0x1000_0000_0000_0000) by (nonlinear_arith)
        requires
            q == (h * ONE) / d,
            d > 16,
            ONE == 65536,
            0 <= h <= 0x1_0000_0000_0000,
    ;
    let c = q / 65536;
    crate::grid::laws::lemma_column_holds(h, d, q, c);
    assert(p.horizon.over_spec(p.dt).to_index_spec() == c);
    assert(h >= d ==> c >= 1) by (nonlinear_arith)
        requires
            h < (c + 1) * d,
            c >= 0,
            d > 0,
    ;
    assert((c + 1) * d == c * d + d && 2 * d == d + d && 1 * d == d) by (nonlinear_arith);
}

/// In fixed point, the robot is at its goal where it is no further from it than the
/// tolerance, up to the rounding.
pub proof fn law_at_goal_within_tolerance(s: DwaState<Fixed>, goal: DwaGoal<Fixed>)
    requires
        goal.tolerance.raw >= 0,
        -0x10_0000_0000 <= s.pose.x.raw <= 0x10_0000_0000,
        -0x10_0000_0000 <= s.pose.y.raw <= 0x10_0000_0000,
        -0x10_0000_0000 <= goal.x.raw <= 0x10_0000_0000,
        -0x10_0000_0000 <= goal.y.raw <= 0x10_0000_0000,
    ensures
        ({
            let (dx, dy) = (s.pose.x.raw - goal.x.raw, s.pose.y.raw - goal.y.raw);
            let r = goal.tolerance.raw as int;
            &&& dx * dx + dy * dy <= r * r ==> at_goal(s, goal)
            &&& at_goal(s, goal) ==> dx * dx + dy * dy < (r + 1) * (r + 1) + 2 * ONE
        }),
{
    let (a, b) = (s.pose.x.minus_spec(goal.x), s.pose.y.minus_spec(goal.y));
    let r = goal.tolerance.raw as int;
    law_distance_in_units(a, b);
    let d = dist_spec(s.pose.x, s.pose.y, goal.x, goal.y).raw as int;
    assert(d <= r ==> (d + 1) * (d + 1) <= (r + 1) * (r + 1)) by (nonlinear_arith)
        requires
            d >= 0,
    ;
    assert(d > r ==> d * d > r * r) by (nonlinear_arith)
        requires
            r >= 0,
    ;
}

} // verus!
