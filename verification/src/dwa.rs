//! Local obstacle avoidance with the dynamic window approach.
//!
//! From the current state and the obstacles nearby, [`dwa_step`] samples the
//! velocities that the robot can reach within one time step, rolls each of them
//! out over a short horizon and takes the one with the least cost: a weighted
//! sum of the heading error and distance to the goal, of the lack of clearance
//! and of the lack of speed. A velocity whose trajectory touches an obstacle is
//! never taken.
pub mod laws;

use crate::scalar::{
    bring_within, clamp_spec, get_pi, get_tau, greater_of, greater_spec, le, lesser_of, lesser_spec,
    lt, pi, tau, whole, zero, Scalar,
};
use vstd::prelude::*;

verus! {

/// An obstacle: a position with the radius of its footprint in meters.
#[derive(Clone, Copy, Debug)]
pub struct Obstacle<S> {
    pub x: S,
    pub y: S,
    pub radius: S,
}

impl<S: Scalar> Obstacle<S> {
    /// An obstacle at a position.
    pub fn new(x: S, y: S, radius: S) -> (r: Self)
        ensures
            r == (Obstacle { x, y, radius }),
    {
        Obstacle { x, y, radius }
    }
}

/// A pose in the map frame.
#[derive(Clone, Copy, Debug)]
pub struct Pose<S> {
    pub x: S,
    pub y: S,
    pub theta: S,
}

impl<S: Scalar> Default for Pose<S> {
    fn default() -> (r: Self)
        ensures
            r == (Pose { x: zero::<S>(), y: zero::<S>(), theta: zero::<S>() }),
    {
        let o: S = S::ratio(0, 1);
        Pose { x: o, y: o, theta: o }
    }
}

/// The state of the robot.
#[derive(Clone, Copy, Debug)]
pub struct DwaState<S> {
    pub pose: Pose<S>,
    /// Linear velocity in meters per second.
    pub v: S,
    /// Angular velocity in radians per second.
    pub w: S,
}

impl<S: Scalar> Default for DwaState<S> {
    fn default() -> (r: Self)
        ensures
            r.pose == (Pose { x: zero::<S>(), y: zero::<S>(), theta: zero::<S>() }),
            r.v == zero::<S>(),
            r.w == zero::<S>(),
    {
        let o: S = S::ratio(0, 1);
        DwaState { pose: Pose { x: o, y: o, theta: o }, v: o, w: o }
    }
}

/// The goal of the local planner.
#[derive(Clone, Copy, Debug)]
pub struct DwaGoal<S> {
    pub x: S,
    pub y: S,
    /// Distance in meters within which the goal counts as reached.
    pub tolerance: S,
}

/// A velocity command.
#[derive(Clone, Copy, Debug)]
pub struct DwaCmd<S> {
    pub linear: S,
    pub angular: S,
}

/// Tuning of the planner.
#[derive(Clone, Copy, Debug)]
pub struct DwaParams<S> {
    /// Largest linear speed in meters per second.
    pub max_v: S,
    /// Largest angular speed in radians per second.
    pub max_w: S,
    /// Largest linear acceleration.
    pub acc_v: S,
    /// Largest angular acceleration.
    pub acc_w: S,
    /// Time step of a simulated trajectory in seconds.
    pub dt: S,
    /// Number of linear velocities to sample.
    pub n_v: usize,
    /// Number of angular velocities to sample.
    pub n_w: usize,
    /// Length of a simulated trajectory in seconds.
    pub horizon: S,
    /// Radius of the robot's footprint in meters.
    pub robot_radius: S,
    /// Weight of the heading error and of the distance to the goal.
    pub w_goal: S,
    /// Weight of the lack of clearance.
    pub w_clearance: S,
    /// Weight of the lack of speed.
    pub w_speed: S,
    /// Distance in meters within which the goal counts as reached.
    pub goal_tolerance: S,
}

impl<S: Scalar> Default for DwaParams<S> {
    fn default() -> (r: Self)
        ensures
            r.max_v == whole::<S>(1),
            r.max_w == whole::<S>(1),
            r.acc_v == S::ratio_spec(2, 5),
            r.acc_w == whole::<S>(2),
            r.dt == S::ratio_spec(1, 10),
            r.n_v == 6,
            r.n_w == 8,
            r.horizon == whole::<S>(2),
            r.robot_radius == S::ratio_spec(3, 10),
            r.w_goal == whole::<S>(1),
            r.w_clearance == S::ratio_spec(4, 5),
            r.w_speed == S::ratio_spec(1, 5),
            r.goal_tolerance == S::ratio_spec(2, 5),
    {
        DwaParams {
            max_v: S::ratio(1, 1),
            max_w: S::ratio(1, 1),
            acc_v: S::ratio(2, 5),
            acc_w: S::ratio(2, 1),
            dt: S::ratio(1, 10),
            n_v: 6,
            n_w: 8,
            horizon: S::ratio(2, 1),
            robot_radius: S::ratio(3, 10),
            w_goal: S::ratio(1, 1),
            w_clearance: S::ratio(4, 5),
            w_speed: S::ratio(1, 5),
            goal_tolerance: S::ratio(2, 5),
        }
    }
}

/// The distance of two points in the plane.
pub open spec fn dist_spec<S: Scalar>(x1: S, y1: S, x2: S, y2: S) -> S {
    let dx = x1.minus_spec(x2);
    let dy = y1.minus_spec(y2);
    dx.times_spec(dx).plus_spec(dy.times_spec(dy)).root_spec()
}

/// The distance of two points in the plane.
pub(crate) fn dist<S: Scalar>(x1: S, y1: S, x2: S, y2: S) -> (r: S)
    ensures
        r == dist_spec(x1, y1, x2, y2),
{
    let dx: S = x1.minus(x2);
    let dy: S = y1.minus(y2);
    dx.times(dx).plus(dy.times(dy)).root()
}

/// The ends of a range of velocities around `now` that an acceleration can
/// reach within `dt`, cut to `lo` and `hi`.
pub open spec fn window<S: Scalar>(now: S, acc: S, dt: S, lo: S, hi: S) -> (S, S) {
    (
        greater_spec(now.minus_spec(acc.times_spec(dt)), lo),
        lesser_spec(now.plus_spec(acc.times_spec(dt)), hi),
    )
}

/// The linear velocities within reach.
pub open spec fn linear_window<S: Scalar>(p: DwaParams<S>, s: DwaState<S>) -> (S, S) {
    window(s.v, p.acc_v, p.dt, zero::<S>(), p.max_v)
}

/// The angular velocities within reach.
pub open spec fn angular_window<S: Scalar>(p: DwaParams<S>, s: DwaState<S>) -> (S, S) {
    window(s.w, p.acc_w, p.dt, p.max_w.negate_spec(), p.max_w)
}

/// The `i`-th of `n` values spread evenly over a range, its middle for `n` one.
pub open spec fn sample_of<S: Scalar>(range: (S, S), i: int, n: int) -> S {
    if n == 1 {
        S::ratio_spec(1, 2).times_spec(range.0.plus_spec(range.1))
    } else {
        range.0.plus_spec(
            range.1.minus_spec(range.0).times_spec(whole::<S>(i)).over_spec(whole::<S>(n - 1)),
        )
    }
}

/// The command at row `i` and column `j` of the sampled window.
pub open spec fn sampled<S: Scalar>(p: DwaParams<S>, s: DwaState<S>, i: int, j: int) -> DwaCmd<S> {
    DwaCmd {
        linear: sample_of(linear_window(p, s), i, p.n_v as int),
        angular: sample_of(angular_window(p, s), j, p.n_w as int),
    }
}

/// The pose after one time step.
pub open spec fn moved<S: Scalar>(at: Pose<S>, c: DwaCmd<S>, dt: S) -> Pose<S> {
    let theta = at.theta.plus_spec(c.angular.times_spec(dt));
    Pose {
        x: at.x.plus_spec(c.linear.times_spec(theta.cos_spec()).times_spec(dt)),
        y: at.y.plus_spec(c.linear.times_spec(theta.sin_spec()).times_spec(dt)),
        theta,
    }
}

/// The pose after `k` time steps.
pub open spec fn pose_after<S: Scalar>(from: Pose<S>, c: DwaCmd<S>, dt: S, k: nat) -> Pose<S>
    decreases k,
{
    if k == 0 {
        from
    } else {
        moved(pose_after(from, c, dt, (k - 1) as nat), c, dt)
    }
}

/// The number of time steps of a trajectory.
pub open spec fn horizon_steps<S: Scalar>(p: DwaParams<S>) -> nat {
    let n = p.horizon.over_spec(p.dt).to_index_spec();
    if n < 1 {
        1
    } else {
        n as nat
    }
}

/// The gap between the robot and an obstacle.
pub open spec fn gap_to<S: Scalar>(p: DwaParams<S>, at: Pose<S>, o: Obstacle<S>) -> S {
    dist_spec(at.x, at.y, o.x, o.y).minus_spec(o.radius).minus_spec(p.robot_radius)
}

/// The robot overlaps one of the first `n` obstacles.
pub open spec fn touches<S: Scalar>(
    p: DwaParams<S>,
    at: Pose<S>,
    obstacles: Seq<Obstacle<S>>,
    n: int,
) -> bool {
    exists|j: int| 0 <= j < n && lt(#[trigger] gap_to(p, at, obstacles[j]), zero::<S>())
}

/// The robot overlaps an obstacle within `k` time steps.
pub open spec fn collides<S: Scalar>(
    p: DwaParams<S>,
    from: Pose<S>,
    c: DwaCmd<S>,
    obstacles: Seq<Obstacle<S>>,
    k: nat,
) -> bool {
    exists|i: nat|
        1 <= i <= k && touches(
            p,
            #[trigger] pose_after(from, c, p.dt, i),
            obstacles,
            obstacles.len() as int,
        )
}

/// The smaller of the least gap so far and another one; `None` while no finite
/// gap has been seen.
pub open spec fn narrowed<S: Scalar>(m: Option<S>, gap: S) -> Option<S> {
    match m {
        None => if gap.is_finite() {
            Some(gap)
        } else {
            None
        },
        Some(g) => if lt(gap, g) {
            Some(gap)
        } else {
            Some(g)
        },
    }
}

/// The least of `m` and the gaps to the first `n` obstacles.
pub open spec fn least_at<S: Scalar>(
    p: DwaParams<S>,
    at: Pose<S>,
    obstacles: Seq<Obstacle<S>>,
    m: Option<S>,
    n: nat,
) -> Option<S>
    decreases n,
{
    if n == 0 {
        m
    } else {
        narrowed(
            least_at(p, at, obstacles, m, (n - 1) as nat),
            gap_to(p, at, obstacles[n - 1]),
        )
    }
}

/// The least gap to an obstacle over `k` time steps.
pub open spec fn least_gap<S: Scalar>(
    p: DwaParams<S>,
    from: Pose<S>,
    c: DwaCmd<S>,
    obstacles: Seq<Obstacle<S>>,
    k: nat,
) -> Option<S>
    decreases k,
{
    if k == 0 {
        None
    } else {
        least_at(
            p,
            pose_after(from, c, p.dt, k),
            obstacles,
            least_gap(p, from, c, obstacles, (k - 1) as nat),
            obstacles.len(),
        )
    }
}

/// An angle wrapped into the half-open turn that starts at minus a half turn.
pub open spec fn wrapped<S: Scalar>(a: S) -> S {
    a.plus_spec(pi::<S>()).rem_spec(tau::<S>()).minus_spec(pi::<S>())
}

/// The cost of ending at a pose with a command and a least gap.
pub open spec fn cost_at<S: Scalar>(
    p: DwaParams<S>,
    goal: DwaGoal<S>,
    end: Pose<S>,
    c: DwaCmd<S>,
    clear: S,
) -> S {
    let goal_dist = dist_spec(end.x, end.y, goal.x, goal.y);
    let heading = goal.y.minus_spec(end.y).atan2_spec(goal.x.minus_spec(end.x));
    let turn = wrapped(heading.minus_spec(end.theta)).magnitude_spec().over_spec(pi::<S>());
    let room = clamp_spec(clear, zero::<S>(), whole::<S>(5)).over_spec(whole::<S>(5));
    let speed = c.linear.over_spec(p.max_v);
    p.w_goal.times_spec(turn).plus_spec(
        p.w_goal.times_spec(goal_dist).over_spec(whole::<S>(10)),
    ).plus_spec(p.w_clearance.times_spec(whole::<S>(1).minus_spec(room))).plus_spec(
        p.w_speed.times_spec(whole::<S>(1).minus_spec(speed)),
    )
}

/// The cost of a command: with no obstacle at a finite distance, the clearance
/// counts as ten meters.
pub open spec fn cost_of<S: Scalar>(
    p: DwaParams<S>,
    s: DwaState<S>,
    goal: DwaGoal<S>,
    obstacles: Seq<Obstacle<S>>,
    c: DwaCmd<S>,
) -> S {
    let k = horizon_steps(p);
    let clear = match least_gap(p, s.pose, c, obstacles, k) {
        Some(g) => g,
        None => whole::<S>(10),
    };
    cost_at(p, goal, pose_after(s.pose, c, p.dt, k), c, clear)
}

/// The command at row `i` and column `j` can be driven without a collision.
pub open spec fn feasible<S: Scalar>(
    p: DwaParams<S>,
    s: DwaState<S>,
    obstacles: Seq<Obstacle<S>>,
    i: int,
    j: int,
) -> bool {
    !collides(p, s.pose, sampled(p, s, i, j), obstacles, horizon_steps(p))
}

/// The first cheapest command of the first `i` rows and of the first `j`
/// commands of the row after them, with its cost.
pub open spec fn best_upto<S: Scalar>(
    p: DwaParams<S>,
    s: DwaState<S>,
    goal: DwaGoal<S>,
    obstacles: Seq<Obstacle<S>>,
    i: nat,
    j: nat,
) -> Option<(DwaCmd<S>, S)>
    decreases i, j,
{
    if j > 0 {
        let best = best_upto(p, s, goal, obstacles, i, (j - 1) as nat);
        let c = sampled(p, s, i as int, j - 1);
        let cost = cost_of(p, s, goal, obstacles, c);
        if !feasible(p, s, obstacles, i as int, j - 1) {
            best
        } else {
            match best {
                None => Some((c, cost)),
                Some(b) => if lt(cost, b.1) {
                    Some((c, cost))
                } else {
                    best
                },
            }
        }
    } else if i > 0 {
        best_upto(p, s, goal, obstacles, (i - 1) as nat, p.n_w as nat)
    } else {
        None
    }
}

/// The goal is within its tolerance.
pub open spec fn at_goal<S: Scalar>(s: DwaState<S>, goal: DwaGoal<S>) -> bool {
    le(dist_spec(s.pose.x, s.pose.y, goal.x, goal.y), goal.tolerance)
}

/// What the planner answers.
pub open spec fn answer<S: Scalar>(
    p: DwaParams<S>,
    s: DwaState<S>,
    goal: DwaGoal<S>,
    obstacles: Seq<Obstacle<S>>,
) -> Option<DwaCmd<S>> {
    if at_goal(s, goal) {
        Some(DwaCmd { linear: zero::<S>(), angular: zero::<S>() })
    } else {
        match best_upto(p, s, goal, obstacles, p.n_v as nat, 0) {
            Some(b) => Some(b.0),
            None => None,
        }
    }
}

fn sample<S: Scalar>(range: (S, S), i: usize, n: usize) -> (r: S)
    requires
        i < n,
    ensures
        r == sample_of(range, i as int, n as int),
{
    if n == 1 {
        S::ratio(1, 2).times(range.0.plus(range.1))
    } else {
        range.0.plus(
            range.1.minus(range.0).times(S::count(i as u64)).over(S::count((n - 1) as u64)),
        )
    }
}

/// Looks at the obstacles around a pose: `None` when the robot overlaps one of
/// them, else the least gap.
fn inspect<S: Scalar>(
    p: &DwaParams<S>,
    at: &Pose<S>,
    obstacles: &[Obstacle<S>],
    m: Option<S>,
) -> (r: Option<Option<S>>)
    ensures
        r is None == touches(*p, *at, obstacles@, obstacles@.len() as int),
        r matches Some(g) ==> g == least_at(*p, *at, obstacles@, m, obstacles@.len()),
{
    let mut least: Option<S> = m;
    let mut j: usize = 0;
    while j < obstacles.len()
        invariant
            j <= obstacles@.len(),
            !touches(*p, *at, obstacles@, j as int),
            least == least_at(*p, *at, obstacles@, m, j as nat),
        decreases obstacles@.len() - j,
    {
        let o: Obstacle<S> = obstacles[j];
        let gap: S = dist(at.x, at.y, o.x, o.y).minus(o.radius).minus(p.robot_radius);
        assert(gap == gap_to(*p, *at, obstacles@[j as int]));
        if gap.less(S::ratio(0, 1)) {
            return None;
        }
        least =
        match least {
            None => if gap.finite() {
                Some(gap)
            } else {
                None
            },
            Some(g) => if gap.less(g) {
                Some(gap)
            } else {
                Some(g)
            },
        };
        j = j + 1;
    }
    Some(least)
}

/// Rolls a command out: its cost, or `None` when it leads into an obstacle.
fn evaluate<S: Scalar>(
    p: &DwaParams<S>,
    s: &DwaState<S>,
    goal: DwaGoal<S>,
    obstacles: &[Obstacle<S>],
    c: DwaCmd<S>,
) -> (r: Option<S>)
    ensures
        r is None == collides(*p, s.pose, c, obstacles@, horizon_steps(*p)),
        r matches Some(cost) ==> cost == cost_of(*p, *s, goal, obstacles@, c),
{
    let n: i64 = p.horizon.over(p.dt).to_index();
    let steps: u64 = if n < 1 {
        1
    } else {
        n as u64
    };
    let mut at: Pose<S> = s.pose;
    let mut least: Option<S> = None;
    let mut k: u64 = 0;
    while k < steps
        invariant
            k <= steps,
            steps == horizon_steps(*p),
            at == pose_after(s.pose, c, p.dt, k as nat),
            least == least_gap(*p, s.pose, c, obstacles@, k as nat),
            !collides(*p, s.pose, c, obstacles@, k as nat),
        decreases steps - k,
    {
        let theta: S = at.theta.plus(c.angular.times(p.dt));
        at =
        Pose {
            x: at.x.plus(c.linear.times(theta.cos()).times(p.dt)),
            y: at.y.plus(c.linear.times(theta.sin()).times(p.dt)),
            theta,
        };
        k = k + 1;
        assert(at == pose_after(s.pose, c, p.dt, k as nat));
        match inspect(p, &at, obstacles, least) {
            None => {
                return None;
            },
            Some(g) => {
                least = g;
            },
        }
        assert forall|i: nat| 1 <= i <= k implies !touches(
            *p,
            #[trigger] pose_after(s.pose, c, p.dt, i),
            obstacles@,
            obstacles@.len() as int,
        ) by {
            if i < k {
                assert(i <= k - 1);
            }
        }
    }
    let clear: S = match least {
        Some(g) => g,
        None => S::ratio(10, 1),
    };
    let goal_dist: S = dist(at.x, at.y, goal.x, goal.y);
    let heading: S = goal.y.minus(at.y).atan2(goal.x.minus(at.x));
    let half: S = get_pi();
    let error: S = heading.minus(at.theta).plus(half).rem_euclid(get_tau()).minus(half);
    let turn: S = error.magnitude().over(half);
    let five: S = S::ratio(5, 1);
    let room: S = bring_within(clear, S::ratio(0, 1), five).over(five);
    let speed: S = c.linear.over(p.max_v);
    let one: S = S::ratio(1, 1);
    Some(
        p.w_goal.times(turn).plus(p.w_goal.times(goal_dist).over(S::ratio(10, 1))).plus(
            p.w_clearance.times(one.minus(room)),
        ).plus(p.w_speed.times(one.minus(speed))),
    )
}

/// Plans one step: the cheapest velocity within reach that leads into no
/// obstacle. At the goal the robot stops; `None` means that every sampled
/// velocity is blocked, and the caller should stop.
pub fn dwa_step<S: Scalar>(
    params: &DwaParams<S>,
    state: &DwaState<S>,
    goal: DwaGoal<S>,
    obstacles: &[Obstacle<S>],
) -> (r: Option<DwaCmd<S>>)
    ensures
        r == answer(*params, *state, goal, obstacles@),
{
    if dist(state.pose.x, state.pose.y, goal.x, goal.y).at_most(goal.tolerance) {
        return Some(DwaCmd { linear: S::ratio(0, 1), angular: S::ratio(0, 1) });
    }
    let reach_v: S = params.acc_v.times(params.dt);
    let reach_w: S = params.acc_w.times(params.dt);
    let range_v: (S, S) = (
        greater_of(state.v.minus(reach_v), S::ratio(0, 1)),
        lesser_of(state.v.plus(reach_v), params.max_v),
    );
    let range_w: (S, S) = (
        greater_of(state.w.minus(reach_w), params.max_w.negate()),
        lesser_of(state.w.plus(reach_w), params.max_w),
    );
    let mut best: Option<(DwaCmd<S>, S)> = None;
    let mut i: usize = 0;
    while i < params.n_v
        invariant
            i <= params.n_v,
            range_v == linear_window(*params, *state),
            range_w == angular_window(*params, *state),
            best == best_upto(*params, *state, goal, obstacles@, i as nat, 0),
        decreases params.n_v - i,
    {
        let v: S = sample(range_v, i, params.n_v);
        let mut j: usize = 0;
        while j < params.n_w
            invariant
                i < params.n_v,
                j <= params.n_w,
                range_v == linear_window(*params, *state),
                range_w == angular_window(*params, *state),
                v == sample_of(range_v, i as int, params.n_v as int),
                best == best_upto(*params, *state, goal, obstacles@, i as nat, j as nat),
            decreases params.n_w - j,
        {
            let w: S = sample(range_w, j, params.n_w);
            let c: DwaCmd<S> = DwaCmd { linear: v, angular: w };
            assert(c == sampled(*params, *state, i as int, j as int));
            match evaluate(params, state, goal, obstacles, c) {
                None => {},
                Some(cost) => {
                    let cheaper: bool = match best {
                        None => true,
                        Some(b) => cost.less(b.1),
                    };
                    if cheaper {
                        best = Some((c, cost));
                    }
                },
            }
            j = j + 1;
        }
        i = i + 1;
    }
    match best {
        Some(b) => Some(b.0),
        None => None,
    }
}

/// The best command comes from the window and is feasible, and none before it
/// is cheaper where costs are numbers; without a best command none is feasible.
proof fn lemma_best<S: Scalar>(
    p: DwaParams<S>,
    s: DwaState<S>,
    goal: DwaGoal<S>,
    obstacles: Seq<Obstacle<S>>,
    i: nat,
    j: nat,
)
    requires
        j <= p.n_w,
    ensures
        best_upto(p, s, goal, obstacles, i, j) is None ==> forall|a: int, b: int|
            #![trigger feasible(p, s, obstacles, a, b)]
            0 <= b < p.n_w && (0 <= a < i || a == i && b < j) ==> !feasible(p, s, obstacles, a, b),
        best_upto(p, s, goal, obstacles, i, j) matches Some(best) ==> {
            &&& exists|a: int, b: int|
                #![trigger feasible(p, s, obstacles, a, b)]
                0 <= b < p.n_w && (0 <= a < i || a == i && b < j) && feasible(p, s, obstacles, a, b)
                    && best.0 == sampled(p, s, a, b)
            &&& best.1 == cost_of(p, s, goal, obstacles, best.0)
            &&& (forall|c: DwaCmd<S>| (#[trigger] cost_of(p, s, goal, obstacles, c)).is_num())
                ==> forall|a: int, b: int|
                #![trigger feasible(p, s, obstacles, a, b)]
                0 <= b < p.n_w && (0 <= a < i || a == i && b < j) && feasible(p, s, obstacles, a, b)
                    ==> le(best.1, cost_of(p, s, goal, obstacles, sampled(p, s, a, b)))
        },
    decreases i, j,
{
    if j > 0 {
        lemma_best(p, s, goal, obstacles, i, (j - 1) as nat);
        assert(best_upto(p, s, goal, obstacles, i, j) is Some ==> (feasible(
            p,
            s,
            obstacles,
            i as int,
            j - 1,
        ) || best_upto(p, s, goal, obstacles, i, (j - 1) as nat) is Some));
    } else if i > 0 {
        lemma_best(p, s, goal, obstacles, (i - 1) as nat, p.n_w as nat);
    }
}

/// A command for a robot that is not at its goal is one of the sampled
/// velocities, its trajectory touches no obstacle, and where every cost is a
/// number no sampled velocity that can be driven is cheaper.
pub proof fn law_command_is_cheapest<S: Scalar>(
    p: DwaParams<S>,
    s: DwaState<S>,
    goal: DwaGoal<S>,
    obstacles: Seq<Obstacle<S>>,
    c: DwaCmd<S>,
)
    requires
        !at_goal(s, goal),
        answer(p, s, goal, obstacles) == Some(c),
    ensures
        !collides(p, s.pose, c, obstacles, horizon_steps(p)),
        exists|i: int, j: int|
            0 <= i < p.n_v && 0 <= j < p.n_w && c == #[trigger] sampled(p, s, i, j),
        (forall|d: DwaCmd<S>| (#[trigger] cost_of(p, s, goal, obstacles, d)).is_num()) ==> forall|
            i: int,
            j: int,
        |
            0 <= i < p.n_v && 0 <= j < p.n_w && #[trigger] feasible(p, s, obstacles, i, j) ==> le(
                cost_of(p, s, goal, obstacles, c),
                cost_of(p, s, goal, obstacles, sampled(p, s, i, j)),
            ),
{
    lemma_best(p, s, goal, obstacles, p.n_v as nat, 0);
    let best = best_upto(p, s, goal, obstacles, p.n_v as nat, 0)->0;
    let (a, b) = choose|a: int, b: int|
        #![trigger feasible(p, s, obstacles, a, b)]
        0 <= b < p.n_w && 0 <= a < p.n_v && feasible(p, s, obstacles, a, b) && best.0 == sampled(
            p,
            s,
            a,
            b,
        );
    assert(c == sampled(p, s, a, b));
}

/// The planner gives no command just when the robot is not at its goal and
/// every sampled velocity leads into an obstacle.
pub proof fn law_none_means_blocked<S: Scalar>(
    p: DwaParams<S>,
    s: DwaState<S>,
    goal: DwaGoal<S>,
    obstacles: Seq<Obstacle<S>>,
)
    ensures
        answer(p, s, goal, obstacles) is None <==> !at_goal(s, goal) && forall|i: int, j: int|
            0 <= i < p.n_v && 0 <= j < p.n_w ==> !(#[trigger] feasible(p, s, obstacles, i, j)),
{
    lemma_best(p, s, goal, obstacles, p.n_v as nat, 0);
}

} // verus!
