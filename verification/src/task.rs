//! Tasks of several waypoints: plan a path, follow it, face a heading, wait,
//! go on to the next waypoint.
//!
//! A path is planned with A* once for each waypoint and followed by pure
//! pursuit. A waypoint that cannot be reached is skipped.
pub mod laws;

use crate::astar::{
    astar, inflation_cells, no_plan, planned, searchable, shortest, snap_limit, AStarOptions, Place,
    Waypoint,
};
use crate::dwa::{dist, dist_spec};
use crate::fixed::Fixed;
use crate::grid::GridMap;
use crate::scalar::{
    clamp_spec, clamp_to, get_pi, get_tau, greater_of, greater_spec, le, lesser_of, lesser_spec, lt,
    pi, radians, tau, to_radians, whole, zero, Scalar,
};
use vstd::prelude::*;

verus! {

/// One waypoint of a task.
#[derive(Clone, Copy, Debug)]
pub struct TaskWaypoint<S> {
    pub x: S,
    pub y: S,
    /// Heading to face on arrival, in degrees.
    pub yaw_deg: Option<S>,
    /// Seconds to wait before going on.
    pub dwell_s: S,
}

/// What the executor is doing about the current waypoint.
#[derive(Clone, Copy, Debug, PartialEq, Eq, Structural)]
pub enum Phase {
    /// Following the planned path.
    Navigating,
    /// Turning in place to face the heading.
    Aligning,
    /// Waiting.
    Dwelling,
    /// No waypoint is left.
    Done,
}

/// The outcome of one control tick.
#[derive(Clone, Copy, Debug)]
pub struct Control<S> {
    pub vx: S,
    pub wz: S,
    pub phase: Phase,
    /// Index of the current waypoint, `None` when the task is done.
    pub waypoint: Option<usize>,
}

/// Parameters of the executor.
#[derive(Clone, Copy, Debug)]
pub struct TaskParams<S> {
    /// Distance ahead on the path to aim at, in meters.
    pub lookahead: S,
    /// Largest forward speed in meters per second.
    pub max_vx: S,
    /// Largest angular speed in radians per second.
    pub max_wz: S,
    /// Distance within which the end of the path counts as reached.
    pub arrive: S,
    /// Tolerance of the heading in radians.
    pub yaw_tol: S,
    /// Inflation of obstacles for planning, in meters.
    pub inflation: S,
}

impl<S: Scalar> Default for TaskParams<S> {
    fn default() -> (r: Self)
        ensures
            r.lookahead == S::ratio_spec(3, 5),
            r.max_vx == S::ratio_spec(2, 5),
            r.max_wz == whole::<S>(1),
            r.arrive == S::ratio_spec(3, 20),
            r.yaw_tol == radians(whole::<S>(5)),
            r.inflation == S::ratio_spec(3, 10),
    {
        TaskParams {
            lookahead: S::ratio(3, 5),
            max_vx: S::ratio(2, 5),
            max_wz: S::ratio(1, 1),
            arrive: S::ratio(3, 20),
            yaw_tol: to_radians(S::ratio(5, 1)),
            inflation: S::ratio(3, 10),
        }
    }
}

impl<S: Scalar> TaskParams<S> {
    /// The speed limits are numbers that are not negative.
    pub open spec fn sound(self) -> bool {
        le(self.max_wz.negate_spec(), self.max_wz) && le(zero::<S>(), self.max_vx)
    }
}

/// How far a number lies above another one in the order.
pub open spec fn excess(a: int, b: int) -> nat {
    if a > b {
        (a - b) as nat
    } else {
        0
    }
}

/// `a` less as many full turns as bring it down to half a turn or below; a number
/// that a full turn does not lower stays.
pub open spec fn lowered<S: Scalar>(a: S) -> S
    decreases excess(a.key(), pi::<S>().key()),
{
    if lt(pi::<S>(), a) && lt(a.minus_spec(tau::<S>()), a) {
        lowered(a.minus_spec(tau::<S>()))
    } else {
        a
    }
}

/// `a` plus as many full turns as bring it up to minus half a turn or above; a
/// number that a full turn does not raise stays.
pub open spec fn raised<S: Scalar>(a: S) -> S
    decreases excess(pi::<S>().negate_spec().key(), a.key()),
{
    if lt(a, pi::<S>().negate_spec()) && lt(a, a.plus_spec(tau::<S>())) {
        raised(a.plus_spec(tau::<S>()))
    } else {
        a
    }
}

/// The angle is minus half a turn.
pub open spec fn is_lower_end<S: Scalar>(a: S) -> bool {
    le(a, pi::<S>().negate_spec()) && !lt(a, pi::<S>().negate_spec())
}

/// An angle brought between minus half a turn and half a turn by full turns; minus
/// half a turn is half a turn.
pub open spec fn normed<S: Scalar>(a: S) -> S {
    if is_lower_end(a) {
        pi()
    } else {
        raised(lowered(a))
    }
}

/// Wraps an angle into the range from minus half a turn to half a turn. Minus half a
/// turn becomes half a turn; only an angle that full turns bring exactly there ends
/// up on it. An angle so large that a full turn does not change it is returned as it
/// is.
pub fn norm_angle<S: Scalar>(a: S) -> (r: S)
    ensures
        r == normed(a),
        lt(pi::<S>().negate_spec(), a) && le(a, pi::<S>()) ==> r == a,
        is_lower_end(a) ==> r == pi::<S>(),
{
    let half: S = get_pi();
    let full: S = get_tau();
    let low: S = half.negate();
    if a.at_most(low) && !a.less(low) {
        return half;
    }
    let mut v: S = a;
    while half.less(v) && v.minus(full).less(v)
        invariant
            half == pi::<S>(),
            full == tau::<S>(),
            lowered(v) == lowered(a),
            !is_lower_end(a),
            low == pi::<S>().negate_spec(),
            lt(low, a) && le(a, half) ==> v == a,
        decreases excess(v.key(), half.key()),
    {
        v = v.minus(full);
    }
    while v.less(low) && v.less(v.plus(full))
        invariant
            full == tau::<S>(),
            low == pi::<S>().negate_spec(),
            half == pi::<S>(),
            raised(v) == normed(a),
            !is_lower_end(a),
            lt(low, a) && le(a, half) ==> v == a,
        decreases excess(low.key(), v.key()),
    {
        v = v.plus(full);
    }
    v
}

/// A full turn brings an angle beyond half a turn nearer, and one from below not
/// beyond half a turn on the other side.
pub open spec fn turns_keep_order<S: Scalar>() -> bool {
    &&& forall|a: S| #[trigger]
        lt(pi::<S>(), a) ==> lt(a.minus_spec(tau::<S>()), a)
    &&& forall|a: S| #[trigger]
        lt(a, pi::<S>().negate_spec()) ==> lt(a, a.plus_spec(tau::<S>())) && le(
            a.plus_spec(tau::<S>()),
            pi::<S>(),
        )
}

proof fn lemma_lowered<S: Scalar>(a: S)
    requires
        turns_keep_order::<S>(),
        le(pi::<S>().negate_spec(), pi::<S>()),
        a.is_num(),
    ensures
        le(lowered(a), pi::<S>()),
    decreases excess(a.key(), pi::<S>().key()),
{
    if lt(pi::<S>(), a) {
        lemma_lowered(a.minus_spec(tau::<S>()));
    }
}

proof fn lemma_raised<S: Scalar>(a: S)
    requires
        turns_keep_order::<S>(),
        le(pi::<S>().negate_spec(), pi::<S>()),
        le(a, pi::<S>()),
    ensures
        le(pi::<S>().negate_spec(), raised(a)),
        le(raised(a), pi::<S>()),
    decreases excess(pi::<S>().negate_spec().key(), a.key()),
{
    if lt(a, pi::<S>().negate_spec()) {
        lemma_raised(a.plus_spec(tau::<S>()));
    }
}

/// A wrapped angle lies between minus half a turn and half a turn, where full turns
/// keep the order.
pub proof fn law_angle_is_wrapped<S: Scalar>(a: S)
    requires
        turns_keep_order::<S>(),
        le(pi::<S>().negate_spec(), pi::<S>()),
        a.is_num(),
    ensures
        le(pi::<S>().negate_spec(), normed(a)),
        le(normed(a), pi::<S>()),
{
    lemma_lowered(a);
    lemma_raised(lowered(a));
}

/// Every fixed-point angle is wrapped.
pub proof fn law_fixed_angle_is_wrapped(a: Fixed)
    ensures
        -pi::<Fixed>().raw <= normed(a).raw <= pi::<Fixed>().raw,
{
    assert(pi::<Fixed>().raw == 205887);
    assert(tau::<Fixed>().raw == 411774);
    law_angle_is_wrapped(a);
}

/// What lies between the points of one leg of a path: its start and points at
/// equal distances after it.
pub open spec fn leg<S: Scalar>(a: Waypoint<S>, b: Waypoint<S>, max_step: S) -> Seq<Waypoint<S>> {
    let d = dist_spec(b.x, b.y, a.x, a.y);
    let n = d.over_spec(max_step).ceil_spec().to_index_spec();
    Seq::new(
        if n < 0 {
            0
        } else {
            n as nat
        },
        |i: int| between(a, b, i, n as int),
    )
}

/// The point `i / n` of the way from `a` to `b`.
pub open spec fn between<S: Scalar>(a: Waypoint<S>, b: Waypoint<S>, i: int, n: int) -> Waypoint<S> {
    let t = whole::<S>(i).over_spec(whole::<S>(n));
    Waypoint {
        x: a.x.plus_spec(t.times_spec(b.x.minus_spec(a.x))),
        y: a.y.plus_spec(t.times_spec(b.y.minus_spec(a.y))),
    }
}

/// The first `k` legs of a path.
pub open spec fn legs<S: Scalar>(path: Seq<Waypoint<S>>, max_step: S, k: nat) -> Seq<Waypoint<S>>
    decreases k,
{
    if k == 0 {
        Seq::empty()
    } else {
        legs(path, max_step, (k - 1) as nat) + leg(path[k - 1], path[k as int], max_step)
    }
}

/// A path with points added such that neighbours are at most a step apart.
pub open spec fn resampled<S: Scalar>(path: Seq<Waypoint<S>>, max_step: S) -> Seq<Waypoint<S>> {
    if le(max_step, zero::<S>()) || path.len() < 2 {
        path
    } else {
        legs(path, max_step, (path.len() - 1) as nat).push(path[path.len() - 1])
    }
}

/// Adds points to a path such that neighbours are at most `max_step` apart.
pub fn resample<S: Scalar>(path: &[Waypoint<S>], max_step: S) -> (r: Vec<Waypoint<S>>)
    ensures
        r@ == resampled(path@, max_step),
{
    let len: usize = path.len();
    let mut out: Vec<Waypoint<S>> = Vec::new();
    if max_step.at_most(S::ratio(0, 1)) || len < 2 {
        let mut i: usize = 0;
        while i < len
            invariant
                i <= len,
                len == path@.len(),
                out@ == path@.take(i as int),
            decreases len - i,
        {
            out.push(path[i]);
            i = i + 1;
            assert(out@ =~= path@.take(i as int));
        }
        assert(out@ =~= path@);
        return out;
    }
    let mut k: usize = 0;
    while k < len - 1
        invariant
            k <= len - 1,
            2 <= len == path@.len(),
            out@ == legs(path@, max_step, k as nat),
        decreases len - 1 - k,
    {
        let a: Waypoint<S> = path[k];
        let b: Waypoint<S> = path[k + 1];
        let n: i64 = dist(b.x, b.y, a.x, a.y).over(max_step).ceil().to_index();
        let ghost before = out@;
        let ghost whole_leg = leg(a, b, max_step);
        let mut i: i64 = 0;
        while i < n
            invariant
                0 <= i,
                i <= n || n < 0 && i == 0,
                whole_leg == leg(a, b, max_step),
                n == dist_spec(b.x, b.y, a.x, a.y).over_spec(max_step).ceil_spec().to_index_spec(),
                out@ == before + whole_leg.take(i as int),
            decreases n - i,
        {
            let t: S = S::ratio(i, 1).over(S::ratio(n, 1));
            out.push(
                Waypoint {
                    x: a.x.plus(t.times(b.x.minus(a.x))),
                    y: a.y.plus(t.times(b.y.minus(a.y))),
                },
            );
            i = i + 1;
            assert(out@ =~= before + whole_leg.take(i as int));
        }
        assert(whole_leg.take(i as int) =~= whole_leg);
        k = k + 1;
        assert(out@ =~= legs(path@, max_step, k as nat));
    }
    out.push(path[len - 1]);
    out
}

/// The first point of a path that is nearest to a position among the first `n`,
/// with its distance; `None` while none is at a finite distance.
pub open spec fn nearest<S: Scalar>(path: Seq<Waypoint<S>>, x: S, y: S, n: nat) -> Option<(int, S)>
    decreases n,
{
    if n == 0 {
        None
    } else {
        let d = dist_spec(x, y, path[n - 1].x, path[n - 1].y);
        match nearest(path, x, y, (n - 1) as nat) {
            None => if d.is_finite() {
                Some((n - 1, d))
            } else {
                None
            },
            Some(b) => if lt(d, b.1) {
                Some((n - 1, d))
            } else {
                Some(b)
            },
        }
    }
}

/// The last point of a path that can be reached from point `t` by going on while
/// the next one is within the lookahead distance.
pub open spec fn ahead<S: Scalar>(path: Seq<Waypoint<S>>, x: S, y: S, look: S, t: int) -> int
    decreases path.len() - t,
{
    if 0 <= t && t + 1 < path.len() && lt(
        dist_spec(x, y, path[t + 1].x, path[t + 1].y),
        look,
    ) {
        ahead(path, x, y, look, t + 1)
    } else {
        t
    }
}

/// The point of the path to aim at.
pub open spec fn target<S: Scalar>(path: Seq<Waypoint<S>>, x: S, y: S, look: S) -> Waypoint<S> {
    let from = match nearest(path, x, y, path.len()) {
        Some(b) => b.0,
        None => 0,
    };
    path[ahead(path, x, y, look, from)]
}

/// The angular speed for a heading error.
pub open spec fn turn_rate<S: Scalar>(p: TaskParams<S>, diff: S) -> S {
    clamp_spec(
        p.max_wz.times_spec(diff).over_spec(pi::<S>()).times_spec(whole::<S>(2)),
        p.max_wz.negate_spec(),
        p.max_wz,
    )
}

/// The forward speed for a heading error: the larger the error, the slower.
pub open spec fn drive_rate<S: Scalar>(p: TaskParams<S>, diff: S) -> S {
    let turn = lesser_spec(diff.magnitude_spec().over_spec(pi::<S>()), whole::<S>(1));
    clamp_spec(
        p.max_vx.times_spec(
            whole::<S>(1).minus_spec(S::ratio_spec(8, 5).times_spec(turn)),
        ),
        zero::<S>(),
        p.max_vx,
    )
}

/// The end of the path is within the arrival distance.
pub open spec fn arrived<S: Scalar>(p: TaskParams<S>, path: Seq<Waypoint<S>>, x: S, y: S) -> bool {
    le(dist_spec(x, y, path[path.len() - 1].x, path[path.len() - 1].y), p.arrive)
}

/// The error between the heading of the robot and the direction of its target.
pub open spec fn aim_error<S: Scalar>(
    p: TaskParams<S>,
    path: Seq<Waypoint<S>>,
    pose: [S; 3],
) -> S {
    let to = target(path, pose[0], pose[1], p.lookahead);
    normed(to.y.minus_spec(pose[1]).atan2_spec(to.x.minus_spec(pose[0])).minus_spec(pose[2]))
}

/// The state of an executor.
pub struct TaskState<S> {
    /// Index of the current waypoint.
    pub idx: int,
    /// The path to it.
    pub path: Seq<Waypoint<S>>,
    /// The path has been planned.
    pub planned: bool,
    pub phase: Phase,
    /// When waiting ends.
    pub dwell_until: Option<S>,
}

/// On to the next waypoint.
pub open spec fn advanced<S: Scalar>(task: Seq<TaskWaypoint<S>>, a: TaskState<S>) -> TaskState<S> {
    TaskState {
        idx: a.idx + 1,
        path: Seq::empty(),
        planned: false,
        phase: if a.idx + 1 >= task.len() {
            Phase::Done
        } else {
            Phase::Navigating
        },
        dwell_until: None,
    }
}

/// At the current waypoint: wait if it asks for that, else go on.
pub open spec fn dwelt<S: Scalar>(
    task: Seq<TaskWaypoint<S>>,
    a: TaskState<S>,
    now: S,
) -> TaskState<S> {
    let dwell = task[a.idx].dwell_s;
    if lt(zero::<S>(), dwell) {
        TaskState { phase: Phase::Dwelling, dwell_until: Some(now.plus_spec(dwell)), ..a }
    } else {
        advanced(task, a)
    }
}

/// The current waypoint as reported with a state.
pub open spec fn reported<S: Scalar>(b: TaskState<S>) -> Option<usize> {
    if b.phase == Phase::Done {
        None
    } else {
        Some(b.idx as usize)
    }
}

/// A command to stand still.
pub open spec fn still<S: Scalar>(b: TaskState<S>) -> Control<S> {
    Control { vx: zero::<S>(), wz: zero::<S>(), phase: b.phase, waypoint: reported(b) }
}

/// A tick of an executor that has a path: follow it; at its end face the heading
/// and wait.
pub open spec fn driven<S: Scalar>(
    task: Seq<TaskWaypoint<S>>,
    p: TaskParams<S>,
    a: TaskState<S>,
    pose: [S; 3],
    now: S,
) -> (TaskState<S>, Control<S>) {
    if !arrived(p, a.path, pose[0], pose[1]) {
        let diff = aim_error(p, a.path, pose);
        (
            a,
            Control {
                vx: drive_rate(p, diff),
                wz: turn_rate(p, diff),
                phase: a.phase,
                waypoint: reported(a),
            },
        )
    } else {
        match task[a.idx].yaw_deg {
            None => (dwelt(task, a, now), still(dwelt(task, a, now))),
            Some(yaw) => {
                let diff = normed(radians(yaw).minus_spec(pose[2]));
                if le(diff.magnitude_spec(), p.yaw_tol) {
                    (dwelt(task, a, now), still(dwelt(task, a, now)))
                } else {
                    let b = TaskState { phase: Phase::Aligning, ..a };
                    (b, Control { wz: turn_rate(p, diff), ..still(b) })
                }
            },
        }
    }
}

/// `path` may be what planning from a position to waypoint `wp` gives.
pub open spec fn path_for<S: Scalar>(
    map: GridMap<S>,
    p: TaskParams<S>,
    x: S,
    y: S,
    wp: TaskWaypoint<S>,
    path: Seq<Waypoint<S>>,
) -> bool {
    exists|raw: Seq<Waypoint<S>>|
        {
            &&& #[trigger] planned(
                map,
                inflation_cells(map, p.inflation),
                map.params.cell_of(x, y),
                map.params.cell_of(wp.x, wp.y),
                raw,
            )
            &&& path == resampled(raw, path_step(p))
        }
}

/// The largest distance of neighbouring points on a path that is followed.
pub open spec fn path_step<S: Scalar>(p: TaskParams<S>) -> S {
    greater_spec(p.lookahead.times_spec(S::ratio_spec(1, 2)), S::ratio_spec(1, 10))
}

/// Planning from a position to waypoint `wp` may fail.
pub open spec fn pathless<S: Scalar>(
    map: GridMap<S>,
    p: TaskParams<S>,
    x: S,
    y: S,
    wp: TaskWaypoint<S>,
) -> bool {
    no_plan(
        map,
        inflation_cells(map, p.inflation),
        map.params.cell_of(x, y),
        map.params.cell_of(wp.x, wp.y),
        200000,
    )
}

/// One tick takes state `a` to state `b` with outcome `c`.
///
/// A task that is done stays done. Waiting goes on until its time is over; then,
/// and when no path leads to the current waypoint, the executor goes on to the
/// next one within the same tick. Otherwise it follows its path, which it plans
/// first if it has none.
pub open spec fn ticks<S: Scalar>(
    map: GridMap<S>,
    task: Seq<TaskWaypoint<S>>,
    p: TaskParams<S>,
    a: TaskState<S>,
    pose: [S; 3],
    now: S,
    b: TaskState<S>,
    c: Control<S>,
) -> bool
    decreases task.len() - a.idx,
{
    if a.phase == Phase::Done || a.idx >= task.len() {
        b == a && c == still(a)
    } else if a.phase == Phase::Dwelling {
        if a.dwell_until is Some && le(a.dwell_until->0, now) {
            ticks(map, task, p, advanced(task, a), pose, now, b, c)
        } else {
            b == a && c == still(a)
        }
    } else if a.planned {
        (b, c) == driven(task, p, a, pose, now)
    } else {
        ||| exists|path: Seq<Waypoint<S>>|
            #[trigger] path_for(map, p, pose[0], pose[1], task[a.idx], path) && (b, c) == driven(
                task,
                p,
                TaskState { path, planned: true, ..a },
                pose,
                now,
            )
        ||| pathless(map, p, pose[0], pose[1], task[a.idx]) && ticks(
            map,
            task,
            p,
            advanced(task, a),
            pose,
            now,
            b,
            c,
        )
    }
}

/// Carries out a task on a map.
///
/// [`TaskExecutor::step`] takes the pose of the robot on every control tick and
/// gives the velocity for the chassis.
pub struct TaskExecutor<'a, S> {
    pub map: &'a GridMap<S>,
    pub task: Vec<TaskWaypoint<S>>,
    pub params: TaskParams<S>,
    pub idx: usize,
    pub path: Vec<Waypoint<S>>,
    pub planned: bool,
    pub phase: Phase,
    pub dwell_until: Option<S>,
}

impl<'a, S: Scalar> View for TaskExecutor<'a, S> {
    type V = TaskState<S>;

    open spec fn view(&self) -> TaskState<S> {
        TaskState {
            idx: self.idx as int,
            path: self.path@,
            planned: self.planned,
            phase: self.phase,
            dwell_until: self.dwell_until,
        }
    }
}

/// The waits that a task asks for are finite.
pub open spec fn waits_end<S: Scalar>(task: Seq<TaskWaypoint<S>>) -> bool {
    forall|i: int|
        0 <= i < task.len() && lt(zero::<S>(), (#[trigger] task[i]).dwell_s)
            ==> task[i].dwell_s.is_finite()
}

impl<'a, S: Scalar> TaskExecutor<'a, S> {
    /// There is a waypoint unless the task is done, a planned path has an end, and
    /// a wait has one too.
    pub open spec fn wf(self) -> bool {
        &&& self.phase != Phase::Done ==> self.idx < self.task@.len()
        &&& self.planned ==> self.path@.len() > 0
        &&& self.phase == Phase::Dwelling ==> self.dwell_until is Some
        &&& self.params.sound()
        &&& waits_end(self.task@)
    }

    /// The map is within the limits of planning.
    pub open spec fn can_plan(self) -> bool {
        searchable(*self.map, inflation_cells(*self.map, self.params.inflation)) && snap_limit(
            *self.map,
        ) <= usize::MAX
    }

    /// An executor at the start of a task.
    pub fn new(map: &'a GridMap<S>, task: Vec<TaskWaypoint<S>>, params: TaskParams<S>) -> (r: Self)
        ensures
            *r.map == *map,
            r.task@ == task@,
            r.params == params,
            r@ == (TaskState::<S> {
                idx: 0int,
                path: Seq::empty(),
                planned: false,
                phase: Phase::Navigating,
                dwell_until: None,
            }),
            task@.len() > 0 && params.sound() && waits_end(task@) ==> r.wf(),
    {
        TaskExecutor {
            map,
            task,
            params,
            idx: 0,
            path: Vec::new(),
            planned: false,
            phase: Phase::Navigating,
            dwell_until: None,
        }
    }

    /// One control tick at `pose` (position and heading in the map frame) and at
    /// `now`, in seconds on the caller's clock.
    pub fn step(&mut self, pose: [S; 3], now: S) -> (r: Control<S>)
        requires
            old(self).wf(),
            old(self).can_plan(),
        ensures
            final(self).wf(),
            *final(self).map == *old(self).map,
            final(self).task@ == old(self).task@,
            final(self).params == old(self).params,
            ticks(
                *old(self).map,
                old(self).task@,
                old(self).params,
                old(self)@,
                pose,
                now,
                final(self)@,
                r,
            ),
            r.phase == final(self).phase,
            r.phase == Phase::Done || r.phase == Phase::Dwelling ==> r.vx == zero::<S>() && r.wz
                == zero::<S>(),
            r.phase == Phase::Done ==> r.waypoint is None,
            old(self).phase == Phase::Done || finishes(
                old(self).task@,
                old(self).params,
                old(self)@,
                pose,
                now,
            ) ==> r.phase == Phase::Done,
    {
        let ghost a = self@;
        let r: Control<S> = self.tick(pose, now);
        proof {
            law_rest_is_still(*self.map, self.task@, self.params, a, pose, now, self@, r);
            if finishes(self.task@, self.params, a, pose, now) {
                law_last_waypoint_finishes(
                    *self.map,
                    self.task@,
                    self.params,
                    a,
                    pose,
                    now,
                    self@,
                    r,
                );
            }
        }
        r
    }

    fn tick(&mut self, pose: [S; 3], now: S) -> (r: Control<S>)
        requires
            old(self).wf(),
            old(self).can_plan(),
        ensures
            final(self).wf(),
            *final(self).map == *old(self).map,
            final(self).task@ == old(self).task@,
            final(self).params == old(self).params,
            ticks(
                *old(self).map,
                old(self).task@,
                old(self).params,
                old(self)@,
                pose,
                now,
                final(self)@,
                r,
            ),
        decreases old(self).task@.len() - old(self).idx,
    {
        let stop: S = S::ratio(0, 1);
        if self.phase == Phase::Done {
            return Control { vx: stop, wz: stop, phase: Phase::Done, waypoint: None };
        }
        let wp: TaskWaypoint<S> = self.task[self.idx];
        if self.phase == Phase::Dwelling {
            let over: bool = match self.dwell_until {
                Some(until) => until.at_most(now),
                None => false,
            };
            if over {
                self.advance();
                return self.tick(pose, now);
            }
            return Control {
                vx: stop,
                wz: stop,
                phase: Phase::Dwelling,
                waypoint: Some(self.idx),
            };
        }
        let ghost before = self@;
        if !self.planned {
            let opts: AStarOptions<S> = AStarOptions {
                inflation: self.params.inflation,
                max_expansions: 200000,
            };
            match astar(
                self.map,
                Waypoint { x: pose[0], y: pose[1] },
                Waypoint { x: wp.x, y: wp.y },
                &opts,
            ) {
                Some(raw) => {
                    let half: S = self.params.lookahead.times(S::ratio(1, 2));
                    self.path = resample(raw.as_slice(), greater_of(half, S::ratio(1, 10)));
                    self.planned = true;
                    proof {
                        lemma_planned_nonempty(
                            *self.map,
                            inflation_cells(*self.map, self.params.inflation),
                            self.map.params.cell_of(pose[0], pose[1]),
                            self.map.params.cell_of(wp.x, wp.y),
                            raw@,
                        );
                        assert(path_for(
                            *self.map,
                            self.params,
                            pose[0],
                            pose[1],
                            wp,
                            self.path@,
                        ));
                    }
                },
                None => {
                    self.advance();
                    return self.tick(pose, now);
                },
            }
        }
        let ghost mid = self@;
        let (vx, wz, path_done) = self.follow(pose);
        if !path_done {
            assert((self@, Control { vx, wz, phase: self.phase, waypoint: Some(self.idx) })
                == driven(self.task@, self.params, mid, pose, now));
            return Control { vx, wz, phase: self.phase, waypoint: Some(self.idx) };
        }
        match wp.yaw_deg {
            None => {
                self.enter_dwell(now);
            },
            Some(yaw) => {
                let diff: S = norm_angle(to_radians(yaw).minus(pose[2]));
                if diff.magnitude().at_most(self.params.yaw_tol) {
                    self.enter_dwell(now);
                } else {
                    self.phase = Phase::Aligning;
                    let c: Control<S> = Control {
                        vx: stop,
                        wz: self.turn(diff),
                        phase: Phase::Aligning,
                        waypoint: Some(self.idx),
                    };
                    assert((self@, c) == driven(self.task@, self.params, mid, pose, now));
                    return c;
                }
            },
        }
        let waypoint: Option<usize> = if self.phase == Phase::Done {
            None
        } else {
            Some(self.idx)
        };
        let c: Control<S> = Control { vx: stop, wz: stop, phase: self.phase, waypoint };
        assert((self@, c) == driven(self.task@, self.params, mid, pose, now));
        c
    }

    fn enter_dwell(&mut self, now: S)
        requires
            old(self).wf(),
            old(self).phase != Phase::Done,
        ensures
            final(self).wf(),
            *final(self).map == *old(self).map,
            final(self).task@ == old(self).task@,
            final(self).params == old(self).params,
            final(self)@ == dwelt(old(self).task@, old(self)@, now),
    {
        let dwell: S = self.task[self.idx].dwell_s;
        if S::ratio(0, 1).less(dwell) {
            self.phase = Phase::Dwelling;
            self.dwell_until = Some(now.plus(dwell));
        } else {
            self.advance();
        }
    }

    fn advance(&mut self)
        requires
            old(self).wf(),
            old(self).phase != Phase::Done,
        ensures
            final(self).wf(),
            *final(self).map == *old(self).map,
            final(self).task@ == old(self).task@,
            final(self).params == old(self).params,
            final(self)@ == advanced(old(self).task@, old(self)@),
    {
        self.path.clear();
        self.planned = false;
        self.dwell_until = None;
        self.phase = Phase::Navigating;
        let n: usize = self.task.len();
        self.idx = self.idx + 1;
        if self.idx >= n {
            self.phase = Phase::Done;
        }
        assert(self@.path =~= Seq::<Waypoint<S>>::empty());
    }

    fn turn(&self, diff: S) -> (r: S)
        requires
            self.params.sound(),
        ensures
            r == turn_rate(self.params, diff),
    {
        let rate: S = self.params.max_wz.times(diff).over(get_pi()).times(S::ratio(2, 1));
        clamp_to(rate, self.params.max_wz.negate(), self.params.max_wz)
    }

    /// Pure pursuit: the speeds that aim at a point of the path ahead of the robot,
    /// or zero speeds and `true` near the end of the path.
    fn follow(&self, pose: [S; 3]) -> (r: (S, S, bool))
        requires
            self.wf(),
            self.planned,
        ensures
            r.2 == arrived(self.params, self.path@, pose[0], pose[1]),
            r.2 ==> r.0 == zero::<S>() && r.1 == zero::<S>(),
            !r.2 ==> {
                &&& r.0 == drive_rate(self.params, aim_error(self.params, self.path@, pose))
                &&& r.1 == turn_rate(self.params, aim_error(self.params, self.path@, pose))
            },
    {
        let last: Waypoint<S> = self.path[self.path.len() - 1];
        if dist(pose[0], pose[1], last.x, last.y).at_most(self.params.arrive) {
            return (S::ratio(0, 1), S::ratio(0, 1), true);
        }
        let to: Waypoint<S> = self.lookahead_point(pose[0], pose[1]);
        let heading: S = to.y.minus(pose[1]).atan2(to.x.minus(pose[0]));
        let diff: S = norm_angle(heading.minus(pose[2]));
        let one: S = S::ratio(1, 1);
        let turn: S = lesser_of(diff.magnitude().over(get_pi()), one);
        let vx: S = self.params.max_vx.times(one.minus(S::ratio(8, 5).times(turn)));
        (clamp_to(vx, S::ratio(0, 1), self.params.max_vx), self.turn(diff), false)
    }

    /// The point of the path to aim at.
    fn lookahead_point(&self, x: S, y: S) -> (r: Waypoint<S>)
        requires
            self.path@.len() > 0,
        ensures
            r == target(self.path@, x, y, self.params.lookahead),
    {
        let n: usize = self.path.len();
        let mut best: Option<(usize, S)> = None;
        let mut i: usize = 0;
        while i < n
            invariant
                i <= n == self.path@.len(),
                best is Some == nearest(self.path@, x, y, i as nat) is Some,
                best matches Some(b) ==> b.0 < i && nearest(self.path@, x, y, i as nat) == Some(
                    (b.0 as int, b.1),
                ),
            decreases n - i,
        {
            let d: S = dist(x, y, self.path[i].x, self.path[i].y);
            best =
            match best {
                None => if d.finite() {
                    Some((i, d))
                } else {
                    None
                },
                Some(b) => if d.less(b.1) {
                    Some((i, d))
                } else {
                    Some(b)
                },
            };
            i = i + 1;
        }
        let mut t: usize = match best {
            Some(b) => b.0,
            None => 0,
        };
        let ghost from = t as int;
        while t + 1 < n && dist(x, y, self.path[t + 1].x, self.path[t + 1].y).less(
            self.params.lookahead,
        )
            invariant
                t < n == self.path@.len(),
                ahead(self.path@, x, y, self.params.lookahead, t as int) == ahead(
                    self.path@,
                    x,
                    y,
                    self.params.lookahead,
                    from,
                ),
            decreases n - t,
        {
            t = t + 1;
        }
        self.path[t]
    }

    /// The current phase.
    pub fn phase(&self) -> (r: Phase)
        ensures
            r == self.phase,
    {
        self.phase
    }

    /// The waypoint that the executor is busy with.
    pub fn current_waypoint(&self) -> (r: Option<&TaskWaypoint<S>>)
        requires
            self.wf(),
        ensures
            self.phase == Phase::Done ==> r is None,
            self.phase != Phase::Done ==> r == Some(&self.task@[self.idx as int]),
    {
        if self.phase == Phase::Done {
            None
        } else {
            Some(&self.task[self.idx])
        }
    }
}

/// A planned path has points, and so has its resampling.
proof fn lemma_planned_nonempty<S: Scalar>(
    map: GridMap<S>,
    infl: i64,
    from: Place,
    to: Place,
    raw: Seq<Waypoint<S>>,
)
    requires
        planned(map, infl, from, to, raw),
    ensures
        raw.len() > 0,
{
    let (u, v, cells) = choose|u: Place, v: Place, cells: Seq<Place>|
        #[trigger] shortest(map, infl, cells, u, v) && raw == crate::astar::waypoints(map, cells);
}

/// A task that is done, and a robot that waits, stand still; a finished task
/// names no waypoint.
pub proof fn law_rest_is_still<S: Scalar>(
    map: GridMap<S>,
    task: Seq<TaskWaypoint<S>>,
    p: TaskParams<S>,
    a: TaskState<S>,
    pose: [S; 3],
    now: S,
    b: TaskState<S>,
    c: Control<S>,
)
    requires
        0 <= a.idx,
        ticks(map, task, p, a, pose, now, b, c),
    ensures
        c.phase == b.phase,
        c.phase == Phase::Done || c.phase == Phase::Dwelling ==> c.vx == zero::<S>() && c.wz
            == zero::<S>(),
        c.phase == Phase::Done ==> c.waypoint is None,
    decreases task.len() - a.idx,
{
    if a.phase == Phase::Done || a.idx >= task.len() {
    } else if a.phase == Phase::Dwelling {
        if a.dwell_until is Some && le(a.dwell_until->0, now) {
            law_rest_is_still(map, task, p, advanced(task, a), pose, now, b, c);
        }
    } else if !a.planned {
        if !(exists|path: Seq<Waypoint<S>>|
            #[trigger] path_for(map, p, pose[0], pose[1], task[a.idx], path) && (b, c) == driven(
                task,
                p,
                TaskState { path, planned: true, ..a },
                pose,
                now,
            )) {
            law_rest_is_still(map, task, p, advanced(task, a), pose, now, b, c);
        }
    }
}

/// The last waypoint is settled in this tick: its wait is over, or it is reached,
/// faced as it asks for and not waited at.
pub open spec fn finishes<S: Scalar>(
    task: Seq<TaskWaypoint<S>>,
    p: TaskParams<S>,
    a: TaskState<S>,
    pose: [S; 3],
    now: S,
) -> bool {
    &&& a.phase != Phase::Done
    &&& a.idx == task.len() - 1
    &&& if a.phase == Phase::Dwelling {
        a.dwell_until is Some && le(a.dwell_until->0, now)
    } else {
        &&& a.planned
        &&& arrived(p, a.path, pose[0], pose[1])
        &&& task[a.idx].yaw_deg is None || le(
            normed(radians(task[a.idx].yaw_deg->0).minus_spec(pose[2])).magnitude_spec(),
            p.yaw_tol,
        )
        &&& !lt(zero::<S>(), task[a.idx].dwell_s)
    }
}

/// The tick that settles the last waypoint finishes the task: it reports so, and the
/// robot stands still.
pub proof fn law_last_waypoint_finishes<S: Scalar>(
    map: GridMap<S>,
    task: Seq<TaskWaypoint<S>>,
    p: TaskParams<S>,
    a: TaskState<S>,
    pose: [S; 3],
    now: S,
    b: TaskState<S>,
    c: Control<S>,
)
    requires
        0 <= a.idx,
        finishes(task, p, a, pose, now),
        ticks(map, task, p, a, pose, now, b, c),
    ensures
        b == advanced(task, a),
        b.phase == Phase::Done,
        c == still(b),
{
    reveal_with_fuel(ticks, 2);
}

/// Waypoints are taken in order: a tick never goes back, and a task that is done
/// stays done.
pub proof fn law_waypoints_in_order<S: Scalar>(
    map: GridMap<S>,
    task: Seq<TaskWaypoint<S>>,
    p: TaskParams<S>,
    a: TaskState<S>,
    pose: [S; 3],
    now: S,
    b: TaskState<S>,
    c: Control<S>,
)
    requires
        0 <= a.idx,
        ticks(map, task, p, a, pose, now, b, c),
    ensures
        a.idx <= b.idx,
        a.phase == Phase::Done ==> b == a,
    decreases task.len() - a.idx,
{
    if a.phase == Phase::Done || a.idx >= task.len() {
    } else if a.phase == Phase::Dwelling {
        if a.dwell_until is Some && le(a.dwell_until->0, now) {
            law_waypoints_in_order(map, task, p, advanced(task, a), pose, now, b, c);
        }
    } else if !a.planned {
        if !(exists|path: Seq<Waypoint<S>>|
            #[trigger] path_for(map, p, pose[0], pose[1], task[a.idx], path) && (b, c) == driven(
                task,
                p,
                TaskState { path, planned: true, ..a },
                pose,
                now,
            )) {
            law_waypoints_in_order(map, task, p, advanced(task, a), pose, now, b, c);
        }
    }
}

/// A wait lasts as long as the waypoint asks for: until its time is over the
/// executor stays where it is.
pub proof fn law_wait_lasts<S: Scalar>(
    map: GridMap<S>,
    task: Seq<TaskWaypoint<S>>,
    p: TaskParams<S>,
    a: TaskState<S>,
    start: S,
    pose: [S; 3],
    now: S,
    b: TaskState<S>,
    c: Control<S>,
)
    requires
        0 <= a.idx < task.len(),
        lt(zero::<S>(), task[a.idx].dwell_s),
        ticks(map, task, p, dwelt(task, a, start), pose, now, b, c),
        !le(start.plus_spec(task[a.idx].dwell_s), now),
    ensures
        b == dwelt(task, a, start),
        c.phase == Phase::Dwelling,
{
}

/// The commanded speeds keep to the limits wherever they are numbers.
pub proof fn law_speed_limits<S: Scalar>(p: TaskParams<S>, diff: S)
    requires
        p.sound(),
    ensures
        turn_rate(p, diff).is_num() ==> le(p.max_wz.negate_spec(), turn_rate(p, diff)) && le(
            turn_rate(p, diff),
            p.max_wz,
        ),
        drive_rate(p, diff).is_num() ==> le(zero::<S>(), drive_rate(p, diff)) && le(
            drive_rate(p, diff),
            p.max_vx,
        ),
{
}

} // verus!
