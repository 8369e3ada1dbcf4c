//! From odometry and a task to commands for the chassis.
pub mod laws;

use crate::laser_mapping::LioResult;
use crate::scalar::{le, lt, zero, Scalar, Widen};
use crate::task::{Control, Phase};
use crate::types::{AviaMsg, AviaPointMsg};
use vstd::prelude::*;

verus! {

/// The heading of a rotation, with the scalar part first.
#[verifier::allow_in_spec]
pub fn yaw_from_quat<W: Scalar>(q: [W; 4]) -> W
    returns
        ({
            let two: W = W::ratio_spec(2, 1);
            two.times_spec(q[0].times_spec(q[3]).plus_spec(q[1].times_spec(q[2]))).atan2_spec(
                W::ratio_spec(1, 1).minus_spec(
                    two.times_spec(q[2].times_spec(q[2]).plus_spec(q[3].times_spec(q[3]))),
                ),
            )
        }),
{
    let two: W = W::ratio(2, 1);
    two.times(q[0].times(q[3]).plus(q[1].times(q[2]))).atan2(
        W::ratio(1, 1).minus(two.times(q[2].times(q[2]).plus(q[3].times(q[3])))),
    )
}

/// The pose of the rotation centre on the map: `rot_fwd` ahead of the geometric
/// centre, while the lidar, whose pose the odometry gives, is `lidar_fwd` ahead
/// of it.
#[verifier::allow_in_spec]
pub fn chassis_pose<W: Scalar>(res: &LioResult<W>, lidar_fwd: W, rot_fwd: W) -> [W; 3]
    returns
        ({
            let yaw: W = yaw_from_quat(res.quat);
            let rel: W = rot_fwd.minus_spec(lidar_fwd);
            [
                res.pos.x.plus_spec(rel.times_spec(yaw.cos_spec())),
                res.pos.y.plus_spec(rel.times_spec(yaw.sin_spec())),
                yaw,
            ]
        }),
{
    let yaw: W = yaw_from_quat(res.quat);
    let rel: W = rot_fwd.minus(lidar_fwd);
    [res.pos.x.plus(rel.times(yaw.cos())), res.pos.y.plus(rel.times(yaw.sin())), yaw]
}

/// The point could hit the body: above the floor, which is `lidar_height` below
/// the lidar, at most 0.6 m high, ahead, and at most `half_width` aside.
pub open spec fn in_the_way<N: Widen<W>, W: Scalar>(
    p: AviaPointMsg<N>,
    lidar_height: W,
    half_width: W,
) -> bool {
    let z_min = N::narrow_spec(lidar_height.negate_spec().plus_spec(W::ratio_spec(5, 100)));
    &&& !lt(p.z, z_min)
    &&& !lt(N::ratio_spec(6, 10), p.z)
    &&& !lt(p.x, N::ratio_spec(5, 100))
    &&& !lt(N::narrow_spec(half_width), p.y.magnitude_spec())
}

/// How far ahead a point is.
pub open spec fn distance_to<N: Widen<W>, W: Scalar>(p: AviaPointMsg<N>) -> W {
    p.x.widen_spec().hypot_spec(p.y.widen_spec())
}

/// The smallest finite distance to one of the first `n` points that are in the
/// way.
pub open spec fn nearest<N: Widen<W>, W: Scalar>(
    pts: Seq<AviaPointMsg<N>>,
    lidar_height: W,
    half_width: W,
    n: nat,
) -> Option<W>
    decreases n,
{
    if n == 0 {
        None
    } else {
        let before = nearest(pts, lidar_height, half_width, (n - 1) as nat);
        let d = distance_to::<N, W>(pts[n - 1]);
        if in_the_way(pts[n - 1], lidar_height, half_width) && d.is_finite() && (before is None || lt(
            d,
            before->0,
        )) {
            Some(d)
        } else {
            before
        }
    }
}

/// The distance of the nearest obstacle ahead in a lidar frame, within
/// `half_width` to either side.
pub fn front_obstacle<N: Widen<W>, W: Scalar>(
    msg: &AviaMsg<N, W>,
    lidar_height: W,
    half_width: W,
) -> (r: Option<W>)
    ensures
        r == nearest(msg.points@, lidar_height, half_width, msg.points@.len()),
{
    let z_min: N = N::narrow(lidar_height.negate().plus(W::ratio(5, 100)));
    let z_max: N = N::ratio(6, 10);
    let side: N = N::narrow(half_width);
    let mut best: Option<W> = None;
    let mut i: usize = 0;
    while i < msg.points.len()
        invariant
            i <= msg.points@.len(),
            z_min == N::narrow_spec(lidar_height.negate_spec().plus_spec(W::ratio_spec(5, 100))),
            z_max == N::ratio_spec(6, 10),
            side == N::narrow_spec(half_width),
            best == nearest(msg.points@, lidar_height, half_width, i as nat),
        decreases msg.points@.len() - i,
    {
        let p: AviaPointMsg<N> = msg.points[i];
        if !(p.z.less(z_min) || z_max.less(p.z) || p.x.less(N::ratio(5, 100)) || side.less(
            p.y.magnitude(),
        )) {
            let d: W = p.x.widen().hypot(p.y.widen());
            let closer: bool = match best {
                Some(b) => d.less(b),
                None => true,
            };
            if d.finite() && closer {
                best = Some(d);
            }
        }
        i = i + 1;
    }
    best
}

/// No obstacle that is in the way at a finite distance is nearer than the one
/// found, and one is found if there is any. Finite values are taken to be
/// numbers.
pub proof fn law_nearest<N: Widen<W>, W: Scalar>(
    pts: Seq<AviaPointMsg<N>>,
    lidar_height: W,
    half_width: W,
    n: nat,
    i: int,
)
    requires
        0 <= i < n <= pts.len(),
        forall|v: W| #[trigger] v.is_finite() ==> v.is_num(),
        in_the_way(pts[i], lidar_height, half_width),
        distance_to::<N, W>(pts[i]).is_finite(),
    ensures
        nearest(pts, lidar_height, half_width, n) matches Some(d) && d.is_finite() && le(
            d,
            distance_to::<N, W>(pts[i]),
        ),
    decreases n,
{
    if n - 1 > i {
        law_nearest(pts, lidar_height, half_width, (n - 1) as nat, i);
    } else {
        lemma_nearest_is_finite(pts, lidar_height, half_width, (n - 1) as nat);
    }
}

proof fn lemma_nearest_is_finite<N: Widen<W>, W: Scalar>(
    pts: Seq<AviaPointMsg<N>>,
    lidar_height: W,
    half_width: W,
    n: nat,
)
    ensures
        nearest(pts, lidar_height, half_width, n) matches Some(d) ==> d.is_finite(),
    decreases n,
{
    if n > 0 {
        lemma_nearest_is_finite(pts, lidar_height, half_width, (n - 1) as nat);
    }
}

/// For how many milliseconds a lidar frame tells of obstacles.
pub const FRAME_LIFE_MS: u64 = 500;

/// The obstacle that the latest frame, `age_ms` old, shows; none when the frame
/// is too old.
pub fn live_obstacle<N: Widen<W>, W: Scalar>(
    frame: Option<&AviaMsg<N, W>>,
    age_ms: u64,
    lidar_height: W,
    half_width: W,
) -> (r: Option<W>)
    ensures
        r == (if frame is Some && age_ms < FRAME_LIFE_MS {
            nearest(frame->0.points@, lidar_height, half_width, frame->0.points@.len())
        } else {
            None
        }),
{
    match frame {
        Some(msg) => if age_ms < FRAME_LIFE_MS {
            front_obstacle(msg, lidar_height, half_width)
        } else {
            None
        },
        None => None,
    }
}

/// What an obstacle makes of a command.
#[derive(Clone, Copy, Debug, PartialEq, Eq, Structural)]
pub enum Alarm {
    /// The command stands.
    Clear,
    /// The robot slows down.
    Slow,
    /// The robot stops.
    Stop,
}

/// Distances at which the robot stops and slows down.
#[derive(Clone, Copy, Debug)]
pub struct Margins<W> {
    pub stop_dist: W,
    pub slow_dist: W,
}

/// A velocity command.
#[derive(Clone, Copy, Debug)]
pub struct Velocity<W> {
    pub vx: W,
    pub wz: W,
}

/// The alarm for a forward speed and an obstacle. Only a robot that drives
/// forward is held up.
pub open spec fn alarm_for<W: Scalar>(vx: W, obstacle: Option<W>, m: Margins<W>) -> Alarm {
    if obstacle is None || !lt(zero::<W>(), vx) {
        Alarm::Clear
    } else if lt(obstacle->0, m.stop_dist) {
        Alarm::Stop
    } else if lt(obstacle->0, m.slow_dist) {
        Alarm::Slow
    } else {
        Alarm::Clear
    }
}

/// The command that an obstacle leaves: none when it is near, one whose speed
/// falls towards the stopping distance when it is less near.
pub open spec fn held_up<W: Scalar>(v: Velocity<W>, obstacle: Option<W>, m: Margins<W>) -> Velocity<
    W,
> {
    match alarm_for(v.vx, obstacle, m) {
        Alarm::Clear => v,
        Alarm::Slow => Velocity {
            vx: v.vx.times_spec(
                obstacle->0.minus_spec(m.stop_dist).over_spec(m.slow_dist.minus_spec(m.stop_dist)),
            ),
            wz: v.wz,
        },
        Alarm::Stop => Velocity { vx: zero::<W>(), wz: zero::<W>() },
    }
}

/// Stops or slows a command for an obstacle ahead.
pub fn guard<W: Scalar>(v: Velocity<W>, obstacle: Option<W>, m: Margins<W>) -> (r: (
    Velocity<W>,
    Alarm,
))
    ensures
        r.0 == held_up(v, obstacle, m),
        r.1 == alarm_for(v.vx, obstacle, m),
{
    match obstacle {
        Some(d) => {
            let o: W = W::ratio(0, 1);
            if o.less(v.vx) && d.less(m.stop_dist) {
                (Velocity { vx: o, wz: o }, Alarm::Stop)
            } else if o.less(v.vx) && d.less(m.slow_dist) {
                let share: W = d.minus(m.stop_dist).over(m.slow_dist.minus(m.stop_dist));
                (Velocity { vx: v.vx.times(share), wz: v.wz }, Alarm::Slow)
            } else {
                (v, Alarm::Clear)
            }
        },
        None => (v, Alarm::Clear),
    }
}

/// What the chassis is told in a tick.
#[derive(Clone, Copy, Debug)]
pub enum DriveAction<W> {
    /// No pose is known yet: stand still.
    Hold,
    /// The task is complete: stand still and leave.
    Finish,
    /// Drive.
    Drive(Velocity<W>),
}

/// The action for a control tick.
pub open spec fn action_for<W: Scalar>(
    ctrl: Option<Control<W>>,
    obstacle: Option<W>,
    m: Margins<W>,
) -> DriveAction<W> {
    match ctrl {
        None => DriveAction::Hold,
        Some(c) => if c.phase == Phase::Done {
            DriveAction::Finish
        } else {
            DriveAction::Drive(held_up(Velocity { vx: c.vx, wz: c.wz }, obstacle, m))
        },
    }
}

/// Decides what the chassis is told, from the control of the task (none without
/// a pose) and the obstacle ahead.
pub fn drive<W: Scalar>(ctrl: Option<Control<W>>, obstacle: Option<W>, m: Margins<W>) -> (r: (
    DriveAction<W>,
    Alarm,
))
    ensures
        r.0 == action_for(ctrl, obstacle, m),
        r.1 == (match ctrl {
            Some(c) => alarm_for(c.vx, obstacle, m),
            None => Alarm::Clear,
        }),
{
    match ctrl {
        None => (DriveAction::Hold, Alarm::Clear),
        Some(c) => {
            let (v, alarm) = guard(Velocity { vx: c.vx, wz: c.wz }, obstacle, m);
            if c.phase == Phase::Done {
                (DriveAction::Finish, alarm)
            } else {
                (DriveAction::Drive(v), alarm)
            }
        },
    }
}

/// The robot never drives towards an obstacle within the stopping distance.
pub proof fn law_stops_for_obstacle<W: Scalar>(
    ctrl: Option<Control<W>>,
    obstacle: W,
    m: Margins<W>,
)
    requires
        lt(obstacle, m.stop_dist),
    ensures
        action_for(ctrl, Some(obstacle), m) matches DriveAction::Drive(v) ==> !lt(
            zero::<W>(),
            v.vx,
        ),
{
}

} // verus!
