//! Sources of time-ordered sensor samples, and a synthetic one: a robot that
//! drives a circle between four walls.
pub mod laws;

use crate::linear::{M3, Quat, V3};
use crate::scalar::{get_pi, le, lt, pi, zero, Scalar, Widen};
use crate::so3::exp;
use crate::types::{ImuRaw, SensorData, StandardMsg, StdPointMsg};
use vstd::prelude::*;

verus! {

/// No sample is available right now.
#[derive(Clone, Copy, Debug)]
pub struct NonBlocking;

/// A source of time-ordered raw sensor samples.
pub trait DataSource<N: Scalar, W: Scalar>: Sized {
    /// The source can be read.
    open spec fn is_sound(&self) -> bool {
        true
    }

    /// A read that finds the source as it is may yield `r` and leave the source
    /// as `after`.
    open spec fn reads(&self, after: &Self, r: Option<SensorData<N, W>>) -> bool {
        true
    }

    /// Blocking read of the next sample; `None` at the end of the stream.
    fn next(&mut self) -> (r: Option<SensorData<N, W>>)
        requires
            old(self).is_sound(),
        ensures
            final(self).is_sound(),
            old(self).reads(final(self), r),
    ;

    /// Read of the next sample that does not block: `Err` when nothing is
    /// available yet. A source that always has its sample at hand keeps this
    /// implementation, which reads with [`DataSource::next`].
    fn try_next(&mut self) -> (r: Result<Option<SensorData<N, W>>, NonBlocking>)
        requires
            old(self).is_sound(),
        ensures
            final(self).is_sound(),
        default_ensures
            r matches Ok(sample) && old(self).reads(final(self), sample),
    {
        Ok(self.next())
    }
}

/// Parameters of the synthetic scenario.
#[derive(Clone, Copy, Debug)]
pub struct SimParams<W> {
    /// IMU rate in Hz.
    pub imu_hz: W,
    /// Lidar rate in Hz.
    pub lidar_hz: W,
    /// Total duration in seconds.
    pub duration: W,
    /// Radius of the circle in meters.
    pub radius: W,
    /// Angular speed in rad/s.
    pub omega: W,
    /// Height of the robot in meters.
    pub height: W,
    /// Number of lidar points per frame.
    pub points_per_scan: usize,
    /// Seconds of rest before the motion starts, in which the IMU initializer
    /// sees a gyro bias near zero.
    pub init_static: W,
    /// Noise on the acceleration in m/s².
    pub acc_noise: W,
    /// Noise on the angular rate in rad/s.
    pub gyr_noise: W,
}

impl<W: Scalar> Default for SimParams<W> {
    fn default() -> (r: Self)
        ensures
            r == (SimParams {
                imu_hz: W::ratio_spec(200, 1),
                lidar_hz: W::ratio_spec(10, 1),
                duration: W::ratio_spec(20, 1),
                radius: W::ratio_spec(5, 1),
                omega: W::ratio_spec(15, 100),
                height: W::ratio_spec(1, 1),
                points_per_scan: 1200,
                init_static: W::ratio_spec(1, 1),
                acc_noise: W::ratio_spec(2, 100),
                gyr_noise: W::ratio_spec(2, 1000),
            }),
    {
        SimParams {
            imu_hz: W::ratio(200, 1),
            lidar_hz: W::ratio(10, 1),
            duration: W::ratio(20, 1),
            radius: W::ratio(5, 1),
            omega: W::ratio(15, 100),
            height: W::ratio(1, 1),
            points_per_scan: 1200,
            init_static: W::ratio(1, 1),
            acc_noise: W::ratio(2, 100),
            gyr_noise: W::ratio(2, 1000),
        }
    }
}

/// Deterministic pseudo-random generator, so that runs are reproducible.
#[derive(Clone, Copy, Debug)]
pub struct Rng(pub u64);

/// The state of the generator after one draw: three shifts, each mixed in.
pub open spec fn shuffled(s: u64) -> u64 {
    let a = s ^ (s << 13u64);
    let b = a ^ (a >> 7u64);
    b ^ (b << 17u64)
}

/// The state of the generator after `k` draws.
pub open spec fn drawn(s: u64, k: nat) -> u64
    decreases k,
{
    if k == 0 {
        s
    } else {
        shuffled(drawn(s, (k - 1) as nat))
    }
}

/// The number between minus one and one that a state stands for.
pub open spec fn noise<W: Scalar>(s: u64) -> W {
    W::ratio_spec(s as int, 1).over_spec(W::ratio_spec(u64::MAX as int, 1)).times_spec(
        W::ratio_spec(2, 1),
    ).minus_spec(W::ratio_spec(1, 1))
}

/// The noise of the `k`th draw from a state.
pub open spec fn nth_noise<W: Scalar>(s: u64, k: nat) -> W {
    noise(drawn(s, k))
}

impl Rng {
    /// The generator that starts from a seed.
    pub fn new(seed: u64) -> (r: Self)
        ensures
            r.0 == seed,
    {
        Rng(seed)
    }

    /// Draws the next number between minus one and one.
    pub fn next_f64<W: Scalar>(&mut self) -> (r: W)
        ensures
            final(self).0 == shuffled(old(self).0),
            r == noise::<W>(final(self).0),
    {
        let a: u64 = self.0 ^ (self.0 << 13u64);
        let b: u64 = a ^ (a >> 7u64);
        self.0 = b ^ (b << 17u64);
        W::count(self.0).over(W::count(u64::MAX)).times(W::ratio(2, 1)).minus(W::ratio(1, 1))
    }
}

/// The generator never leaves a state other than zero for the state zero, where
/// it would stay.
pub proof fn law_generator_never_sticks(s: u64)
    requires
        s != 0,
    ensures
        shuffled(s) != 0,
{
    let a = s ^ (s << 13u64);
    let b = a ^ (a >> 7u64);
    assert(s != 0 ==> s ^ (s << 13u64) != 0) by (bit_vector);
    assert(a != 0 ==> a ^ (a >> 7u64) != 0) by (bit_vector);
    assert(b != 0 ==> b ^ (b << 17u64) != 0) by (bit_vector);
}

/// Position and orientation of the robot.
#[derive(Clone, Copy, Debug)]
pub struct SimPose<W> {
    pub pos: V3<W>,
    pub rot: Quat<W>,
}

/// The angle on the circle at time `t`; the motion starts after the rest.
pub open spec fn circle_angle<W: Scalar>(t: W, p: &SimParams<W>) -> W {
    p.omega.times_spec(t.minus_spec(p.init_static))
}

/// The rotation about the vertical axis.
#[verifier::allow_in_spec]
pub fn turn_about_z<W: Scalar>(angle: W) -> Quat<W>
    returns
        Quat::about(V3::new(zero::<W>(), zero::<W>(), W::ratio_spec(1, 1)), angle),
{
    Quat::about(V3::new(W::ratio(0, 1), W::ratio(0, 1), W::ratio(1, 1)), angle)
}

impl<W: Scalar> SimPose<W> {
    /// The pose at time `t`: at rest at the start of the circle, then along it
    /// with the nose on the tangent.
    pub open spec fn at_spec(t: W, p: &SimParams<W>) -> Self {
        let quarter = pi::<W>().over_spec(W::ratio_spec(2, 1));
        if lt(t, p.init_static) {
            SimPose { pos: V3::new(p.radius, zero::<W>(), p.height), rot: turn_about_z(quarter) }
        } else {
            let yaw = circle_angle(t, p);
            SimPose {
                pos: V3::new(
                    p.radius.times_spec(yaw.cos_spec()),
                    p.radius.times_spec(yaw.sin_spec()),
                    p.height,
                ),
                rot: turn_about_z(yaw.plus_spec(quarter)),
            }
        }
    }

    /// The pose of the robot at time `t`.
    pub fn at(t: W, p: &SimParams<W>) -> (r: Self)
        ensures
            r == Self::at_spec(t, p),
    {
        let quarter: W = get_pi::<W>().over(W::ratio(2, 1));
        if t.less(p.init_static) {
            return SimPose {
                pos: V3::new(p.radius, W::ratio(0, 1), p.height),
                rot: turn_about_z(quarter),
            };
        }
        let yaw: W = p.omega.times(t.minus(p.init_static));
        SimPose {
            pos: V3::new(p.radius.times(yaw.cos()), p.radius.times(yaw.sin()), p.height),
            rot: turn_about_z(yaw.plus(quarter)),
        }
    }
}

/// Specific force and angular rate without noise at time `t`: at rest the force
/// cancels gravity, on the circle it also turns the robot.
pub open spec fn motion_at<W: Scalar>(t: W, p: &SimParams<W>) -> (V3<W>, V3<W>) {
    let g = W::ratio_spec(981, 100);
    if lt(t, p.init_static) {
        (V3::new(zero::<W>(), zero::<W>(), g), V3::zeros())
    } else {
        let yaw = circle_angle(t, p);
        let pull = p.omega.negate_spec().times_spec(p.omega).times_spec(p.radius);
        let a_world = V3::new(
            pull.times_spec(yaw.cos_spec()),
            pull.times_spec(yaw.sin_spec()),
            zero::<W>(),
        );
        (
            SimPose::at_spec(t, p).rot.conjugate().rotate(
                a_world.diff(V3::new(zero::<W>(), zero::<W>(), g.negate_spec())),
            ),
            V3::new(zero::<W>(), zero::<W>(), p.omega),
        )
    }
}

/// The noise of three draws, the first of them draw `k` from state `s`.
pub open spec fn noise_vector<W: Scalar>(s: u64, k: nat, size: W) -> V3<W> {
    V3::new(
        nth_noise::<W>(s, k).times_spec(size),
        nth_noise::<W>(s, k + 1).times_spec(size),
        nth_noise::<W>(s, k + 2).times_spec(size),
    )
}

/// The IMU sample at time `t` with a generator in state `s`.
pub open spec fn imu_sample<W: Scalar>(t: W, p: &SimParams<W>, s: u64) -> ImuRaw<W> {
    let (acc, gyr) = motion_at(t, p);
    let a = acc.sum(noise_vector(s, 1, p.acc_noise));
    let w = gyr.sum(noise_vector(s, 4, p.gyr_noise));
    ImuRaw { stamp: t, acc: [a.x, a.y, a.z], gyr: [w.x, w.y, w.z] }
}

/// Where a point of the world is seen from a pose.
pub open spec fn seen_from<W: Scalar>(pose: SimPose<W>, wp: V3<W>) -> V3<W> {
    pose.rot.conjugate().rotate(wp.diff(pose.pos))
}

/// The point is within 40 m and not beside or behind the robot.
pub open spec fn in_view<W: Scalar>(pb: V3<W>) -> bool {
    !(lt(W::ratio_spec(40, 1), pb.norm()) || lt(pb.x, W::ratio_spec(5, 10)))
}

/// The laser line of a direction: six degrees each, from 90 degrees to the right.
pub open spec fn ring_of<W: Scalar>(pb: V3<W>) -> u16 {
    let at = pb.y.atan2_spec(pb.x).times_spec(W::ratio_spec(180, 1)).over_spec(
        pi::<W>(),
    ).plus_spec(W::ratio_spec(90, 1)).over_spec(W::ratio_spec(6, 1)).to_index_spec();
    if at < 0 {
        0
    } else if at > 15 {
        15
    } else {
        at as u16
    }
}

/// The points of a scan and the state of the generator behind it.
pub ghost struct Sweep<N> {
    pub points: Seq<StdPointMsg<N>>,
    pub rng: u64,
}

/// The sweep over the first `i` of the `n` directions of a scan.
pub open spec fn sweep<N: Widen<W>, W: Scalar>(
    pose: SimPose<W>,
    world: Seq<V3<W>>,
    n: usize,
    s: u64,
    i: nat,
) -> Sweep<N>
    decreases i,
{
    if i == 0 {
        Sweep { points: Seq::empty(), rng: s }
    } else {
        let before = sweep::<N, W>(pose, world, n, s, (i - 1) as nat);
        let k = i - 1;
        let pb = seen_from(pose, world[(k * 37) % world.len() as int]);
        if in_view(pb) {
            let size = W::ratio_spec(1, 100);
            let off = noise_vector(before.rng, 1, size);
            Sweep {
                points: before.points.push(
                    StdPointMsg {
                        x: N::narrow_spec(pb.x.plus_spec(off.x)),
                        y: N::narrow_spec(pb.y.plus_spec(off.y)),
                        z: N::narrow_spec(pb.z.plus_spec(off.z)),
                        intensity: N::ratio_spec(100, 1),
                        time: N::narrow_spec(
                            W::ratio_spec(k, 1).over_spec(W::ratio_spec(n as int, 1)).times_spec(
                                W::ratio_spec(100, 1),
                            ),
                        ),
                        ring: ring_of(pb),
                    },
                ),
                rng: drawn(before.rng, 3),
            }
        } else {
            before
        }
    }
}

/// Synthetic lidar and IMU data source.
#[derive(Debug)]
pub struct SimSource<W> {
    pub params: SimParams<W>,
    pub rng: Rng,
    pub dt_imu: W,
    pub dt_lidar: W,
    pub next_imu_t: W,
    pub next_lidar_t: W,
    pub world_points: Vec<V3<W>>,
}

/// The values from `from` to `to` in steps of `step`, as far as a step moves on.
pub open spec fn stops<W: Scalar>(from: W, to: W, step: W) -> Seq<W>
    decreases
            (if le(from, to) {
                to.key() - from.key() + 1
            } else {
                0
            }),
{
    let next = from.plus_spec(step);
    if !le(from, to) {
        Seq::empty()
    } else if lt(from, next) {
        seq![from] + stops(next, to, step)
    } else {
        seq![from]
    }
}

/// Ground points: one for each pair of the first `k` of `xs` with one of `xs`.
pub open spec fn ground_points<W: Scalar>(xs: Seq<W>, k: nat) -> Seq<V3<W>>
    decreases k,
{
    if k == 0 {
        Seq::empty()
    } else {
        ground_points(xs, (k - 1) as nat) + Seq::new(
            xs.len(),
            |j: int| V3::new(xs[k - 1], xs[j], zero::<W>()),
        )
    }
}

/// The points at height `z` of the four walls at the place `x` along them.
pub open spec fn four_points<W: Scalar>(x: W, z: W, half: W) -> Seq<V3<W>> {
    seq![
        V3::new(x, half.negate_spec(), z),
        V3::new(x, half, z),
        V3::new(half.negate_spec(), x, z),
        V3::new(half, x, z),
    ]
}

/// The wall points at one place, up to height number `k`.
pub open spec fn wall_column<W: Scalar>(x: W, zs: Seq<W>, half: W, k: nat) -> Seq<V3<W>>
    decreases k,
{
    if k == 0 {
        Seq::empty()
    } else {
        wall_column(x, zs, half, (k - 1) as nat) + four_points(x, zs[k - 1], half)
    }
}

/// The wall points at the first `k` places.
pub open spec fn wall_points<W: Scalar>(xs: Seq<W>, zs: Seq<W>, half: W, k: nat) -> Seq<V3<W>>
    decreases k,
{
    if k == 0 {
        Seq::empty()
    } else {
        wall_points(xs, zs, half, (k - 1) as nat) + wall_column(xs[k - 1], zs, half, zs.len())
    }
}

/// Half the side of the yard.
pub open spec fn yard_half<W: Scalar>() -> W {
    W::ratio_spec(20, 1)
}

/// The world: a ground of 40 m by 40 m and four walls of 6 m, with a point every
/// 0.4 m.
pub open spec fn world_spec<W: Scalar>() -> Seq<V3<W>> {
    let half = yard_half::<W>();
    let step = W::ratio_spec(4, 10);
    let xs = stops(half.negate_spec(), half, step);
    let zs = stops(zero::<W>(), W::ratio_spec(6, 1), step);
    ground_points(xs, xs.len()) + wall_points(xs, zs, half, xs.len())
}

fn stops_between<W: Scalar>(from: W, to: W, step: W) -> (r: Vec<W>)
    ensures
        r@ == stops(from, to, step),
{
    let mut out: Vec<W> = Vec::new();
    let mut x: W = from;
    let mut going: bool = true;
    assert(out@ + stops(x, to, step) =~= stops(from, to, step));
    while going && x.at_most(to)
        invariant
            going ==> out@ + stops(x, to, step) == stops(from, to, step),
            !going ==> out@ == stops(from, to, step),
        ensures
            out@ == stops(from, to, step),
        decreases
                (if going && le(x, to) {
                    to.key() - x.key() + 1
                } else {
                    0
                }),
    {
        let ghost before = out@;
        out.push(x);
        let next: W = x.plus(step);
        going = x.less(next);
        assert(going ==> before + stops(x, to, step) =~= out@ + stops(next, to, step));
        assert(!going ==> before + stops(x, to, step) =~= out@);
        x = next;
    }
    assert(going ==> out@ + stops(x, to, step) =~= out@);
    out
}

/// Builds the points of the world.
pub fn build_world_points<W: Scalar>() -> (r: Vec<V3<W>>)
    ensures
        r@ == world_spec::<W>(),
{
    let o: W = W::ratio(0, 1);
    let half: W = W::ratio(20, 1);
    let far: W = half.negate();
    let step: W = W::ratio(4, 10);
    let xs: Vec<W> = stops_between(far, half, step);
    let zs: Vec<W> = stops_between(o, W::ratio(6, 1), step);
    let mut pts: Vec<V3<W>> = Vec::new();
    let mut i: usize = 0;
    while i < xs.len()
        invariant
            i <= xs@.len(),
            o == zero::<W>(),
            pts@ == ground_points(xs@, i as nat),
        decreases xs@.len() - i,
    {
        let ghost rows = pts@;
        let mut j: usize = 0;
        while j < xs.len()
            invariant
                i < xs@.len(),
                j <= xs@.len(),
                o == zero::<W>(),
                pts@ == rows + Seq::new(
                    j as nat,
                    |k: int| V3::new(xs@[i as int], xs@[k], zero::<W>()),
                ),
            decreases xs@.len() - j,
        {
            pts.push(V3::new(xs[i], xs[j], o));
            j = j + 1;
        }
        i = i + 1;
    }
    let ghost ground = pts@;
    let mut i: usize = 0;
    assert(pts@ =~= ground + wall_points(xs@, zs@, half, 0));
    while i < xs.len()
        invariant
            i <= xs@.len(),
            far == half.negate_spec(),
            pts@ == ground + wall_points(xs@, zs@, half, i as nat),
        decreases xs@.len() - i,
    {
        let ghost columns = pts@;
        let x: W = xs[i];
        let mut j: usize = 0;
        assert(pts@ =~= columns + wall_column(x, zs@, half, 0));
        while j < zs.len()
            invariant
                j <= zs@.len(),
                far == half.negate_spec(),
                pts@ == columns + wall_column(x, zs@, half, j as nat),
            decreases zs@.len() - j,
        {
            let z: W = zs[j];
            let ghost below = pts@;
            pts.push(V3::new(x, far, z));
            pts.push(V3::new(x, half, z));
            pts.push(V3::new(far, x, z));
            pts.push(V3::new(half, x, z));
            assert(pts@ =~= below + four_points(x, z, half));
            j = j + 1;
            assert(pts@ =~= columns + wall_column(x, zs@, half, j as nat));
        }
        i = i + 1;
        assert(pts@ =~= ground + wall_points(xs@, zs@, half, i as nat));
    }
    pts
}

/// The order places the middle of the yard between its sides.
pub open spec fn has_yard<W: Scalar>() -> bool {
    le(yard_half::<W>().negate_spec(), yard_half::<W>())
}

proof fn lemma_world_is_not_empty<W: Scalar>()
    requires
        has_yard::<W>(),
    ensures
        world_spec::<W>().len() > 0,
{
    let half = yard_half::<W>();
    let xs = stops(half.negate_spec(), half, W::ratio_spec(4, 10));
    assert(xs.len() > 0);
    let rows = ground_points(xs, xs.len());
    assert(rows.len() >= xs.len());
}

impl<W: Scalar> SimSource<W> {
    /// The source at the start of a scenario.
    pub fn new(params: &SimParams<W>) -> (r: Self)
        requires
            has_yard::<W>(),
        ensures
            r.params == *params,
            r.rng.0 == 0x5EED_CAFE,
            r.dt_imu == W::ratio_spec(1, 1).over_spec(params.imu_hz),
            r.dt_lidar == W::ratio_spec(1, 1).over_spec(params.lidar_hz),
            r.next_imu_t == zero::<W>(),
            r.next_lidar_t == zero::<W>(),
            r.world_points@ == world_spec::<W>(),
            r.world_points@.len() > 0,
    {
        proof {
            lemma_world_is_not_empty::<W>();
        }
        SimSource {
            params: *params,
            rng: Rng::new(0x5EED_CAFE),
            dt_imu: W::ratio(1, 1).over(params.imu_hz),
            dt_lidar: W::ratio(1, 1).over(params.lidar_hz),
            next_imu_t: W::ratio(0, 1),
            next_lidar_t: W::ratio(0, 1),
            world_points: build_world_points(),
        }
    }

    /// Both streams have run out.
    pub open spec fn is_over(&self) -> bool {
        le(self.params.duration, self.next_imu_t) && le(self.params.duration, self.next_lidar_t)
    }

    /// The next sample is one of the IMU.
    pub open spec fn imu_is_next(&self) -> bool {
        le(self.next_imu_t, self.next_lidar_t)
    }

    fn draw_vector(&mut self, size: W) -> (r: V3<W>)
        ensures
            r == noise_vector(old(self).rng.0, 1, size),
            final(self).rng.0 == drawn(old(self).rng.0, 3),
            final(self).params == old(self).params,
            final(self).dt_imu == old(self).dt_imu,
            final(self).dt_lidar == old(self).dt_lidar,
            final(self).next_imu_t == old(self).next_imu_t,
            final(self).next_lidar_t == old(self).next_lidar_t,
            final(self).world_points == old(self).world_points,
    {
        proof {
            reveal_with_fuel(drawn, 4);
        }
        let x: W = self.rng.next_f64::<W>().times(size);
        let y: W = self.rng.next_f64::<W>().times(size);
        let z: W = self.rng.next_f64::<W>().times(size);
        V3::new(x, y, z)
    }

    /// The IMU sample at time `t`.
    pub fn make_imu(&mut self, t: W) -> (r: ImuRaw<W>)
        ensures
            r == imu_sample(t, &old(self).params, old(self).rng.0),
            final(self).rng.0 == drawn(old(self).rng.0, 6),
            final(self).params == old(self).params,
            final(self).dt_imu == old(self).dt_imu,
            final(self).dt_lidar == old(self).dt_lidar,
            final(self).next_imu_t == old(self).next_imu_t,
            final(self).next_lidar_t == old(self).next_lidar_t,
            final(self).world_points == old(self).world_points,
    {
        let pose: SimPose<W> = SimPose::at(t, &self.params);
        let p: SimParams<W> = self.params;
        let o: W = W::ratio(0, 1);
        let g: W = W::ratio(981, 100);
        let acc: V3<W>;
        let gyr: V3<W>;
        if t.less(p.init_static) {
            acc = V3::new(o, o, g);
            gyr = V3::zeros();
        } else {
            let yaw: W = p.omega.times(t.minus(p.init_static));
            let pull: W = p.omega.negate().times(p.omega).times(p.radius);
            let a_world: V3<W> = V3::new(pull.times(yaw.cos()), pull.times(yaw.sin()), o);
            acc = pose.rot.conjugate().rotate(a_world.diff(V3::new(o, o, g.negate())));
            gyr = V3::new(o, o, p.omega);
        }
        let ghost s = self.rng.0;
        let acc: V3<W> = acc.sum(self.draw_vector(p.acc_noise));
        let gyr: V3<W> = gyr.sum(self.draw_vector(p.gyr_noise));
        proof {
            reveal_with_fuel(drawn, 7);
        }
        ImuRaw { stamp: t, acc: [acc.x, acc.y, acc.z], gyr: [gyr.x, gyr.y, gyr.z] }
    }

    /// The scan at time `t`.
    pub fn make_lidar<N: Widen<W>>(&mut self, t: W) -> (r: StandardMsg<N, W>)
        requires
            old(self).world_points@.len() > 0,
        ensures
            r.stamp == t,
            ({
                let p = old(self).params;
                let sw = sweep::<N, W>(
                    SimPose::at_spec(t, &p),
                    old(self).world_points@,
                    p.points_per_scan,
                    old(self).rng.0,
                    p.points_per_scan as nat,
                );
                r.points@ == sw.points && final(self).rng.0 == sw.rng
            }),
            final(self).params == old(self).params,
            final(self).dt_imu == old(self).dt_imu,
            final(self).dt_lidar == old(self).dt_lidar,
            final(self).next_imu_t == old(self).next_imu_t,
            final(self).next_lidar_t == old(self).next_lidar_t,
            final(self).world_points == old(self).world_points,
    {
        let pose: SimPose<W> = SimPose::at(t, &self.params);
        let n: usize = self.params.points_per_scan;
        let len: usize = self.world_points.len();
        let total: W = W::count(n as u64);
        let mut points: Vec<StdPointMsg<N>> = Vec::new();
        let ghost world = self.world_points@;
        let ghost s = self.rng.0;
        let mut i: usize = 0;
        assert(points@ =~= sweep::<N, W>(pose, world, n, s, 0).points);
        while i < n
            invariant
                i <= n,
                0 < len == world.len(),
                world == old(self).world_points@,
                s == old(self).rng.0,
                total == W::ratio_spec(n as int, 1),
                points@ == sweep::<N, W>(pose, world, n, s, i as nat).points,
                self.rng.0 == sweep::<N, W>(pose, world, n, s, i as nat).rng,
                self.params == old(self).params,
                self.dt_imu == old(self).dt_imu,
                self.dt_lidar == old(self).dt_lidar,
                self.next_imu_t == old(self).next_imu_t,
                self.next_lidar_t == old(self).next_lidar_t,
                self.world_points == old(self).world_points,
            decreases n - i,
        {
            let at: usize = ((i as u128 * 37) % (len as u128)) as usize;
            let pb: V3<W> = pose.rot.conjugate().rotate(self.world_points[at].diff(pose.pos));
            let range: W = pb.norm();
            if !(W::ratio(40, 1).less(range) || pb.x.less(W::ratio(5, 10))) {
                let line: i64 = pb.y.atan2(pb.x).times(W::ratio(180, 1)).over(get_pi::<W>()).plus(
                    W::ratio(90, 1),
                ).over(W::ratio(6, 1)).to_index();
                let ring: u16 = if line < 0 {
                    0
                } else if line > 15 {
                    15
                } else {
                    line as u16
                };
                let time: W = W::count(i as u64).over(total).times(W::ratio(100, 1));
                let off: V3<W> = self.draw_vector(W::ratio(1, 100));
                points.push(
                    StdPointMsg {
                        x: N::narrow(pb.x.plus(off.x)),
                        y: N::narrow(pb.y.plus(off.y)),
                        z: N::narrow(pb.z.plus(off.z)),
                        intensity: N::ratio(100, 1),
                        time: N::narrow(time),
                        ring,
                    },
                );
            }
            i = i + 1;
        }
        StandardMsg { stamp: t, points }
    }
}

impl<N: Widen<W>, W: Scalar> DataSource<N, W> for SimSource<W> {
    open spec fn is_sound(&self) -> bool {
        self.world_points@.len() > 0
    }

    /// The earlier of the next IMU sample and the next scan, the IMU sample when
    /// both are due; nothing once both streams have run out.
    open spec fn reads(&self, after: &Self, r: Option<SensorData<N, W>>) -> bool {
        &&& after.params == self.params
        &&& after.dt_imu == self.dt_imu
        &&& after.dt_lidar == self.dt_lidar
        &&& after.world_points@ == self.world_points@
        &&& if self.is_over() {
            r is None && after.rng == self.rng && after.next_imu_t == self.next_imu_t
                && after.next_lidar_t == self.next_lidar_t
        } else if self.imu_is_next() {
            &&& r matches Some(SensorData::Imu(imu))
            &&& imu == imu_sample(self.next_imu_t, &self.params, self.rng.0)
            &&& after.rng.0 == drawn(self.rng.0, 6)
            &&& after.next_imu_t == self.next_imu_t.plus_spec(self.dt_imu)
            &&& after.next_lidar_t == self.next_lidar_t
        } else {
            let sw = sweep::<N, W>(
                SimPose::at_spec(self.next_lidar_t, &self.params),
                self.world_points@,
                self.params.points_per_scan,
                self.rng.0,
                self.params.points_per_scan as nat,
            );
            &&& r matches Some(SensorData::LidarStandard(msg))
            &&& msg.stamp == self.next_lidar_t
            &&& msg.points@ == sw.points
            &&& after.rng.0 == sw.rng
            &&& after.next_imu_t == self.next_imu_t
            &&& after.next_lidar_t == self.next_lidar_t.plus_spec(self.dt_lidar)
        }
    }

    fn next(&mut self) -> Option<SensorData<N, W>> {
        if self.params.duration.at_most(self.next_imu_t) && self.params.duration.at_most(
            self.next_lidar_t,
        ) {
            return None;
        }
        if self.next_imu_t.at_most(self.next_lidar_t) {
            let t: W = self.next_imu_t;
            let imu: ImuRaw<W> = self.make_imu(t);
            self.next_imu_t = t.plus(self.dt_imu);
            Some(SensorData::Imu(imu))
        } else {
            let t: W = self.next_lidar_t;
            let msg: StandardMsg<N, W> = self.make_lidar(t);
            self.next_lidar_t = t.plus(self.dt_lidar);
            Some(SensorData::LidarStandard(msg))
        }
    }
}

/// The samples of a scenario come in the order of their times: each is stamped
/// with the smaller of the two times at which a sample is due.
pub proof fn law_samples_in_order<N: Widen<W>, W: Scalar>(
    before: SimSource<W>,
    after: SimSource<W>,
    r: Option<SensorData<N, W>>,
)
    requires
        before.next_imu_t.is_num(),
        before.next_lidar_t.is_num(),
        DataSource::<N, W>::reads(&before, &after, r),
    ensures
        r matches Some(SensorData::Imu(imu)) ==> imu.stamp == before.next_imu_t && le(
            imu.stamp,
            before.next_lidar_t,
        ),
        r matches Some(SensorData::LidarStandard(msg)) ==> msg.stamp == before.next_lidar_t && lt(
            msg.stamp,
            before.next_imu_t,
        ),
        !(r matches Some(SensorData::LidarAvia(_))),
{
}

/// The rotation that `v` stands for.
#[verifier::allow_in_spec]
pub fn exp_rot<W: Scalar>(v: V3<W>) -> M3<W>
    returns
        exp(v),
{
    exp(v)
}

} // verus!
