//! Processing of inertial measurements: start-up statistics, propagation of the
//! state over a scan, and undistortion of the scan.
//!
//! The points of a scan are taken at different times while the sensor moves.
//! Undistortion brings them to where they would be if all had been taken at the
//! end of the scan.
pub mod laws;

use crate::esekf::{carried, predicted_cov, EseKf};
use crate::fixed::{Fixed, ONE};
use crate::linear::{M3, Quat, V3};
use crate::manifold::{grav_length, StateIkfom, S2_GRAV_TYP};
use crate::matrix::{has_shape, table, tabulate, Mat, Rows};
use crate::model::{entry_of, get_f, noise_rows, pick_entry, process_noise_cov, InputIkfom};
use crate::preprocess::copy_cloud;
use crate::s2::S2;
use crate::scalar::{le, lt, whole, zero, Scalar, Widen};
use crate::so3::exp_scaled;
use crate::types::{ImuRaw, LidarType, MeasureGroup, PointType};
use core::cmp::Ordering;
use vstd::prelude::*;

verus! {

/// Number of inertial measurements that the start-up statistics need.
pub const MAX_INI_COUNT: u64 = 10;

/// The standard gravity of the model.
pub open spec fn gravity<W: Scalar>() -> W {
    W::ratio_spec(981, 100)
}

/// The state of the sensor at one time of a scan.
#[derive(Clone, Copy, Debug)]
pub struct Pose6D<W> {
    /// Seconds since the start of the scan.
    pub offset_time: W,
    pub acc: V3<W>,
    pub gyr: V3<W>,
    pub vel: V3<W>,
    pub pos: V3<W>,
    pub rot: M3<W>,
}

/// The acceleration of a measurement.
#[verifier::allow_in_spec]
pub fn acc_of<W: Scalar>(m: ImuRaw<W>) -> V3<W>
    returns
        (V3 { x: m.acc[0], y: m.acc[1], z: m.acc[2] }),
{
    V3 { x: m.acc[0], y: m.acc[1], z: m.acc[2] }
}

/// The angular velocity of a measurement.
#[verifier::allow_in_spec]
pub fn gyr_of<W: Scalar>(m: ImuRaw<W>) -> V3<W>
    returns
        (V3 { x: m.gyr[0], y: m.gyr[1], z: m.gyr[2] }),
{
    V3 { x: m.gyr[0], y: m.gyr[1], z: m.gyr[2] }
}

/// Running means and variances.
#[derive(Clone, Copy, Debug)]
pub struct ImuStats<W> {
    pub mean_acc: V3<W>,
    pub mean_gyr: V3<W>,
    pub cov_acc: V3<W>,
    pub cov_gyr: V3<W>,
}

/// A mean with the `n`-th value taken in.
pub open spec fn mean_with<W: Scalar>(mean: V3<W>, v: V3<W>, n: W) -> V3<W> {
    mean.sum(v.diff(mean).shared(n))
}

/// A variance with the `n`-th value taken in, of which the new mean is known.
pub open spec fn cov_with<W: Scalar>(cov: V3<W>, mean: V3<W>, v: V3<W>, n: W) -> V3<W> {
    let less = n.minus_spec(W::ratio_spec(1, 1));
    cov.scaled(less).shared(n).sum(
        v.diff(mean).squares().scaled(less).shared(n.times_spec(n)),
    )
}

/// The statistics with the `n`-th measurement taken in.
pub open spec fn stats_with<W: Scalar>(s: ImuStats<W>, m: ImuRaw<W>, n: W) -> ImuStats<W> {
    let mean_acc = mean_with(s.mean_acc, acc_of(m), n);
    let mean_gyr = mean_with(s.mean_gyr, gyr_of(m), n);
    ImuStats {
        mean_acc,
        mean_gyr,
        cov_acc: cov_with(s.cov_acc, mean_acc, acc_of(m), n),
        cov_gyr: cov_with(s.cov_gyr, mean_gyr, gyr_of(m), n),
    }
}

/// A count that stops at the end of its range.
pub open spec fn counted(start: u64, k: int) -> u64 {
    if start + k < u64::MAX {
        (start + k) as u64
    } else {
        u64::MAX
    }
}

/// The statistics after the first `k` measurements of a group.
pub open spec fn stats_after<W: Scalar>(
    s: ImuStats<W>,
    imu: Seq<ImuRaw<W>>,
    start: u64,
    k: nat,
) -> ImuStats<W>
    decreases k,
{
    if k == 0 {
        s
    } else {
        stats_with(
            stats_after(s, imu, start, (k - 1) as nat),
            imu[k - 1],
            whole::<W>(counted(start, k - 1) as int),
        )
    }
}

/// The uncertainty of the state after start-up, along its diagonal.
pub open spec fn start_level<W: Scalar>(i: int) -> W {
    if 6 <= i < 12 || i == 21 || i == 22 {
        W::ratio_spec(1, 100000)
    } else if 15 <= i < 18 {
        W::ratio_spec(1, 10000)
    } else if 18 <= i < 21 {
        W::ratio_spec(1, 1000)
    } else {
        W::ratio_spec(1, 1)
    }
}

/// The covariance of the state after start-up.
pub open spec fn start_cov<W: Scalar>() -> Rows<W> {
    table(
        23,
        23,
        |i: int, j: int|
            if i == j {
                start_level::<W>(i)
            } else {
                zero::<W>()
            },
    )
}

/// The entry of the process noise `i` along its diagonal.
pub open spec fn level_of<W>(gyr: V3<W>, acc: V3<W>, bg: V3<W>, ba: V3<W>, i: int) -> W {
    if i < 3 {
        entry_of(gyr, i)
    } else if i < 6 {
        entry_of(acc, i - 3)
    } else if i < 9 {
        entry_of(bg, i - 6)
    } else {
        entry_of(ba, i - 9)
    }
}

/// A process noise with its diagonal replaced.
pub open spec fn noise_with<W: Scalar>(
    q: Rows<W>,
    gyr: V3<W>,
    acc: V3<W>,
    bg: V3<W>,
    ba: V3<W>,
) -> Rows<W> {
    table(
        12,
        12,
        |i: int, j: int|
            if i == j {
                level_of(gyr, acc, bg, ba, i)
            } else {
                q[i][j]
            },
    )
}

/// The fields of an [`ImuProcess`].
pub struct ImuState<W> {
    pub cov_acc: V3<W>,
    pub cov_gyr: V3<W>,
    pub cov_acc_scale: V3<W>,
    pub cov_gyr_scale: V3<W>,
    pub cov_bias_gyr: V3<W>,
    pub cov_bias_acc: V3<W>,
    pub first_lidar_time: W,
    pub lidar_type: LidarType,
    pub q: Rows<W>,
    pub mean_acc: V3<W>,
    pub mean_gyr: V3<W>,
    pub angvel_last: V3<W>,
    pub acc_s_last: V3<W>,
    pub lidar_r_wrt_imu: M3<W>,
    pub lidar_t_wrt_imu: V3<W>,
    pub start_timestamp: W,
    pub last_lidar_end_time: W,
    pub init_iter_num: u64,
    pub b_first_frame: bool,
    pub imu_need_init: bool,
    pub last_imu: Option<ImuRaw<W>>,
    pub imu_pose: Seq<Pose6D<W>>,
}

/// The state before start-up.
pub open spec fn was_reset<W: Scalar>(s: ImuState<W>) -> ImuState<W> {
    ImuState {
        mean_acc: V3 { x: zero::<W>(), y: zero::<W>(), z: W::ratio_spec(-1, 1) },
        mean_gyr: V3::zeros(),
        angvel_last: V3::zeros(),
        imu_need_init: true,
        start_timestamp: W::ratio_spec(-1, 1),
        init_iter_num: 1,
        imu_pose: Seq::empty(),
        last_imu: None,
        ..s
    }
}

/// The state at the begin of a group: the first group of all starts over with its
/// first measurement.
pub open spec fn begun<W: Scalar>(s: ImuState<W>, beg: W, imu: Seq<ImuRaw<W>>) -> ImuState<W> {
    if s.b_first_frame {
        ImuState {
            b_first_frame: false,
            mean_acc: acc_of(imu[0]),
            mean_gyr: gyr_of(imu[0]),
            first_lidar_time: beg,
            ..was_reset(s)
        }
    } else {
        s
    }
}

/// The state with the measurements of a group taken into the statistics.
pub open spec fn gathered<W: Scalar>(s: ImuState<W>, beg: W, imu: Seq<ImuRaw<W>>) -> ImuState<W> {
    let b = begun(s, beg, imu);
    let from = ImuStats {
        mean_acc: b.mean_acc,
        mean_gyr: b.mean_gyr,
        cov_acc: b.cov_acc,
        cov_gyr: b.cov_gyr,
    };
    let t = stats_after(from, imu, b.init_iter_num, imu.len());
    ImuState {
        mean_acc: t.mean_acc,
        mean_gyr: t.mean_gyr,
        cov_acc: t.cov_acc,
        cov_gyr: t.cov_gyr,
        init_iter_num: counted(b.init_iter_num, imu.len() as int),
        last_imu: Some(imu[imu.len() - 1]),
        ..b
    }
}

/// The accelerations of measurements.
pub open spec fn accs_of<W: Scalar>(imu: Seq<ImuRaw<W>>) -> Seq<V3<W>> {
    Seq::new(imu.len(), |i: int| acc_of(imu[i]))
}

/// The angular velocities of measurements.
pub open spec fn gyrs_of<W: Scalar>(imu: Seq<ImuRaw<W>>) -> Seq<V3<W>> {
    Seq::new(imu.len(), |i: int| gyr_of(imu[i]))
}

/// The sum of the values of a coordinate, in units.
pub open spec fn units_of(vs: Seq<V3<Fixed>>, axis: int) -> int
    decreases vs.len(),
{
    if vs.len() == 0 {
        0
    } else {
        units_of(vs.drop_last(), axis) + entry_of(vs.last(), axis).raw
    }
}

/// The number is far from the ends of its range.
pub open spec fn is_moderate(a: Fixed) -> bool {
    -0x2000_0000_0000_0000 <= a.raw <= 0x2000_0000_0000_0000
}

/// The coordinates are far from the ends of their range.
pub open spec fn all_moderate(vs: Seq<V3<Fixed>>) -> bool {
    forall|i: int|
        0 <= i < vs.len() ==> is_moderate((#[trigger] vs[i]).x) && is_moderate(vs[i].y)
            && is_moderate(vs[i].z)
}

/// `a` is the mean of `n` values with the sum of units `total`, rounded down: it falls
/// short of it by at most half a unit for each value but one.
pub open spec fn is_mean(a: Fixed, total: int, n: int) -> bool {
    is_moderate(a) && 0 <= total - n * a.raw && 2 * (total - n * a.raw) <= n * (n - 1)
}

/// `mean` is the mean of the vectors in each coordinate, rounded down.
pub open spec fn averages(mean: V3<Fixed>, vs: Seq<V3<Fixed>>) -> bool {
    let n = vs.len() as int;
    is_mean(mean.x, units_of(vs, 0), n) && is_mean(mean.y, units_of(vs, 1), n) && is_mean(
        mean.z,
        units_of(vs, 2),
        n,
    )
}

/// The mean of a coordinate with the `n`-th value taken in.
proof fn lemma_mean_step(mean: Fixed, v: Fixed, n: int, total: int)
    requires
        0 < n < 0x1000_0000_0000,
        is_moderate(v),
        is_moderate(mean),
        n > 1 ==> is_mean(mean, total, n - 1),
        n == 1 ==> total == 0,
    ensures
        is_mean(
            mean.plus_spec(v.minus_spec(mean).over_spec(whole(n))),
            total + v.raw,
            n,
        ),
{
    let m = mean.raw as int;
    let d = v.raw - m;
    let one = ONE as int;
    assert(v.minus_spec(mean).raw == d);
    assert(whole::<Fixed>(n).raw == n * one);
    let q = d / n;
    assert((d * one) / (n * one) == q) by (nonlinear_arith)
        requires
            one == 65536,
            n > 0,
            q == d / n,
    ;
    assert(q * n <= d < q * n + n && (d >= 0 ==> 0 <= q <= d) && (d < 0 ==> d <= q < 0))
        by (nonlinear_arith)
        requires
            n > 0,
            q == d / n,
    ;
    let r = mean.plus_spec(v.minus_spec(mean).over_spec(whole(n)));
    assert(r.raw == m + q);
    let k = r.raw as int;
    assert(n * k == (n - 1) * m + m + q * n) by (nonlinear_arith)
        requires
            k == m + q,
    ;
    assert(n * (n - 1) == (n - 1) * (n - 2) + 2 * (n - 1)) by (nonlinear_arith);
    if n == 1 {
        assert((n - 1) * m == 0) by (nonlinear_arith)
            requires
                n == 1,
        ;
        assert((n - 1) * (n - 2) == 0) by (nonlinear_arith)
            requires
                n == 1,
        ;
    }
}

/// The means after the first measurements of a group, of which `past` came before.
proof fn lemma_means(
    s: ImuStats<Fixed>,
    past: Seq<ImuRaw<Fixed>>,
    imu: Seq<ImuRaw<Fixed>>,
    k: nat,
)
    requires
        k <= imu.len(),
        past.len() + imu.len() < 0x1000_0000_0000,
        all_moderate(accs_of(past + imu)),
        all_moderate(gyrs_of(past + imu)),
        if past.len() == 0 {
            all_moderate(seq![s.mean_acc, s.mean_gyr])
        } else {
            averages(s.mean_acc, accs_of(past)) && averages(s.mean_gyr, gyrs_of(past))
        },
    ensures
        ({
            let t = stats_after(s, imu, (past.len() + 1) as u64, k);
            let all = past + imu.take(k as int);
            if all.len() == 0 {
                t == s
            } else {
                averages(t.mean_acc, accs_of(all)) && averages(t.mean_gyr, gyrs_of(all))
            }
        }),
    decreases k,
{
    let all = past + imu.take(k as int);
    if k == 0 {
        assert(all =~= past);
    } else {
        let j = (k - 1) as nat;
        lemma_means(s, past, imu, j);
        let before = past + imu.take(j as int);
        let t = stats_after(s, imu, (past.len() + 1) as u64, j);
        let m = imu[k - 1];
        let n = all.len() as int;
        assert(all.drop_last() =~= before);
        assert(accs_of(all).drop_last() =~= accs_of(before));
        assert(gyrs_of(all).drop_last() =~= gyrs_of(before));
        assert(accs_of(all).last() == acc_of(m));
        assert(gyrs_of(all).last() == gyr_of(m));
        assert((past + imu)[n - 1] == m);
        assert(accs_of(past + imu)[n - 1] == acc_of(m));
        assert(gyrs_of(past + imu)[n - 1] == gyr_of(m));
        assert(counted((past.len() + 1) as u64, k - 1) == n);
        if n == 1 {
            assert(seq![s.mean_acc, s.mean_gyr][0] == t.mean_acc);
            assert(seq![s.mean_acc, s.mean_gyr][1] == t.mean_gyr);
        }
        lemma_mean_step(t.mean_acc.x, acc_of(m).x, n, units_of(accs_of(before), 0));
        lemma_mean_step(t.mean_acc.y, acc_of(m).y, n, units_of(accs_of(before), 1));
        lemma_mean_step(t.mean_acc.z, acc_of(m).z, n, units_of(accs_of(before), 2));
        lemma_mean_step(t.mean_gyr.x, gyr_of(m).x, n, units_of(gyrs_of(before), 0));
        lemma_mean_step(t.mean_gyr.y, gyr_of(m).y, n, units_of(gyrs_of(before), 1));
        lemma_mean_step(t.mean_gyr.z, gyr_of(m).z, n, units_of(gyrs_of(before), 2));
    }
}

/// In fixed point, start-up averages: after each group the means are those of all the
/// measurements so far, of the groups before (`past`) and of this one.
pub proof fn law_start_up_averages(
    s: ImuState<Fixed>,
    past: Seq<ImuRaw<Fixed>>,
    beg: Fixed,
    imu: Seq<ImuRaw<Fixed>>,
)
    requires
        imu.len() > 0,
        past.len() + imu.len() < 0x1000_0000_0000,
        all_moderate(accs_of(past + imu)),
        all_moderate(gyrs_of(past + imu)),
        s.b_first_frame <==> past.len() == 0,
        past.len() > 0 ==> s.init_iter_num == past.len() + 1,
        past.len() > 0 ==> averages(s.mean_acc, accs_of(past)),
        past.len() > 0 ==> averages(s.mean_gyr, gyrs_of(past)),
    ensures
        gathered(s, beg, imu).init_iter_num == past.len() + imu.len() + 1,
        averages(gathered(s, beg, imu).mean_acc, accs_of(past + imu)),
        averages(gathered(s, beg, imu).mean_gyr, gyrs_of(past + imu)),
{
    let b = begun(s, beg, imu);
    let from = ImuStats {
        mean_acc: b.mean_acc,
        mean_gyr: b.mean_gyr,
        cov_acc: b.cov_acc,
        cov_gyr: b.cov_gyr,
    };
    if past.len() == 0 {
        assert((past + imu)[0] == imu[0]);
        assert(accs_of(past + imu)[0] == from.mean_acc);
        assert(gyrs_of(past + imu)[0] == from.mean_gyr);
    }
    lemma_means(from, past, imu, imu.len());
    assert(imu.take(imu.len() as int) =~= imu);
}

/// The state after a group during start-up, which ends once enough measurements
/// have been taken in.
pub open spec fn initialised<W: Scalar>(s: ImuState<W>, beg: W, imu: Seq<ImuRaw<W>>) -> ImuState<
    W,
> {
    let g = gathered(s, beg, imu);
    if g.init_iter_num > MAX_INI_COUNT {
        ImuState {
            imu_need_init: false,
            cov_acc: g.cov_acc_scale,
            cov_gyr: g.cov_gyr_scale,
            ..g
        }
    } else {
        ImuState { imu_need_init: true, ..g }
    }
}

/// The state of the filter during start-up: gravity against the mean
/// acceleration, the mean angular velocity as bias, and the extrinsics.
pub open spec fn start_state<W: Scalar>(g: ImuState<W>, x: StateIkfom<W>) -> StateIkfom<W> {
    StateIkfom {
        grav: S2::from_vec(
            g.mean_acc.opposite().shared(g.mean_acc.norm()).scaled(gravity()),
            grav_length(),
            S2_GRAV_TYP,
        ),
        bg: g.mean_gyr,
        offset_t_l_i: g.lidar_t_wrt_imu,
        offset_r_l_i: Quat::from_matrix(g.lidar_r_wrt_imu),
        ..x
    }
}

/// The last measurement of the group before, followed by those of a group.
pub open spec fn joined<W>(last: Option<ImuRaw<W>>, imu: Seq<ImuRaw<W>>) -> Seq<ImuRaw<W>> {
    match last {
        Some(m) => seq![m] + imu,
        None => imu,
    }
}

/// The state, its covariance and the poses along the way through a group.
pub struct Track<W> {
    pub x: StateIkfom<W>,
    pub p: Rows<W>,
    pub q: Rows<W>,
    pub input: InputIkfom<W>,
    pub angvel: V3<W>,
    pub acc: V3<W>,
    pub poses: Seq<Pose6D<W>>,
}

/// The pose of a state at a time.
#[verifier::allow_in_spec]
pub fn pose_of<W: Scalar>(x: StateIkfom<W>, acc: V3<W>, gyr: V3<W>, offset_time: W) -> Pose6D<W>
    returns
        (Pose6D { offset_time, acc, gyr, vel: x.vel, pos: x.pos, rot: x.rot.matrix() }),
{
    Pose6D { offset_time, acc, gyr, vel: x.vel, pos: x.pos, rot: x.rot.matrix() }
}

/// The input between two measurements: their mean, with the acceleration in units
/// of the mean acceleration at start-up.
pub open spec fn mean_input<W: Scalar>(s: ImuState<W>, a: ImuRaw<W>, b: ImuRaw<W>) -> InputIkfom<W> {
    let half = W::ratio_spec(1, 2);
    InputIkfom {
        acc: acc_of(a).sum(acc_of(b)).scaled(half).scaled(gravity()).shared(s.mean_acc.norm()),
        gyro: gyr_of(a).sum(gyr_of(b)).scaled(half),
    }
}

/// The time between two measurements that lies after the scan before.
pub open spec fn span_of<W: Scalar>(s: ImuState<W>, a: ImuRaw<W>, b: ImuRaw<W>) -> W {
    if lt(a.stamp, s.last_lidar_end_time) {
        b.stamp.minus_spec(s.last_lidar_end_time)
    } else {
        b.stamp.minus_spec(a.stamp)
    }
}

/// The track at the begin of a group.
pub open spec fn track_start<W: Scalar>(s: ImuState<W>, x: StateIkfom<W>, p: Rows<W>) -> Track<W> {
    Track {
        x,
        p,
        q: s.q,
        input: InputIkfom { acc: V3::zeros(), gyro: V3::zeros() },
        angvel: s.angvel_last,
        acc: s.acc_s_last,
        poses: seq![pose_of(x, s.acc_s_last, s.angvel_last, zero())],
    }
}

/// The track carried on from measurement `a` to measurement `b`; a pair that ends
/// before the end of the last scan is left out.
pub open spec fn track_step<W: Scalar>(
    s: ImuState<W>,
    beg: W,
    t: Track<W>,
    a: ImuRaw<W>,
    b: ImuRaw<W>,
) -> Track<W> {
    if lt(b.stamp, s.last_lidar_end_time) {
        t
    } else {
        let input = mean_input(s, a, b);
        let dt = span_of(s, a, b);
        let q = noise_with(t.q, s.cov_gyr, s.cov_acc, s.cov_bias_gyr, s.cov_bias_acc);
        let x = carried(t.x, get_f(t.x, input), dt);
        let angvel = input.gyro.diff(x.bg);
        let acc = x.rot.rotate(input.acc.diff(x.ba)).sum(x.grav.vec);
        Track {
            x,
            p: predicted_cov(t.x, t.p, q, input, dt),
            q,
            input,
            angvel,
            acc,
            poses: t.poses.push(pose_of(x, acc, angvel, b.stamp.minus_spec(beg))),
        }
    }
}

/// The track after the first `k` pairs of neighbouring measurements.
pub open spec fn track_after<W: Scalar>(
    s: ImuState<W>,
    beg: W,
    x: StateIkfom<W>,
    p: Rows<W>,
    imu: Seq<ImuRaw<W>>,
    k: nat,
) -> Track<W>
    decreases k,
{
    if k == 0 {
        track_start(s, x, p)
    } else {
        track_step(s, beg, track_after(s, beg, x, p, imu, (k - 1) as nat), imu[k - 1], imu[k as int])
    }
}

/// The time from the last measurement to the end of the scan, without its sign.
pub open spec fn tail_span<W: Scalar>(scan_end: W, imu_end: W) -> W {
    let note = if lt(imu_end, scan_end) {
        W::ratio_spec(1, 1)
    } else {
        W::ratio_spec(-1, 1)
    };
    note.times_spec(scan_end.minus_spec(imu_end))
}

/// The time of a point in seconds since the start of its scan.
pub open spec fn time_of<N: Widen<W>, W: Scalar>(p: PointType<N>) -> W {
    p.curvature.widen_spec().over_spec(W::ratio_spec(1000, 1))
}

/// A point moved from the pose at its time to the pose at the end of the scan.
pub open spec fn compensated<N: Widen<W>, W: Scalar>(
    p: PointType<N>,
    head: Pose6D<W>,
    tail: Pose6D<W>,
    end: StateIkfom<W>,
) -> PointType<N> {
    let dt = time_of::<N, W>(p).minus_spec(head.offset_time);
    let turn = head.rot.compose(exp_scaled(tail.gyr, dt));
    let at = V3 { x: p.x.widen_spec(), y: p.y.widen_spec(), z: p.z.widen_spec() };
    let way = head.pos.sum(head.vel.scaled(dt)).sum(
        tail.acc.scaled(W::ratio_spec(1, 2)).scaled(dt).scaled(dt),
    ).diff(end.pos);
    let seen = turn.apply(end.offset_r_l_i.rotate(at).sum(end.offset_t_l_i)).sum(way);
    let to = end.offset_r_l_i.conjugate().rotate(
        end.rot.conjugate().rotate(seen).diff(end.offset_t_l_i),
    );
    PointType {
        x: N::narrow_spec(to.x),
        y: N::narrow_spec(to.y),
        z: N::narrow_spec(to.z),
        ..p
    }
}

/// The points with those from `it` down that were taken after pose `head`
/// compensated, and the last point that is still to be done, -1 when none is.
pub open spec fn swept_back<N: Widen<W>, W: Scalar>(
    pts: Seq<PointType<N>>,
    it: int,
    head: Pose6D<W>,
    tail: Pose6D<W>,
    end: StateIkfom<W>,
) -> (Seq<PointType<N>>, int)
    decreases it + 1,
{
    if 0 <= it < pts.len() && lt(head.offset_time, time_of::<N, W>(pts[it])) {
        swept_back(
            pts.update(it, compensated(pts[it], head, tail, end)),
            it - 1,
            head,
            tail,
            end,
        )
    } else {
        (pts, it)
    }
}

/// The points compensated against the poses from number `k` down to the first.
pub open spec fn swept<N: Widen<W>, W: Scalar>(
    pts: Seq<PointType<N>>,
    it: int,
    poses: Seq<Pose6D<W>>,
    k: int,
    end: StateIkfom<W>,
) -> Seq<PointType<N>>
    decreases k,
{
    if k < 1 {
        pts
    } else {
        let r = swept_back(pts, it, poses[k - 1], poses[k], end);
        swept(r.0, r.1, poses, k - 1, end)
    }
}

/// Point `a` was taken before point `b`.
pub open spec fn earlier<N: Scalar>(a: PointType<N>, b: PointType<N>) -> bool {
    lt(a.curvature, b.curvature)
}

/// A list in order of time with a point put behind those that are not later.
pub open spec fn put_in<N: Scalar>(s: Seq<PointType<N>>, p: PointType<N>) -> Seq<PointType<N>>
    decreases s.len(),
{
    if s.len() == 0 || !earlier(p, s.last()) {
        s.push(p)
    } else {
        put_in(s.drop_last(), p).push(s.last())
    }
}

/// The points in order of time, those of the same time in the order they had.
pub open spec fn time_sorted<N: Scalar>(s: Seq<PointType<N>>) -> Seq<PointType<N>>
    decreases s.len(),
{
    if s.len() == 0 {
        s
    } else {
        put_in(time_sorted(s.drop_last()), s.last())
    }
}

/// Every point has a time.
pub open spec fn timed<N: Scalar>(s: Seq<PointType<N>>) -> bool {
    forall|i: int| 0 <= i < s.len() ==> (#[trigger] s[i]).curvature.is_num()
}

/// Orders two points by time.
pub(crate) fn order_in_time<N: Scalar>(a: &PointType<N>, b: &PointType<N>) -> (r: Ordering)
    ensures
        r == (if earlier(*a, *b) {
            Ordering::Less
        } else if earlier(*b, *a) {
            Ordering::Greater
        } else {
            Ordering::Equal
        }),
{
    if a.curvature.less(b.curvature) {
        Ordering::Less
    } else if b.curvature.less(a.curvature) {
        Ordering::Greater
    } else {
        Ordering::Equal
    }
}

/// The points can be put in order of time: each has one, or there is nothing to
/// compare.
pub open spec fn sortable<N: Scalar>(s: Seq<PointType<N>>) -> bool {
    s.len() <= 1 || timed(s)
}

/// Calls `slice::sort_by`, a stable sort: the points come out in order of time,
/// and points of the same time keep their order. The comparison is a total order
/// of points that have a time, as the sort asks for.
#[verifier::external_body]
fn sort_in_time<N: Scalar>(points: &mut Vec<PointType<N>>)
    requires
        timed(old(points)@),
    ensures
        final(points)@ == time_sorted(old(points)@),
{
    points.sort_by(|a, b| order_in_time(a, b));
}

/// Puts the points in order of time.
fn put_in_order<N: Scalar>(points: &mut Vec<PointType<N>>)
    requires
        sortable(old(points)@),
    ensures
        final(points)@ == time_sorted(old(points)@),
{
    if points.len() > 1 {
        sort_in_time(points);
    } else {
        proof {
            reveal_with_fuel(time_sorted, 2);
            assert(points@ =~= time_sorted(points@));
        }
    }
}

/// Putting a point in adds it and nothing else.
proof fn lemma_put_in<N: Scalar>(s: Seq<PointType<N>>, p: PointType<N>)
    ensures
        put_in(s, p).len() == s.len() + 1,
        put_in(s, p).to_multiset() == s.to_multiset().insert(p),
    decreases s.len(),
{
    broadcast use vstd::seq_lib::group_to_multiset_ensures;

    if s.len() == 0 || !earlier(p, s.last()) {
    } else {
        lemma_put_in(s.drop_last(), p);
        assert(s =~= s.drop_last().push(s.last()));
        assert(put_in(s, p).to_multiset() =~= s.to_multiset().insert(p));
    }
}

/// Sorting neither loses nor adds a point.
pub proof fn law_sorting_keeps_points<N: Scalar>(s: Seq<PointType<N>>)
    ensures
        time_sorted(s).len() == s.len(),
        time_sorted(s).to_multiset() == s.to_multiset(),
    decreases s.len(),
{
    broadcast use vstd::seq_lib::group_to_multiset_ensures;

    if s.len() > 0 {
        law_sorting_keeps_points(s.drop_last());
        lemma_put_in(time_sorted(s.drop_last()), s.last());
        assert(s =~= s.drop_last().push(s.last()));
    }
}

proof fn lemma_put_in_order<N: Scalar>(s: Seq<PointType<N>>, p: PointType<N>)
    requires
        timed(s),
        p.curvature.is_num(),
        forall|i: int, j: int| 0 <= i < j < s.len() ==> !earlier(#[trigger] s[j], #[trigger] s[i]),
    ensures
        timed(put_in(s, p)),
        forall|i: int, j: int|
            0 <= i < j < put_in(s, p).len() ==> !earlier(
                #[trigger] put_in(s, p)[j],
                #[trigger] put_in(s, p)[i],
            ),
        s.len() > 0 && earlier(p, s.last()) ==> put_in(s, p).last() == s.last(),
        s.len() == 0 || !earlier(p, s.last()) ==> put_in(s, p).last() == p,
    decreases s.len(),
{
    let r = put_in(s, p);
    if s.len() == 0 || !earlier(p, s.last()) {
        assert forall|i: int, j: int| 0 <= i < j < r.len() implies !earlier(
            #[trigger] r[j],
            #[trigger] r[i],
        ) by {
            if j == s.len() {
                assert(!earlier(s[s.len() - 1], s[i]) || i == s.len() - 1);
            }
        }
    } else {
        let t = s.drop_last();
        lemma_put_in_order(t, p);
        let q = put_in(t, p);
        lemma_put_in(t, p);
        broadcast use vstd::seq_lib::group_to_multiset_ensures;

        assert forall|i: int, j: int| 0 <= i < j < r.len() implies !earlier(
            #[trigger] r[j],
            #[trigger] r[i],
        ) by {
            if j == r.len() - 1 {
                assert(r[i] == q[i]);
                assert(q.to_multiset().contains(q[i]));
                if q[i] != p {
                    assert(t.to_multiset().contains(q[i]));
                    let k = choose|k: int| 0 <= k < t.len() && t[k] == q[i];
                    assert(s[k] == q[i]);
                    assert(!earlier(s[s.len() - 1], s[k]));
                }
            } else {
                assert(r[i] == q[i] && r[j] == q[j]);
            }
        }
        assert forall|i: int| 0 <= i < r.len() implies (#[trigger] r[i]).curvature.is_num() by {
            if i < r.len() - 1 {
                assert(r[i] == q[i]);
            }
        }
    }
}

/// Sorting puts the points in order of time.
pub proof fn law_sorted_in_time<N: Scalar>(s: Seq<PointType<N>>)
    requires
        timed(s),
    ensures
        timed(time_sorted(s)),
        forall|i: int, j: int|
            0 <= i < j < time_sorted(s).len() ==> !earlier(
                #[trigger] time_sorted(s)[j],
                #[trigger] time_sorted(s)[i],
            ),
    decreases s.len(),
{
    if s.len() > 0 {
        assert forall|i: int| 0 <= i < s.len() - 1 implies (
        #[trigger] s.drop_last()[i]).curvature.is_num() by {
            assert(s[i].curvature.is_num());
        }
        law_sorted_in_time(s.drop_last());
        lemma_put_in_order(time_sorted(s.drop_last()), s.last());
    }
}

/// Processor of inertial measurements.
#[derive(Debug)]
pub struct ImuProcess<W> {
    pub cov_acc: V3<W>,
    pub cov_gyr: V3<W>,
    pub cov_acc_scale: V3<W>,
    pub cov_gyr_scale: V3<W>,
    pub cov_bias_gyr: V3<W>,
    pub cov_bias_acc: V3<W>,
    pub first_lidar_time: W,
    pub lidar_type: LidarType,
    pub q: Mat<W>,
    pub mean_acc: V3<W>,
    pub mean_gyr: V3<W>,
    pub angvel_last: V3<W>,
    pub acc_s_last: V3<W>,
    pub lidar_r_wrt_imu: M3<W>,
    pub lidar_t_wrt_imu: V3<W>,
    pub start_timestamp: W,
    pub last_lidar_end_time: W,
    pub init_iter_num: u64,
    pub b_first_frame: bool,
    pub imu_need_init: bool,
    pub last_imu: Option<ImuRaw<W>>,
    pub imu_pose: Vec<Pose6D<W>>,
}

impl<W> View for ImuProcess<W> {
    type V = ImuState<W>;

    open spec fn view(&self) -> ImuState<W> {
        ImuState {
            cov_acc: self.cov_acc,
            cov_gyr: self.cov_gyr,
            cov_acc_scale: self.cov_acc_scale,
            cov_gyr_scale: self.cov_gyr_scale,
            cov_bias_gyr: self.cov_bias_gyr,
            cov_bias_acc: self.cov_bias_acc,
            first_lidar_time: self.first_lidar_time,
            lidar_type: self.lidar_type,
            q: self.q@,
            mean_acc: self.mean_acc,
            mean_gyr: self.mean_gyr,
            angvel_last: self.angvel_last,
            acc_s_last: self.acc_s_last,
            lidar_r_wrt_imu: self.lidar_r_wrt_imu,
            lidar_t_wrt_imu: self.lidar_t_wrt_imu,
            start_timestamp: self.start_timestamp,
            last_lidar_end_time: self.last_lidar_end_time,
            init_iter_num: self.init_iter_num,
            b_first_frame: self.b_first_frame,
            imu_need_init: self.imu_need_init,
            last_imu: self.last_imu,
            imu_pose: self.imu_pose@,
        }
    }
}

/// A processor that has seen nothing.
pub open spec fn fresh<W: Scalar>() -> ImuState<W> {
    let tenth = W::ratio_spec(1, 10);
    let small = W::ratio_spec(1, 10000);
    ImuState {
        cov_acc: V3 { x: tenth, y: tenth, z: tenth },
        cov_gyr: V3 { x: tenth, y: tenth, z: tenth },
        cov_acc_scale: V3::zeros(),
        cov_gyr_scale: V3::zeros(),
        cov_bias_gyr: V3 { x: small, y: small, z: small },
        cov_bias_acc: V3 { x: small, y: small, z: small },
        first_lidar_time: zero(),
        lidar_type: LidarType::Avia,
        q: noise_rows(),
        mean_acc: V3 { x: zero::<W>(), y: zero::<W>(), z: W::ratio_spec(-1, 1) },
        mean_gyr: V3::zeros(),
        angvel_last: V3::zeros(),
        acc_s_last: V3::zeros(),
        lidar_r_wrt_imu: M3::identity(),
        lidar_t_wrt_imu: V3::zeros(),
        start_timestamp: W::ratio_spec(-1, 1),
        last_lidar_end_time: zero(),
        init_iter_num: 1,
        b_first_frame: true,
        imu_need_init: true,
        last_imu: None,
        imu_pose: Seq::empty(),
    }
}

/// The track through the group of a scan that starts at `beg`.
pub open spec fn scan_track<W: Scalar>(
    s: ImuState<W>,
    beg: W,
    group: Seq<ImuRaw<W>>,
    x: StateIkfom<W>,
    p: Rows<W>,
) -> Track<W> {
    let imu = joined(s.last_imu, group);
    track_after(s, scan_begin(s, beg), x, p, imu, (imu.len() - 1) as nat)
}

/// The time that the offsets of the poses count from.
pub open spec fn scan_begin<W: Scalar>(s: ImuState<W>, beg: W) -> W {
    if s.lidar_type == LidarType::Marsim {
        s.last_lidar_end_time
    } else {
        beg
    }
}

/// The time from the last measurement of a group to the end of its scan.
pub open spec fn scan_tail<W: Scalar>(end: W, group: Seq<ImuRaw<W>>) -> W {
    tail_span(end, group[group.len() - 1].stamp)
}

/// The processor after a scan.
pub open spec fn scanned_state<W: Scalar>(
    s: ImuState<W>,
    end: W,
    group: Seq<ImuRaw<W>>,
    t: Track<W>,
) -> ImuState<W> {
    ImuState {
        q: t.q,
        angvel_last: t.angvel,
        acc_s_last: t.acc,
        imu_pose: t.poses,
        last_imu: Some(group[group.len() - 1]),
        last_lidar_end_time: end,
        ..s
    }
}

/// The scan as seen from its end: in order of time, and compensated unless it is
/// a simulated one.
pub open spec fn undistorted<N: Widen<W>, W: Scalar>(
    s: ImuState<W>,
    cloud: Seq<PointType<N>>,
    poses: Seq<Pose6D<W>>,
    end: StateIkfom<W>,
) -> Seq<PointType<N>> {
    let pts = time_sorted(cloud);
    if s.lidar_type == LidarType::Marsim {
        pts
    } else {
        swept(pts, pts.len() - 1, poses, poses.len() - 1, end)
    }
}

/// Compensation moves points, and changes nothing else of them.
pub proof fn law_compensation_moves_only<N: Widen<W>, W: Scalar>(
    pts: Seq<PointType<N>>,
    it: int,
    poses: Seq<Pose6D<W>>,
    k: int,
    end: StateIkfom<W>,
)
    ensures
        swept(pts, it, poses, k, end).len() == pts.len(),
        forall|i: int|
            0 <= i < pts.len() ==> {
                let p = #[trigger] swept(pts, it, poses, k, end)[i];
                &&& p.intensity == pts[i].intensity
                &&& p.curvature == pts[i].curvature
                &&& p.normal_x == pts[i].normal_x
                &&& p.normal_y == pts[i].normal_y
                &&& p.normal_z == pts[i].normal_z
            },
    decreases k,
{
    if k >= 1 {
        let r = swept_back(pts, it, poses[k - 1], poses[k], end);
        lemma_sweep_moves_only(pts, it, poses[k - 1], poses[k], end);
        law_compensation_moves_only(r.0, r.1, poses, k - 1, end);
    }
}

proof fn lemma_sweep_moves_only<N: Widen<W>, W: Scalar>(
    pts: Seq<PointType<N>>,
    it: int,
    head: Pose6D<W>,
    tail: Pose6D<W>,
    end: StateIkfom<W>,
)
    ensures
        swept_back(pts, it, head, tail, end).0.len() == pts.len(),
        forall|i: int|
            0 <= i < pts.len() ==> {
                let p = #[trigger] swept_back(pts, it, head, tail, end).0[i];
                &&& p.intensity == pts[i].intensity
                &&& p.curvature == pts[i].curvature
                &&& p.normal_x == pts[i].normal_x
                &&& p.normal_y == pts[i].normal_y
                &&& p.normal_z == pts[i].normal_z
            },
    decreases it + 1,
{
    if 0 <= it < pts.len() && lt(head.offset_time, time_of::<N, W>(pts[it])) {
        lemma_sweep_moves_only(
            pts.update(it, compensated(pts[it], head, tail, end)),
            it - 1,
            head,
            tail,
            end,
        );
    }
}

fn compensate<N: Widen<W>, W: Scalar>(
    p: PointType<N>,
    time: W,
    head: Pose6D<W>,
    tail: Pose6D<W>,
    end: StateIkfom<W>,
) -> (r: PointType<N>)
    requires
        time == time_of::<N, W>(p),
    ensures
        r == compensated(p, head, tail, end),
{
    let dt: W = time.minus(head.offset_time);
    let turn: M3<W> = head.rot.compose(exp_scaled(tail.gyr, dt));
    let at: V3<W> = V3 { x: p.x.widen(), y: p.y.widen(), z: p.z.widen() };
    let way: V3<W> = head.pos.sum(head.vel.scaled(dt)).sum(
        tail.acc.scaled(W::ratio(1, 2)).scaled(dt).scaled(dt),
    ).diff(end.pos);
    let seen: V3<W> = turn.apply(end.offset_r_l_i.rotate(at).sum(end.offset_t_l_i)).sum(way);
    let to: V3<W> = end.offset_r_l_i.conjugate().rotate(
        end.rot.conjugate().rotate(seen).diff(end.offset_t_l_i),
    );
    PointType {
        x: N::narrow(to.x),
        y: N::narrow(to.y),
        z: N::narrow(to.z),
        intensity: p.intensity,
        curvature: p.curvature,
        normal_x: p.normal_x,
        normal_y: p.normal_y,
        normal_z: p.normal_z,
    }
}

/// Compensates the points of a scan against the poses, from its end to its start.
fn sweep<N: Widen<W>, W: Scalar>(
    pts: &mut Vec<PointType<N>>,
    poses: &Vec<Pose6D<W>>,
    end: StateIkfom<W>,
)
    requires
        poses@.len() > 0,
    ensures
        final(pts)@ == swept(
            old(pts)@,
            old(pts)@.len() - 1,
            poses@,
            poses@.len() - 1,
            end,
        ),
{
    let n: usize = pts.len();
    let mut left: usize = n;
    let mut k: usize = poses.len() - 1;
    while k >= 1
        invariant
            left <= n == pts@.len(),
            k < poses@.len(),
            swept(pts@, left - 1, poses@, k as int, end) == swept(
                old(pts)@,
                old(pts)@.len() - 1,
                poses@,
                poses@.len() - 1,
                end,
            ),
        decreases k,
    {
        let head: Pose6D<W> = poses[k - 1];
        let tail: Pose6D<W> = poses[k];
        let ghost goal = swept_back(pts@, left - 1, head, tail, end);
        let mut going: bool = true;
        while going && left > 0
            invariant
                left <= n == pts@.len(),
                going ==> goal == swept_back(pts@, left - 1, head, tail, end),
                !going ==> goal == (pts@, left - 1),
            decreases left, (if going { 1int } else { 0int }),
        {
            let time: W = pts[left - 1].curvature.widen().over(W::ratio(1000, 1));
            if head.offset_time.less(time) {
                let p: PointType<N> = compensate(pts[left - 1], time, head, tail, end);
                pts.set(left - 1, p);
                left = left - 1;
            } else {
                going = false;
            }
        }
        assert(goal == (pts@, left - 1));
        k = k - 1;
    }
}

/// What processing a group does to the count of start-up: without measurements
/// nothing, during start-up they are taken in, and after that it is kept.
pub open spec fn count_step<W: Scalar>(
    s: ImuState<W>,
    t: ImuState<W>,
    beg: W,
    imu: Seq<ImuRaw<W>>,
) -> bool {
    if imu.len() == 0 {
        t == s
    } else if s.imu_need_init {
        t == initialised(s, beg, imu)
    } else {
        !t.imu_need_init && t.init_iter_num == s.init_iter_num && t.b_first_frame == s.b_first_frame
    }
}

/// The number of measurements in the first `k` groups.
pub open spec fn samples_in<W>(groups: Seq<Seq<ImuRaw<W>>>, k: int) -> nat
    decreases k,
{
    if k <= 0 {
        0
    } else {
        samples_in(groups, k - 1) + groups[k - 1].len()
    }
}

proof fn lemma_count_step<W: Scalar>(
    s: ImuState<W>,
    t: ImuState<W>,
    beg: W,
    imu: Seq<ImuRaw<W>>,
    n: nat,
)
    requires
        count_step(s, t, beg, imu),
        s.imu_need_init == (n < MAX_INI_COUNT),
        s.imu_need_init ==> s.init_iter_num == 1 + n,
        s.b_first_frame ==> n == 0,
    ensures
        t.imu_need_init == (n + imu.len() < MAX_INI_COUNT),
        t.imu_need_init ==> t.init_iter_num == 1 + n + imu.len(),
        t.b_first_frame ==> n + imu.len() == 0,
{
    if imu.len() > 0 && s.imu_need_init {
        let g = gathered(s, beg, imu);
        assert(g.init_iter_num == counted((1 + n) as u64, imu.len() as int));
        assert(!g.b_first_frame);
    }
}

/// Start-up lasts while fewer measurements than it needs have come, over however many
/// groups, and does not begin again.
pub proof fn law_start_up<W: Scalar>(
    states: Seq<ImuState<W>>,
    begs: Seq<W>,
    groups: Seq<Seq<ImuRaw<W>>>,
    k: int,
)
    requires
        0 <= k <= groups.len(),
        states.len() == groups.len() + 1,
        states[0] == fresh::<W>(),
        forall|i: int|
            0 <= i < groups.len() ==> count_step(
                #[trigger] states[i],
                states[i + 1],
                begs[i],
                groups[i],
            ),
    ensures
        states[k].imu_need_init == (samples_in(groups, k) < MAX_INI_COUNT),
        states[k].imu_need_init ==> states[k].init_iter_num == 1 + samples_in(groups, k),
        states[k].b_first_frame ==> samples_in(groups, k) == 0,
    decreases k,
{
    if k > 0 {
        law_start_up(states, begs, groups, k - 1);
        lemma_count_step(
            states[k - 1],
            states[k - 1 + 1],
            begs[k - 1],
            groups[k - 1],
            samples_in(groups, k - 1),
        );
    }
}

/// Where the poses move a point that was measured at `p`: by one of the pairs of
/// neighbouring poses up to pair `k`, the last that begins before the point.
pub open spec fn moved_once<N: Widen<W>, W: Scalar>(
    p: PointType<N>,
    to: PointType<N>,
    poses: Seq<Pose6D<W>>,
    k: int,
    end: StateIkfom<W>,
) -> bool {
    exists|j: int|
        1 <= j <= k && to == #[trigger] compensated(p, poses[j - 1], poses[j], end) && lt(
            poses[j - 1].offset_time,
            time_of::<N, W>(p),
        ) && forall|m: int|
            j <= m < k ==> !lt((#[trigger] poses[m]).offset_time, time_of::<N, W>(p))
}

/// The points are in order of time.
pub open spec fn times_in_order<N: Widen<W>, W: Scalar>(pts: Seq<PointType<N>>) -> bool {
    forall|i: int, j: int|
        0 <= i <= j < pts.len() ==> le(
            time_of::<N, W>(#[trigger] pts[i]),
            time_of::<N, W>(#[trigger] pts[j]),
        )
}

/// One pass over the points compensates a tail of those that are left, each from
/// where it was measured, and stops at a point from before the pose.
proof fn lemma_pass<N: Widen<W>, W: Scalar>(
    pts: Seq<PointType<N>>,
    it: int,
    head: Pose6D<W>,
    tail: Pose6D<W>,
    end: StateIkfom<W>,
)
    requires
        -1 <= it < pts.len(),
    ensures
        ({
            let r = swept_back(pts, it, head, tail, end);
            &&& r.0.len() == pts.len()
            &&& -1 <= r.1 <= it
            &&& forall|i: int|
                0 <= i < pts.len() && !(r.1 < i <= it) ==> #[trigger] r.0[i] == pts[i]
            &&& forall|i: int|
                r.1 < i <= it ==> #[trigger] r.0[i] == compensated(pts[i], head, tail, end) && lt(
                    head.offset_time,
                    time_of::<N, W>(pts[i]),
                )
            &&& r.1 >= 0 ==> !lt(head.offset_time, time_of::<N, W>(pts[r.1]))
        }),
    decreases it + 1,
{
    if it >= 0 && lt(head.offset_time, time_of::<N, W>(pts[it])) {
        lemma_pass(
            pts.update(it, compensated(pts[it], head, tail, end)),
            it - 1,
            head,
            tail,
            end,
        );
    }
}

proof fn lemma_swept_once<N: Widen<W>, W: Scalar>(
    pts: Seq<PointType<N>>,
    it: int,
    poses: Seq<Pose6D<W>>,
    k: int,
    end: StateIkfom<W>,
)
    requires
        -1 <= it < pts.len(),
        k < poses.len(),
        forall|i: int, j: int|
            0 <= i <= j <= it ==> le(
                time_of::<N, W>(#[trigger] pts[i]),
                time_of::<N, W>(#[trigger] pts[j]),
            ),
    ensures
        ({
            let r = swept(pts, it, poses, k, end);
            &&& r.len() == pts.len()
            &&& forall|i: int| it < i < pts.len() ==> #[trigger] r[i] == pts[i]
            &&& forall|i: int|
                0 <= i <= it ==> if k >= 1 && lt(poses[0].offset_time, time_of::<N, W>(pts[i])) {
                    moved_once(pts[i], #[trigger] r[i], poses, k, end)
                } else {
                    r[i] == pts[i] || moved_once(pts[i], r[i], poses, k, end)
                }
        }),
    decreases k,
{
    if k >= 1 {
        let s = swept_back(pts, it, poses[k - 1], poses[k], end);
        lemma_pass(pts, it, poses[k - 1], poses[k], end);
        lemma_swept_once(s.0, s.1, poses, k - 1, end);
        let r = swept(pts, it, poses, k, end);
        assert forall|i: int| 0 <= i <= it implies if lt(
            poses[0].offset_time,
            time_of::<N, W>(pts[i]),
        ) {
            moved_once(pts[i], #[trigger] r[i], poses, k, end)
        } else {
            r[i] == pts[i] || moved_once(pts[i], r[i], poses, k, end)
        } by {
            if i > s.1 {
                assert(r[i] == s.0[i]);
                assert(r[i] == compensated(pts[i], poses[k - 1], poses[k], end));
            } else {
                assert(s.0[i] == pts[i]);
                assert(le(time_of::<N, W>(pts[i]), time_of::<N, W>(pts[s.1])));
                if moved_once(pts[i], r[i], poses, k - 1, end) {
                    let j = choose|j: int|
                        1 <= j <= k - 1 && r[i] == #[trigger] compensated(
                            pts[i],
                            poses[j - 1],
                            poses[j],
                            end,
                        ) && lt(poses[j - 1].offset_time, time_of::<N, W>(pts[i])) && forall|m: int|
                            j <= m < k - 1 ==> !lt(
                                (#[trigger] poses[m]).offset_time,
                                time_of::<N, W>(pts[i]),
                            );
                    assert(1 <= j <= k);
                    assert(!lt(poses[k - 1].offset_time, time_of::<N, W>(pts[i])));
                }
            }
        }
    }
}

/// Of a scan in order of time, each point from after the first pose is moved once,
/// from where it was measured, and no point is moved more than once. The points of a
/// simulated scan are not moved.
pub proof fn law_moved_once<N: Widen<W>, W: Scalar>(
    s: ImuState<W>,
    cloud: Seq<PointType<N>>,
    poses: Seq<Pose6D<W>>,
    end: StateIkfom<W>,
    i: int,
)
    requires
        poses.len() > 0,
        times_in_order::<N, W>(time_sorted(cloud)),
        0 <= i < time_sorted(cloud).len(),
    ensures
        ({
            let p = time_sorted(cloud)[i];
            let r = undistorted(s, cloud, poses, end);
            let last = poses.len() - 1;
            &&& r.len() == time_sorted(cloud).len()
            &&& r[i] == p || moved_once(p, r[i], poses, last, end)
            &&& s.lidar_type == LidarType::Marsim ==> r[i] == p
            &&& s.lidar_type != LidarType::Marsim && poses.len() > 1 && lt(
                poses[0].offset_time,
                time_of::<N, W>(p),
            ) ==> moved_once(p, r[i], poses, last, end)
        }),
{
    let pts = time_sorted(cloud);
    lemma_swept_once(pts, pts.len() - 1, poses, poses.len() - 1, end);
}

impl<W: Scalar> ImuProcess<W> {
    /// The invariant: the noise has its size, and after start-up there is a last
    /// measurement.
    pub open spec fn wf(self) -> bool {
        &&& has_shape(self.q@, 12, 12)
        &&& !self.imu_need_init ==> self.last_imu is Some
    }

    /// A processor that has seen nothing.
    pub fn new() -> (r: Self)
        ensures
            r.wf(),
            r@ == fresh::<W>(),
    {
        let o: W = W::ratio(0, 1);
        let tenth: W = W::ratio(1, 10);
        let small: W = W::ratio(1, 10000);
        let r: ImuProcess<W> = ImuProcess {
            cov_acc: V3::new(tenth, tenth, tenth),
            cov_gyr: V3::new(tenth, tenth, tenth),
            cov_acc_scale: V3::zeros(),
            cov_gyr_scale: V3::zeros(),
            cov_bias_gyr: V3::new(small, small, small),
            cov_bias_acc: V3::new(small, small, small),
            first_lidar_time: o,
            lidar_type: LidarType::Avia,
            q: process_noise_cov(),
            mean_acc: V3::new(o, o, W::ratio(-1, 1)),
            mean_gyr: V3::zeros(),
            angvel_last: V3::zeros(),
            acc_s_last: V3::zeros(),
            lidar_r_wrt_imu: M3::identity(),
            lidar_t_wrt_imu: V3::zeros(),
            start_timestamp: W::ratio(-1, 1),
            last_lidar_end_time: o,
            init_iter_num: 1,
            b_first_frame: true,
            imu_need_init: true,
            last_imu: None,
            imu_pose: Vec::new(),
        };
        assert(r@.imu_pose =~= Seq::<Pose6D<W>>::empty());
        r
    }

    /// Goes back to before start-up.
    pub fn reset(&mut self)
        requires
            old(self).wf(),
        ensures
            final(self).wf(),
            final(self)@ == was_reset(old(self)@),
    {
        let o: W = W::ratio(0, 1);
        self.mean_acc = V3::new(o, o, W::ratio(-1, 1));
        self.mean_gyr = V3::zeros();
        self.angvel_last = V3::zeros();
        self.imu_need_init = true;
        self.start_timestamp = W::ratio(-1, 1);
        self.init_iter_num = 1;
        self.imu_pose.clear();
        self.last_imu = None;
        assert(self@.imu_pose =~= Seq::<Pose6D<W>>::empty());
    }

    /// Sets where the lidar sits on the inertial unit.
    pub fn set_extrinsic(&mut self, transl: V3<W>, rot: M3<W>)
        ensures
            final(self)@ == (ImuState {
                lidar_t_wrt_imu: transl,
                lidar_r_wrt_imu: rot,
                ..old(self)@
            }),
            old(self).wf() ==> final(self).wf(),
    {
        self.lidar_t_wrt_imu = transl;
        self.lidar_r_wrt_imu = rot;
    }

    /// Sets the variance of the gyroscope.
    pub fn set_gyr_cov(&mut self, scaler: V3<W>)
        ensures
            final(self)@ == (ImuState { cov_gyr_scale: scaler, ..old(self)@ }),
            old(self).wf() ==> final(self).wf(),
    {
        self.cov_gyr_scale = scaler;
    }

    /// Sets the variance of the accelerometer.
    pub fn set_acc_cov(&mut self, scaler: V3<W>)
        ensures
            final(self)@ == (ImuState { cov_acc_scale: scaler, ..old(self)@ }),
            old(self).wf() ==> final(self).wf(),
    {
        self.cov_acc_scale = scaler;
    }

    /// Sets the variance of the bias of the gyroscope.
    pub fn set_gyr_bias_cov(&mut self, b_g: V3<W>)
        ensures
            final(self)@ == (ImuState { cov_bias_gyr: b_g, ..old(self)@ }),
            old(self).wf() ==> final(self).wf(),
    {
        self.cov_bias_gyr = b_g;
    }

    /// Sets the variance of the bias of the accelerometer.
    pub fn set_acc_bias_cov(&mut self, b_a: V3<W>)
        ensures
            final(self)@ == (ImuState { cov_bias_acc: b_a, ..old(self)@ }),
            old(self).wf() ==> final(self).wf(),
    {
        self.cov_bias_acc = b_a;
    }

    /// Processes a group: during start-up it feeds the statistics, after that it
    /// carries the filter to the end of the scan and puts the undistorted scan
    /// into `pcl_un`. A group without inertial measurements changes nothing.
    pub fn process<N: Widen<W>>(
        &mut self,
        meas: &MeasureGroup<N, W>,
        kf: &mut EseKf<W>,
        pcl_un: &mut Vec<PointType<N>>,
    )
        requires
            old(self).wf(),
            old(kf).wf(),
            meas.imu@.len() > 0 && !old(self).imu_need_init ==> sortable(meas.lidar@),
        ensures
            final(self).wf(),
            final(kf).wf(),
            final(kf).maximum_iter == old(kf).maximum_iter,
            final(kf).limit == old(kf).limit,
            meas.imu@.len() == 0 ==> *final(self) == *old(self) && *final(kf) == *old(kf)
                && final(pcl_un)@ == old(pcl_un)@,
            meas.imu@.len() > 0 && old(self).imu_need_init ==> {
                &&& final(self)@ == initialised(old(self)@, meas.lidar_beg_time, meas.imu@)
                &&& final(kf).x == start_state(
                    gathered(old(self)@, meas.lidar_beg_time, meas.imu@),
                    old(kf).x,
                )
                &&& final(kf).p@ == start_cov::<W>()
                &&& final(pcl_un)@ == old(pcl_un)@
            },
            meas.imu@.len() > 0 && !old(self).imu_need_init ==> {
                let t = scan_track(
                    old(self)@,
                    meas.lidar_beg_time,
                    meas.imu@,
                    old(kf).x,
                    old(kf).p@,
                );
                let dt = scan_tail(meas.lidar_end_time, meas.imu@);
                let end = carried(t.x, get_f(t.x, t.input), dt);
                &&& final(self)@ == scanned_state(old(self)@, meas.lidar_end_time, meas.imu@, t)
                &&& final(kf).x == end
                &&& final(kf).p@ == predicted_cov(t.x, t.p, t.q, t.input, dt)
                &&& final(pcl_un)@ == undistorted(old(self)@, meas.lidar@, t.poses, end)
            },
    {
        if meas.imu.len() == 0 {
            return ;
        }
        if self.imu_need_init {
            self.imu_init(meas, kf);
            self.imu_need_init = true;
            if self.init_iter_num > MAX_INI_COUNT {
                self.imu_need_init = false;
                self.cov_acc = self.cov_acc_scale;
                self.cov_gyr = self.cov_gyr_scale;
            }
            return ;
        }
        self.undistort_pcl(meas, kf, pcl_un);
    }

    /// Takes the measurements of a group into the statistics and starts the filter
    /// from them.
    fn imu_init<N: Widen<W>>(&mut self, meas: &MeasureGroup<N, W>, kf: &mut EseKf<W>)
        requires
            old(self).wf(),
            old(self).imu_need_init,
            old(kf).wf(),
            meas.imu@.len() > 0,
        ensures
            final(self).wf(),
            final(self)@ == gathered(old(self)@, meas.lidar_beg_time, meas.imu@),
            final(kf).wf(),
            final(kf).maximum_iter == old(kf).maximum_iter,
            final(kf).limit == old(kf).limit,
            final(kf).x == start_state(
                gathered(old(self)@, meas.lidar_beg_time, meas.imu@),
                old(kf).x,
            ),
            final(kf).p@ == start_cov::<W>(),
    {
        if self.b_first_frame {
            self.reset();
            self.b_first_frame = false;
            self.mean_acc = acc_of(meas.imu[0]);
            self.mean_gyr = gyr_of(meas.imu[0]);
            self.first_lidar_time = meas.lidar_beg_time;
        }
        let ghost b = self@;
        assert(b == begun(old(self)@, meas.lidar_beg_time, meas.imu@));
        let start: u64 = self.init_iter_num;
        let ghost from = ImuStats {
            mean_acc: b.mean_acc,
            mean_gyr: b.mean_gyr,
            cov_acc: b.cov_acc,
            cov_gyr: b.cov_gyr,
        };
        let mut s: ImuStats<W> = ImuStats {
            mean_acc: self.mean_acc,
            mean_gyr: self.mean_gyr,
            cov_acc: self.cov_acc,
            cov_gyr: self.cov_gyr,
        };
        let one: W = W::ratio(1, 1);
        let len: usize = meas.imu.len();
        let mut n: u64 = start;
        let mut k: usize = 0;
        while k < len
            invariant
                k <= len == meas.imu@.len(),
                one == W::ratio_spec(1, 1),
                n == counted(start, k as int),
                s == stats_after(from, meas.imu@, start, k as nat),
            decreases len - k,
        {
            let m: ImuRaw<W> = meas.imu[k];
            let c: W = W::count(n);
            let less: W = c.minus(one);
            let mean_acc: V3<W> = s.mean_acc.sum(acc_of(m).diff(s.mean_acc).shared(c));
            let mean_gyr: V3<W> = s.mean_gyr.sum(gyr_of(m).diff(s.mean_gyr).shared(c));
            let da: V3<W> = acc_of(m).diff(mean_acc).squares();
            let dg: V3<W> = gyr_of(m).diff(mean_gyr).squares();
            let sq: W = c.times(c);
            s =
            ImuStats {
                mean_acc,
                mean_gyr,
                cov_acc: s.cov_acc.scaled(less).shared(c).sum(da.scaled(less).shared(sq)),
                cov_gyr: s.cov_gyr.scaled(less).shared(c).sum(dg.scaled(less).shared(sq)),
            };
            if n < u64::MAX {
                n = n + 1;
            }
            k = k + 1;
        }
        self.mean_acc = s.mean_acc;
        self.mean_gyr = s.mean_gyr;
        self.cov_acc = s.cov_acc;
        self.cov_gyr = s.cov_gyr;
        self.init_iter_num = n;
        self.last_imu = Some(meas.imu[len - 1]);
        let up: V3<W> = s.mean_acc.opposite().shared(s.mean_acc.norm()).scaled(W::ratio(981, 100));
        let mut x: StateIkfom<W> = *kf.get_x();
        x.grav = S2::from_vec(up, grav_length(), S2_GRAV_TYP);
        x.bg = self.mean_gyr;
        x.offset_t_l_i = self.lidar_t_wrt_imu;
        x.offset_r_l_i = Quat::from_matrix(self.lidar_r_wrt_imu);
        kf.change_x(x);
        kf.change_p(start_cov_matrix());
    }

    /// Carries the filter through the group and undistorts the scan.
    fn undistort_pcl<N: Widen<W>>(
        &mut self,
        meas: &MeasureGroup<N, W>,
        kf: &mut EseKf<W>,
        pcl_out: &mut Vec<PointType<N>>,
    )
        requires
            old(self).wf(),
            old(kf).wf(),
            sortable(meas.lidar@),
            meas.imu@.len() > 0,
        ensures
            !old(self).imu_need_init ==> final(self).wf(),
            final(self).imu_need_init == old(self).imu_need_init,
            final(kf).wf(),
            final(kf).maximum_iter == old(kf).maximum_iter,
            final(kf).limit == old(kf).limit,
            ({
                let t = scan_track(
                    old(self)@,
                    meas.lidar_beg_time,
                    meas.imu@,
                    old(kf).x,
                    old(kf).p@,
                );
                let dt = scan_tail(meas.lidar_end_time, meas.imu@);
                let end = carried(t.x, get_f(t.x, t.input), dt);
                &&& final(self)@ == scanned_state(old(self)@, meas.lidar_end_time, meas.imu@, t)
                &&& final(kf).x == end
                &&& final(kf).p@ == predicted_cov(t.x, t.p, t.q, t.input, dt)
                &&& final(pcl_out)@ == undistorted(old(self)@, meas.lidar@, t.poses, end)
            }),
    {
        let ghost s0 = self@;
        let ghost x0 = kf.x;
        let ghost p0 = kf.p@;
        let ghost imu = joined(s0.last_imu, meas.imu@);
        let beg: W = if self.lidar_type == LidarType::Marsim {
            self.last_lidar_end_time
        } else {
            meas.lidar_beg_time
        };
        let len: usize = meas.imu.len();
        let mut pts: Vec<PointType<N>> = copy_cloud(&meas.lidar);
        put_in_order(&mut pts);
        let mut input: InputIkfom<W> = InputIkfom { acc: V3::zeros(), gyro: V3::zeros() };
        let first: Pose6D<W> = pose_of(
            *kf.get_x(),
            self.acc_s_last,
            self.angvel_last,
            W::ratio(0, 1),
        );
        self.imu_pose.clear();
        self.imu_pose.push(first);
        let mean: W = self.mean_acc.norm();
        let half: W = W::ratio(1, 2);
        let g: W = W::ratio(981, 100);
        let mut prev: ImuRaw<W> = match self.last_imu {
            Some(m) => m,
            None => meas.imu[0],
        };
        let skip: usize = match self.last_imu {
            Some(_) => 0,
            None => 1,
        };
        let mut k: usize = skip;
        assert(self.imu_pose@ =~= track_start(s0, x0, p0).poses);
        while k < len
            invariant
                skip <= k <= len == meas.imu@.len(),
                skip == if s0.last_imu is Some {
                    0usize
                } else {
                    1
                },
                imu == joined(s0.last_imu, meas.imu@),
                kf.wf(),
                kf.maximum_iter == old(kf).maximum_iter,
                kf.limit == old(kf).limit,
                has_shape(self.q@, 12, 12),
                mean == s0.mean_acc.norm(),
                half == W::ratio_spec(1, 2),
                g == gravity::<W>(),
                prev == imu[k - skip],
                ({
                    let t = track_after(s0, beg, x0, p0, imu, (k - skip) as nat);
                    &&& kf.x == t.x
                    &&& kf.p@ == t.p
                    &&& input == t.input
                    &&& self@ == (ImuState {
                        q: t.q,
                        angvel_last: t.angvel,
                        acc_s_last: t.acc,
                        imu_pose: t.poses,
                        ..s0
                    })
                }),
            decreases len - k,
        {
            let next: ImuRaw<W> = meas.imu[k];
            let ghost j = (k - skip) as nat;
            let ghost t = track_after(s0, beg, x0, p0, imu, j);
            assert(next == imu[j as int + 1]);
            assert(track_after(s0, beg, x0, p0, imu, j + 1) == track_step(s0, beg, t, prev, next));
            if !next.stamp.less(self.last_lidar_end_time) {
                let gyr: V3<W> = gyr_of(prev).sum(gyr_of(next)).scaled(half);
                let acc: V3<W> = acc_of(prev).sum(acc_of(next)).scaled(half).scaled(g).shared(mean);
                let dt: W = if prev.stamp.less(self.last_lidar_end_time) {
                    next.stamp.minus(self.last_lidar_end_time)
                } else {
                    next.stamp.minus(prev.stamp)
                };
                input = InputIkfom { acc, gyro: gyr };
                self.set_noise();
                kf.predict(dt, &self.q, input);
                let x: StateIkfom<W> = *kf.get_x();
                self.angvel_last = gyr.diff(x.bg);
                self.acc_s_last = x.rot.rotate(acc.diff(x.ba)).sum(x.grav.vec);
                let pose: Pose6D<W> = pose_of(
                    x,
                    self.acc_s_last,
                    self.angvel_last,
                    next.stamp.minus(beg),
                );
                self.imu_pose.push(pose);
            }
            prev = next;
            k = k + 1;
        }
        let ghost t = track_after(s0, beg, x0, p0, imu, (len - skip) as nat);
        assert(len - skip == imu.len() - 1);
        assert(t == scan_track(s0, meas.lidar_beg_time, meas.imu@, x0, p0));
        let scan_end: W = meas.lidar_end_time;
        let imu_end: W = meas.imu[len - 1].stamp;
        let note: W = if imu_end.less(scan_end) {
            W::ratio(1, 1)
        } else {
            W::ratio(-1, 1)
        };
        let dt: W = note.times(scan_end.minus(imu_end));
        kf.predict(dt, &self.q, input);
        self.last_imu = Some(meas.imu[len - 1]);
        self.last_lidar_end_time = scan_end;
        proof {
            lemma_has_pose(s0, beg, x0, p0, imu, (len - skip) as nat);
        }
        if self.lidar_type != LidarType::Marsim {
            sweep(&mut pts, &self.imu_pose, *kf.get_x());
        }
        *pcl_out = pts;
    }

    fn set_noise(&mut self)
        requires
            has_shape(old(self).q@, 12, 12),
        ensures
            has_shape(final(self).q@, 12, 12),
            final(self)@ == (ImuState {
                q: noise_with(
                    old(self).q@,
                    old(self).cov_gyr,
                    old(self).cov_acc,
                    old(self).cov_bias_gyr,
                    old(self).cov_bias_acc,
                ),
                ..old(self)@
            }),
    {
        let q: &Mat<W> = &self.q;
        let gyr: V3<W> = self.cov_gyr;
        let acc: V3<W> = self.cov_acc;
        let bg: V3<W> = self.cov_bias_gyr;
        let ba: V3<W> = self.cov_bias_acc;
        let f = |i: usize, j: usize| -> (v: W)
            requires
                i < 12,
                j < 12,
            ensures
                v == if i == j {
                    level_of(gyr, acc, bg, ba, i as int)
                } else {
                    q@[i as int][j as int]
                },
            {
                if i != j {
                    q.at(i, j)
                } else if i < 3 {
                    pick_entry(gyr, i)
                } else if i < 6 {
                    pick_entry(acc, i - 3)
                } else if i < 9 {
                    pick_entry(bg, i - 6)
                } else {
                    pick_entry(ba, i - 9)
                }
            };
        let next: Mat<W> = tabulate(
            12,
            12,
            f,
            Ghost(
                |i: int, j: int|
                    if i == j {
                        level_of(gyr, acc, bg, ba, i)
                    } else {
                        q@[i][j]
                    },
            ),
        );
        self.q = next;
    }
}

/// A track has a pose for its start.
proof fn lemma_has_pose<W: Scalar>(
    s: ImuState<W>,
    beg: W,
    x: StateIkfom<W>,
    p: Rows<W>,
    imu: Seq<ImuRaw<W>>,
    k: nat,
)
    ensures
        track_after(s, beg, x, p, imu, k).poses.len() > 0,
    decreases k,
{
    if k > 0 {
        lemma_has_pose(s, beg, x, p, imu, (k - 1) as nat);
    }
}

fn start_cov_matrix<W: Scalar>() -> (r: Mat<W>)
    ensures
        r@ == start_cov::<W>(),
        has_shape(r@, 23, 23),
{
    let f = |i: usize, j: usize| -> (v: W)
        ensures
            v == if i == j {
                start_level::<W>(i as int)
            } else {
                zero::<W>()
            },
        {
            if i != j {
                W::ratio(0, 1)
            } else if (6 <= i && i < 12) || i == 21 || i == 22 {
                W::ratio(1, 100000)
            } else if 15 <= i && i < 18 {
                W::ratio(1, 10000)
            } else if 18 <= i && i < 21 {
                W::ratio(1, 1000)
            } else {
                W::ratio(1, 1)
            }
        };
    tabulate(
        23,
        23,
        f,
        Ghost(
            |i: int, j: int|
                if i == j {
                    start_level::<W>(i)
                } else {
                    zero::<W>()
                },
        ),
    )
}

impl<W: Scalar> Default for ImuProcess<W> {
    fn default() -> (r: Self)
        ensures
            r.wf(),
            r@ == fresh::<W>(),
    {
        ImuProcess::new()
    }
}

} // verus!
