//! Buffering of raw samples and their grouping by time.
//!
//! A group is one scan with the inertial measurements up to its end.
pub mod laws;

use crate::imu_processing::time_of;
use crate::preprocess::copy_cloud;
use crate::scalar::{lt, whole, zero, Scalar, Widen};
use crate::types::{ImuRaw, LidarType, MeasureGroup, PointType};
use std::collections::VecDeque;
use vstd::prelude::*;

verus! {

/// The buffers, and the group that is being put together.
#[derive(Debug)]
pub struct Intake<N, W> {
    pub time_buffer: VecDeque<W>,
    pub lidar_buffer: VecDeque<Vec<PointType<N>>>,
    pub imu_buffer: VecDeque<ImuRaw<W>>,
    pub meas: MeasureGroup<N, W>,
    pub last_timestamp_lidar: W,
    pub last_timestamp_imu: W,
    pub lidar_end_time: W,
    pub lidar_mean_scantime: W,
    pub scan_num: u64,
    pub lidar_pushed: bool,
    pub lidar_type: LidarType,
    /// What the clock of the inertial unit is ahead of that of the lidar, in seconds.
    pub time_offset: W,
}

/// The contents of an [`Intake`].
pub struct IntakeView<N, W> {
    /// Start times of the scans that wait.
    pub times: Seq<W>,
    /// The scans that wait.
    pub clouds: Seq<Seq<PointType<N>>>,
    /// The inertial measurements that wait.
    pub imu: Seq<ImuRaw<W>>,
    pub group: GroupView<N, W>,
    pub last_timestamp_lidar: W,
    pub last_timestamp_imu: W,
    pub lidar_end_time: W,
    pub lidar_mean_scantime: W,
    pub scan_num: u64,
    /// The scan of the group has been chosen, its measurements have not.
    pub lidar_pushed: bool,
    pub lidar_type: LidarType,
    pub time_offset: W,
}

/// The contents of a group.
pub struct GroupView<N, W> {
    pub beg: W,
    pub end: W,
    pub cloud: Seq<PointType<N>>,
    pub imu: Seq<ImuRaw<W>>,
}

/// The contents of a group.
pub open spec fn group_of<N, W>(m: MeasureGroup<N, W>) -> GroupView<N, W> {
    GroupView { beg: m.lidar_beg_time, end: m.lidar_end_time, cloud: m.lidar@, imu: m.imu@ }
}

impl<N, W> View for Intake<N, W> {
    type V = IntakeView<N, W>;

    open spec fn view(&self) -> IntakeView<N, W> {
        IntakeView {
            times: self.time_buffer@,
            clouds: Seq::new(self.lidar_buffer@.len(), |i: int| self.lidar_buffer@[i]@),
            imu: self.imu_buffer@,
            group: group_of(self.meas),
            last_timestamp_lidar: self.last_timestamp_lidar,
            last_timestamp_imu: self.last_timestamp_imu,
            lidar_end_time: self.lidar_end_time,
            lidar_mean_scantime: self.lidar_mean_scantime,
            scan_num: self.scan_num,
            lidar_pushed: self.lidar_pushed,
            lidar_type: self.lidar_type,
            time_offset: self.time_offset,
        }
    }
}

/// Empty buffers for a lidar and a time offset.
pub open spec fn no_samples<N, W: Scalar>(lidar_type: LidarType, time_offset: W) -> IntakeView<
    N,
    W,
> {
    IntakeView {
        times: Seq::empty(),
        clouds: Seq::empty(),
        imu: Seq::empty(),
        group: GroupView { beg: zero(), end: zero(), cloud: Seq::empty(), imu: Seq::empty() },
        last_timestamp_lidar: zero(),
        last_timestamp_imu: W::ratio_spec(-1, 1),
        lidar_end_time: zero(),
        lidar_mean_scantime: zero(),
        scan_num: 0,
        lidar_pushed: false,
        lidar_type,
        time_offset,
    }
}

/// The buffers with an inertial measurement, its time put on the clock of the
/// lidar; one from before the last one drops those that wait.
pub open spec fn imu_added<N, W: Scalar>(v: IntakeView<N, W>, m: ImuRaw<W>) -> IntakeView<N, W> {
    let stamp = m.stamp.minus_spec(v.time_offset);
    let kept = if lt(stamp, v.last_timestamp_imu) {
        Seq::empty()
    } else {
        v.imu
    };
    IntakeView {
        imu: kept.push(ImuRaw { stamp, ..m }),
        last_timestamp_imu: stamp,
        ..v
    }
}

/// The buffers with a scan; one from before the last one drops those that wait.
pub open spec fn scan_added<N, W: Scalar>(
    v: IntakeView<N, W>,
    stamp: W,
    cloud: Seq<PointType<N>>,
) -> IntakeView<N, W> {
    let back = lt(stamp, v.last_timestamp_lidar);
    IntakeView {
        clouds: (if back {
            Seq::empty()
        } else {
            v.clouds
        }).push(cloud),
        times: (if back {
            Seq::empty()
        } else {
            v.times
        }).push(stamp),
        last_timestamp_lidar: stamp,
        ..v
    }
}

/// The time that a scan took, zero for an empty one.
pub open spec fn duration_of<N: Widen<W>, W: Scalar>(cloud: Seq<PointType<N>>) -> W {
    if cloud.len() == 0 {
        zero()
    } else {
        time_of(cloud[cloud.len() - 1])
    }
}

/// A scan whose times cannot be relied on: it has one point at most, or took less
/// than half the mean time.
pub open spec fn is_short<N: Widen<W>, W: Scalar>(cloud: Seq<PointType<N>>, mean: W) -> bool {
    cloud.len() <= 1 || lt(duration_of(cloud), W::ratio_spec(1, 2).times_spec(mean))
}

/// A count with one more, at the end of its range the same.
pub open spec fn one_more(n: u64) -> u64 {
    if n < u64::MAX {
        (n + 1) as u64
    } else {
        n
    }
}

/// The buffers with the scan of the group chosen: the first that waits. Its end
/// follows from its points, or from the mean time of a scan if it is short; the
/// mean takes in a scan that is not.
pub open spec fn framed<N: Widen<W>, W: Scalar>(v: IntakeView<N, W>) -> IntakeView<N, W> {
    if v.lidar_pushed {
        v
    } else {
        let cloud = v.clouds[0];
        let beg = v.times[0];
        let short = is_short(cloud, v.lidar_mean_scantime);
        let took = duration_of::<N, W>(cloud);
        let num = if short {
            v.scan_num
        } else {
            one_more(v.scan_num)
        };
        let end = if v.lidar_type == LidarType::Marsim {
            beg
        } else if short {
            beg.plus_spec(v.lidar_mean_scantime)
        } else {
            beg.plus_spec(took)
        };
        IntakeView {
            group: GroupView { beg, end, cloud, ..v.group },
            lidar_end_time: end,
            lidar_mean_scantime: if short {
                v.lidar_mean_scantime
            } else {
                v.lidar_mean_scantime.plus_spec(
                    took.minus_spec(v.lidar_mean_scantime).over_spec(whole::<W>(num as int)),
                )
            },
            scan_num: num,
            lidar_pushed: true,
            ..v
        }
    }
}

/// How many measurements from the first on are not after `end`.
pub open spec fn covered<W: Scalar>(imu: Seq<ImuRaw<W>>, end: W) -> nat
    decreases imu.len(),
{
    if imu.len() == 0 || lt(end, imu[0].stamp) {
        0
    } else {
        1 + covered(imu.drop_first(), end)
    }
}

/// A group can be completed: a scan and a measurement wait, and the last
/// measurement is not before the end of the scan.
pub open spec fn is_ready<N: Widen<W>, W: Scalar>(v: IntakeView<N, W>) -> bool {
    v.clouds.len() > 0 && v.imu.len() > 0 && !lt(v.last_timestamp_imu, framed(v).lidar_end_time)
}

/// The buffers after an attempt to complete a group.
pub open spec fn synced<N: Widen<W>, W: Scalar>(v: IntakeView<N, W>) -> IntakeView<N, W> {
    if v.clouds.len() == 0 || v.imu.len() == 0 {
        v
    } else if !is_ready(v) {
        framed(v)
    } else {
        let f = framed(v);
        let n = covered(v.imu, f.lidar_end_time) as int;
        IntakeView {
            group: GroupView { imu: v.imu.take(n), ..f.group },
            imu: v.imu.skip(n),
            clouds: v.clouds.skip(1),
            times: v.times.skip(1),
            lidar_pushed: false,
            ..f
        }
    }
}

proof fn lemma_covered<W: Scalar>(imu: Seq<ImuRaw<W>>, end: W)
    ensures
        covered(imu, end) <= imu.len(),
        forall|i: int| 0 <= i < covered(imu, end) ==> !lt(end, (#[trigger] imu[i]).stamp),
        covered(imu, end) < imu.len() ==> lt(end, imu[covered(imu, end) as int].stamp),
    decreases imu.len(),
{
    if imu.len() > 0 && !lt(end, imu[0].stamp) {
        let rest = imu.drop_first();
        lemma_covered(rest, end);
        assert forall|i: int| 0 <= i < covered(imu, end) implies !lt(
            end,
            (#[trigger] imu[i]).stamp,
        ) by {
            if i > 0 {
                assert(rest[i - 1] == imu[i]);
            }
        }
    }
}

/// A group holds no measurement from after the end of its scan, the next one that
/// waits is from after it, and no measurement is lost or changes its place.
pub proof fn law_group_covers_scan<N: Widen<W>, W: Scalar>(v: IntakeView<N, W>)
    requires
        is_ready(v),
    ensures
        synced(v).group.imu + synced(v).imu == v.imu,
        forall|i: int|
            0 <= i < synced(v).group.imu.len() ==> !lt(
                synced(v).lidar_end_time,
                (#[trigger] synced(v).group.imu[i]).stamp,
            ),
        synced(v).imu.len() > 0 ==> lt(synced(v).lidar_end_time, synced(v).imu[0].stamp),
{
    lemma_covered(v.imu, framed(v).lidar_end_time);
    assert(synced(v).group.imu + synced(v).imu =~= v.imu);
}

/// Scans are grouped in the order in which they came.
pub proof fn law_scans_in_order<N: Widen<W>, W: Scalar>(v: IntakeView<N, W>)
    requires
        is_ready(v),
        v.times.len() == v.clouds.len(),
    ensures
        !v.lidar_pushed ==> synced(v).group.cloud == v.clouds[0] && synced(v).group.beg == v.times[0],
        seq![v.clouds[0]] + synced(v).clouds == v.clouds,
        seq![v.times[0]] + synced(v).times == v.times,
{
    assert(seq![v.clouds[0]] + synced(v).clouds =~= v.clouds);
    assert(seq![v.times[0]] + synced(v).times =~= v.times);
}

/// The measurements that wait are in order of time, and the last one is the last
/// that came.
pub open spec fn imu_in_order<N, W: Scalar>(v: IntakeView<N, W>) -> bool {
    &&& v.last_timestamp_imu.is_num()
    &&& forall|i: int| 0 <= i < v.imu.len() ==> (#[trigger] v.imu[i]).stamp.is_num()
    &&& forall|i: int, j: int|
        0 <= i <= j < v.imu.len() ==> (#[trigger] v.imu[i]).stamp.key() <= (
        #[trigger] v.imu[j]).stamp.key()
    &&& v.imu.len() > 0 ==> v.imu.last().stamp == v.last_timestamp_imu
}

/// Measurements whose times are numbers are kept in order of time, whenever they
/// come, and stay so when scans come and groups are completed.
pub proof fn law_imu_stays_in_order<N: Widen<W>, W: Scalar>(
    v: IntakeView<N, W>,
    m: ImuRaw<W>,
    stamp: W,
    cloud: Seq<PointType<N>>,
)
    requires
        imu_in_order(v),
        m.stamp.minus_spec(v.time_offset).is_num(),
    ensures
        imu_in_order(imu_added(v, m)),
        imu_in_order(scan_added(v, stamp, cloud)),
        imu_in_order(synced(v)),
{
    let f = framed(v);
    lemma_covered(v.imu, f.lidar_end_time);
    let n = covered(v.imu, f.lidar_end_time) as int;
    let rest = v.imu.skip(n);
    assert forall|i: int| 0 <= i < rest.len() implies #[trigger] rest[i] == v.imu[i + n] by {}
}

impl<N: Widen<W>, W: Scalar> Intake<N, W> {
    /// Each scan that waits has its time.
    pub open spec fn wf(self) -> bool {
        self.time_buffer@.len() == self.lidar_buffer@.len()
    }

    /// Empty buffers.
    pub fn new(lidar_type: LidarType, time_offset: W) -> (r: Self)
        ensures
            r.wf(),
            r@ == no_samples::<N, W>(lidar_type, time_offset),
    {
        let o: W = W::ratio(0, 1);
        let r: Intake<N, W> = Intake {
            time_buffer: VecDeque::new(),
            lidar_buffer: VecDeque::new(),
            imu_buffer: VecDeque::new(),
            meas: MeasureGroup {
                lidar_beg_time: o,
                lidar_end_time: o,
                lidar: Vec::new(),
                imu: Vec::new(),
            },
            last_timestamp_lidar: o,
            last_timestamp_imu: W::ratio(-1, 1),
            lidar_end_time: o,
            lidar_mean_scantime: o,
            scan_num: 0,
            lidar_pushed: false,
            lidar_type,
            time_offset,
        };
        assert(r@.clouds =~= Seq::<Seq<PointType<N>>>::empty());
        assert(r@.times =~= Seq::<W>::empty());
        assert(r@.imu =~= Seq::<ImuRaw<W>>::empty());
        assert(r@.group.cloud =~= Seq::<PointType<N>>::empty());
        assert(r@.group.imu =~= Seq::<ImuRaw<W>>::empty());
        r
    }

    /// Takes in an inertial measurement.
    pub fn add_imu(&mut self, imu: &ImuRaw<W>)
        requires
            old(self).wf(),
        ensures
            final(self).wf(),
            final(self)@ == imu_added(old(self)@, *imu),
    {
        let stamp: W = imu.stamp.minus(self.time_offset);
        if stamp.less(self.last_timestamp_imu) {
            self.imu_buffer.clear();
        }
        self.last_timestamp_imu = stamp;
        self.imu_buffer.push_back(ImuRaw { stamp, acc: imu.acc, gyr: imu.gyr });
        assert(self@.imu =~= imu_added(old(self)@, *imu).imu);
        assert(self@.clouds =~= old(self)@.clouds);
    }

    /// Takes in a scan.
    pub fn add_scan(&mut self, stamp: W, cloud: Vec<PointType<N>>)
        requires
            old(self).wf(),
        ensures
            final(self).wf(),
            final(self)@ == scan_added(old(self)@, stamp, cloud@),
    {
        if stamp.less(self.last_timestamp_lidar) {
            self.lidar_buffer.clear();
            self.time_buffer.clear();
        }
        self.last_timestamp_lidar = stamp;
        self.lidar_buffer.push_back(cloud);
        self.time_buffer.push_back(stamp);
        assert(self@.clouds =~= scan_added(old(self)@, stamp, cloud@).clouds);
        assert(self@.times =~= scan_added(old(self)@, stamp, cloud@).times);
    }

    /// The end of the scan that the next group holds.
    fn scan_end(&self) -> (r: W)
        requires
            self.wf(),
            self@.clouds.len() > 0,
        ensures
            r == framed(self@).lidar_end_time,
    {
        if self.lidar_pushed {
            return self.lidar_end_time;
        }
        let cloud: &Vec<PointType<N>> = &self.lidar_buffer[0];
        let beg: W = self.time_buffer[0];
        let n: usize = cloud.len();
        let took: W = if n == 0 {
            W::ratio(0, 1)
        } else {
            cloud[n - 1].curvature.widen().over(W::ratio(1000, 1))
        };
        assert(self@.clouds[0] == cloud@);
        if self.lidar_type == LidarType::Marsim {
            beg
        } else if n <= 1 || took.less(W::ratio(1, 2).times(self.lidar_mean_scantime)) {
            beg.plus(self.lidar_mean_scantime)
        } else {
            beg.plus(took)
        }
    }

    /// A group is ready to be completed.
    pub fn has_data(&self) -> (r: bool)
        requires
            self.wf(),
        ensures
            r == is_ready(self@),
    {
        if self.lidar_buffer.len() == 0 || self.imu_buffer.len() == 0 {
            return false;
        }
        !self.last_timestamp_imu.less(self.scan_end())
    }

    /// Completes a group if that is possible.
    pub fn sync_packages(&mut self) -> (r: bool)
        requires
            old(self).wf(),
        ensures
            final(self).wf(),
            r == is_ready(old(self)@),
            final(self)@ == synced(old(self)@),
    {
        if self.lidar_buffer.len() == 0 || self.imu_buffer.len() == 0 {
            return false;
        }
        let ghost v = self@;
        if !self.lidar_pushed {
            let cloud: Vec<PointType<N>> = copy_cloud(&self.lidar_buffer[0]);
            let beg: W = self.time_buffer[0];
            let n: usize = cloud.len();
            let took: W = if n == 0 {
                W::ratio(0, 1)
            } else {
                cloud[n - 1].curvature.widen().over(W::ratio(1000, 1))
            };
            let short: bool = n <= 1 || took.less(
                W::ratio(1, 2).times(self.lidar_mean_scantime),
            );
            if short {
                self.lidar_end_time = beg.plus(self.lidar_mean_scantime);
            } else {
                if self.scan_num < u64::MAX {
                    self.scan_num = self.scan_num + 1;
                }
                self.lidar_end_time = beg.plus(took);
                self.lidar_mean_scantime =
                self.lidar_mean_scantime.plus(
                    took.minus(self.lidar_mean_scantime).over(W::count(self.scan_num)),
                );
            }
            if self.lidar_type == LidarType::Marsim {
                self.lidar_end_time = beg;
            }
            self.meas.lidar = cloud;
            self.meas.lidar_beg_time = beg;
            self.meas.lidar_end_time = self.lidar_end_time;
            self.lidar_pushed = true;
        }
        assert(self@.clouds =~= v.clouds);
        assert(self@ == framed(v));
        if self.last_timestamp_imu.less(self.lidar_end_time) {
            return false;
        }
        self.meas.imu.clear();
        let end: W = self.lidar_end_time;
        let ghost f = self@;
        let ghost mut done: int = 0;
        proof {
            lemma_covered(v.imu, end);
            assert(v.imu.skip(0) =~= v.imu);
            assert(self.meas.imu@ =~= v.imu.take(0));
        }
        while self.imu_buffer.len() > 0 && !end.less(self.imu_buffer[0].stamp)
            invariant
                0 <= done <= v.imu.len(),
                end == f.lidar_end_time,
                self.imu_buffer@ == v.imu.skip(done),
                self.meas.imu@ == v.imu.take(done),
                covered(v.imu, end) == done + covered(v.imu.skip(done), end),
                self@ == (IntakeView {
                    imu: v.imu.skip(done),
                    group: GroupView { imu: v.imu.take(done), ..f.group },
                    ..f
                }),
                self.wf(),
            decreases self.imu_buffer@.len(),
        {
            let m: ImuRaw<W> = self.imu_buffer[0];
            self.meas.imu.push(m);
            let _ = self.imu_buffer.pop_front();
            proof {
                assert(v.imu.skip(done).drop_first() =~= v.imu.skip(done + 1));
                assert(v.imu.take(done).push(v.imu[done]) =~= v.imu.take(done + 1));
                assert(self@.clouds =~= f.clouds);
                done = done + 1;
            }
        }
        proof {
            assert(covered(v.imu.skip(done), end) == 0);
        }
        let _ = self.lidar_buffer.pop_front();
        let _ = self.time_buffer.pop_front();
        self.lidar_pushed = false;
        assert(self@.clouds =~= v.clouds.skip(1));
        assert(self@.times =~= v.times.skip(1));
        true
    }
}

} // verus!
