//! Laws of the times of groups, in exact arithmetic.
use super::{duration_of, framed, imu_added, is_short, synced, IntakeView};
use crate::exact::{exact_angles, has_angles, lemma_spread_two};
use crate::frames::lemma_two_times;
use crate::scalar::{exact_arithmetic, is_reading, lt, whole, Scalar, Widen};
use crate::sphere::lemma_nothing;
use crate::types::{ImuRaw, LidarType};
use vstd::prelude::*;

verus! {

/// A scan that is not short ends when its last point was taken, which is told in
/// thousandths of a second after its begin.
pub proof fn law_scan_ends_with_last_point<N: Widen<W>, W: Scalar>(v: IntakeView<N, W>)
    requires
        exact_angles::<W>(),
        !v.lidar_pushed,
        v.clouds.len() > 0,
        v.times.len() > 0,
        v.lidar_type != LidarType::Marsim,
        !is_short::<N, W>(v.clouds[0], v.lidar_mean_scantime),
    ensures
        ({
            let g = framed(v).group;
            &&& g.cloud == v.clouds[0]
            &&& g.beg == v.times[0]
            &&& g.end == framed(v).lidar_end_time
            &&& g.end.minus_spec(g.beg).times_spec(whole(1000))
                == g.cloud.last().curvature.widen_spec()
        }),
{
    reveal(exact_angles);
    let value = choose|value: spec_fn(W) -> real| #[trigger] is_reading(value) && has_angles(value);
    let g = framed(v).group;
    let t = g.cloud.last().curvature.widen_spec();
    let k = W::ratio_spec(1000, 1);
    let took = t.over_spec(k);
    assert(duration_of::<N, W>(v.clouds[0]) == took);
    assert(value(k) == 1000int as real) by {
        reveal(is_reading);
    }
    assert(value(took) * value(k) == value(t)) by {
        reveal(has_angles);
    }
    reveal(is_reading);
    let l = g.beg.plus_spec(took).minus_spec(g.beg).times_spec(whole(1000));
    assert(value(l) == value(t));
}

/// The mean time of a scan is that of the scans that are not short: `n` times it is `n - 1`
/// times the mean before, and the time of the scan.
pub proof fn law_mean_scan_time<N: Widen<W>, W: Scalar>(v: IntakeView<N, W>)
    requires
        exact_angles::<W>(),
        !v.lidar_pushed,
        v.clouds.len() > 0,
        v.times.len() > 0,
        v.scan_num < u64::MAX,
    ensures
        ({
            let f = framed(v);
            let n = f.scan_num as int;
            if is_short::<N, W>(v.clouds[0], v.lidar_mean_scantime) {
                f.lidar_mean_scantime == v.lidar_mean_scantime && n == v.scan_num
            } else {
                n == v.scan_num + 1 && f.lidar_mean_scantime.times_spec(whole(n))
                    == v.lidar_mean_scantime.times_spec(whole(n - 1)).plus_spec(
                    duration_of::<N, W>(v.clouds[0]),
                )
            }
        }),
{
    reveal(exact_angles);
    let value = choose|value: spec_fn(W) -> real| #[trigger] is_reading(value) && has_angles(value);
    if !is_short::<N, W>(v.clouds[0], v.lidar_mean_scantime) {
        let n = v.scan_num + 1;
        let took = duration_of::<N, W>(v.clouds[0]);
        let a = v.lidar_mean_scantime;
        let all = whole::<W>(n);
        let d = took.minus_spec(a).over_spec(all);
        let m = value(all);
        assert(m == n as real && value(whole::<W>(n - 1)) == (n - 1) as real && value(
            took.minus_spec(a),
        ) == value(took) - value(a)) by {
            reveal(is_reading);
        }
        assert(value(d) * m == value(took) - value(a)) by {
            reveal(has_angles);
        }
        let less = (n - 1) as real;
        assert(m == less + 1int as real);
        lemma_two_times(value(a), value(d), m);
        lemma_spread_two(value(a), less, 1int as real);
        lemma_nothing(value(a));
        reveal(is_reading);
        let l = a.plus_spec(d).times_spec(all);
        let r = a.times_spec(whole(n - 1)).plus_spec(took);
        assert(value(l) == value(r));
    }
}

/// An inertial measurement is kept with its time on the clock of the lidar, and otherwise
/// as it came.
pub proof fn law_measurement_on_lidar_clock<N, W: Scalar>(v: IntakeView<N, W>, m: ImuRaw<W>)
    requires
        exact_arithmetic::<W>(),
    ensures
        ({
            let kept = imu_added(v, m).imu.last();
            &&& kept.stamp.plus_spec(v.time_offset) == m.stamp
            &&& kept.acc == m.acc
            &&& kept.gyr == m.gyr
            &&& imu_added(v, m).last_timestamp_imu == kept.stamp
        }),
{
    reveal(exact_arithmetic);
    let value = choose|value: spec_fn(W) -> real| #[trigger] is_reading(value);
    reveal(is_reading);
    assert(value(m.stamp.minus_spec(v.time_offset).plus_spec(v.time_offset)) == value(m.stamp));
}

/// A group is completed only once a measurement from the end of its scan or after it has
/// come; until then the scan waits and no measurement is given away.
pub proof fn law_group_waits_for_measurements<N: Widen<W>, W: Scalar>(v: IntakeView<N, W>)
    ensures
        synced(v).clouds.len() < v.clouds.len() ==> v.imu.len() > 0 && !lt(
            v.last_timestamp_imu,
            synced(v).lidar_end_time,
        ) && !synced(v).lidar_pushed,
        synced(v).clouds.len() == v.clouds.len() ==> synced(v).imu == v.imu && synced(v).clouds
            == v.clouds && synced(v).times == v.times,
{
}

} // verus!
