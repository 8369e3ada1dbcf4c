//! What the library promises as a whole, on concrete values.
use fast_lio::esekf::EseKf;
use fast_lio::grid::{GridMap, GridMapParams};
use fast_lio::ikdtree::{BoxPointType, KdTree};
use fast_lio::imu_processing::ImuProcess;
use fast_lio::linear::{M3, V3};
use fast_lio::local_map::{decide, Fate, LocalMap};
use fast_lio::preprocess::Preprocess;
use fast_lio::scalar::{Scalar, Widen};
use fast_lio::sync::Intake;
use fast_lio::task_file::{parse_yaml, MapMeta};
use fast_lio::text::TextNumber;
use fast_lio::types::{
    ImuRaw, LidarType, MeasureGroup, PointType, StandardMsg, StdPointMsg, TimeUnit,
};

/// A double-precision number.
#[derive(Clone, Copy, Debug, PartialEq)]
struct R64(f64);

impl Scalar for R64 {
    fn plus(self, o: Self) -> Self {
        R64(self.0 + o.0)
    }
    fn minus(self, o: Self) -> Self {
        R64(self.0 - o.0)
    }
    fn times(self, o: Self) -> Self {
        R64(self.0 * o.0)
    }
    fn over(self, o: Self) -> Self {
        R64(self.0 / o.0)
    }
    fn negate(self) -> Self {
        R64(-self.0)
    }
    fn magnitude(self) -> Self {
        R64(self.0.abs())
    }
    fn root(self) -> Self {
        R64(self.0.sqrt())
    }
    fn floor(self) -> Self {
        R64(self.0.floor())
    }
    fn ceil(self) -> Self {
        R64(self.0.ceil())
    }
    fn exp(self) -> Self {
        R64(self.0.exp())
    }
    fn sin(self) -> Self {
        R64(self.0.sin())
    }
    fn cos(self) -> Self {
        R64(self.0.cos())
    }
    fn atan2(self, x: Self) -> Self {
        R64(self.0.atan2(x.0))
    }
    fn asin(self) -> Self {
        R64(self.0.asin())
    }
    fn acos(self) -> Self {
        R64(self.0.acos())
    }
    fn hypot(self, o: Self) -> Self {
        R64(self.0.hypot(o.0))
    }
    fn rem_euclid(self, o: Self) -> Self {
        R64(self.0.rem_euclid(o.0))
    }
    fn finite(self) -> bool {
        self.0.is_finite()
    }
    fn to_index(self) -> i64 {
        self.0 as i64
    }
    fn ratio(num: i64, den: i64) -> Self {
        R64(num as f64 / den as f64)
    }
    fn count(n: u64) -> Self {
        R64(n as f64)
    }
    fn less(self, o: Self) -> bool {
        self.0 < o.0
    }
    fn at_most(self, o: Self) -> bool {
        self.0 <= o.0
    }
}

impl TextNumber for R64 {
    fn read(s: &[char]) -> Option<Self> {
        s.iter().collect::<String>().parse().ok().map(R64)
    }
    fn show(self, out: &mut String) {
        out.push_str(&self.0.to_string());
    }
}
/// A single-precision number.
#[derive(Clone, Copy, Debug, PartialEq)]
struct R32(f32);

impl Scalar for R32 {
    fn plus(self, o: Self) -> Self {
        R32(self.0 + o.0)
    }
    fn minus(self, o: Self) -> Self {
        R32(self.0 - o.0)
    }
    fn times(self, o: Self) -> Self {
        R32(self.0 * o.0)
    }
    fn over(self, o: Self) -> Self {
        R32(self.0 / o.0)
    }
    fn negate(self) -> Self {
        R32(-self.0)
    }
    fn magnitude(self) -> Self {
        R32(self.0.abs())
    }
    fn root(self) -> Self {
        R32(self.0.sqrt())
    }
    fn floor(self) -> Self {
        R32(self.0.floor())
    }
    fn ceil(self) -> Self {
        R32(self.0.ceil())
    }
    fn exp(self) -> Self {
        R32(self.0.exp())
    }
    fn sin(self) -> Self {
        R32(self.0.sin())
    }
    fn cos(self) -> Self {
        R32(self.0.cos())
    }
    fn atan2(self, x: Self) -> Self {
        R32(self.0.atan2(x.0))
    }
    fn asin(self) -> Self {
        R32(self.0.asin())
    }
    fn acos(self) -> Self {
        R32(self.0.acos())
    }
    fn hypot(self, o: Self) -> Self {
        R32(self.0.hypot(o.0))
    }
    fn rem_euclid(self, o: Self) -> Self {
        R32(self.0.rem_euclid(o.0))
    }
    fn finite(self) -> bool {
        self.0.is_finite()
    }
    fn to_index(self) -> i64 {
        self.0 as i64
    }
    fn ratio(num: i64, den: i64) -> Self {
        R32((num as f64 / den as f64) as f32)
    }
    fn count(n: u64) -> Self {
        R32(n as f32)
    }
    fn less(self, o: Self) -> bool {
        self.0 < o.0
    }
    fn at_most(self, o: Self) -> bool {
        self.0 <= o.0
    }
}

impl Widen<R64> for R32 {
    fn widen(self) -> R64 {
        R64(self.0 as f64)
    }
    fn narrow(w: R64) -> Self {
        R32(w.0 as f32)
    }
}

fn point(x: f32, y: f32, z: f32) -> PointType<R32> {
    PointType::new(R32(x), R32(y), R32(z))
}

fn cube(lo: f32, hi: f32) -> BoxPointType<R32> {
    BoxPointType { vertex_min: [R32(lo); 3], vertex_max: [R32(hi); 3] }
}

#[test]
fn added_points_are_found_in_their_box() {
    let mut tree = KdTree::new();
    tree.build(vec![point(5.0, 5.0, 5.0), point(6.0, 6.0, 6.0)]);
    let mut found = Vec::new();
    tree.box_search(&cube(0.0, 1.0), &mut found);
    assert!(found.is_empty());
    assert_eq!(tree.add_points(&mut [point(0.5, 0.5, 0.5)], false), 1);
    tree.box_search(&cube(0.0, 1.0), &mut found);
    assert_eq!(found.len(), 1);
    assert_eq!(tree.delete_point_boxes(&[cube(0.0, 1.0)]), 1);
    tree.box_search(&cube(0.0, 1.0), &mut found);
    assert!(found.is_empty());
}

#[test]
fn metadata_reads_back() {
    let g = GridMap::new(GridMapParams {
        resolution: R64(0.05),
        min_x: R64(-12.5),
        min_y: R64(3.25),
        max_x: R64(0.0),
        max_y: R64(10.0),
        ..Default::default()
    });
    let m: MapMeta<R64> = parse_yaml(&g.save_yaml("hall.pgm")).unwrap();
    assert_eq!((m.resolution.0, m.origin_x.0, m.origin_y.0), (0.05, -12.5, 3.25));
}

fn std_point(x: f32, time: f32) -> StdPointMsg<R32> {
    StdPointMsg {
        x: R32(x),
        y: R32(0.0),
        z: R32(0.0),
        intensity: R32(1.0),
        time: R32(time),
        ring: 0,
    }
}

#[test]
fn thinned_scans_hold_no_near_points() {
    for lidar_type in [LidarType::Oust64, LidarType::Velo16] {
        let mut pp: Preprocess<R32, R64> = Preprocess::new();
        pp.set(false, lidar_type, R64(1.0), 3);
        pp.time_unit = TimeUnit::Ms;
        let points: Vec<StdPointMsg<R32>> =
            (0..90).map(|i| std_point(0.05 * i as f32, 1.0 + i as f32)).collect();
        let cloud = pp.process_standard(&StandardMsg { stamp: R64(0.0), points }).unwrap();
        assert!(!cloud.is_empty() && cloud.len() <= 30, "{} points", cloud.len());
        assert!(cloud.iter().all(|p| p.x.0 * p.x.0 >= 1.0));
    }
}

fn imu_at(stamp: f64) -> ImuRaw<R64> {
    ImuRaw { stamp: R64(stamp), acc: [R64(0.0), R64(0.0), R64(9.81)], gyr: [R64(0.0); 3] }
}

fn timed_point(x: f32, ms: f32) -> PointType<R32> {
    let mut p = point(x, 0.0, 0.0);
    p.curvature = R32(ms);
    p
}

#[test]
fn groups_come_in_the_order_of_their_scans() {
    let mut intake: Intake<R32, R64> = Intake::new(LidarType::Avia, R64(0.0));
    for k in 0..3 {
        let cloud = (0..10).map(|i| timed_point(k as f32, 10.0 * i as f32)).collect();
        intake.add_scan(R64(1.0 + 0.1 * k as f64), cloud);
    }
    for k in 0..8 {
        intake.add_imu(&imu_at(1.0 + 0.05 * k as f64));
    }
    let mut begins = Vec::new();
    let mut seen = 0;
    while intake.sync_packages() {
        begins.push(intake.meas.lidar_beg_time.0);
        seen += intake.meas.imu.len();
        let end = intake.meas.lidar_end_time.0;
        assert!(intake.meas.imu.iter().all(|m| m.stamp.0 <= end));
    }
    assert!(begins.len() >= 2 && begins.windows(2).all(|w| w[0] < w[1]));
    assert_eq!(seen + intake.imu_buffer.len(), 8);
}

fn group(beg: f64, end: f64, lidar: Vec<PointType<R32>>) -> MeasureGroup<R32, R64> {
    let imu = (0..20).map(|k| imu_at(beg + (end - beg) * k as f64 / 19.0)).collect();
    MeasureGroup { lidar_beg_time: R64(beg), lidar_end_time: R64(end), lidar, imu }
}

#[test]
fn undistorted_scans_are_sorted_by_time() {
    let mut imu: ImuProcess<R64> = ImuProcess::new();
    imu.set_extrinsic(V3::zeros(), M3::identity());
    let mut kf: EseKf<R64> = EseKf::default();
    let mut out = Vec::new();
    imu.process(&group(0.0, 0.1, vec![]), &mut kf, &mut out);
    assert!(!imu.imu_need_init);
    assert!(out.is_empty());
    assert!((kf.x.grav.vec.norm().0 - 9.809).abs() < 1e-6);
    let scan = vec![timed_point(3.0, 60.0), timed_point(1.0, 20.0), timed_point(2.0, 40.0)];
    imu.process(&group(0.1, 0.2, scan), &mut kf, &mut out);
    let times: Vec<f32> = out.iter().map(|p| p.curvature.0).collect();
    assert_eq!(times, vec![20.0, 40.0, 60.0]);
}

/// A sensor that moves at a steady speed sees each point once, moved by the way from
/// the time of the point to the end of the scan.
#[test]
fn points_are_moved_once() {
    let mut imu: ImuProcess<R64> = ImuProcess::new();
    imu.set_extrinsic(V3::zeros(), M3::identity());
    let mut kf: EseKf<R64> = EseKf::default();
    let mut out = Vec::new();
    imu.process(&group(0.0, 0.1, vec![]), &mut kf, &mut out);
    kf.x.vel = V3::new(R64(10.0), R64(0.0), R64(0.0));
    let scan = vec![timed_point(3.0, 20.0), timed_point(1.0, 60.0), timed_point(2.0, 80.0)];
    imu.process(&group(0.1, 0.2, scan), &mut kf, &mut out);
    let expected = [(3.0, 20.0), (1.0, 60.0), (2.0, 80.0)];
    assert_eq!(out.len(), 3);
    for (p, (x, ms)) in out.iter().zip(expected) {
        let moved = x - 10.0 * (100.0 - ms) / 1000.0;
        assert!((p.x.0 - moved).abs() < 1e-3, "{} in place of {}", p.x.0, moved);
    }
}

#[test]
fn start_up_takes_ten_samples() {
    let mut imu: ImuProcess<R64> = ImuProcess::new();
    let mut kf: EseKf<R64> = EseKf::default();
    let mut out: Vec<PointType<R32>> = Vec::new();
    let few = |beg: f64| MeasureGroup {
        lidar_beg_time: R64(beg),
        lidar_end_time: R64(beg + 0.1),
        lidar: vec![],
        imu: (0..3).map(|k| imu_at(beg + 0.03 * k as f64)).collect(),
    };
    for (k, starting) in [true, true, true, false, false].into_iter().enumerate() {
        imu.process(&few(k as f64 * 0.1), &mut kf, &mut out);
        assert_eq!(imu.imu_need_init, starting);
    }
}

#[test]
fn the_map_cube_follows_the_sensor() {
    let mut map = LocalMap { bounds: cube(0.0, 0.0), placed: false };
    let at = |x: f64| V3::new(R64(x), R64(0.0), R64(0.0));
    assert!(map.slide(at(0.0), R64(100.0), R32(10.0)).is_empty());
    assert_eq!(map.bounds.vertex_min[0].0, -50.0);
    assert!(map.slide(at(30.0), R64(100.0), R32(10.0)).is_empty());
    assert_eq!(map.bounds.vertex_max[0].0, 50.0);
    let cleared = map.slide(at(40.0), R64(100.0), R32(10.0));
    assert_eq!(cleared.len(), 1);
    assert_eq!(cleared[0].vertex_max[0].0, -18.5);
    assert_eq!((map.bounds.vertex_min[0].0, map.bounds.vertex_max[0].0), (-18.5, 81.5));
    let holds = |b: &BoxPointType<R32>, p: &PointType<R32>| {
        let at = [p.x.0, p.y.0, p.z.0];
        (0..3).all(|i| b.vertex_min[i].0 <= at[i] && at[i] < b.vertex_max[i].0)
    };
    for x in [-50.0, -18.6, -18.5, 0.0, 49.0, 81.0] {
        let p = point(x, 0.0, 0.0);
        assert!(!(holds(&map.bounds, &p) && holds(&cleared[0], &p)));
    }
}

#[test]
fn before_settling_every_point_is_added() {
    let p = point(0.4, 0.4, 0.4);
    let near = vec![point(0.25, 0.25, 0.25); 5];
    assert_eq!(decide(&p, &near, true, R32(0.5)), Fate::Drop);
    assert_eq!(decide(&p, &near, false, R32(0.5)), Fate::Add);
}

/// Times decide nothing while the filter starts up, nor in a scan of one point.
#[test]
fn times_matter_only_where_points_are_sorted() {
    let mut imu: ImuProcess<R64> = ImuProcess::new();
    imu.set_extrinsic(V3::zeros(), M3::identity());
    let mut kf: EseKf<R64> = EseKf::default();
    let mut out = Vec::new();
    let scan = vec![timed_point(1.0, f32::NAN), timed_point(2.0, 5.0)];
    imu.process(&group(0.0, 0.1, scan), &mut kf, &mut out);
    assert!(!imu.imu_need_init && out.is_empty());
    imu.process(&group(0.1, 0.2, vec![timed_point(1.0, f32::NAN)]), &mut kf, &mut out);
    assert_eq!(out.len(), 1);
}

#[test]
fn start_up_averages_all_samples() {
    let mut imu: ImuProcess<R64> = ImuProcess::new();
    let mut kf: EseKf<R64> = EseKf::default();
    let mut out: Vec<PointType<R32>> = Vec::new();
    let mut total = 0.0;
    let mut seen = 0;
    for g in 0..3 {
        let samples: Vec<ImuRaw<R64>> = (0..3)
            .map(|k| {
                let rate = 0.1 * (g * 3 + k) as f64 - 0.25;
                total += rate;
                seen += 1;
                ImuRaw {
                    gyr: [R64(rate), R64(-rate), R64(2.0 * rate)],
                    ..imu_at(0.1 * g as f64 + 0.03 * k as f64)
                }
            })
            .collect();
        let beg = 0.1 * g as f64;
        let meas = MeasureGroup {
            lidar_beg_time: R64(beg),
            lidar_end_time: R64(beg + 0.1),
            lidar: vec![],
            imu: samples,
        };
        imu.process(&meas, &mut kf, &mut out);
        let mean = total / seen as f64;
        assert!((kf.x.bg.x.0 - mean).abs() < 1e-12);
        assert!((kf.x.bg.y.0 + mean).abs() < 1e-12);
        assert!((kf.x.bg.z.0 - 2.0 * mean).abs() < 1e-12);
    }
}
