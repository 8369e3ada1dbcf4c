//! The point tree, preprocessing, and the pipeline from samples to poses.
use fast_lio::data_source::{build_world_points, DataSource, Rng, SimParams, SimPose, SimSource};
use fast_lio::ikdtree::{calc_dist, BoxPointType, KdTree, KdTreeNode};
use fast_lio::laser_mapping::{LaserMapping, LioConfig, LioResult, Turn};
use fast_lio::linear::V3;
use fast_lio::local_map::{decide, Fate};
use fast_lio::matrix::Mat;
use fast_lio::measure::esti_plane;
use fast_lio::preprocess::features::give_feature;
use fast_lio::preprocess::Preprocess;
use fast_lio::scalar::{Scalar, Widen};
use fast_lio::sync::Intake;
use fast_lio::types::{
    AviaMsg, AviaPointMsg, Feature, ImuRaw, LidarType, OrgType, PointType, SensorData, StandardMsg,
    StdPointMsg, TimeUnit,
};
use nalgebra::{DMatrix, DVector};

/// A double-precision number.
#[derive(Clone, Copy, Debug, PartialEq)]
struct R64(f64);

impl Scalar for R64 {
    fn plus(self, o: Self) -> Self {
        R64(self.0 + o.0)
    }
    fn minus(self, o: Self) -> Self {
        R64(self.0 - o.0)
    }
    fn times(self, o: Self) -> Self {
        R64(self.0 * o.0)
    }
    fn over(self, o: Self) -> Self {
        R64(self.0 / o.0)
    }
    fn negate(self) -> Self {
        R64(-self.0)
    }
    fn magnitude(self) -> Self {
        R64(self.0.abs())
    }
    fn root(self) -> Self {
        R64(self.0.sqrt())
    }
    fn floor(self) -> Self {
        R64(self.0.floor())
    }
    fn ceil(self) -> Self {
        R64(self.0.ceil())
    }
    fn exp(self) -> Self {
        R64(self.0.exp())
    }
    fn sin(self) -> Self {
        R64(self.0.sin())
    }
    fn cos(self) -> Self {
        R64(self.0.cos())
    }
    fn atan2(self, x: Self) -> Self {
        R64(self.0.atan2(x.0))
    }
    fn asin(self) -> Self {
        R64(self.0.asin())
    }
    fn acos(self) -> Self {
        R64(self.0.acos())
    }
    fn hypot(self, o: Self) -> Self {
        R64(self.0.hypot(o.0))
    }
    fn rem_euclid(self, o: Self) -> Self {
        R64(self.0.rem_euclid(o.0))
    }
    fn finite(self) -> bool {
        self.0.is_finite()
    }
    fn to_index(self) -> i64 {
        self.0 as i64
    }
    fn ratio(num: i64, den: i64) -> Self {
        R64(num as f64 / den as f64)
    }
    fn count(n: u64) -> Self {
        R64(n as f64)
    }
    fn less(self, o: Self) -> bool {
        self.0 < o.0
    }
    fn at_most(self, o: Self) -> bool {
        self.0 <= o.0
    }
}
/// A single-precision number.
#[derive(Clone, Copy, Debug, PartialEq)]
struct R32(f32);

impl Scalar for R32 {
    fn plus(self, o: Self) -> Self {
        R32(self.0 + o.0)
    }
    fn minus(self, o: Self) -> Self {
        R32(self.0 - o.0)
    }
    fn times(self, o: Self) -> Self {
        R32(self.0 * o.0)
    }
    fn over(self, o: Self) -> Self {
        R32(self.0 / o.0)
    }
    fn negate(self) -> Self {
        R32(-self.0)
    }
    fn magnitude(self) -> Self {
        R32(self.0.abs())
    }
    fn root(self) -> Self {
        R32(self.0.sqrt())
    }
    fn floor(self) -> Self {
        R32(self.0.floor())
    }
    fn ceil(self) -> Self {
        R32(self.0.ceil())
    }
    fn exp(self) -> Self {
        R32(self.0.exp())
    }
    fn sin(self) -> Self {
        R32(self.0.sin())
    }
    fn cos(self) -> Self {
        R32(self.0.cos())
    }
    fn atan2(self, x: Self) -> Self {
        R32(self.0.atan2(x.0))
    }
    fn asin(self) -> Self {
        R32(self.0.asin())
    }
    fn acos(self) -> Self {
        R32(self.0.acos())
    }
    fn hypot(self, o: Self) -> Self {
        R32(self.0.hypot(o.0))
    }
    fn rem_euclid(self, o: Self) -> Self {
        R32(self.0.rem_euclid(o.0))
    }
    fn finite(self) -> bool {
        self.0.is_finite()
    }
    fn to_index(self) -> i64 {
        self.0 as i64
    }
    fn ratio(num: i64, den: i64) -> Self {
        R32((num as f64 / den as f64) as f32)
    }
    fn count(n: u64) -> Self {
        R32(n as f32)
    }
    fn less(self, o: Self) -> bool {
        self.0 < o.0
    }
    fn at_most(self, o: Self) -> bool {
        self.0 <= o.0
    }
}

impl Widen<R64> for R32 {
    fn widen(self) -> R64 {
        R64(self.0 as f64)
    }
    fn narrow(w: R64) -> Self {
        R32(w.0 as f32)
    }
}

type Point = PointType<R32>;

fn point(x: f32, y: f32, z: f32) -> Point {
    PointType::new(R32(x), R32(y), R32(z))
}

fn rand_points(n: usize) -> Vec<Point> {
    let mut pts = Vec::with_capacity(n);
    for i in 0..n {
        let t = i as f32 * 0.7919;
        pts.push(point((t * 13.0).sin() * 10.0, (t * 7.0).cos() * 10.0, (t * 3.0).sin() * 5.0));
    }
    pts
}

fn brute_force_knn(points: &[Point], q: &Point, k: usize) -> Vec<(Point, f32)> {
    let mut all: Vec<(Point, f32)> = points.iter().map(|p| (*p, calc_dist(p, q).0)).collect();
    all.sort_by(|a, b| a.1.partial_cmp(&b.1).unwrap());
    all.truncate(k);
    all
}

const FAR: R32 = R32(f32::INFINITY);

#[test]
fn build_and_knn_matches_bruteforce() {
    let pts = rand_points(300);
    let mut tree = KdTree::new();
    tree.build(pts.clone());
    assert_eq!(tree.size(), 300);
    assert_eq!(tree.validnum(), 300);

    for trial in 0..10 {
        let q = rand_points(500)[trial * 50];
        let mut np = Vec::new();
        let mut pd = Vec::new();
        tree.nearest_search(&q, 5, &mut np, &mut pd, FAR);
        assert_eq!(np.len(), 5);
        let expected = brute_force_knn(&pts, &q, 5);
        for i in 0..5 {
            assert!(
                (pd[i].0 - expected[i].1).abs() < 1e-3,
                "trial={} i={} got {} exp {}",
                trial,
                i,
                pd[i].0,
                expected[i].1
            );
        }
    }
}

#[test]
fn add_points_are_found() {
    let mut tree = KdTree::new();
    tree.build(rand_points(50));
    let mut extra: Vec<Point> = (0..100)
        .map(|i| {
            let t = i as f32 * 1.1;
            point(20.0 + t, -15.0 + (t * 0.3).sin() * 5.0, t * 0.5)
        })
        .collect();
    tree.add_points(&mut extra, false);
    let q = point(1.0, 2.0, 3.0);
    let mut np = Vec::new();
    let mut pd = Vec::new();
    tree.nearest_search(&q, 3, &mut np, &mut pd, FAR);
    assert_eq!(np.len(), 3);
    assert_eq!(tree.size(), 150);
}

#[test]
fn delete_box_removes_points() {
    let pts = rand_points(200);
    let mut tree = KdTree::new();
    tree.build(pts.clone());
    let boxpoint = BoxPointType {
        vertex_min: [R32(-1.0), R32(-1.0), R32(-1.0)],
        vertex_max: [R32(1.0), R32(1.0), R32(1.0)],
    };
    let deleted = tree.delete_point_boxes(&[boxpoint]);
    let within = |v: R32| v.0 > -1.0 && v.0 <= 1.0;
    let inside = pts.iter().filter(|p| within(p.x) && within(p.y) && within(p.z)).count() as i32;
    assert_eq!(deleted, inside);
    assert_eq!(tree.validnum(), 200 - inside);
    let mut np = Vec::new();
    let mut pd = Vec::new();
    tree.nearest_search(&point(0.0, 0.0, 0.0), 1, &mut np, &mut pd, FAR);
    if let Some(nn) = np.first() {
        assert!(!(nn.x.0.abs() <= 1.0 && nn.y.0.abs() <= 1.0 && nn.z.0.abs() <= 1.0));
    }
}

#[test]
fn downsample_add_keeps_single_point_per_cell() {
    let mut tree = KdTree::new();
    tree.set_downsample_param(R32(0.5));
    let mut pts = Vec::new();
    for i in 0..20 {
        pts.push(point(0.1 + i as f32 * 0.01, 0.1, 0.1));
    }
    tree.build(pts);
    let mut add = vec![point(0.15, 0.15, 0.15)];
    tree.add_points(&mut add, true);
    assert!(tree.validnum() <= 2, "validnum = {}", tree.validnum());
}

#[test]
fn searches_in_boxes_and_balls_find_what_is_inside() {
    let pts = rand_points(200);
    let mut tree = KdTree::new();
    tree.build(pts.clone());
    let cube = BoxPointType {
        vertex_min: [R32(-3.0), R32(-3.0), R32(-3.0)],
        vertex_max: [R32(3.0), R32(3.0), R32(3.0)],
    };
    let mut found = Vec::new();
    tree.box_search(&cube, &mut found);
    let within = |v: R32| v.0 >= -3.0 && v.0 < 3.0;
    let inside = pts.iter().filter(|p| within(p.x) && within(p.y) && within(p.z)).count();
    assert_eq!(found.len(), inside);
    let centre = point(1.0, 1.0, 1.0);
    tree.radius_search(&centre, R32(4.0), &mut found);
    let near = pts.iter().filter(|p| calc_dist(p, &centre).0 <= 16.0).count();
    assert_eq!(found.len(), near);
}

#[test]
fn deleted_points_can_be_fetched_and_listed() {
    let mut tree = KdTree::new();
    tree.build(rand_points(40));
    let gone = rand_points(40)[7];
    tree.delete_by_point(&gone);
    assert_eq!(tree.validnum(), 39);
    tree.flatten_to_storage();
    assert_eq!(tree.pcl_storage.len(), 39);
    let all = BoxPointType {
        vertex_min: [R32(-99.0), R32(-99.0), R32(-99.0)],
        vertex_max: [R32(99.0), R32(99.0), R32(99.0)],
    };
    assert_eq!(tree.delete_point_boxes(&[all]), 39);
    assert_eq!(tree.validnum(), 0);
    let removed = tree.acquire_removed_points().len() as i32;
    assert_eq!(removed + tree.size(), 40);
    assert!(tree.acquire_removed_points().is_empty());
}

#[test]
fn nearest_search_keeps_within_its_distance() {
    let mut tree = KdTree::new();
    tree.build(vec![point(0.0, 0.0, 0.0), point(1.0, 0.0, 0.0), point(5.0, 0.0, 0.0)]);
    let mut np = Vec::new();
    let mut pd = Vec::new();
    tree.nearest_search(&point(0.1, 0.0, 0.0), 3, &mut np, &mut pd, R32(2.0));
    assert_eq!(np.len(), 2);
    assert_eq!(np[0].x.0, 0.0);
    assert!(pd[0].0 < pd[1].0);
}

#[test]
fn nearest_points_are_as_many_as_asked() {
    let pts = rand_points(60);
    let mut tree = KdTree::new();
    tree.build(pts);
    let mut np = Vec::new();
    let mut pd = Vec::new();
    for (asked, given) in [(1, 1), (5, 5), (60, 60), (80, 60)] {
        tree.nearest_search(&point(1.0, 2.0, 0.5), asked, &mut np, &mut pd, R32(f32::INFINITY));
        assert_eq!((np.len(), pd.len()), (given, given));
        assert!(pd.windows(2).all(|w| w[0].0 <= w[1].0));
    }
}

#[test]
fn boxes_hand_over_exactly_what_they_held() {
    let mut tree = KdTree::new();
    tree.build((0..20).map(|i| point(i as f32, 0.0, 0.0)).collect());
    let cube = BoxPointType {
        vertex_min: [R32(-1.0), R32(-1.0), R32(-1.0)],
        vertex_max: [R32(14.5), R32(1.0), R32(1.0)],
    };
    assert_eq!(tree.delete_point_boxes(&[cube]), 15);
    assert_eq!(tree.size(), 5);
    let mut removed: Vec<f32> = tree.acquire_removed_points().iter().map(|p| p.x.0).collect();
    removed.sort_by(f32::total_cmp);
    assert_eq!(removed, (0..15).map(|i| i as f32).collect::<Vec<f32>>());
    assert!(tree.acquire_removed_points().is_empty());
}

#[test]
fn new_leaves_split_along_the_next_axis() {
    let mut tree = KdTree::new();
    tree.build(vec![point(0.0, 0.0, 0.0)]);
    let axis = tree.root.as_ref().unwrap().division_axis;
    tree.add_points(&mut [point(1.0, 1.0, 1.0)], false);
    let root = tree.root.as_ref().unwrap();
    let leaf = root.right_son.as_ref().unwrap();
    assert_eq!(leaf.division_axis, (axis + 1) % 3);
    tree.add_points(&mut [point(2.0, 2.0, 2.0)], false);
    let root = tree.root.as_ref().unwrap();
    let leaf = root.right_son.as_ref().unwrap().right_son.as_ref().unwrap();
    assert_eq!(leaf.division_axis, (axis + 2) % 3);
}

#[test]
fn points_without_numbers_are_not_kept_when_thinning() {
    let mut tree = KdTree::new();
    tree.set_downsample_param(R32(0.5));
    tree.build(vec![point(0.1, 0.1, 0.1)]);
    let mut add = vec![point(f32::NAN, 3.0, 3.0), point(3.0, 3.0, 3.0)];
    assert_eq!(tree.add_points(&mut add, true), 1);
    assert_eq!(tree.validnum(), 2);
    let lost = point(f32::NAN, 0.0, 0.0);
    assert_eq!(decide(&lost, &vec![point(0.0, 0.0, 0.0)], true, R32(0.5)), Fate::Add);
}

/// The vector nearest to solving `n · p = -1` over the points.
fn solve_plane(points: &[Point]) -> V3<R32> {
    let a = DMatrix::<f32>::from_fn(points.len(), 3, |i, j| {
        [points[i].x.0, points[i].y.0, points[i].z.0][j]
    });
    let b = DVector::<f32>::from_element(points.len(), -1.0);
    let sol = a.svd(true, true).solve(&b, 1e-6).unwrap_or_else(|_| DVector::zeros(3));
    V3::new(R32(sol[0]), R32(sol[1]), R32(sol[2]))
}

#[test]
fn esti_plane_on_xy_plane() {
    let pts = vec![
        point(0.0, 0.0, 1.0),
        point(1.0, 0.0, 1.0),
        point(0.0, 1.0, 1.0),
        point(1.0, 1.0, 1.0),
        point(0.5, 0.5, 1.0),
    ];
    let pca = esti_plane(solve_plane(&pts), &pts, R32(0.1)).unwrap();
    assert!(pca.n.z.0.abs() > 0.99, "pca = {pca:?}");
    assert!((pca.d.0 - 1.0).abs() < 0.01, "pca = {pca:?}");
}

#[test]
fn points_off_a_plane_give_none() {
    let mut pts = vec![
        point(0.0, 0.0, 1.0),
        point(1.0, 0.0, 1.0),
        point(0.0, 1.0, 1.0),
        point(1.0, 1.0, 1.0),
    ];
    pts.push(point(0.5, 0.5, 4.0));
    assert!(esti_plane(solve_plane(&pts), &pts, R32(0.1)).is_none());
    assert!(esti_plane(V3::zeros(), &pts, R32(0.1)).is_none());
}

#[test]
fn config_default_creates_pipeline() {
    let lm: LaserMapping<R32, R64> = LaserMapping::new(&LioConfig::default());
    assert!(lm.ikdtree.root.is_none());
    assert_eq!(lm.preprocess.n_scans, 16);
    assert_eq!(lm.imu.lidar_type, LidarType::Avia);
}

#[test]
fn extrinsic_entries_go_row_by_row() {
    let mut cfg: LioConfig<R32, R64> = LioConfig::default();
    cfg.extrinsic_r = [0.0, -1.0, 0.0, 1.0, 0.0, 0.0, 0.0, 0.0, 1.0].map(R64);
    let lm = LaserMapping::new(&cfg);
    let image = lm.imu.lidar_r_wrt_imu.apply(V3::new(R64(1.0), R64(0.0), R64(0.0)));
    assert_eq!((image.x.0, image.y.0, image.z.0), (0.0, 1.0, 0.0));
}

fn avia(points: Vec<AviaPointMsg<R32>>) -> AviaMsg<R32, R64> {
    AviaMsg { stamp: R64(1.0), points }
}

fn avia_point(x: f32, tag: u16, line: u8) -> AviaPointMsg<R32> {
    AviaPointMsg {
        x: R32(x),
        y: R32(0.0),
        z: R32(0.0),
        reflectivity: 7,
        tag,
        line,
        offset_time: 2_000_000,
    }
}

#[test]
fn livox_points_are_filtered_and_timed() {
    let mut pp: Preprocess<R32, R64> = Preprocess::new();
    let msg = avia(vec![
        avia_point(1.0, 0x10, 0),
        avia_point(2.0, 0x10, 0),
        avia_point(3.0, 0x20, 0),
        avia_point(4.0, 0x00, 9),
        avia_point(5.0, 0x00, 1),
    ]);
    let cloud = pp.process_avia(&msg).unwrap();
    let xs: Vec<f32> = cloud.iter().map(|p| p.x.0).collect();
    assert_eq!(xs, vec![2.0, 5.0]);
    assert_eq!(cloud[0].curvature.0, 2.0);
    assert_eq!(cloud[0].intensity.0, 7.0);
}

fn std_point(x: f32, time: f32, ring: u16) -> StdPointMsg<R32> {
    StdPointMsg { x: R32(x), y: R32(0.0), z: R32(0.0), intensity: R32(1.0), time: R32(time), ring }
}

#[test]
fn spinning_points_carry_milliseconds() {
    let mut pp: Preprocess<R32, R64> = Preprocess::new();
    pp.set(false, LidarType::Velo16, R64(0.5), 1);
    pp.time_unit = TimeUnit::Sec;
    let msg = StandardMsg {
        stamp: R64(0.0),
        points: vec![std_point(0.1, 0.0, 0), std_point(2.0, 0.01, 0), std_point(3.0, 0.02, 1)],
    };
    let cloud = pp.process_standard(&msg).unwrap();
    assert_eq!(cloud.len(), 2);
    assert_eq!(cloud[0].x.0, 2.0);
    assert!((cloud[0].curvature.0 - 10.0).abs() < 1e-4);
}

#[test]
fn feature_extraction_finds_a_wall() {
    let mut pp: Preprocess<R32, R64> = Preprocess::new();
    pp.set(true, LidarType::Velo16, R64(0.5), 2);
    pp.n_scans = 2;
    pp.time_unit = TimeUnit::Ms;
    let points: Vec<StdPointMsg<R32>> = (0..200)
        .map(|i| {
            let mut p = std_point(5.0, i as f32 * 0.5, (i % 2) as u16);
            p.y = R32(-4.0 + (i / 2) as f32 * 0.08);
            p
        })
        .collect();
    let cloud = pp.process_standard(&StandardMsg { stamp: R64(0.0), points }).unwrap();
    assert!(!cloud.is_empty());
    assert!(cloud.iter().all(|p| p.x.0 == 5.0));
}

fn imu_at(stamp: f64) -> ImuRaw<R64> {
    ImuRaw { stamp: R64(stamp), acc: [R64(0.0), R64(0.0), R64(9.81)], gyr: [R64(0.0); 3] }
}

#[test]
fn a_scan_waits_for_its_measurements() {
    let mut intake: Intake<R32, R64> = Intake::new(LidarType::Avia, R64(0.0));
    let mut cloud = vec![point(1.0, 0.0, 0.0); 10];
    cloud[9].curvature = R32(100.0);
    intake.add_scan(R64(1.0), cloud);
    assert!(!intake.has_data());
    intake.add_imu(&imu_at(1.05));
    assert!(!intake.has_data());
    assert!(!intake.sync_packages());
    intake.add_imu(&imu_at(1.2));
    assert!(intake.has_data());
    assert!(intake.sync_packages());
    assert_eq!(intake.meas.lidar_beg_time.0, 1.0);
    assert_eq!(intake.meas.imu.len(), 1);
    assert!(!intake.has_data());
}

#[test]
fn samples_before_a_scan_do_not_complete_it() {
    let cfg: LioConfig<R32, R64> = LioConfig { n_scans: 6, ..Default::default() };
    let mut lm = LaserMapping::new(&cfg);
    lm.add_imu(&imu_at(0.0));
    assert!(lm.add_lidar_avia(&AviaMsg { stamp: R64(1.0), points: vec![] }));
    assert!(!lm.has_data());
}

#[test]
fn stamps_of_samples_are_moved_by_the_offset() {
    let cfg: LioConfig<R32, R64> =
        LioConfig { time_offset_lidar_to_imu: R64(0.5), ..Default::default() };
    let mut lm = LaserMapping::new(&cfg);
    let sample = imu_at(10.0);
    lm.add_imu(&sample);
    let kept = &lm.intake.imu_buffer[0];
    assert_eq!(kept.stamp.0, 9.5);
    assert_eq!((kept.acc, kept.gyr), (sample.acc, sample.gyr));
}

#[test]
fn samples_stay_in_order() {
    let mut intake: Intake<R32, R64> = Intake::new(LidarType::Avia, R64(0.0));
    for stamp in [1.0, 1.1, 1.2, 0.5, 0.6] {
        intake.add_imu(&imu_at(stamp));
    }
    let stamps: Vec<f64> = intake.imu_buffer.iter().map(|m| m.stamp.0).collect();
    assert!(stamps.windows(2).all(|w| w[0] <= w[1]), "{:?}", stamps);
    assert_eq!(*stamps.last().unwrap(), intake.last_timestamp_imu.0);
}

fn sides(node: &KdTreeNode<R32>) -> (i32, i32) {
    let size = |son: &Option<Box<KdTreeNode<R32>>>| son.as_ref().map_or(0, |n| n.tree_size);
    (size(&node.left_son), size(&node.right_son))
}

fn height(node: &Option<Box<KdTreeNode<R32>>>) -> usize {
    match node {
        None => 0,
        Some(n) => {
            let (left, right) = sides(n);
            assert!((left - right).abs() <= 1);
            1 + height(&n.left_son).max(height(&n.right_son))
        }
    }
}

#[test]
fn built_trees_are_balanced() {
    let mut tree = KdTree::new();
    tree.build(rand_points(100));
    assert_eq!(height(&tree.root), 7);
    let root = tree.root.as_ref().unwrap();
    let xs: Vec<f32> = rand_points(100).iter().map(|p| p.x.0).collect();
    assert_eq!(root.node_range_x[0].0, xs.iter().copied().fold(f32::INFINITY, f32::min));
    assert_eq!(root.node_range_x[1].0, xs.iter().copied().fold(f32::NEG_INFINITY, f32::max));
    tree.build(vec![]);
    assert!(tree.root.is_none());
}

#[test]
fn lopsided_trees_are_rebuilt() {
    let mut tree = KdTree::new();
    let mut line: Vec<Point> = (0..64).map(|i| point(i as f32, 0.0, 0.0)).collect();
    assert_eq!(tree.add_points(&mut line, false), 64);
    let (left, right) = sides(tree.root.as_ref().unwrap());
    assert!(left > 0 && right > 0, "{} {}", left, right);
    let most = BoxPointType {
        vertex_min: [R32(8.0), R32(-1.0), R32(-1.0)],
        vertex_max: [R32(60.0), R32(1.0), R32(1.0)],
    };
    assert_eq!(tree.delete_point_boxes(&[most]), 52);
    assert_eq!(tree.size(), 12);
    assert_eq!(tree.acquire_removed_points().len(), 52);
}

#[test]
fn a_run_that_ends_early_gives_its_mean() {
    let mut pp: Preprocess<R32, R64> = Preprocess::new();
    pp.point_filter_num = 3;
    let pl = vec![point(1.0, 0.0, 0.0), point(3.0, 0.0, 0.0), point(9.0, 0.0, 0.0)];
    let classes = [Feature::RealPlane, Feature::RealPlane, Feature::Nor];
    let mut types: Vec<OrgType<R64>> = Vec::new();
    for (p, ftype) in pl.iter().zip(classes) {
        types.push(OrgType { range: R64(p.x.0 as f64), ftype, ..OrgType::default() });
    }
    let (mut surf, mut corn) = (Vec::new(), Vec::new());
    assert!(give_feature(&pp, &pl, &mut types, &mut surf, &mut corn));
    assert_eq!(surf.len(), 1);
    assert_eq!((surf[0].x.0, surf[0].y.0, surf[0].z.0), (2.0, 0.0, 0.0));
    assert!(corn.is_empty());
    for (t, (p, ftype)) in types.iter().zip(pl.iter().zip(classes)) {
        assert_eq!(t.ftype, ftype);
        assert_eq!(t.range.0, p.x.0 as f64);
    }
}

#[test]
fn unthinned_lines_give_every_feature() {
    let pp: Preprocess<R32, R64> = Preprocess::new();
    let pl: Vec<Point> = (0..4).map(|i| point(1.0 + i as f32, 0.0, 0.0)).collect();
    let classes = [Feature::PossPlane, Feature::EdgeJump, Feature::Wire, Feature::RealPlane];
    let mut types: Vec<OrgType<R64>> = Vec::new();
    for (p, ftype) in pl.iter().zip(classes) {
        types.push(OrgType { range: R64(p.x.0 as f64), ftype, ..OrgType::default() });
    }
    let (mut surf, mut corn) = (vec![point(9.0, 9.0, 9.0)], Vec::new());
    assert!(give_feature(&pp, &pl, &mut types, &mut surf, &mut corn));
    let xs = |cloud: &[Point]| cloud.iter().map(|p| p.x.0).collect::<Vec<f32>>();
    assert_eq!(xs(&surf), vec![9.0, 1.0, 4.0]);
    assert_eq!(xs(&corn), vec![2.0]);
}

#[test]
fn livox_thinning_counts_accepted_points() {
    let mut pp: Preprocess<R32, R64> = Preprocess::new();
    pp.point_filter_num = 4;
    let points = (0..41).map(|i| avia_point(1.0 + i as f32, 0x10, 0)).collect();
    let cloud = pp.process_avia(&avia(points)).unwrap();
    let xs: Vec<f32> = cloud.iter().map(|p| p.x.0).collect();
    assert_eq!(xs, vec![5.0, 9.0, 13.0, 17.0, 21.0, 25.0, 29.0, 33.0, 37.0, 41.0]);
}

#[test]
fn new_map_points_are_judged_by_their_cell() {
    let p = point(0.3, 0.3, 0.3);
    assert_eq!(decide(&p, &vec![], true, R32(0.5)), Fate::Add);
    let elsewhere = vec![point(5.0, 5.0, 5.0)];
    assert_eq!(decide(&p, &elsewhere, true, R32(0.5)), Fate::AddAlways);
}

#[test]
fn generator_is_reproducible() {
    let mut a = Rng::new(1);
    let mut b = Rng::new(1);
    for _ in 0..100 {
        let v: R64 = a.next_f64();
        assert_eq!(v, b.next_f64::<R64>());
        assert!(v.0 >= -1.0 && v.0 <= 1.0);
    }
    let mut c = Rng::new(1);
    c.next_f64::<R64>();
    assert_eq!(c.0, 1082269761);
}

#[test]
fn world_has_ground_and_walls() {
    let world: Vec<V3<R64>> = build_world_points();
    assert!(world.iter().any(|p| p.z.0 == 0.0 && p.x.0.abs() < 1.0 && p.y.0.abs() < 1.0));
    assert!(world.iter().any(|p| p.x.0 == 20.0 && p.z.0 > 5.0));
    assert!(world.iter().all(|p| p.x.0.abs() < 20.5 && p.y.0.abs() < 20.5));
}

#[test]
fn robot_rests_and_then_circles() {
    let p: SimParams<R64> = SimParams::default();
    let start = SimPose::at(R64(0.5), &p);
    assert_eq!((start.pos.x.0, start.pos.y.0, start.pos.z.0), (5.0, 0.0, 1.0));
    let later = SimPose::at(R64(5.0), &p);
    let angle: f64 = 0.15 * 4.0;
    assert!((later.pos.x.0 - 5.0 * angle.cos()).abs() < 1e-12);
    assert!((later.pos.y.0 - 5.0 * angle.sin()).abs() < 1e-12);
}

fn next(source: &mut SimSource<R64>) -> Option<SensorData<R32, R64>> {
    source.next()
}

#[test]
fn simulated_samples_come_in_order() {
    let params = SimParams { duration: R64(0.3), points_per_scan: 50, ..Default::default() };
    let mut source = SimSource::new(&params);
    let mut last = -1.0;
    let (mut imus, mut scans) = (0, 0);
    while let Some(data) = next(&mut source) {
        let stamp = match data {
            SensorData::Imu(imu) => {
                imus += 1;
                assert!((imu.acc[2].0 - 9.81).abs() <= 0.02);
                imu.stamp.0
            }
            SensorData::LidarStandard(msg) => {
                scans += 1;
                assert!(msg.points.iter().all(|p| p.x.0 > 0.4 && p.ring <= 15));
                msg.stamp.0
            }
            SensorData::LidarAvia(_) => unreachable!(),
        };
        assert!(stamp >= last);
        last = stamp;
    }
    assert!((60..=61).contains(&imus), "{imus} inertial samples");
    assert!((3..=4).contains(&scans), "{scans} scans");
    assert!(matches!(DataSource::<R32, R64>::try_next(&mut source), Ok(None)));
}

fn invert(m: &Mat<R64>) -> Mat<R64> {
    let n = m.cells.len();
    let inverse = DMatrix::from_fn(n, n, |i, j| m.cells[i][j].0).try_inverse().unwrap();
    Mat { cells: (0..n).map(|i| (0..n).map(|j| R64(inverse[(i, j)])).collect()).collect() }
}

/// Runs the pipeline on the next scan, with the linear algebra of `nalgebra`.
fn run(lm: &mut LaserMapping<R32, R64>) -> Option<LioResult<R64>> {
    match lm.run_once() {
        Turn::Idle => return None,
        Turn::Fault => panic!("the scan cannot be used"),
        Turn::Busy => {}
    }
    loop {
        let frame = lm.frame.as_ref().unwrap();
        if frame.update.is_finished() {
            return lm.finish();
        }
        match frame.update.pending().map(invert) {
            Some(inverse) => lm.take_inverse(inverse),
            None => {
                let scan = &frame.scan;
                let sols = (0..scan.body.len())
                    .map(|i| {
                        if scan.selected[i] {
                            solve_plane(&scan.near[i])
                        } else {
                            V3::zeros()
                        }
                    })
                    .collect();
                lm.take_planes(&sols);
            }
        }
    }
}

#[test]
fn pipeline_follows_a_simulated_robot() {
    let cfg: LioConfig<R32, R64> = LioConfig {
        lidar_type: LidarType::Velo16,
        timestamp_unit: TimeUnit::Ms,
        ..Default::default()
    };
    let mut lm = LaserMapping::new(&cfg);
    let params = SimParams { duration: R64(4.0), points_per_scan: 1500, ..Default::default() };
    let mut source = SimSource::new(&params);
    let mut results = Vec::new();
    while let Some(data) = next(&mut source) {
        match data {
            SensorData::Imu(imu) => lm.add_imu(&imu),
            SensorData::LidarAvia(msg) => assert!(lm.add_lidar_avia(&msg)),
            SensorData::LidarStandard(msg) => assert!(lm.add_lidar_standard(&msg)),
        }
        if lm.has_data() {
            if let Some(res) = run(&mut lm) {
                results.push(res);
            }
        }
    }
    assert!(results.len() > 20, "{} poses", results.len());
    let last = results.last().unwrap();
    assert!(last.map_points > 100);
    assert!(last.effct_feat_num > 0);
    assert!(last.pos.norm().0 < 6.0, "pos = {:?}", last.pos);
    assert!(results.windows(2).all(|w| w[0].time.0 < w[1].time.0));
}
