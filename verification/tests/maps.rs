//! Occupancy maps and their files.
use fast_lio::fixed::Fixed;
use fast_lio::grid::{to_probability, GridMap, GridMapParams, Point3};
use fast_lio::grid_file::PgmError;
use fast_lio::scalar::{Scalar, Widen};
use fast_lio::text::TextNumber;
use fast_lio::types::PointType;
use fast_lio::voxel::{voxel_downsample, VoxelMap, VoxelMapParams};

/// A double-precision number.
#[derive(Clone, Copy, Debug, PartialEq)]
struct R64(f64);

impl Scalar for R64 {
    fn plus(self, o: Self) -> Self {
        R64(self.0 + o.0)
    }
    fn minus(self, o: Self) -> Self {
        R64(self.0 - o.0)
    }
    fn times(self, o: Self) -> Self {
        R64(self.0 * o.0)
    }
    fn over(self, o: Self) -> Self {
        R64(self.0 / o.0)
    }
    fn negate(self) -> Self {
        R64(-self.0)
    }
    fn magnitude(self) -> Self {
        R64(self.0.abs())
    }
    fn root(self) -> Self {
        R64(self.0.sqrt())
    }
    fn floor(self) -> Self {
        R64(self.0.floor())
    }
    fn ceil(self) -> Self {
        R64(self.0.ceil())
    }
    fn exp(self) -> Self {
        R64(self.0.exp())
    }
    fn sin(self) -> Self {
        R64(self.0.sin())
    }
    fn cos(self) -> Self {
        R64(self.0.cos())
    }
    fn atan2(self, x: Self) -> Self {
        R64(self.0.atan2(x.0))
    }
    fn asin(self) -> Self {
        R64(self.0.asin())
    }
    fn acos(self) -> Self {
        R64(self.0.acos())
    }
    fn hypot(self, o: Self) -> Self {
        R64(self.0.hypot(o.0))
    }
    fn rem_euclid(self, o: Self) -> Self {
        R64(self.0.rem_euclid(o.0))
    }
    fn finite(self) -> bool {
        self.0.is_finite()
    }
    fn to_index(self) -> i64 {
        self.0 as i64
    }
    fn ratio(num: i64, den: i64) -> Self {
        R64(num as f64 / den as f64)
    }
    fn count(n: u64) -> Self {
        R64(n as f64)
    }
    fn less(self, o: Self) -> bool {
        self.0 < o.0
    }
    fn at_most(self, o: Self) -> bool {
        self.0 <= o.0
    }
}

impl TextNumber for R64 {
    fn read(s: &[char]) -> Option<Self> {
        s.iter().collect::<String>().parse().ok().map(R64)
    }
    fn show(self, out: &mut String) {
        out.push_str(&self.0.to_string());
    }
}
/// A single-precision number.
#[derive(Clone, Copy, Debug, PartialEq)]
struct R32(f32);

impl Scalar for R32 {
    fn plus(self, o: Self) -> Self {
        R32(self.0 + o.0)
    }
    fn minus(self, o: Self) -> Self {
        R32(self.0 - o.0)
    }
    fn times(self, o: Self) -> Self {
        R32(self.0 * o.0)
    }
    fn over(self, o: Self) -> Self {
        R32(self.0 / o.0)
    }
    fn negate(self) -> Self {
        R32(-self.0)
    }
    fn magnitude(self) -> Self {
        R32(self.0.abs())
    }
    fn root(self) -> Self {
        R32(self.0.sqrt())
    }
    fn floor(self) -> Self {
        R32(self.0.floor())
    }
    fn ceil(self) -> Self {
        R32(self.0.ceil())
    }
    fn exp(self) -> Self {
        R32(self.0.exp())
    }
    fn sin(self) -> Self {
        R32(self.0.sin())
    }
    fn cos(self) -> Self {
        R32(self.0.cos())
    }
    fn atan2(self, x: Self) -> Self {
        R32(self.0.atan2(x.0))
    }
    fn asin(self) -> Self {
        R32(self.0.asin())
    }
    fn acos(self) -> Self {
        R32(self.0.acos())
    }
    fn hypot(self, o: Self) -> Self {
        R32(self.0.hypot(o.0))
    }
    fn rem_euclid(self, o: Self) -> Self {
        R32(self.0.rem_euclid(o.0))
    }
    fn finite(self) -> bool {
        self.0.is_finite()
    }
    fn to_index(self) -> i64 {
        self.0 as i64
    }
    fn ratio(num: i64, den: i64) -> Self {
        R32((num as f64 / den as f64) as f32)
    }
    fn count(n: u64) -> Self {
        R32(n as f32)
    }
    fn less(self, o: Self) -> bool {
        self.0 < o.0
    }
    fn at_most(self, o: Self) -> bool {
        self.0 <= o.0
    }
}

impl Widen<R64> for R32 {
    fn widen(self) -> R64 {
        R64(self.0 as f64)
    }
    fn narrow(w: R64) -> Self {
        R32(w.0 as f32)
    }
}

fn grid_params() -> GridMapParams<R64> {
    GridMapParams {
        resolution: R64(0.1),
        min_x: R64(-10.0),
        min_y: R64(-10.0),
        max_x: R64(10.0),
        max_y: R64(10.0),
        ..Default::default()
    }
}

#[test]
fn world_to_cell_roundtrip() {
    let g = GridMap::new(grid_params());
    let (c, r) = g.world_to_cell(R64(0.0), R64(0.0));
    assert_eq!((c, r), (100, 100));
    let w = g.cell_to_world(c, r);
    assert!((w[0].0 - 0.05).abs() < 1e-9);
    assert!((w[1].0 - 0.05).abs() < 1e-9);
}

#[test]
fn bounds_checking() {
    let g = GridMap::new(grid_params());
    assert!(g.in_bounds(0, 0));
    assert!(!g.in_bounds(-1, 0));
    assert!(!g.in_bounds(200, 0));
}

#[test]
fn occupancy_default_is_unknown() {
    let g = GridMap::new(grid_params());
    assert!((g.occupancy_at(R64(1.0), R64(1.0)).0 - 0.5).abs() < 1e-9);
    assert!((g.occupancy_at(R64(100.0), R64(100.0)).0 - 0.5).abs() < 1e-9);
}

#[test]
fn ray_marks_hit_occupied() {
    let mut g = GridMap::new(grid_params());
    let sensor = [R64(0.0), R64(0.0)];
    let hit = [R64(1.0), R64(0.0)];
    g.update_from_scan(sensor, &[hit]);
    let (hc, hr) = g.world_to_cell(R64(1.0), R64(0.0));
    assert!(g.occupancy(hc, hr).0 > 0.6, "hit cell occupancy = {}", g.occupancy(hc, hr).0);
    assert!(g.cell_log_odds(hc, hr).0 > 0.0);
    let (fc, fr) = g.world_to_cell(R64(0.4), R64(0.0));
    assert!(g.occupancy(fc, fr).0 < 0.5, "free cell occupancy = {}", g.occupancy(fc, fr).0);
}

#[test]
fn hit_cells_gain_one_hit() {
    let mut g = GridMap::new(grid_params());
    g.update_from_scan([R64(0.0), R64(0.0)], &[[R64(1.09), R64(0.05)]]);
    assert!((g.cell_log_odds(110, 100).0 - 0.6).abs() < 1e-9);
    assert!(g.occupancy(110, 100).0 > 0.6);
    assert!(g.occupancy(104, 100).0 < 0.5);
}

#[test]
fn scans_from_outside_change_nothing() {
    let mut g = GridMap::new(grid_params());
    g.update_from_scan([R64(0.0), R64(0.0)], &[[R64(1.0), R64(0.0)]]);
    let before = g.iter_cells();
    g.update_from_scan([R64(20.0), R64(20.0)], &[[R64(25.0), R64(20.0)], [R64(20.0), R64(30.0)]]);
    assert_eq!(g.iter_cells(), before);
    g.update_from_scan([R64(-20.0), R64(0.0)], &[[R64(-15.0), R64(3.0)], [R64(-11.0), R64(0.0)]]);
    assert_eq!(g.iter_cells(), before);
    g.update_from_scan([R64(20.0), R64(0.0)], &[[R64(15.0), R64(3.0)], [R64(11.0), R64(-40.0)]]);
    assert_eq!(g.iter_cells(), before);
    g.update_from_scan([R64(-30.0), R64(20.0)], &[[R64(30.0), R64(11.0)], [R64(0.0), R64(15.0)]]);
    assert_eq!(g.iter_cells(), before);
    g.update_from_scan([R64(-30.0), R64(-20.0)], &[[R64(30.0), R64(-11.0)]]);
    assert_eq!(g.iter_cells(), before);
    g.update_from_scan([R64(0.0), R64(0.0)], &[[R64(0.0), R64(1.0)]]);
    for ((c, r), _) in before {
        assert!(g.iter_cells().iter().any(|(k, _)| *k == (c, r)));
    }
}

#[test]
fn point_outside_is_clamped_not_crash() {
    let mut g = GridMap::new(grid_params());
    let sensor = [R64(0.0), R64(0.0)];
    let hit = [R64(100.0), R64(0.0)];
    g.update_from_scan(sensor, &[hit]);
    assert!(g.cell_count() > 0);
}

#[test]
fn clear_resets() {
    let mut g = GridMap::new(grid_params());
    g.update_from_scan([R64(0.0), R64(0.0)], &[[R64(1.0), R64(0.0)]]);
    assert!(g.cell_count() > 0);
    g.clear();
    assert_eq!(g.cell_count(), 0);
}

#[test]
fn log_odds_become_probabilities() {
    assert_eq!(to_probability(R64(0.0)).0, 0.5);
    assert!((to_probability(R64(0.6)).0 - 0.6456563062257954).abs() < 1e-12);
}

#[test]
fn log_odds_stay_within_the_bound() {
    let mut g = GridMap::new(grid_params());
    let hits: Vec<Point3<R64>> = (0..50).map(|_| [R64(1.05), R64(0.05), R64(0.0)]).collect();
    g.mark_occupied(&hits);
    let (c, r) = g.world_to_cell(R64(1.05), R64(0.05));
    assert!(g.cell_log_odds(c, r).0 <= 4.0);
    assert!(g.is_occupied(R64(1.05), R64(0.05), R64(0.9)));
    assert_eq!(g.cell_count(), 1);
    assert_eq!(g.iter_cells().len(), 1);
}

#[test]
fn cloud_update_drops_the_height() {
    let mut a = GridMap::new(grid_params());
    let mut b = GridMap::new(grid_params());
    a.update_from_cloud([R64(0.0), R64(0.0)], &[[R64(1.0), R64(0.5), R64(7.0)]]);
    b.update_from_scan([R64(0.0), R64(0.0)], &[[R64(1.0), R64(0.5)]]);
    assert_eq!(a.cell_count(), b.cell_count());
    let (c, r) = a.world_to_cell(R64(1.0), R64(0.5));
    assert_eq!(a.cell_log_odds(c, r), b.cell_log_odds(c, r));
}

fn small_grid() -> GridMap<R64> {
    let mut g = GridMap::new(GridMapParams {
        resolution: R64(1.0),
        min_x: R64(0.0),
        min_y: R64(0.0),
        max_x: R64(3.0),
        max_y: R64(2.0),
        ..Default::default()
    });
    for _ in 0..6 {
        g.mark_occupied(&[[R64(0.5), R64(0.5), R64(0.0)]]);
    }
    g
}

#[test]
fn grayscale_has_the_top_row_first() {
    let g = small_grid();
    assert_eq!(g.dims(), (3, 2));
    let (w, h, pixels) = g.to_grayscale();
    assert_eq!((w, h), (3, 2));
    assert_eq!(pixels, vec![127, 127, 127, 0, 127, 127]);
}

#[test]
fn pgm_reads_back() {
    let g = small_grid();
    let bytes = g.save_pgm();
    let loaded = GridMap::load_pgm(&bytes, R64(1.0), R64(0.0), R64(0.0)).unwrap();
    assert_eq!(loaded.dims(), (3, 2));
    assert!(loaded.occupancy(0, 0).0 > 0.6);
    assert_eq!(loaded.occupancy(1, 1).0, 0.5);
}

#[test]
fn loaded_maps_have_the_size_of_the_file() {
    let mut bytes = b"P5\n3 1\n255\n".to_vec();
    bytes.extend([0, 127, 255]);
    let g = GridMap::load_pgm(&bytes, R64(0.1), R64(-50.0), R64(0.0)).unwrap();
    assert_eq!(g.dims(), (3, 1));
    assert!(g.in_bounds(2, 0) && !g.in_bounds(3, 0));
    assert!(g.occupancy(0, 0).0 > 0.6);
    assert_eq!((g.occupancy(1, 0).0, g.occupancy(2, 0).0), (0.5, 0.5));
}

#[test]
fn pgm_header_is_plain_text() {
    let bytes = small_grid().save_pgm();
    assert!(bytes.starts_with(b"P5\n3 2\n255\n"));
    assert_eq!(bytes.len(), 11 + 6);
}

fn pgm_error(bytes: &[u8]) -> PgmError {
    match GridMap::load_pgm(bytes, R64(1.0), R64(0.0), R64(0.0)) {
        Ok(_) => panic!("a map came out"),
        Err(e) => e,
    }
}

#[test]
fn broken_pgm_files_are_refused() {
    assert!(matches!(pgm_error(b"P2\n3 2\n255\n"), PgmError::NotPgm(_)));
    assert!(matches!(pgm_error(b"P5\nthree 2\n255\n"), PgmError::BadDims));
    assert!(matches!(pgm_error(b"P5\n3 2\n255\nab"), PgmError::TooShort));
}

#[test]
fn broken_pgm_files_are_named() {
    assert_eq!(pgm_error(b"P2\n3 2\n255\n").message(), "not a P5 PGM: P2");
    assert_eq!(pgm_error(b"P5\n0 2\n255\n").message(), "bad PGM dims");
    assert_eq!(pgm_error(b"P5\n3 2\n255\nab").message(), "PGM pixel data too short");
}

#[test]
fn png_pixels_are_those_of_the_grid() {
    let image = small_grid().save_png().unwrap();
    assert_eq!((image.width, image.height), (3, 2));
    assert_eq!(image.pixels, small_grid().to_grayscale().2);
}

#[test]
fn yaml_names_the_image() {
    let text = small_grid().save_yaml("map.pgm");
    assert!(text.contains("image: map.pgm\n"));
    assert!(text.contains("resolution: 1\n"));
    assert!(text.contains("origin: [0, 0, 0"));
}

fn voxel_params() -> VoxelMapParams<R64> {
    VoxelMapParams { resolution: R64(0.5), ..Default::default() }
}

fn p3(x: f64, y: f64, z: f64) -> Point3<R64> {
    [R64(x), R64(y), R64(z)]
}

#[test]
fn world_to_voxel_roundtrip() {
    let m = VoxelMap::new(voxel_params());
    let i = m.world_to_voxel(p3(1.2, -0.3, 2.7));
    assert_eq!(i, (2, -1, 5));
    let w = m.voxel_to_world(i);
    assert!((w[0].0 - 1.25).abs() < 1e-9);
}

#[test]
fn occupancy_default_unknown() {
    let m = VoxelMap::new(voxel_params());
    assert!((m.occupancy_at(p3(1.0, 1.0, 1.0)).0 - 0.5).abs() < 1e-9);
}

#[test]
fn update_marks_occupied() {
    let mut m = VoxelMap::new(voxel_params());
    m.update(&[p3(1.0, 1.0, 1.0), p3(1.1, 1.0, 1.0)]);
    assert!(m.occupancy_at(p3(1.0, 1.0, 1.0)).0 > 0.7);
    assert_eq!(m.voxel_count(), 1);
}

#[test]
fn saturation() {
    let mut m = VoxelMap::new(voxel_params());
    let pts: Vec<Point3<R64>> = (0..100).map(|_| p3(1.0, 1.0, 1.0)).collect();
    m.update(&pts);
    let l = m.voxel_log_odds((2, 2, 2));
    assert!(l.0 <= m.params().saturate.0 + 1e-9);
}

#[test]
fn hits_do_not_reach_other_voxels() {
    let mut m = VoxelMap::new(voxel_params());
    m.update(&[p3(1.0, 1.0, 1.0)]);
    assert_eq!(m.voxel_log_odds((2, 2, 2)).0, 0.6);
    assert_eq!(m.voxel_log_odds((3, 2, 2)).0, 0.0);
    assert_eq!(m.iter_voxels(), vec![((2, 2, 2), R64(0.6))]);
    assert!(m.is_occupied(p3(1.0, 1.0, 1.0), R64(0.6)));
    m.clear();
    assert_eq!(m.voxel_count(), 0);
}

#[test]
fn voxel_downsample_reduces() {
    let mut pts = Vec::new();
    for i in 0..100 {
        pts.push(PointType::new(
            R32(0.5 + (i % 5) as f32 * 0.1),
            R32(0.5 + (i % 4) as f32 * 0.1),
            R32(0.5 + (i % 3) as f32 * 0.1),
        ));
    }
    let out = voxel_downsample(&pts, R32(0.5));
    assert!(!out.is_empty());
    assert!(out.len() <= 20, "out.len = {}", out.len());
}

#[test]
fn downsampling_averages_a_cell() {
    let pts = [
        PointType::new(R32(0.1), R32(0.1), R32(0.1)),
        PointType::new(R32(0.3), R32(0.1), R32(0.1)),
    ];
    let out = voxel_downsample(&pts, R32(1.0));
    assert_eq!(out.len(), 1);
    assert!((out[0].x.0 - 0.2).abs() < 1e-6);
}

#[test]
fn fixed_point_grids_work() {
    let mut g = GridMap::new(GridMapParams {
        resolution: Fixed::ratio(1, 1),
        min_x: Fixed::ratio(0, 1),
        min_y: Fixed::ratio(0, 1),
        max_x: Fixed::ratio(4, 1),
        max_y: Fixed::ratio(4, 1),
        ..Default::default()
    });
    g.mark_occupied(&[[Fixed::ratio(5, 2), Fixed::ratio(3, 2), Fixed::ratio(0, 1)]]);
    assert_eq!(g.world_to_cell(Fixed::ratio(5, 2), Fixed::ratio(3, 2)), (2, 1));
    assert_eq!(g.cell_count(), 1);
    assert_eq!(g.occupancy(0, 0), Fixed::ratio(1, 2));
    let hit = g.occupancy(2, 1);
    assert!(Fixed::ratio(1, 2).less(hit) && hit.at_most(Fixed::ratio(1, 1)));
    let bytes = g.save_pgm();
    assert!(bytes.starts_with(b"P5\n4 4\n255\n"));
}
