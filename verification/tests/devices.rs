//! Drivers, map files, texts and fixed-point numbers.
use fast_lio::data_source::DataSource;
use fast_lio::driver::{
    driver_named, open, DriverParams, FrameAcc, HesaiSource, OusterSource, RawImu, RawPoint, VelodyneSource,
};
use fast_lio::export::{write_map, MapFormat};
use fast_lio::fixed::Fixed;
use fast_lio::scalar::{Scalar, Widen};
use fast_lio::text::{
    chars_of, push_decimal, read_count, split, split_words, string_of, strip_prefix, trim,
    TextNumber,
};
use fast_lio::types::{Feature, LidarType, PointType, SensorData, TimeUnit};
use std::time::Duration;

/// A double-precision number.
#[derive(Clone, Copy, Debug, PartialEq)]
struct R64(f64);

impl Scalar for R64 {
    fn plus(self, o: Self) -> Self {
        R64(self.0 + o.0)
    }
    fn minus(self, o: Self) -> Self {
        R64(self.0 - o.0)
    }
    fn times(self, o: Self) -> Self {
        R64(self.0 * o.0)
    }
    fn over(self, o: Self) -> Self {
        R64(self.0 / o.0)
    }
    fn negate(self) -> Self {
        R64(-self.0)
    }
    fn magnitude(self) -> Self {
        R64(self.0.abs())
    }
    fn root(self) -> Self {
        R64(self.0.sqrt())
    }
    fn floor(self) -> Self {
        R64(self.0.floor())
    }
    fn ceil(self) -> Self {
        R64(self.0.ceil())
    }
    fn exp(self) -> Self {
        R64(self.0.exp())
    }
    fn sin(self) -> Self {
        R64(self.0.sin())
    }
    fn cos(self) -> Self {
        R64(self.0.cos())
    }
    fn atan2(self, x: Self) -> Self {
        R64(self.0.atan2(x.0))
    }
    fn asin(self) -> Self {
        R64(self.0.asin())
    }
    fn acos(self) -> Self {
        R64(self.0.acos())
    }
    fn hypot(self, o: Self) -> Self {
        R64(self.0.hypot(o.0))
    }
    fn rem_euclid(self, o: Self) -> Self {
        R64(self.0.rem_euclid(o.0))
    }
    fn finite(self) -> bool {
        self.0.is_finite()
    }
    fn to_index(self) -> i64 {
        self.0 as i64
    }
    fn ratio(num: i64, den: i64) -> Self {
        R64(num as f64 / den as f64)
    }
    fn count(n: u64) -> Self {
        R64(n as f64)
    }
    fn less(self, o: Self) -> bool {
        self.0 < o.0
    }
    fn at_most(self, o: Self) -> bool {
        self.0 <= o.0
    }
}
/// A single-precision number.
#[derive(Clone, Copy, Debug, PartialEq)]
struct R32(f32);

impl Scalar for R32 {
    fn plus(self, o: Self) -> Self {
        R32(self.0 + o.0)
    }
    fn minus(self, o: Self) -> Self {
        R32(self.0 - o.0)
    }
    fn times(self, o: Self) -> Self {
        R32(self.0 * o.0)
    }
    fn over(self, o: Self) -> Self {
        R32(self.0 / o.0)
    }
    fn negate(self) -> Self {
        R32(-self.0)
    }
    fn magnitude(self) -> Self {
        R32(self.0.abs())
    }
    fn root(self) -> Self {
        R32(self.0.sqrt())
    }
    fn floor(self) -> Self {
        R32(self.0.floor())
    }
    fn ceil(self) -> Self {
        R32(self.0.ceil())
    }
    fn exp(self) -> Self {
        R32(self.0.exp())
    }
    fn sin(self) -> Self {
        R32(self.0.sin())
    }
    fn cos(self) -> Self {
        R32(self.0.cos())
    }
    fn atan2(self, x: Self) -> Self {
        R32(self.0.atan2(x.0))
    }
    fn asin(self) -> Self {
        R32(self.0.asin())
    }
    fn acos(self) -> Self {
        R32(self.0.acos())
    }
    fn hypot(self, o: Self) -> Self {
        R32(self.0.hypot(o.0))
    }
    fn rem_euclid(self, o: Self) -> Self {
        R32(self.0.rem_euclid(o.0))
    }
    fn finite(self) -> bool {
        self.0.is_finite()
    }
    fn to_index(self) -> i64 {
        self.0 as i64
    }
    fn ratio(num: i64, den: i64) -> Self {
        R32((num as f64 / den as f64) as f32)
    }
    fn count(n: u64) -> Self {
        R32(n as f32)
    }
    fn less(self, o: Self) -> bool {
        self.0 < o.0
    }
    fn at_most(self, o: Self) -> bool {
        self.0 <= o.0
    }
}

impl Widen<R64> for R32 {
    fn widen(self) -> R64 {
        R64(self.0 as f64)
    }
    fn narrow(w: R64) -> Self {
        R32(w.0 as f32)
    }
}

impl TextNumber for R32 {
    fn read(s: &[char]) -> Option<Self> {
        s.iter().collect::<String>().parse().ok().map(R32)
    }
    fn show(self, out: &mut String) {
        out.push_str(&self.0.to_string());
    }
}

#[test]
fn livox_parameters_ask_for_a_connection() {
    let p = DriverParams::livox("mid360.json".to_string(), Duration::from_millis(100));
    assert_eq!(p.lidar_type, LidarType::Avia);
    let request = open(&p).unwrap();
    assert_eq!(request.config_path, "mid360.json");
    assert_eq!(request.scan_period, Duration::from_millis(100));
    let copy = p.clone();
    assert_eq!(copy.config_path, p.config_path);
}

#[test]
fn other_drivers_say_why_they_do_not_open() {
    let error = |lidar_type, config_path| {
        let scan_period = Duration::from_millis(100);
        open(&DriverParams::new(lidar_type, config_path, None, None, scan_period)).err().unwrap()
    };
    assert_eq!(error(LidarType::Avia, None), "Livox driver requires a config file path");
    assert_eq!(error(LidarType::Velo16, None), "velodyne driver not yet implemented");
    assert_eq!(error(LidarType::Oust64, None), "ouster driver not yet implemented");
    assert_eq!(error(LidarType::Marsim, None), "marsim driver not yet implemented");
}

#[test]
fn drivers_have_names() {
    assert_eq!(driver_named("livox"), Ok(LidarType::Avia));
    assert_eq!(driver_named("velodyne"), Ok(LidarType::Velo16));
    assert_eq!(driver_named("ouster"), Ok(LidarType::Oust64));
    assert_eq!(driver_named("marsim"), Ok(LidarType::Marsim));
    assert_eq!(driver_named("hesai"), Err("hesai driver not yet implemented".to_string()));
    assert!(driver_named("sonar").err().unwrap().starts_with("unknown driver: sonar"));
}

#[test]
fn placeholder_sources_are_empty() {
    let a: Option<SensorData<R32, R64>> = VelodyneSource {}.next();
    let b: Option<SensorData<R32, R64>> = OusterSource {}.next();
    let c: Option<SensorData<R32, R64>> = HesaiSource {}.next();
    assert!(a.is_none() && b.is_none() && c.is_none());
}

fn raw(x: f64, reflectivity: u8) -> RawPoint<R64> {
    RawPoint { x: R64(x), y: R64(0.0), z: R64(0.0), reflectivity, tag: 3 }
}

#[test]
fn packets_become_frames() {
    let mut acc: FrameAcc<R32, R64> = FrameAcc::new(100_000_000, R64(1000.0));
    assert!(acc.add_packet(&vec![], 50, 200_000_000).is_none());
    let first = vec![raw(1.0, 10), raw(2.0, 0xFF), raw(3.0, 20)];
    assert!(acc.add_packet(&first, 50, 1_000_000).is_none());
    assert!(!acc.ready(99_999_999) && acc.ready(100_000_000));
    let frame = acc.add_packet(&vec![raw(4.0, 30)], 50, 100_000_000).unwrap();
    assert_eq!(frame.stamp.0, 1000.0);
    let seen: Vec<(f32, u32)> = frame.points.iter().map(|p| (p.x.0, p.offset_time)).collect();
    assert_eq!(seen, vec![(1.0, 1000), (3.0, 1010), (4.0, 100_000)]);
    assert!(frame.points.iter().all(|p| p.line == 0 && p.tag == 3));
    assert_eq!(acc.frame_start, 100_000_000);
    assert!(acc.points.is_empty());
    let next = acc.take(300_000_000);
    assert!((next.stamp.0 - 1000.1).abs() < 1e-9);
}

#[test]
fn late_points_saturate() {
    let mut acc: FrameAcc<R32, R64> = FrameAcc::new(u64::MAX, R64(0.0));
    let many = vec![raw(1.0, 1); 3];
    assert!(acc.add_packet(&many, u16::MAX, 4_294_967_290_000).is_none());
    assert_eq!(acc.points[0].offset_time, 4_294_967_290);
    assert_eq!(acc.points[2].offset_time, u32::MAX);
}

#[test]
fn inertial_samples_are_scaled() {
    let acc: FrameAcc<R32, R64> = FrameAcc::new(1, R64(5.0));
    let imu = acc.imu(
        RawImu {
            gyro_x: R32(0.5),
            gyro_y: R32(0.0),
            gyro_z: R32(0.0),
            acc_x: R32(0.0),
            acc_y: R32(0.0),
            acc_z: R32(1.0),
        },
        2_500_000_000,
    );
    assert_eq!(imu.stamp.0, 7.5);
    assert_eq!(imu.acc[2].0, 9.80665);
    assert_eq!(imu.gyr[0].0, 0.5);
}

#[test]
fn map_formats_have_names() {
    for name in ["xyz", "pcd", "ply"] {
        assert_eq!(MapFormat::parse(name).unwrap().extension(), name);
    }
    assert!(MapFormat::parse("XYZ").is_none());
}

#[test]
fn map_files_list_the_points() {
    let mut p: PointType<R32> = PointType::new(R32(1.0), R32(-2.5), R32(0.25));
    p.intensity = R32(7.0);
    assert_eq!(write_map(&[p], MapFormat::Xyz), "1 -2.5 0.25\n");
    let pcd = write_map(&[p, p], MapFormat::Pcd);
    assert!(pcd.starts_with("# .PCD v0.7 - Point Cloud Data file format\nVERSION 0.7\n"));
    assert!(pcd.contains("\nWIDTH 2\nHEIGHT 1\nVIEWPOINT 0 0 0 1 0 0 0\nPOINTS 2\nDATA ascii\n"));
    assert!(pcd.ends_with("1 -2.5 0.25 7\n1 -2.5 0.25 7\n"));
    let ply = write_map(&[p], MapFormat::Ply);
    assert!(ply.starts_with("ply\nformat ascii 1.0\nelement vertex 1\nproperty float x\n"));
    assert!(ply.ends_with("end_header\n1 -2.5 0.25 7\n"));
}

fn cut(s: &str, f: impl Fn(&[char]) -> Vec<Vec<char>>) -> Vec<String> {
    f(&chars_of(s)).iter().map(|p| string_of(p)).collect()
}

#[test]
fn texts_are_cut_like_strings() {
    for s in ["", "a", "a,b", ",a,,b,", " a \t b\nc "] {
        let expected: Vec<String> = s.split(',').map(String::from).collect();
        assert_eq!(cut(s, |t| split(t, ',')), expected);
        let expected: Vec<String> = s.split_whitespace().map(String::from).collect();
        assert_eq!(cut(s, split_words), expected);
        assert_eq!(string_of(&trim(&chars_of(s))), s.trim());
    }
    let rest = strip_prefix(&chars_of("origin: x"), "origin:").unwrap();
    assert_eq!(string_of(&rest), " x");
    assert!(strip_prefix(&chars_of("origi"), "origin:").is_none());
}

#[test]
fn counts_read_back() {
    for n in [0, 7, 10, 65535, u64::MAX] {
        let mut s = String::new();
        push_decimal(&mut s, n);
        assert_eq!(s, n.to_string());
        assert_eq!(read_count(&chars_of(&s), u64::MAX), Some(n));
    }
    assert_eq!(read_count(&chars_of("+5"), 99), Some(5));
    assert_eq!(read_count(&chars_of("100"), 99), None);
    assert_eq!(read_count(&chars_of("1x"), 99), None);
    assert_eq!(read_count(&chars_of(""), 99), None);
}

#[test]
fn lidar_families_have_codes() {
    assert_eq!(LidarType::from_i32(1), LidarType::Avia);
    assert_eq!(LidarType::from_i32(2), LidarType::Velo16);
    assert_eq!(LidarType::from_i32(3), LidarType::Oust64);
    assert_eq!(LidarType::from_i32(4), LidarType::Marsim);
    assert_eq!(LidarType::from_i32(0), LidarType::Avia);
    assert_eq!(TimeUnit::Us.to_ms_scale::<R64>().0, 1e-3);
    assert_eq!(TimeUnit::Sec.to_ms_scale::<R64>().0, 1e3);
    assert!(Feature::EdgeJump.settled() && !Feature::PossPlane.settled());
}

#[test]
fn fixed_point_numbers_compute() {
    let half = Fixed::ratio(1, 2);
    assert_eq!(half.plus(half), Fixed::ratio(1, 1));
    assert_eq!(half.times(half), Fixed::ratio(1, 4));
    assert_eq!(Fixed::ratio(9, 4).root(), Fixed::ratio(3, 2));
    assert_eq!(Fixed::ratio(-3, 2).floor(), Fixed::ratio(-2, 1));
    assert_eq!(Fixed::ratio(7, 2).to_index(), 3);
    assert!(half.less(Fixed::ratio(1, 1)) && !half.less(half));
    let mut s = String::new();
    Fixed::ratio(-5, 4).show(&mut s);
    assert_eq!(Fixed::read(&chars_of(&s)), Some(Fixed::ratio(-5, 4)));
    assert_eq!(Fixed::read(&chars_of("0.5")), Some(half));
    assert_eq!(Fixed::read(&chars_of("five")), None);
}
