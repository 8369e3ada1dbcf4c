//! Driver selection and the assembly of Livox packets into frames.
pub mod laws;

use crate::data_source::DataSource;
use crate::scalar::{Scalar, Widen};
use crate::text::{chars_of, same_text};
use crate::types::{AviaMsg, AviaPointMsg, ImuRaw, LidarType, SensorData};
use std::time::Duration;
use vstd::prelude::*;
use vstd::string::StringExecFns;

verus! {

/// What is needed to construct a driver.
#[derive(Debug)]
pub struct DriverParams {
    /// Which driver to construct.
    pub lidar_type: LidarType,
    /// Configuration file of a Livox device.
    pub config_path: Option<String>,
    /// Network address of a spinning lidar.
    pub udp_ip: Option<String>,
    /// Port of the packets of a spinning lidar.
    pub port: Option<u16>,
    /// Grouping period for one scan.
    pub scan_period: Duration,
}

impl Clone for DriverParams {
    fn clone(&self) -> (r: Self)
        ensures
            r.lidar_type == self.lidar_type,
            r.config_path is Some == self.config_path is Some,
            r.config_path is Some ==> r.config_path->0@ == self.config_path->0@,
            r.udp_ip is Some == self.udp_ip is Some,
            r.udp_ip is Some ==> r.udp_ip->0@ == self.udp_ip->0@,
            r.port == self.port,
            r.scan_period == self.scan_period,
    {
        DriverParams {
            lidar_type: self.lidar_type,
            config_path: match &self.config_path {
                Some(path) => Some(path.clone()),
                None => None,
            },
            udp_ip: match &self.udp_ip {
                Some(ip) => Some(ip.clone()),
                None => None,
            },
            port: self.port,
            scan_period: self.scan_period,
        }
    }
}

impl DriverParams {
    /// The parameters of a device of any family.
    pub fn new(
        lidar_type: LidarType,
        config_path: Option<String>,
        udp_ip: Option<String>,
        port: Option<u16>,
        scan_period: Duration,
    ) -> (r: Self)
        ensures
            r == (DriverParams { lidar_type, config_path, udp_ip, port, scan_period }),
    {
        DriverParams { lidar_type, config_path, udp_ip, port, scan_period }
    }

    /// The parameters of a Livox device.
    pub fn livox(config_path: String, scan_period: Duration) -> (r: Self)
        ensures
            r.lidar_type == LidarType::Avia,
            r.config_path == Some(config_path),
            r.udp_ip is None,
            r.port is None,
            r.scan_period == scan_period,
    {
        DriverParams::new(LidarType::Avia, Some(config_path), None, None, scan_period)
    }
}

/// The family of lidars that a driver name stands for, if an adapter knows it.
pub open spec fn family_named(name: Seq<char>) -> Option<LidarType> {
    if name == "livox"@ {
        Some(LidarType::Avia)
    } else if name == "velodyne"@ {
        Some(LidarType::Velo16)
    } else if name == "ouster"@ {
        Some(LidarType::Oust64)
    } else if name == "marsim"@ {
        Some(LidarType::Marsim)
    } else {
        None
    }
}

/// Finds the family of lidars for a driver name, or says why there is none.
pub fn driver_named(name: &str) -> (r: Result<LidarType, String>)
    ensures
        match family_named(name@) {
            Some(family) => r matches Ok(f) && f == family,
            None => r matches Err(e) && e@ == if name@ == "hesai"@ {
                "hesai driver not yet implemented"@
            } else {
                "unknown driver: "@ + name@
                    + " (known: livox, velodyne, ouster, hesai, marsim)"@
            },
        },
{
    let cs: Vec<char> = chars_of(name);
    if same_text(cs.as_slice(), "livox") {
        Ok(LidarType::Avia)
    } else if same_text(cs.as_slice(), "velodyne") {
        Ok(LidarType::Velo16)
    } else if same_text(cs.as_slice(), "ouster") {
        Ok(LidarType::Oust64)
    } else if same_text(cs.as_slice(), "marsim") {
        Ok(LidarType::Marsim)
    } else if same_text(cs.as_slice(), "hesai") {
        Err("hesai driver not yet implemented".to_owned())
    } else {
        let mut e: String = "unknown driver: ".to_owned();
        e.append(name);
        e.append(" (known: livox, velodyne, ouster, hesai, marsim)");
        Err(e)
    }
}

/// A connection to make: the configuration file and the grouping period.
#[derive(Debug)]
pub struct LivoxRequest {
    pub config_path: String,
    pub scan_period: Duration,
}

/// Why no driver can be opened for `params`, if so.
pub open spec fn open_error(params: &DriverParams) -> Option<Seq<char>> {
    match params.lidar_type {
        LidarType::Avia => if params.config_path is None {
            Some("Livox driver requires a config file path"@)
        } else {
            None
        },
        LidarType::Velo16 => Some("velodyne driver not yet implemented"@),
        LidarType::Oust64 => Some("ouster driver not yet implemented"@),
        LidarType::Marsim => Some("marsim driver not yet implemented"@),
    }
}

/// Decides which device connection serves `params`, or says why none does.
pub fn open(params: &DriverParams) -> (r: Result<LivoxRequest, String>)
    ensures
        match open_error(params) {
            Some(msg) => r matches Err(e) && e@ == msg,
            None => r matches Ok(c) && c.config_path@ == params.config_path->0@ && c.scan_period
                == params.scan_period,
        },
{
    match params.lidar_type {
        LidarType::Avia => match &params.config_path {
            Some(config) => Ok(
                LivoxRequest { config_path: config.clone(), scan_period: params.scan_period },
            ),
            None => Err("Livox driver requires a config file path".to_owned()),
        },
        LidarType::Velo16 => Err("velodyne driver not yet implemented".to_owned()),
        LidarType::Oust64 => Err("ouster driver not yet implemented".to_owned()),
        LidarType::Marsim => Err("marsim driver not yet implemented".to_owned()),
    }
}

/// Velodyne data source; yields nothing.
#[derive(Clone, Copy, Debug)]
pub struct VelodyneSource {}

/// Ouster data source; yields nothing.
#[derive(Clone, Copy, Debug)]
pub struct OusterSource {}

/// Hesai data source; yields nothing.
#[derive(Clone, Copy, Debug)]
pub struct HesaiSource {}

impl<N: Scalar, W: Scalar> DataSource<N, W> for VelodyneSource {
    fn next(&mut self) -> Option<SensorData<N, W>>
        returns
            None::<SensorData<N, W>>,
    {
        None
    }
}

impl<N: Scalar, W: Scalar> DataSource<N, W> for OusterSource {
    fn next(&mut self) -> Option<SensorData<N, W>>
        returns
            None::<SensorData<N, W>>,
    {
        None
    }
}

impl<N: Scalar, W: Scalar> DataSource<N, W> for HesaiSource {
    fn next(&mut self) -> Option<SensorData<N, W>>
        returns
            None::<SensorData<N, W>>,
    {
        None
    }
}

/// Acceleration of one g in m/s².
#[verifier::allow_in_spec]
pub fn acc_g_to_mps2<W: Scalar>() -> W
    returns
        W::ratio_spec(980665, 100000),
{
    W::ratio(980665, 100000)
}

/// A point as the device delivers it, in meters.
#[derive(Clone, Copy, Debug)]
pub struct RawPoint<W> {
    pub x: W,
    pub y: W,
    pub z: W,
    pub reflectivity: u8,
    pub tag: u8,
}

/// An IMU sample as the device delivers it: rad/s and g.
#[derive(Clone, Copy, Debug)]
pub struct RawImu<N> {
    pub gyro_x: N,
    pub gyro_y: N,
    pub gyro_z: N,
    pub acc_x: N,
    pub acc_y: N,
    pub acc_z: N,
}

/// The reflectivity of a return that is invalid or from the blind zone.
pub const INVALID_REFLECTIVITY: u8 = 0xFF;

/// Seconds of a time in nanoseconds.
#[verifier::allow_in_spec]
pub fn seconds<W: Scalar>(ns: u64) -> W
    returns
        W::ratio_spec((ns / 1_000_000_000) as int, 1).plus_spec(
            W::ratio_spec((ns % 1_000_000_000) as int, 1).over_spec(W::ratio_spec(1_000_000_000, 1)),
        ),
{
    W::count(ns / 1_000_000_000).plus(
        W::count(ns % 1_000_000_000).over(W::ratio(1_000_000_000, 1)),
    )
}

/// The time from `from` to `to`; none when `to` is earlier.
#[verifier::allow_in_spec]
pub fn time_since(from: u64, to: u64) -> u64
    returns
        (if to >= from {
            (to - from) as u64
        } else {
            0
        }),
{
    if to >= from {
        to - from
    } else {
        0
    }
}

/// The microseconds of a time, as far as 32 bits hold them.
pub open spec fn micros(ns: u64) -> u32 {
    ((ns / 1000) % 0x1_0000_0000) as u32
}

/// The time within the scan of point `k` of a packet that starts at `base`
/// microseconds, with `interval` tenths of a microsecond between points.
pub open spec fn point_offset(base: u32, interval: u16, k: int) -> u32 {
    let at = base + (interval as int / 10) * k;
    if at > u32::MAX {
        u32::MAX
    } else {
        at as u32
    }
}

/// Point `k` of a packet as a point of a message.
pub open spec fn packet_point<N: Widen<W>, W: Scalar>(
    p: RawPoint<W>,
    base: u32,
    interval: u16,
    k: int,
) -> AviaPointMsg<N> {
    AviaPointMsg {
        x: N::narrow_spec(p.x),
        y: N::narrow_spec(p.y),
        z: N::narrow_spec(p.z),
        reflectivity: p.reflectivity,
        tag: p.tag as u16,
        line: 0,
        offset_time: point_offset(base, interval, k),
    }
}

/// The valid ones among the first `n` points of a packet.
pub open spec fn packet_points<N: Widen<W>, W: Scalar>(
    pts: Seq<RawPoint<W>>,
    base: u32,
    interval: u16,
    n: nat,
) -> Seq<AviaPointMsg<N>>
    decreases n,
{
    if n == 0 {
        Seq::empty()
    } else {
        let before = packet_points::<N, W>(pts, base, interval, (n - 1) as nat);
        if pts[n - 1].reflectivity == INVALID_REFLECTIVITY {
            before
        } else {
            before.push(packet_point::<N, W>(pts[n - 1], base, interval, n - 1))
        }
    }
}

/// Accumulates the points of packets into scan frames. Times are nanoseconds on
/// a clock that starts with the accumulation.
#[derive(Debug)]
pub struct FrameAcc<N, W> {
    pub scan_period: u64,
    pub frame_start: u64,
    /// Unix time in seconds at the start of the clock.
    pub unix0: W,
    pub points: Vec<AviaPointMsg<N>>,
}

impl<N: Widen<W>, W: Scalar> FrameAcc<N, W> {
    /// An empty frame that starts with the clock.
    pub fn new(scan_period: u64, unix0: W) -> (r: Self)
        ensures
            r.scan_period == scan_period,
            r.frame_start == 0,
            r.unix0 == unix0,
            r.points@ == Seq::<AviaPointMsg<N>>::empty(),
    {
        FrameAcc { scan_period, frame_start: 0, unix0, points: Vec::new() }
    }

    /// Unix time in seconds at a time of the clock.
    #[verifier::allow_in_spec]
    pub fn epoch(&self, t: u64) -> W
        returns
            self.unix0.plus_spec(seconds(t)),
    {
        self.unix0.plus(seconds(t))
    }

    /// The frame has lasted for the scan period.
    #[verifier::allow_in_spec]
    pub fn ready(&self, now: u64) -> bool
        returns
            time_since(self.frame_start, now) >= self.scan_period,
    {
        time_since(self.frame_start, now) >= self.scan_period
    }

    /// Hands the frame out and starts the next one.
    pub fn take(&mut self, now: u64) -> (r: AviaMsg<N, W>)
        ensures
            r.stamp == old(self).epoch(old(self).frame_start),
            r.points@ == old(self).points@,
            final(self).points@ == Seq::<AviaPointMsg<N>>::empty(),
            final(self).frame_start == now,
            final(self).scan_period == old(self).scan_period,
            final(self).unix0 == old(self).unix0,
    {
        let stamp: W = self.epoch(self.frame_start);
        let mut points: Vec<AviaPointMsg<N>> = Vec::new();
        std::mem::swap(&mut points, &mut self.points);
        self.frame_start = now;
        AviaMsg { stamp, points }
    }

    /// The points of the frame with those of a packet.
    pub open spec fn with_packet(&self, pts: Seq<RawPoint<W>>, interval: u16, now: u64) -> Seq<
        AviaPointMsg<N>,
    > {
        self.points@ + packet_points::<N, W>(
            pts,
            micros(time_since(self.frame_start, now)),
            interval,
            pts.len(),
        )
    }

    /// Adds the points of a packet that arrives now; hands the frame out when it
    /// is ready. A packet without points changes nothing. The number of points of
    /// a packet has 16 bits.
    pub fn add_packet(&mut self, pts: &Vec<RawPoint<W>>, time_interval: u16, now: u64) -> (r: Option<
        AviaMsg<N, W>,
    >)
        requires
            pts@.len() <= 0x1_0000,
        ensures
            final(self).scan_period == old(self).scan_period,
            final(self).unix0 == old(self).unix0,
            ({
                let all = old(self).with_packet(pts@, time_interval, now);
                if pts@.len() > 0 && old(self).ready(now) {
                    &&& r matches Some(msg)
                    &&& msg.stamp == old(self).epoch(old(self).frame_start)
                    &&& msg.points@ == all
                    &&& final(self).points@ == Seq::<AviaPointMsg<N>>::empty()
                    &&& final(self).frame_start == now
                } else {
                    r is None && final(self).points@ == all && final(self).frame_start == old(
                        self,
                    ).frame_start
                }
            }),
    {
        let n: usize = pts.len();
        if n == 0 {
            assert(self.with_packet(pts@, time_interval, now) =~= self.points@);
            return None;
        }
        let base_us: u32 = ((time_since(self.frame_start, now) / 1000) % 0x1_0000_0000) as u32;
        let interval_us: u32 = time_interval as u32 / 10;
        let ghost start = self.points@;
        let mut k: usize = 0;
        assert(self.points@ =~= start + packet_points::<N, W>(pts@, base_us, time_interval, 0));
        while k < n
            invariant
                k <= n == pts@.len() <= 0x1_0000,
                interval_us == time_interval / 10,
                self.points@ == start + packet_points::<N, W>(
                    pts@,
                    base_us,
                    time_interval,
                    k as nat,
                ),
                self.scan_period == old(self).scan_period,
                self.frame_start == old(self).frame_start,
                self.unix0 == old(self).unix0,
            decreases n - k,
        {
            let p: RawPoint<W> = pts[k];
            if p.reflectivity != INVALID_REFLECTIVITY {
                assert(interval_us * k <= 6553 * 0x1_0000) by (nonlinear_arith)
                    requires
                        interval_us <= 6553,
                        k <= 0x1_0000,
                ;
                let off: u32 = base_us.saturating_add(interval_us * k as u32);
                self.points.push(
                    AviaPointMsg {
                        x: N::narrow(p.x),
                        y: N::narrow(p.y),
                        z: N::narrow(p.z),
                        reflectivity: p.reflectivity,
                        tag: p.tag as u16,
                        line: 0,
                        offset_time: off,
                    },
                );
            }
            k = k + 1;
            assert(self.points@ =~= start + packet_points::<N, W>(
                pts@,
                base_us,
                time_interval,
                k as nat,
            ));
        }
        if self.ready(now) {
            Some(self.take(now))
        } else {
            None
        }
    }

    /// The measurement that an IMU sample of the device arriving now stands for.
    pub open spec fn imu_spec(&self, imu: RawImu<N>, now: u64) -> ImuRaw<W> {
        let g = acc_g_to_mps2::<W>();
        ImuRaw {
            stamp: self.epoch(now),
            acc: [
                imu.acc_x.widen_spec().times_spec(g),
                imu.acc_y.widen_spec().times_spec(g),
                imu.acc_z.widen_spec().times_spec(g),
            ],
            gyr: [imu.gyro_x.widen_spec(), imu.gyro_y.widen_spec(), imu.gyro_z.widen_spec()],
        }
    }

    /// Converts an IMU sample of the device.
    pub fn imu(&self, imu: RawImu<N>, now: u64) -> (r: ImuRaw<W>)
        ensures
            r == self.imu_spec(imu, now),
    {
        let g: W = acc_g_to_mps2();
        ImuRaw {
            stamp: self.epoch(now),
            acc: [
                imu.acc_x.widen().times(g),
                imu.acc_y.widen().times(g),
                imu.acc_z.widen().times(g),
            ],
            gyr: [imu.gyro_x.widen(), imu.gyro_y.widen(), imu.gyro_z.widen()],
        }
    }
}

/// A frame keeps no invalid return, and within a packet a later point never has
/// an earlier time.
pub proof fn law_packet_points<N: Widen<W>, W: Scalar>(
    pts: Seq<RawPoint<W>>,
    base: u32,
    interval: u16,
    n: nat,
)
    requires
        n <= pts.len(),
    ensures
        ({
            let out = packet_points::<N, W>(pts, base, interval, n);
            &&& out.len() <= n
            &&& forall|i: int| 0 <= i < out.len() ==> out[i].reflectivity != INVALID_REFLECTIVITY
            &&& forall|i: int|
                0 <= i < out.len() ==> base <= (#[trigger] out[i]).offset_time <= point_offset(
                    base,
                    interval,
                    n as int,
                )
            &&& forall|i: int, j: int|
                0 <= i <= j < out.len() ==> out[i].offset_time <= out[j].offset_time
        }),
    decreases n,
{
    if n > 0 {
        law_packet_points::<N, W>(pts, base, interval, (n - 1) as nat);
        let step = interval as int / 10;
        assert(0 <= step * (n - 1) <= step * n) by (nonlinear_arith)
            requires
                step >= 0,
                n > 0,
        ;
    }
}

} // verus!
