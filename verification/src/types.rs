//! Points, raw sensor messages and the measurement group of the pipeline.
use crate::scalar::{zero, Scalar};
use vstd::prelude::*;

verus! {

/// Minimum number of neighbours for plane matching.
pub const NUM_MATCH_POINTS: usize = 5;

/// Index of the previous neighbour in [`OrgType::edj`].
pub const SURROUND_PREV: usize = 0;

/// Index of the next neighbour in [`OrgType::edj`].
pub const SURROUND_NEXT: usize = 1;

/// A point of a cloud.
///
/// `curvature` holds the time offset of the point within its scan, in
/// milliseconds.
#[derive(Clone, Copy, Debug)]
pub struct PointType<N> {
    pub x: N,
    pub y: N,
    pub z: N,
    pub intensity: N,
    pub curvature: N,
    pub normal_x: N,
    pub normal_y: N,
    pub normal_z: N,
}

/// The point at the origin with every attribute zero.
pub open spec fn zero_point<N: Scalar>() -> PointType<N> {
    point_at(zero::<N>(), zero::<N>(), zero::<N>())
}

/// The point at a position with every attribute zero.
pub open spec fn point_at<N: Scalar>(x: N, y: N, z: N) -> PointType<N> {
    PointType {
        x,
        y,
        z,
        intensity: zero::<N>(),
        curvature: zero::<N>(),
        normal_x: zero::<N>(),
        normal_y: zero::<N>(),
        normal_z: zero::<N>(),
    }
}

impl<N: Scalar> Default for PointType<N> {
    fn default() -> (r: Self)
        ensures
            r == zero_point::<N>(),
    {
        let o: N = N::ratio(0, 1);
        PointType {
            x: o,
            y: o,
            z: o,
            intensity: o,
            curvature: o,
            normal_x: o,
            normal_y: o,
            normal_z: o,
        }
    }
}

impl<N: Scalar> PointType<N> {
    /// A point with the given position and no attributes.
    pub fn new(x: N, y: N, z: N) -> (r: Self)
        ensures
            r == point_at(x, y, z),
    {
        let o: N = N::ratio(0, 1);
        PointType {
            x,
            y,
            z,
            intensity: o,
            curvature: o,
            normal_x: o,
            normal_y: o,
            normal_z: o,
        }
    }
}

/// A point cloud.
pub type PointCloud<N> = Vec<PointType<N>>;

/// The family of a lidar.
#[derive(Clone, Copy, Debug, PartialEq, Eq, Structural)]
pub enum LidarType {
    Avia,
    Velo16,
    Oust64,
    Marsim,
}

impl LidarType {
    /// The number that configuration files use for the family.
    pub open spec fn code(self) -> int {
        match self {
            LidarType::Avia => 1,
            LidarType::Velo16 => 2,
            LidarType::Oust64 => 3,
            LidarType::Marsim => 4,
        }
    }

    /// The family with number `v`; an unknown number means [`LidarType::Avia`].
    pub fn from_i32(v: i32) -> (r: Self)
        ensures
            1 <= v <= 4 ==> r.code() == v,
            !(1 <= v <= 4) ==> r == LidarType::Avia,
    {
        match v {
            2 => LidarType::Velo16,
            3 => LidarType::Oust64,
            4 => LidarType::Marsim,
            _ => LidarType::Avia,
        }
    }
}

/// Unit of a raw time field.
#[derive(Clone, Copy, Debug, PartialEq, Eq, Structural)]
pub enum TimeUnit {
    Sec,
    Ms,
    Us,
    Ns,
}

impl TimeUnit {
    /// Milliseconds per unit, as a numerator and a denominator.
    pub open spec fn ms_ratio(self) -> (int, int) {
        match self {
            TimeUnit::Sec => (1000, 1),
            TimeUnit::Ms => (1, 1),
            TimeUnit::Us => (1, 1000),
            TimeUnit::Ns => (1, 1000000),
        }
    }

    /// Scale that converts a raw time field into milliseconds.
    pub fn to_ms_scale<N: Scalar>(&self) -> (r: N)
        ensures
            r == N::ratio_spec(self.ms_ratio().0, self.ms_ratio().1),
    {
        match self {
            TimeUnit::Sec => N::ratio(1000, 1),
            TimeUnit::Ms => N::ratio(1, 1),
            TimeUnit::Us => N::ratio(1, 1000),
            TimeUnit::Ns => N::ratio(1, 1000000),
        }
    }
}

/// A single IMU measurement.
#[derive(Clone, Copy, Debug)]
pub struct ImuRaw<W> {
    pub stamp: W,
    pub acc: [W; 3],
    pub gyr: [W; 3],
}

/// A point of a Livox message.
#[derive(Clone, Copy, Debug)]
pub struct AviaPointMsg<N> {
    pub x: N,
    pub y: N,
    pub z: N,
    pub reflectivity: u8,
    pub tag: u16,
    pub line: u8,
    pub offset_time: u32,
}

/// A Livox message.
#[derive(Clone, Debug)]
pub struct AviaMsg<N, W> {
    pub stamp: W,
    pub points: Vec<AviaPointMsg<N>>,
}

/// A point of a spinning lidar.
#[derive(Clone, Copy, Debug)]
pub struct StdPointMsg<N> {
    pub x: N,
    pub y: N,
    pub z: N,
    pub intensity: N,
    pub time: N,
    pub ring: u16,
}

/// A message of a spinning lidar.
#[derive(Clone, Debug)]
pub struct StandardMsg<N, W> {
    pub stamp: W,
    pub points: Vec<StdPointMsg<N>>,
}

/// One raw sample of any sensor.
#[derive(Clone, Debug)]
pub enum SensorData<N, W> {
    Imu(ImuRaw<W>),
    LidarAvia(AviaMsg<N, W>),
    LidarStandard(StandardMsg<N, W>),
}

/// Class of a point in a scan line.
#[derive(Clone, Copy, Debug, PartialEq, Eq, PartialOrd, Ord, Structural)]
pub enum Feature {
    Nor,
    PossPlane,
    RealPlane,
    EdgeJump,
    EdgePlane,
    Wire,
    ZeroPoint,
}

impl Feature {
    /// The class is [`Feature::RealPlane`] or a later one.
    pub open spec fn is_settled(self) -> bool {
        !(self is Nor || self is PossPlane)
    }

    /// Tests for [`Feature::RealPlane`] or a later class.
    pub fn settled(self) -> (r: bool)
        ensures
            r == self.is_settled(),
    {
        match self {
            Feature::Nor => false,
            Feature::PossPlane => false,
            _ => true,
        }
    }
}

/// How the surface continues towards a neighbour.
#[derive(Clone, Copy, Debug, PartialEq, Eq, PartialOrd, Ord, Structural)]
pub enum Ejump {
    NrNor,
    NrZero,
    Nr180,
    NrInf,
    NrBlind,
}

/// Bookkeeping of feature extraction for one point.
#[derive(Clone, Copy, Debug)]
pub struct OrgType<W> {
    pub range: W,
    pub dista: W,
    pub angle: [W; 2],
    pub intersect: W,
    pub edj: [Ejump; 2],
    pub ftype: Feature,
}

/// The bookkeeping of a point that has not been looked at.
pub open spec fn fresh_org<W: Scalar>() -> OrgType<W> {
    OrgType {
        range: zero::<W>(),
        dista: zero::<W>(),
        angle: [zero::<W>(), zero::<W>()],
        intersect: W::ratio_spec(2, 1),
        edj: [Ejump::NrNor, Ejump::NrNor],
        ftype: Feature::Nor,
    }
}

impl<W: Scalar> Default for OrgType<W> {
    fn default() -> (r: Self)
        ensures
            r == fresh_org::<W>(),
    {
        let o: W = W::ratio(0, 1);
        OrgType {
            range: o,
            dista: o,
            angle: [o, o],
            intersect: W::ratio(2, 1),
            edj: [Ejump::NrNor, Ejump::NrNor],
            ftype: Feature::Nor,
        }
    }
}

/// A lidar scan with the IMU measurements that cover it.
#[derive(Clone, Debug)]
pub struct MeasureGroup<N, W> {
    pub lidar_beg_time: W,
    pub lidar_end_time: W,
    pub lidar: PointCloud<N>,
    pub imu: Vec<ImuRaw<W>>,
}

impl<N: Scalar, W: Scalar> Default for MeasureGroup<N, W> {
    fn default() -> (r: Self)
        ensures
            r.lidar_beg_time == zero::<W>(),
            r.lidar_end_time == zero::<W>(),
            r.lidar@.len() == 0,
            r.imu@.len() == 0,
    {
        MeasureGroup {
            lidar_beg_time: W::ratio(0, 1),
            lidar_end_time: W::ratio(0, 1),
            lidar: Vec::new(),
            imu: Vec::new(),
        }
    }
}

/// Each unit of time is a thousand of the next smaller one.
pub proof fn law_units_by_thousands()
    ensures
        ({
            let (s, ms) = (TimeUnit::Sec.ms_ratio(), TimeUnit::Ms.ms_ratio());
            let (us, ns) = (TimeUnit::Us.ms_ratio(), TimeUnit::Ns.ms_ratio());
            &&& s.0 * ms.1 == 1000 * (ms.0 * s.1)
            &&& ms.0 * us.1 == 1000 * (us.0 * ms.1)
            &&& us.0 * ns.1 == 1000 * (ns.0 * us.1)
            &&& ms.0 == ms.1
        }),
{
}

} // verus!
