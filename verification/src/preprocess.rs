//! Preprocessing of raw scans and feature extraction.
pub mod features;
pub mod laws;
pub mod lines;

use crate::preprocess::features::{features, give_feature, narrow_gap, params_ok, Line, Types};
use crate::scalar::{le, lt, whole, zero, Scalar, Widen};
use crate::types::{
    fresh_org, zero_point, AviaMsg, AviaPointMsg, LidarType, OrgType, PointCloud, PointType,
    StandardMsg, StdPointMsg, TimeUnit,
};
use vstd::prelude::*;

verus! {

/// The preprocessor with its parameters and the clouds of the last scan.
#[derive(Debug)]
pub struct Preprocess<N, W> {
    pub feature_enabled: bool,
    pub lidar_type: LidarType,
    /// Points closer than this are ignored.
    pub blind: W,
    pub point_filter_num: i32,
    pub n_scans: usize,
    pub scan_rate: i32,
    pub time_unit: TimeUnit,
    pub given_offset_time: bool,
    pub inf_bound: W,
    pub group_size: usize,
    pub dis_a: W,
    pub dis_b: W,
    pub p2l_ratio: W,
    pub limit_maxmid: W,
    pub limit_midmin: W,
    pub limit_maxmin: W,
    pub jump_up_limit: W,
    pub jump_down_limit: W,
    pub cos160: W,
    pub edgea: W,
    pub edgeb: W,
    pub smallp_intersect: W,
    pub smallp_ratio: W,
    pub pl_corn: Vec<PointType<N>>,
    pub pl_surf: Vec<PointType<N>>,
}

/// The cosine of an angle of `num / den` degrees.
pub open spec fn cos_degrees<W: Scalar>(num: int, den: int) -> W {
    W::ratio_spec(num, den).over_spec(W::ratio_spec(180, 1)).times_spec(
        W::ratio_spec(3141592653589793, 1000000000000000),
    ).cos_spec()
}

fn cos_of_degrees<W: Scalar>(num: i64, den: i64) -> (r: W)
    ensures
        r == cos_degrees::<W>(num as int, den as int),
{
    W::ratio(num, den).over(W::ratio(180, 1)).times(
        W::ratio(3141592653589793, 1000000000000000),
    ).cos()
}

/// The squared distance of a place from the sensor.
pub open spec fn range_sq<N: Widen<W>, W: Scalar>(x: N, y: N, z: N) -> W {
    x.times_spec(x).plus_spec(y.times_spec(y)).plus_spec(z.times_spec(z)).widen_spec()
}

fn range_sq_of<N: Widen<W>, W: Scalar>(x: N, y: N, z: N) -> (r: W)
    ensures
        r == range_sq::<N, W>(x, y, z),
{
    x.times(x).plus(y.times(y)).plus(z.times(z)).widen()
}

/// The point at place `i` is one of those that thinning keeps.
pub open spec fn kept(filter_num: i32, i: int) -> bool {
    if filter_num > 0 {
        i % (filter_num as int) == 0
    } else {
        i == 0
    }
}

fn is_kept(filter_num: i32, i: usize) -> (r: bool)
    requires
        filter_num != 0,
    ensures
        r == kept(filter_num, i as int),
{
    if filter_num > 0 {
        i % filter_num as usize == 0
    } else {
        i == 0
    }
}

/// A count is a multiple of the thinning number, taken as an unsigned one.
pub open spec fn counted(filter_num: i32, n: int) -> bool {
    let m = if filter_num < 0 {
        filter_num + 0x1_0000_0000
    } else {
        filter_num as int
    };
    m != 0 && n % m == 0
}

fn is_counted(filter_num: i32, n: u32) -> (r: bool)
    requires
        n > 0,
    ensures
        r == counted(filter_num, n as int),
{
    let m: u64 = if filter_num < 0 {
        (filter_num as i64 + 0x1_0000_0000) as u64
    } else {
        filter_num as u64
    };
    m != 0 && n as u64 % m == 0
}

/// The point belongs to a line of the scanner and its tag marks a good return.
pub open spec fn accepted<N, W>(pp: Preprocess<N, W>, p: AviaPointMsg<N>) -> bool {
    p.line < pp.n_scans && (p.tag & 0x30u16 == 0x10u16 || p.tag & 0x30u16 == 0)
}

/// The point of a Livox message.
pub open spec fn avia_point<N: Scalar>(p: AviaPointMsg<N>) -> PointType<N> {
    PointType {
        x: p.x,
        y: p.y,
        z: p.z,
        intensity: whole(p.reflectivity as int),
        curvature: whole::<N>(p.offset_time as int).over_spec(whole(1000000)),
        ..zero_point::<N>()
    }
}

/// Two points differ in a coordinate.
pub open spec fn differs<N: Scalar>(a: PointType<N>, b: PointType<N>) -> bool {
    let eps = N::ratio_spec(1, 10000000);
    lt(eps, a.x.minus_spec(b.x).magnitude_spec()) || lt(eps, a.y.minus_spec(b.y).magnitude_spec())
        || lt(eps, a.z.minus_spec(b.z).magnitude_spec())
}

fn are_different<N: Scalar>(a: &PointType<N>, b: &PointType<N>) -> (r: bool)
    ensures
        r == differs(*a, *b),
{
    let eps: N = N::ratio(1, 10000000);
    eps.less(a.x.minus(b.x).magnitude()) || eps.less(a.y.minus(b.y).magnitude()) || eps.less(
        a.z.minus(b.z).magnitude(),
    )
}

fn is_accepted<N: Scalar, W: Scalar>(pp: &Preprocess<N, W>, p: &AviaPointMsg<N>) -> (r: bool)
    ensures
        r == accepted(*pp, *p),
{
    (p.line as usize) < pp.n_scans && (p.tag & 0x30u16 == 0x10u16 || p.tag & 0x30u16 == 0)
}

fn to_avia_point<N: Scalar>(p: &AviaPointMsg<N>) -> (r: PointType<N>)
    ensures
        r == avia_point(*p),
{
    let o: N = N::ratio(0, 1);
    PointType {
        x: p.x,
        y: p.y,
        z: p.z,
        intensity: N::ratio(p.reflectivity as i64, 1),
        curvature: N::ratio(p.offset_time as i64, 1).over(N::ratio(1000000, 1)),
        normal_x: o,
        normal_y: o,
        normal_z: o,
    }
}

/// What thinning a Livox message knows after the point at `i`: the number of
/// accepted points, the point at `i` if it was kept, and the surface cloud.
pub open spec fn avia_thinned<N: Widen<W>, W: Scalar>(
    pp: Preprocess<N, W>,
    pts: Seq<AviaPointMsg<N>>,
    i: int,
) -> (int, PointType<N>, Line<N>)
    decreases i,
{
    if i <= 0 {
        (0, zero_point(), Seq::empty())
    } else {
        let (n, prev, surf) = avia_thinned(pp, pts, i - 1);
        let p = pts[i];
        if !accepted(pp, p) {
            (n, zero_point(), surf)
        } else if !counted(pp.point_filter_num, n + 1) {
            (n + 1, zero_point(), surf)
        } else {
            let q = avia_point(p);
            let far = lt(pp.blind.times_spec(pp.blind), range_sq(q.x, q.y, q.z));
            (
                n + 1,
                q,
                if differs(q, prev) && far {
                    surf.push(q)
                } else {
                    surf
                },
            )
        }
    }
}

/// The point at `i` of a Livox message if it is accepted; the first never is.
pub open spec fn avia_full<N: Scalar, W: Scalar>(
    pp: Preprocess<N, W>,
    pts: Seq<AviaPointMsg<N>>,
    i: int,
) -> PointType<N> {
    if i > 0 && accepted(pp, pts[i]) {
        avia_point(pts[i])
    } else {
        zero_point()
    }
}

/// The points of a scan line among those up to `i`, without repetitions.
pub open spec fn avia_line<N: Scalar, W: Scalar>(
    pp: Preprocess<N, W>,
    pts: Seq<AviaPointMsg<N>>,
    line: int,
    i: int,
) -> Line<N>
    decreases i,
{
    if i <= 0 {
        Seq::empty()
    } else {
        let before = avia_line(pp, pts, line, i - 1);
        let q = avia_full(pp, pts, i);
        if accepted(pp, pts[i]) && pts[i].line == line && differs(q, avia_full(pp, pts, i - 1)) {
            before.push(q)
        } else {
            before
        }
    }
}

/// The point of a spinning lidar with its time in milliseconds.
pub open spec fn std_point<N: Scalar, W: Scalar>(
    pp: Preprocess<N, W>,
    p: StdPointMsg<N>,
) -> PointType<N> {
    PointType {
        x: p.x,
        y: p.y,
        z: p.z,
        intensity: p.intensity,
        curvature: p.time.times_spec(
            N::ratio_spec(pp.time_unit.ms_ratio().0, pp.time_unit.ms_ratio().1),
        ),
        ..zero_point::<N>()
    }
}

/// The place is closer to the sensor than points may be.
pub open spec fn within_blind<N: Widen<W>, W: Scalar>(
    pp: Preprocess<N, W>,
    p: StdPointMsg<N>,
) -> bool {
    lt(range_sq(p.x, p.y, p.z), pp.blind.times_spec(pp.blind))
}

/// The thinned cloud of the first `n` points.
pub open spec fn ouster_thinned<N: Widen<W>, W: Scalar>(
    pp: Preprocess<N, W>,
    pts: Seq<StdPointMsg<N>>,
    n: int,
) -> Line<N>
    decreases n,
{
    if n <= 0 {
        Seq::empty()
    } else {
        let before = ouster_thinned(pp, pts, n - 1);
        if kept(pp.point_filter_num, n - 1) && !within_blind(pp, pts[n - 1]) {
            before.push(std_point(pp, pts[n - 1]))
        } else {
            before
        }
    }
}

/// The points of a ring among the first `n`.
pub open spec fn ouster_line<N: Widen<W>, W: Scalar>(
    pp: Preprocess<N, W>,
    pts: Seq<StdPointMsg<N>>,
    ring: int,
    n: int,
) -> Line<N>
    decreases n,
{
    if n <= 0 {
        Seq::empty()
    } else {
        let before = ouster_line(pp, pts, ring, n - 1);
        if !within_blind(pp, pts[n - 1]) && pts[n - 1].ring == ring {
            before.push(std_point(pp, pts[n - 1]))
        } else {
            before
        }
    }
}

/// The simulated cloud of the first `n` points, which carry no time.
pub open spec fn sim_cloud<N: Widen<W>, W: Scalar>(
    pp: Preprocess<N, W>,
    pts: Seq<StdPointMsg<N>>,
    n: int,
) -> Line<N>
    decreases n,
{
    if n <= 0 {
        Seq::empty()
    } else {
        let before = sim_cloud(pp, pts, n - 1);
        let p = pts[n - 1];
        if within_blind(pp, p) {
            before
        } else {
            before.push(
                PointType { x: p.x, y: p.y, z: p.z, intensity: p.intensity, ..zero_point::<N>() },
            )
        }
    }
}

/// What is known of a layer while its times are recovered from the angles.
#[derive(Clone, Copy, Debug)]
pub struct Layer<N, W> {
    /// No point of the layer was seen yet.
    pub fresh: bool,
    /// The angle of the first point.
    pub yaw: W,
    /// The time of the last point.
    pub time: N,
}

/// The angle of a point in degrees.
pub open spec fn yaw_degrees<N: Widen<W>, W: Scalar>(p: StdPointMsg<N>) -> W {
    N::widen_spec(p.y).atan2_spec(p.x.widen_spec()).times_spec(W::ratio_spec(572957, 10000))
}

/// The angle that the scanner turns in a millisecond.
pub open spec fn turn_rate<W: Scalar>(scan_rate: i32) -> W {
    W::ratio_spec(361, 1000).times_spec(whole(scan_rate as int))
}

/// The time of a point that follows others of its layer.
pub open spec fn recovered_time<N: Widen<W>, W: Scalar>(
    pp: Preprocess<N, W>,
    l: Layer<N, W>,
    p: StdPointMsg<N>,
) -> N {
    let yaw = yaw_degrees::<N, W>(p);
    let omega = turn_rate::<W>(pp.scan_rate);
    let t = if le(yaw, l.yaw) {
        N::narrow_spec(l.yaw.minus_spec(yaw).over_spec(omega))
    } else {
        N::narrow_spec(l.yaw.minus_spec(yaw).plus_spec(whole(360)).over_spec(omega))
    };
    if lt(t, l.time) {
        t.plus_spec(N::narrow_spec(W::ratio_spec(360, 1).over_spec(omega)))
    } else {
        t
    }
}

/// The layer after a point.
pub open spec fn layer_after<N: Widen<W>, W: Scalar>(
    pp: Preprocess<N, W>,
    l: Layer<N, W>,
    p: StdPointMsg<N>,
) -> Layer<N, W> {
    if l.fresh {
        Layer { fresh: false, yaw: yaw_degrees(p), time: zero() }
    } else {
        Layer { fresh: false, yaw: l.yaw, time: recovered_time(pp, l, p) }
    }
}

/// The layer `ring` after the first `n` points.
pub open spec fn layer_state<N: Widen<W>, W: Scalar>(
    pp: Preprocess<N, W>,
    pts: Seq<StdPointMsg<N>>,
    ring: int,
    n: int,
) -> Layer<N, W>
    decreases n,
{
    if n <= 0 {
        Layer { fresh: true, yaw: zero(), time: zero() }
    } else {
        let l = layer_state(pp, pts, ring, n - 1);
        if pts[n - 1].ring == ring {
            layer_after(pp, l, pts[n - 1])
        } else {
            l
        }
    }
}

/// The point at `i` with its own time or the one recovered from its layer.
pub open spec fn timed_point<N: Widen<W>, W: Scalar>(
    pp: Preprocess<N, W>,
    pts: Seq<StdPointMsg<N>>,
    given: bool,
    i: int,
) -> PointType<N> {
    let p = std_point(pp, pts[i]);
    if given {
        p
    } else {
        PointType {
            curvature: layer_after(
                pp,
                layer_state(pp, pts, pts[i].ring as int, i),
                pts[i],
            ).time,
            ..p
        }
    }
}

/// The thinned cloud of the first `n` points.
pub open spec fn velodyne_thinned<N: Widen<W>, W: Scalar>(
    pp: Preprocess<N, W>,
    pts: Seq<StdPointMsg<N>>,
    given: bool,
    n: int,
) -> Line<N>
    decreases n,
{
    if n <= 0 {
        Seq::empty()
    } else {
        let before = velodyne_thinned(pp, pts, given, n - 1);
        let q = timed_point(pp, pts, given, n - 1);
        if kept(pp.point_filter_num, n - 1) && lt(
            pp.blind.times_spec(pp.blind),
            range_sq(q.x, q.y, q.z),
        ) {
            before.push(q)
        } else {
            before
        }
    }
}

/// The points of a layer among the first `n`.
pub open spec fn velodyne_line<N: Widen<W>, W: Scalar>(
    pp: Preprocess<N, W>,
    pts: Seq<StdPointMsg<N>>,
    given: bool,
    ring: int,
    n: int,
) -> Line<N>
    decreases n,
{
    if n <= 0 {
        Seq::empty()
    } else {
        let before = velodyne_line(pp, pts, given, ring, n - 1);
        if pts[n - 1].ring == ring {
            before.push(timed_point(pp, pts, given, n - 1))
        } else {
            before
        }
    }
}

/// The bookkeeping of a line before its points are classified. `rooted` says that
/// the steps are distances, not their squares.
pub open spec fn initial_types<N: Widen<W>, W: Scalar>(pl: Line<N>, rooted: bool) -> Types<W> {
    Seq::new(
        pl.len(),
        |i: int|
            OrgType {
                range: N::widen_spec(
                    pl[i].x.times_spec(pl[i].x).plus_spec(pl[i].y.times_spec(pl[i].y)),
                ).root_spec(),
                dista: if i + 1 < pl.len() {
                    let d = N::widen_spec(narrow_gap(pl, i, i + 1));
                    if rooted {
                        d.root_spec()
                    } else {
                        d
                    }
                } else {
                    zero()
                },
                ..fresh_org::<W>()
            },
    )
}

/// The surface and corner clouds of the first `n` lines, those with fewer than
/// `least` points left out; `None` when a group of points runs beyond its line.
pub open spec fn lines_features<N: Widen<W>, W: Scalar>(
    pp: Preprocess<N, W>,
    lines: Seq<Line<N>>,
    least: int,
    rooted: bool,
    n: int,
) -> Option<(Line<N>, Line<N>)>
    decreases n,
{
    if n <= 0 {
        Some((Seq::empty(), Seq::empty()))
    } else {
        match lines_features(pp, lines, least, rooted, n - 1) {
            None => None,
            Some((surf, corn)) => if lines[n - 1].len() < least {
                Some((surf, corn))
            } else {
                features(pp, lines[n - 1], initial_types(lines[n - 1], rooted), surf, corn)
            },
        }
    }
}

/// The clouds of a Livox message.
pub open spec fn avia_clouds<N: Widen<W>, W: Scalar>(
    pp: Preprocess<N, W>,
    pts: Seq<AviaPointMsg<N>>,
) -> Option<(Line<N>, Line<N>)> {
    if pp.feature_enabled {
        lines_features(
            pp,
            Seq::new(pp.n_scans as nat, |l: int| avia_line(pp, pts, l, pts.len() - 1)),
            6,
            true,
            pp.n_scans as int,
        )
    } else {
        Some((avia_thinned(pp, pts, pts.len() - 1).2, Seq::empty()))
    }
}

/// The points carry their times: the last of them does.
pub open spec fn has_times<N: Scalar>(pts: Seq<StdPointMsg<N>>) -> bool {
    lt(zero::<N>(), pts[pts.len() - 1].time)
}

/// The clouds of a message of a spinning or simulated lidar.
pub open spec fn standard_clouds<N: Widen<W>, W: Scalar>(
    pp: Preprocess<N, W>,
    pts: Seq<StdPointMsg<N>>,
) -> Option<(Line<N>, Line<N>)> {
    let n = pts.len() as int;
    match pp.lidar_type {
        LidarType::Oust64 => if pp.feature_enabled {
            lines_features(
                pp,
                Seq::new(pp.n_scans as nat, |l: int| ouster_line(pp, pts, l, n)),
                1,
                false,
                pp.n_scans as int,
            )
        } else {
            Some((ouster_thinned(pp, pts, n), Seq::empty()))
        },
        LidarType::Velo16 => if n == 0 {
            Some((Seq::empty(), Seq::empty()))
        } else if pp.feature_enabled {
            lines_features(
                pp,
                Seq::new(
                    pp.n_scans as nat,
                    |l: int| velodyne_line(pp, pts, has_times(pts), l, n),
                ),
                2,
                false,
                pp.n_scans as int,
            )
        } else {
            Some((velodyne_thinned(pp, pts, has_times(pts), n), Seq::empty()))
        },
        LidarType::Marsim => Some((sim_cloud(pp, pts, n), pp.pl_corn@)),
        LidarType::Avia => Some((pp.pl_surf@, pp.pl_corn@)),
    }
}

/// Only the clouds and the record of given times differ.
pub open spec fn same_setup<N, W>(a: Preprocess<N, W>, b: Preprocess<N, W>) -> bool {
    a == (Preprocess {
        pl_surf: a.pl_surf,
        pl_corn: a.pl_corn,
        given_offset_time: a.given_offset_time,
        ..b
    })
}

/// A copy of a cloud.
pub(crate) fn copy_cloud<N: Scalar>(pl: &Vec<PointType<N>>) -> (r: Vec<PointType<N>>)
    ensures
        r@ == pl@,
{
    let mut r: Vec<PointType<N>> = Vec::new();
    let mut i: usize = 0;
    while i < pl.len()
        invariant
            i <= pl@.len(),
            r@ == pl@.take(i as int),
        decreases pl@.len() - i,
    {
        r.push(pl[i]);
        i = i + 1;
        assert(r@ =~= pl@.take(i as int));
    }
    assert(r@ =~= pl@);
    r
}

/// Buffers for the points of `n` lines.
fn empty_lines<N: Scalar>(n: usize) -> (r: Vec<Vec<PointType<N>>>)
    ensures
        r@.len() == n,
        forall|l: int| 0 <= l < n ==> (#[trigger] r@[l])@ == Seq::<PointType<N>>::empty(),
{
    let mut r: Vec<Vec<PointType<N>>> = Vec::new();
    let mut i: usize = 0;
    while i < n
        invariant
            i <= n,
            r@.len() == i,
            forall|l: int| 0 <= l < i ==> (#[trigger] r@[l])@ == Seq::<PointType<N>>::empty(),
        decreases n - i,
    {
        r.push(Vec::new());
        i = i + 1;
    }
    r
}

/// The bookkeeping of a line before its points are classified.
fn start_types<N: Widen<W>, W: Scalar>(pl: &Vec<PointType<N>>, rooted: bool) -> (r: Vec<
    OrgType<W>,
>)
    ensures
        r@ == initial_types::<N, W>(pl@, rooted),
{
    let n: usize = pl.len();
    let mut r: Vec<OrgType<W>> = Vec::new();
    let mut i: usize = 0;
    while i < n
        invariant
            i <= n,
            n == pl@.len(),
            r@ == initial_types::<N, W>(pl@, rooted).take(i as int),
        decreases n - i,
    {
        let p: PointType<N> = pl[i];
        let range: W = p.x.times(p.x).plus(p.y.times(p.y)).widen().root();
        let dista: W = if n - i > 1 {
            let q: PointType<N> = pl[i + 1];
            let x: N = p.x.minus(q.x);
            let y: N = p.y.minus(q.y);
            let z: N = p.z.minus(q.z);
            let d: W = x.times(x).plus(y.times(y)).plus(z.times(z)).widen();
            if rooted {
                d.root()
            } else {
                d
            }
        } else {
            W::ratio(0, 1)
        };
        let t: OrgType<W> = OrgType::default();
        r.push(
            OrgType {
                range,
                dista,
                angle: t.angle,
                intersect: t.intersect,
                edj: t.edj,
                ftype: t.ftype,
            },
        );
        i = i + 1;
        assert(r@ =~= initial_types::<N, W>(pl@, rooted).take(i as int));
    }
    assert(r@ =~= initial_types::<N, W>(pl@, rooted));
    r
}

/// Classifies the points of all lines.
fn lines_to_clouds<N: Widen<W>, W: Scalar>(
    pp: &Preprocess<N, W>,
    lines: &Vec<Vec<PointType<N>>>,
    least: usize,
    rooted: bool,
    Ghost(want): Ghost<Seq<Line<N>>>,
) -> (r: Option<(Vec<PointType<N>>, Vec<PointType<N>>)>)
    requires
        params_ok(*pp),
        want.len() == lines@.len(),
        forall|l: int| 0 <= l < lines@.len() ==> (#[trigger] lines@[l])@ == want[l],
        forall|l: int| 0 <= l < lines@.len() ==> (#[trigger] want[l]).len() <= i64::MAX,
    ensures
        match lines_features(*pp, want, least as int, rooted, want.len() as int) {
            None => r is None,
            Some((s, c)) => r matches Some((surf, corn)) && surf@ == s && corn@ == c,
        },
{
    let mut surf: Vec<PointType<N>> = Vec::new();
    let mut corn: Vec<PointType<N>> = Vec::new();
    let mut j: usize = 0;
    while j < lines.len()
        invariant
            params_ok(*pp),
            j <= lines@.len(),
            want.len() == lines@.len(),
            forall|l: int| 0 <= l < lines@.len() ==> (#[trigger] lines@[l])@ == want[l],
            forall|l: int| 0 <= l < lines@.len() ==> (#[trigger] want[l]).len() <= i64::MAX,
            lines_features(*pp, want, least as int, rooted, j as int) == Some((surf@, corn@)),
        decreases lines@.len() - j,
    {
        let pl: &Vec<PointType<N>> = &lines[j];
        assert(want[j as int].len() <= i64::MAX);
        if pl.len() >= least {
            let mut types: Vec<OrgType<W>> = start_types(pl, rooted);
            if !give_feature(pp, pl, &mut types, &mut surf, &mut corn) {
                proof {
                    lemma_features_none(*pp, want, least as int, rooted, j + 1, want.len() as int);
                }
                return None;
            }
        }
        j = j + 1;
    }
    Some((surf, corn))
}

/// A line that cannot be classified spoils the rest.
proof fn lemma_features_none<N: Widen<W>, W: Scalar>(
    pp: Preprocess<N, W>,
    lines: Seq<Line<N>>,
    least: int,
    rooted: bool,
    j: int,
    n: int,
)
    requires
        0 <= j <= n,
        lines_features(pp, lines, least, rooted, j) is None,
    ensures
        lines_features(pp, lines, least, rooted, n) is None,
    decreases n - j,
{
    if j < n {
        lemma_features_none(pp, lines, least, rooted, j + 1, n);
    }
}

/// A line holds no more points than its message.
proof fn lemma_line_len<N: Widen<W>, W: Scalar>(
    pp: Preprocess<N, W>,
    avia: Seq<AviaPointMsg<N>>,
    std: Seq<StdPointMsg<N>>,
    given: bool,
    line: int,
    n: int,
)
    requires
        n >= 0,
    ensures
        avia_line(pp, avia, line, n).len() <= n,
        ouster_line(pp, std, line, n).len() <= n,
        velodyne_line(pp, std, given, line, n).len() <= n,
    decreases n,
{
    if n > 0 {
        lemma_line_len(pp, avia, std, given, line, n - 1);
    }
}

/// The points that recovering times needs: each belongs to a known layer.
pub open spec fn rings_known<N, W>(pp: Preprocess<N, W>, pts: Seq<StdPointMsg<N>>) -> bool {
    forall|i: int| 0 <= i < pts.len() ==> (#[trigger] pts[i]).ring < pp.n_scans
}

/// The message can be processed: thinning has a number to go by, and where times
/// have to be recovered every point belongs to a known layer.
pub open spec fn standard_ok<N: Widen<W>, W: Scalar>(
    pp: Preprocess<N, W>,
    pts: Seq<StdPointMsg<N>>,
) -> bool {
    &&& params_ok(pp)
    &&& pts.len() <= i64::MAX
    &&& !pp.feature_enabled && (pp.lidar_type == LidarType::Oust64 || pp.lidar_type
        == LidarType::Velo16) && pts.len() > 0 ==> pp.point_filter_num != 0
    &&& !pp.feature_enabled && pp.lidar_type == LidarType::Velo16 && pts.len() > 0 && !has_times(
        pts,
    ) ==> rings_known(pp, pts)
}

impl<N: Widen<W>, W: Scalar> Default for Preprocess<N, W> {
    fn default() -> (r: Self)
        ensures
            r.is_fresh(),
    {
        Preprocess::new()
    }
}

impl<N: Widen<W>, W: Scalar> Preprocess<N, W> {
    /// The parameters are the default ones, and no cloud was made yet.
    pub open spec fn is_fresh(self) -> bool {
        &&& params_ok(self)
        &&& !self.feature_enabled
        &&& self.lidar_type == LidarType::Avia
        &&& self.blind == W::ratio_spec(1, 100)
        &&& self.point_filter_num == 1
        &&& self.n_scans == 6
        &&& self.scan_rate == 10
        &&& self.time_unit == TimeUnit::Us
        &&& !self.given_offset_time
        &&& self.inf_bound == W::ratio_spec(10, 1)
        &&& self.group_size == 8
        &&& self.dis_a == W::ratio_spec(1, 10)
        &&& self.dis_b == zero::<W>()
        &&& self.p2l_ratio == W::ratio_spec(225, 1)
        &&& self.limit_maxmid == W::ratio_spec(25, 4)
        &&& self.limit_midmin == W::ratio_spec(25, 4)
        &&& self.limit_maxmin == W::ratio_spec(81, 25)
        &&& self.jump_up_limit == cos_degrees::<W>(170, 1)
        &&& self.jump_down_limit == cos_degrees::<W>(8, 1)
        &&& self.cos160 == cos_degrees::<W>(160, 1)
        &&& self.edgea == W::ratio_spec(2, 1)
        &&& self.edgeb == W::ratio_spec(1, 10)
        &&& self.smallp_intersect == cos_degrees::<W>(345, 2)
        &&& self.smallp_ratio == W::ratio_spec(6, 5)
        &&& self.pl_surf@.len() == 0
        &&& self.pl_corn@.len() == 0
    }

    /// A preprocessor with default parameters.
    pub fn new() -> (r: Self)
        ensures
            r.is_fresh(),
    {
        Preprocess {
            feature_enabled: false,
            lidar_type: LidarType::Avia,
            blind: W::ratio(1, 100),
            point_filter_num: 1,
            n_scans: 6,
            scan_rate: 10,
            time_unit: TimeUnit::Us,
            given_offset_time: false,
            inf_bound: W::ratio(10, 1),
            group_size: 8,
            dis_a: W::ratio(1, 10),
            dis_b: W::ratio(0, 1),
            p2l_ratio: W::ratio(225, 1),
            limit_maxmid: W::ratio(25, 4),
            limit_midmin: W::ratio(25, 4),
            limit_maxmin: W::ratio(81, 25),
            jump_up_limit: cos_of_degrees(170, 1),
            jump_down_limit: cos_of_degrees(8, 1),
            cos160: cos_of_degrees(160, 1),
            edgea: W::ratio(2, 1),
            edgeb: W::ratio(1, 10),
            smallp_intersect: cos_of_degrees(345, 2),
            smallp_ratio: W::ratio(6, 5),
            pl_corn: Vec::new(),
            pl_surf: Vec::new(),
        }
    }

    /// Sets the main parameters.
    pub fn set(&mut self, feat_en: bool, lid_type: LidarType, bld: W, pfilt_num: i32)
        ensures
            *final(self) == (Preprocess {
                feature_enabled: feat_en,
                lidar_type: lid_type,
                blind: bld,
                point_filter_num: pfilt_num,
                ..*old(self)
            }),
    {
        self.feature_enabled = feat_en;
        self.lidar_type = lid_type;
        self.blind = bld;
        self.point_filter_num = pfilt_num;
    }

    /// Processes a Livox message; returns the surface cloud, or `None` when a
    /// group of points runs beyond the end of its line.
    pub fn process_avia(&mut self, msg: &AviaMsg<N, W>) -> (r: Option<PointCloud<N>>)
        requires
            params_ok(*old(self)),
            msg.points@.len() <= u32::MAX,
        ensures
            same_setup(*final(self), *old(self)),
            final(self).given_offset_time == old(self).given_offset_time,
            match avia_clouds(*old(self), msg.points@) {
                None => r is None,
                Some((surf, corn)) => {
                    &&& r matches Some(cloud) && cloud@ == surf
                    &&& final(self).pl_surf@ == surf
                    &&& final(self).pl_corn@ == corn
                },
            },
    {
        let clouds: Option<(Vec<PointType<N>>, Vec<PointType<N>>)> = self.avia_handler(msg);
        self.keep(clouds)
    }

    /// Keeps the clouds and hands out a copy of the first.
    fn keep(&mut self, clouds: Option<(Vec<PointType<N>>, Vec<PointType<N>>)>) -> (r: Option<
        PointCloud<N>,
    >)
        ensures
            same_setup(*final(self), *old(self)),
            final(self).given_offset_time == old(self).given_offset_time,
            match clouds {
                None => r is None,
                Some((surf, corn)) => {
                    &&& r matches Some(cloud) && cloud@ == surf@
                    &&& final(self).pl_surf@ == surf@
                    &&& final(self).pl_corn@ == corn@
                },
            },
    {
        match clouds {
            None => None,
            Some((surf, corn)) => {
                let r: Vec<PointType<N>> = copy_cloud(&surf);
                self.pl_surf = surf;
                self.pl_corn = corn;
                Some(r)
            },
        }
    }

    /// The clouds of a Livox message.
    fn avia_handler(&self, msg: &AviaMsg<N, W>) -> (r: Option<
        (Vec<PointType<N>>, Vec<PointType<N>>),
    >)
        requires
            params_ok(*self),
            msg.points@.len() <= u32::MAX,
        ensures
            match avia_clouds(*self, msg.points@) {
                None => r is None,
                Some((s, c)) => r matches Some((surf, corn)) && surf@ == s && corn@ == c,
            },
    {
        let pts: &Vec<AviaPointMsg<N>> = &msg.points;
        let n: usize = pts.len();
        let mut prev: PointType<N> = PointType::default();
        if self.feature_enabled {
            let mut lines: Vec<Vec<PointType<N>>> = empty_lines(self.n_scans);
            let mut i: usize = 1;
            while i < n
                invariant
                    1 <= i,
                    n == pts@.len(),
                    i <= n || i == 1,
                    prev == avia_full(*self, pts@, i - 1),
                    lines@.len() == self.n_scans,
                    forall|l: int|
                        0 <= l < self.n_scans ==> (#[trigger] lines@[l])@ == avia_line(
                            *self,
                            pts@,
                            l,
                            i - 1,
                        ),
                decreases n - i,
            {
                let p: AviaPointMsg<N> = pts[i];
                if is_accepted(self, &p) {
                    let q: PointType<N> = to_avia_point(&p);
                    if are_different(&q, &prev) {
                        lines[p.line as usize].push(q);
                    }
                    prev = q;
                } else {
                    prev = PointType::default();
                }
                i = i + 1;
            }
            let ghost want = Seq::new(
                self.n_scans as nat,
                |l: int| avia_line(*self, pts@, l, pts@.len() - 1),
            );
            proof {
                assert forall|l: int| 0 <= l < lines@.len() implies (#[trigger] want[l]).len()
                    <= i64::MAX by {
                    if n > 0 {
                        lemma_line_len(*self, pts@, Seq::empty(), false, l, n - 1);
                    }
                }
                assert forall|l: int| 0 <= l < lines@.len() implies (#[trigger] lines@[l])@
                    == want[l] by {
                    assert(n > 0 ==> i == n);
                }
            }
            lines_to_clouds(self, &lines, 6, true, Ghost(want))
        } else {
            let mut surf: Vec<PointType<N>> = Vec::new();
            let mut valid: u32 = 0;
            let limit: W = self.blind.times(self.blind);
            let mut i: usize = 1;
            while i < n
                invariant
                    1 <= i,
                    n == pts@.len(),
                    n <= u32::MAX,
                    i <= n || i == 1,
                    limit == self.blind.times_spec(self.blind),
                    valid < i,
                    (valid as int, prev, surf@) == avia_thinned(*self, pts@, i - 1),
                decreases n - i,
            {
                let p: AviaPointMsg<N> = pts[i];
                let mut q: PointType<N> = PointType::default();
                if is_accepted(self, &p) {
                    valid = valid + 1;
                    if is_counted(self.point_filter_num, valid) {
                        q = to_avia_point(&p);
                        if are_different(&q, &prev) && limit.less(range_sq_of(q.x, q.y, q.z)) {
                            surf.push(q);
                        }
                    }
                }
                prev = q;
                i = i + 1;
            }
            assert(n > 0 ==> i == n);
            Some((surf, Vec::new()))
        }
    }

    /// Processes a message of a spinning or simulated lidar; returns the surface
    /// cloud, or `None` when a group of points runs beyond the end of its line. For
    /// another type of lidar it returns the last cloud again.
    pub fn process_standard(&mut self, msg: &StandardMsg<N, W>) -> (r: Option<PointCloud<N>>)
        requires
            standard_ok(*old(self), msg.points@),
        ensures
            same_setup(*final(self), *old(self)),
            final(self).given_offset_time == if old(self).lidar_type == LidarType::Velo16
                && msg.points@.len() > 0 {
                has_times(msg.points@)
            } else {
                old(self).given_offset_time
            },
            match standard_clouds(*old(self), msg.points@) {
                None => r is None,
                Some((surf, corn)) => {
                    &&& r matches Some(cloud) && cloud@ == surf
                    &&& final(self).pl_surf@ == surf
                    &&& final(self).pl_corn@ == corn
                },
            },
    {
        match self.lidar_type {
            LidarType::Oust64 => {
                let clouds = self.oust64_handler(msg);
                self.keep(clouds)
            },
            LidarType::Velo16 => {
                let n: usize = msg.points.len();
                if n == 0 {
                    self.keep(Some((Vec::new(), Vec::new())))
                } else {
                    let given: bool = N::ratio(0, 1).less(msg.points[n - 1].time);
                    let clouds = self.velodyne_handler(msg, given);
                    self.given_offset_time = given;
                    self.keep(clouds)
                }
            },
            LidarType::Marsim => {
                let surf: Vec<PointType<N>> = self.sim_handler(msg);
                let r: Vec<PointType<N>> = copy_cloud(&surf);
                self.pl_surf = surf;
                Some(r)
            },
            LidarType::Avia => Some(copy_cloud(&self.pl_surf)),
        }
    }

    fn to_std_point(&self, p: &StdPointMsg<N>) -> (r: PointType<N>)
        ensures
            r == std_point(*self, *p),
    {
        let o: N = N::ratio(0, 1);
        let scale: N = self.time_unit.to_ms_scale();
        PointType {
            x: p.x,
            y: p.y,
            z: p.z,
            intensity: p.intensity,
            curvature: p.time.times(scale),
            normal_x: o,
            normal_y: o,
            normal_z: o,
        }
    }

    fn is_blind(&self, p: &StdPointMsg<N>) -> (r: bool)
        ensures
            r == within_blind(*self, *p),
    {
        let d: W = range_sq_of(p.x, p.y, p.z);
        d.less(self.blind.times(self.blind))
    }

    /// The clouds of an Ouster message.
    fn oust64_handler(&self, msg: &StandardMsg<N, W>) -> (r: Option<
        (Vec<PointType<N>>, Vec<PointType<N>>),
    >)
        requires
            standard_ok(*self, msg.points@),
            self.lidar_type == LidarType::Oust64,
        ensures
            match standard_clouds(*self, msg.points@) {
                None => r is None,
                Some((s, c)) => r matches Some((surf, corn)) && surf@ == s && corn@ == c,
            },
    {
        let pts: &Vec<StdPointMsg<N>> = &msg.points;
        let n: usize = pts.len();
        if self.feature_enabled {
            let mut lines: Vec<Vec<PointType<N>>> = empty_lines(self.n_scans);
            let mut i: usize = 0;
            while i < n
                invariant
                    i <= n,
                    n == pts@.len(),
                    lines@.len() == self.n_scans,
                    forall|l: int|
                        0 <= l < self.n_scans ==> (#[trigger] lines@[l])@ == ouster_line(
                            *self,
                            pts@,
                            l,
                            i as int,
                        ),
                decreases n - i,
            {
                let p: StdPointMsg<N> = pts[i];
                if !self.is_blind(&p) && (p.ring as usize) < self.n_scans {
                    let q: PointType<N> = self.to_std_point(&p);
                    lines[p.ring as usize].push(q);
                }
                i = i + 1;
            }
            let ghost want = Seq::new(
                self.n_scans as nat,
                |l: int| ouster_line(*self, pts@, l, pts@.len() as int),
            );
            proof {
                assert forall|l: int| 0 <= l < lines@.len() implies (#[trigger] want[l]).len()
                    <= i64::MAX by {
                    lemma_line_len(*self, Seq::empty(), pts@, false, l, n as int);
                }
            }
            lines_to_clouds(self, &lines, 1, false, Ghost(want))
        } else {
            let mut surf: Vec<PointType<N>> = Vec::new();
            let mut i: usize = 0;
            while i < n
                invariant
                    i <= n,
                    n == pts@.len(),
                    n > 0 ==> self.point_filter_num != 0,
                    surf@ == ouster_thinned(*self, pts@, i as int),
                decreases n - i,
            {
                let p: StdPointMsg<N> = pts[i];
                if is_kept(self.point_filter_num, i) && !self.is_blind(&p) {
                    let q: PointType<N> = self.to_std_point(&p);
                    surf.push(q);
                }
                i = i + 1;
            }
            Some((surf, Vec::new()))
        }
    }

    fn fresh_layers(&self) -> (r: Vec<Layer<N, W>>)
        ensures
            r@.len() == self.n_scans,
            forall|l: int|
                0 <= l < self.n_scans ==> #[trigger] r@[l] == layer_state(
                    *self,
                    Seq::<StdPointMsg<N>>::empty(),
                    l,
                    0,
                ),
    {
        let mut r: Vec<Layer<N, W>> = Vec::new();
        let mut i: usize = 0;
        while i < self.n_scans
            invariant
                i <= self.n_scans,
                r@.len() == i,
                forall|l: int|
                    0 <= l < i ==> #[trigger] r@[l] == layer_state(
                        *self,
                        Seq::<StdPointMsg<N>>::empty(),
                        l,
                        0,
                    ),
            decreases self.n_scans - i,
        {
            r.push(Layer { fresh: true, yaw: W::ratio(0, 1), time: N::ratio(0, 1) });
            i = i + 1;
        }
        r
    }

    /// The layer after a point.
    fn next_layer(&self, l: Layer<N, W>, p: &StdPointMsg<N>) -> (r: Layer<N, W>)
        ensures
            r == layer_after(*self, l, *p),
    {
        let x: W = p.x.widen();
        let y: W = p.y.widen();
        let yaw: W = y.atan2(x).times(W::ratio(572957, 10000));
        if l.fresh {
            return Layer { fresh: false, yaw, time: N::ratio(0, 1) };
        }
        let omega: W = W::ratio(361, 1000).times(W::ratio(self.scan_rate as i64, 1));
        let mut t: N = if yaw.at_most(l.yaw) {
            N::narrow(l.yaw.minus(yaw).over(omega))
        } else {
            N::narrow(l.yaw.minus(yaw).plus(W::ratio(360, 1)).over(omega))
        };
        if t.less(l.time) {
            t = t.plus(N::narrow(W::ratio(360, 1).over(omega)));
        }
        Layer { fresh: false, yaw: l.yaw, time: t }
    }

    /// The clouds of a Velodyne message; `given` says that its points carry times.
    fn velodyne_handler(&self, msg: &StandardMsg<N, W>, given: bool) -> (r: Option<
        (Vec<PointType<N>>, Vec<PointType<N>>),
    >)
        requires
            standard_ok(*self, msg.points@),
            self.lidar_type == LidarType::Velo16,
            msg.points@.len() > 0,
            given == has_times(msg.points@),
        ensures
            match standard_clouds(*self, msg.points@) {
                None => r is None,
                Some((s, c)) => r matches Some((surf, corn)) && surf@ == s && corn@ == c,
            },
    {
        let pts: &Vec<StdPointMsg<N>> = &msg.points;
        let n: usize = pts.len();
        let mut layers: Vec<Layer<N, W>> = self.fresh_layers();
        if self.feature_enabled {
            let mut lines: Vec<Vec<PointType<N>>> = empty_lines(self.n_scans);
            let mut i: usize = 0;
            while i < n
                invariant
                    i <= n,
                    n == pts@.len(),
                    layers@.len() == self.n_scans,
                    lines@.len() == self.n_scans,
                    forall|l: int|
                        0 <= l < self.n_scans ==> !given ==> #[trigger] layers@[l] == layer_state(
                            *self,
                            pts@,
                            l,
                            i as int,
                        ),
                    forall|l: int|
                        0 <= l < self.n_scans ==> (#[trigger] lines@[l])@ == velodyne_line(
                            *self,
                            pts@,
                            given,
                            l,
                            i as int,
                        ),
                decreases n - i,
            {
                let p: StdPointMsg<N> = pts[i];
                let layer: usize = p.ring as usize;
                if layer < self.n_scans {
                    let mut q: PointType<N> = self.to_std_point(&p);
                    if !given {
                        let next: Layer<N, W> = self.next_layer(layers[layer], &p);
                        q.curvature = next.time;
                        layers.set(layer, next);
                    }
                    assert(q == timed_point(*self, pts@, given, i as int));
                    lines[layer].push(q);
                }
                i = i + 1;
            }
            let ghost want = Seq::new(
                self.n_scans as nat,
                |l: int| velodyne_line(*self, pts@, has_times(pts@), l, pts@.len() as int),
            );
            proof {
                assert forall|l: int| 0 <= l < lines@.len() implies (#[trigger] want[l]).len()
                    <= i64::MAX by {
                    lemma_line_len(*self, Seq::empty(), pts@, given, l, n as int);
                }
            }
            lines_to_clouds(self, &lines, 2, false, Ghost(want))
        } else {
            let mut surf: Vec<PointType<N>> = Vec::new();
            let limit: W = self.blind.times(self.blind);
            let mut i: usize = 0;
            while i < n
                invariant
                    i <= n,
                    n == pts@.len(),
                    self.point_filter_num != 0,
                    !given ==> rings_known(*self, pts@),
                    layers@.len() == self.n_scans,
                    limit == self.blind.times_spec(self.blind),
                    forall|l: int|
                        0 <= l < self.n_scans ==> !given ==> #[trigger] layers@[l] == layer_state(
                            *self,
                            pts@,
                            l,
                            i as int,
                        ),
                    surf@ == velodyne_thinned(*self, pts@, given, i as int),
                decreases n - i,
            {
                let p: StdPointMsg<N> = pts[i];
                let mut q: PointType<N> = self.to_std_point(&p);
                if !given {
                    let layer: usize = p.ring as usize;
                    assert(pts@[i as int].ring < self.n_scans);
                    let next: Layer<N, W> = self.next_layer(layers[layer], &p);
                    q.curvature = next.time;
                    layers.set(layer, next);
                }
                assert(q == timed_point(*self, pts@, given, i as int));
                if is_kept(self.point_filter_num, i) && limit.less(range_sq_of(q.x, q.y, q.z)) {
                    surf.push(q);
                }
                i = i + 1;
            }
            Some((surf, Vec::new()))
        }
    }

    /// The cloud of a simulated message.
    fn sim_handler(&self, msg: &StandardMsg<N, W>) -> (r: Vec<PointType<N>>)
        ensures
            r@ == sim_cloud(*self, msg.points@, msg.points@.len() as int),
    {
        let pts: &Vec<StdPointMsg<N>> = &msg.points;
        let mut surf: Vec<PointType<N>> = Vec::new();
        let o: N = N::ratio(0, 1);
        let mut i: usize = 0;
        while i < pts.len()
            invariant
                i <= pts@.len(),
                o == zero::<N>(),
                surf@ == sim_cloud(*self, pts@, i as int),
            decreases pts@.len() - i,
        {
            let p: StdPointMsg<N> = pts[i];
            if !self.is_blind(&p) {
                surf.push(
                    PointType {
                        x: p.x,
                        y: p.y,
                        z: p.z,
                        intensity: p.intensity,
                        curvature: o,
                        normal_x: o,
                        normal_y: o,
                        normal_z: o,
                    },
                );
            }
            i = i + 1;
        }
        surf
    }
}

} // verus!
