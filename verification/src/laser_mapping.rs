//! Lidar-inertial mapping: from raw samples to a trajectory and a map.
//!
//! Samples go in by [`LaserMapping::add_imu`] and the two methods for scans;
//! [`LaserMapping::run_once`] takes the next scan that is complete. Where the
//! scan leads to an update of the filter, the mapping is busy with it, and its
//! caller answers what it asks for: plane fits by [`LaserMapping::take_planes`]
//! and inverse matrices by [`LaserMapping::take_inverse`]. Once the update is
//! finished, [`LaserMapping::finish`] adds the scan to the map.
pub mod laws;

use crate::esekf::{carried, predicted_cov, EseKf};
use crate::ikdtree::model::{balanced, conserved, num_point, seq_num, BoxPointType, Tree};
use crate::ikdtree::{add_chain, added, delete_chain, outside_all, KdTree};
use crate::imu_processing::{
    gathered, initialised, scan_tail, scan_track, scanned_state, sortable, start_cov,
    start_state, timed, undistorted, ImuProcess, ImuState,
};
use crate::linear::{M3, V3};
use crate::local_map::{law_always_numbers, slid, sort_by_fate, to_clear, with_fate, Fate, LocalMap};
use crate::manifold::StateIkfom;
use crate::matrix::{has_shape, identity_of, Mat, Rows};
use crate::measure::{
    aligned, chosen, looked_up, point_body_to_world, residual_sum, residuals, slopes, weighed,
    world_of, Effect, Scan, ScanView,
};
use crate::model::get_f;
use crate::preprocess::features::params_ok;
use crate::preprocess::{
    avia_clouds, copy_cloud, same_setup, standard_clouds, standard_ok, Preprocess,
};
use crate::scalar::{le, whole, zero, Scalar, Widen};
use crate::sync::{imu_added, is_ready, no_samples, scan_added, synced, Intake, IntakeView};
use crate::types::{AviaMsg, ImuRaw, LidarType, PointCloud, PointType, StandardMsg, TimeUnit};
use crate::update::{inverted, measured, wanted, IteratedUpdate, StageView, UpdateView};
use crate::voxel::{is_thinned, voxel_downsample};
use vstd::multiset::Multiset;
use vstd::prelude::*;

verus! {

/// Configuration of the pipeline.
#[derive(Clone, Copy, Debug)]
pub struct LioConfig<N, W> {
    pub lidar_type: LidarType,
    pub feature_extract_enable: bool,
    pub point_filter_num: i32,
    pub blind: W,
    pub n_scans: usize,
    pub scan_rate: i32,
    pub timestamp_unit: TimeUnit,
    pub filter_size_surf: N,
    pub filter_size_map: N,
    pub cube_len: W,
    pub det_range: N,
    pub fov_deg: W,
    pub gyr_cov: W,
    pub acc_cov: W,
    pub b_gyr_cov: W,
    pub b_acc_cov: W,
    pub extrinsic_est_en: bool,
    pub time_sync_en: bool,
    pub time_offset_lidar_to_imu: W,
    /// Translation of the lidar on the inertial unit.
    pub extrinsic_t: [W; 3],
    /// Rotation of the lidar on the inertial unit, row after row of a matrix.
    pub extrinsic_r: [W; 9],
    pub max_iteration: usize,
}

impl<N: Scalar, W: Scalar> Default for LioConfig<N, W> {
    fn default() -> (r: Self)
        ensures
            r.lidar_type == LidarType::Avia,
            !r.feature_extract_enable,
            r.point_filter_num == 2,
            r.blind == W::ratio_spec(1, 100),
            r.n_scans == 16,
            r.scan_rate == 10,
            r.timestamp_unit == TimeUnit::Us,
            r.filter_size_surf == N::ratio_spec(1, 2),
            r.filter_size_map == N::ratio_spec(1, 2),
            r.cube_len == W::ratio_spec(1000, 1),
            r.det_range == N::ratio_spec(300, 1),
            r.fov_deg == W::ratio_spec(180, 1),
            r.gyr_cov == W::ratio_spec(1, 10),
            r.acc_cov == W::ratio_spec(1, 10),
            r.b_gyr_cov == W::ratio_spec(1, 10000),
            r.b_acc_cov == W::ratio_spec(1, 10000),
            r.extrinsic_est_en,
            !r.time_sync_en,
            r.time_offset_lidar_to_imu == zero::<W>(),
            r.extrinsic_t == [zero::<W>(), zero::<W>(), zero::<W>()],
            r.extrinsic_r == [
                whole::<W>(1),
                zero::<W>(),
                zero::<W>(),
                zero::<W>(),
                whole::<W>(1),
                zero::<W>(),
                zero::<W>(),
                zero::<W>(),
                whole::<W>(1),
            ],
            r.max_iteration == 4,
    {
        let o: W = W::ratio(0, 1);
        let e: W = W::ratio(1, 1);
        LioConfig {
            lidar_type: LidarType::Avia,
            feature_extract_enable: false,
            point_filter_num: 2,
            blind: W::ratio(1, 100),
            n_scans: 16,
            scan_rate: 10,
            timestamp_unit: TimeUnit::Us,
            filter_size_surf: N::ratio(1, 2),
            filter_size_map: N::ratio(1, 2),
            cube_len: W::ratio(1000, 1),
            det_range: N::ratio(300, 1),
            fov_deg: W::ratio(180, 1),
            gyr_cov: W::ratio(1, 10),
            acc_cov: W::ratio(1, 10),
            b_gyr_cov: W::ratio(1, 10000),
            b_acc_cov: W::ratio(1, 10000),
            extrinsic_est_en: true,
            time_sync_en: false,
            time_offset_lidar_to_imu: o,
            extrinsic_t: [o, o, o],
            extrinsic_r: [e, o, o, o, e, o, o, o, e],
            max_iteration: 4,
        }
    }
}

/// The matrix with the given entries, row after row.
#[verifier::allow_in_spec]
pub fn extrinsic_rotation<W: Scalar>(e: [W; 9]) -> M3<W>
    returns
        (M3 {
            a: V3 { x: e[0], y: e[1], z: e[2] },
            b: V3 { x: e[3], y: e[4], z: e[5] },
            c: V3 { x: e[6], y: e[7], z: e[8] },
        }),
{
    M3 {
        a: V3::new(e[0], e[1], e[2]),
        b: V3::new(e[3], e[4], e[5]),
        c: V3::new(e[6], e[7], e[8]),
    }
}

/// What a processed scan gives.
#[derive(Clone, Copy, Debug)]
pub struct LioResult<W> {
    pub time: W,
    pub pos: V3<W>,
    /// Rotation, with the scalar part first.
    pub quat: [W; 4],
    pub vel: V3<W>,
    pub bg: V3<W>,
    pub ba: V3<W>,
    pub map_points: i32,
    pub effct_feat_num: usize,
    pub res_mean: W,
}

/// Where a call of [`LaserMapping::run_once`] leads.
#[derive(Clone, Copy, Debug, PartialEq, Eq, Structural)]
pub enum Turn {
    /// No scan was complete, or it led to no update.
    Idle,
    /// An update of the filter has begun.
    Busy,
    /// The scan cannot be used: its points cannot be put in the order of their times,
    /// the first map would hold a position that is not a number, or the map would hold
    /// too many points.
    Fault,
}

/// A scan in the middle of its update.
#[derive(Debug)]
pub struct Frame<N, W> {
    pub time: W,
    pub scan: Scan<N>,
    pub update: IteratedUpdate<W>,
}

/// The contents of a [`Frame`].
pub struct FrameView<N, W> {
    pub time: W,
    pub scan: ScanView<N>,
    pub update: UpdateView<W>,
}

/// The settings that a [`LaserMapping`] keeps.
pub struct Setup<N, W> {
    pub surf: N,
    pub map: N,
    pub cube_len: W,
    pub det_range: N,
    pub ext: bool,
    pub last: usize,
    pub limit: [W; 23],
}

/// The state of a [`LaserMapping`] but for its preprocessor.
pub struct Mapper<N, W> {
    pub imu: ImuState<W>,
    pub x: StateIkfom<W>,
    pub p: Rows<W>,
    pub tree: KdTree<N>,
    pub intake: IntakeView<N, W>,
    pub first_scan: bool,
    pub first_time: W,
    pub settled: bool,
    pub local: LocalMap<N>,
    pub undistorted: Seq<PointType<N>>,
    pub down: Seq<PointType<N>>,
    pub count: usize,
    pub mean: W,
    pub frame: Option<FrameView<N, W>>,
    pub setup: Setup<N, W>,
}

/// The mapping pipeline.
#[derive(Debug)]
pub struct LaserMapping<N, W> {
    pub preprocess: Preprocess<N, W>,
    pub imu: ImuProcess<W>,
    pub kf: EseKf<W>,
    pub ikdtree: KdTree<N>,
    pub intake: Intake<N, W>,
    pub filter_size_surf_min: N,
    pub filter_size_map_min: N,
    pub cube_len: W,
    pub det_range: N,
    pub extrinsic_est_en: bool,
    pub flg_first_scan: bool,
    pub first_lidar_time: W,
    pub flg_ekf_inited: bool,
    pub local_map: LocalMap<N>,
    pub feats_undistort: PointCloud<N>,
    pub feats_down_body: PointCloud<N>,
    pub effct_feat_num: usize,
    pub res_mean_last: W,
    pub frame: Option<Frame<N, W>>,
}

/// The contents of a scan in the middle of its update.
pub open spec fn frame_view<N, W>(f: Frame<N, W>) -> FrameView<N, W> {
    FrameView { time: f.time, scan: f.scan@, update: f.update@ }
}

impl<N, W> View for LaserMapping<N, W> {
    type V = Mapper<N, W>;

    open spec fn view(&self) -> Mapper<N, W> {
        Mapper {
            imu: self.imu@,
            x: self.kf.x,
            p: self.kf.p@,
            tree: self.ikdtree,
            intake: self.intake@,
            first_scan: self.flg_first_scan,
            first_time: self.first_lidar_time,
            settled: self.flg_ekf_inited,
            local: self.local_map,
            undistorted: self.feats_undistort@,
            down: self.feats_down_body@,
            count: self.effct_feat_num,
            mean: self.res_mean_last,
            frame: match self.frame {
                Some(f) => Some(frame_view(f)),
                None => None,
            },
            setup: Setup {
                surf: self.filter_size_surf_min,
                map: self.filter_size_map_min,
                cube_len: self.cube_len,
                det_range: self.det_range,
                ext: self.extrinsic_est_en,
                last: self.kf.maximum_iter,
                limit: self.kf.limit,
            },
        }
    }
}

/// The mapper with the group that was just completed taken into the inertial
/// processing.
pub open spec fn after_imu<N: Widen<W>, W: Scalar>(a: Mapper<N, W>) -> Mapper<N, W> {
    let intake = synced(a.intake);
    let g = intake.group;
    if g.imu.len() == 0 {
        Mapper { intake, ..a }
    } else if a.imu.imu_need_init {
        Mapper {
            intake,
            imu: initialised(a.imu, g.beg, g.imu),
            x: start_state(gathered(a.imu, g.beg, g.imu), a.x),
            p: start_cov(),
            ..a
        }
    } else {
        let t = scan_track(a.imu, g.beg, g.imu, a.x, a.p);
        let dt = scan_tail(g.end, g.imu);
        let end = carried(t.x, get_f(t.x, t.input), dt);
        Mapper {
            intake,
            imu: scanned_state(a.imu, g.end, g.imu, t),
            x: end,
            p: predicted_cov(t.x, t.p, t.q, t.input, dt),
            undistorted: undistorted(a.imu, g.cloud, t.poses, end),
            ..a
        }
    }
}

/// The position of the lidar.
#[verifier::allow_in_spec]
pub fn lidar_position<W: Scalar>(x: StateIkfom<W>) -> V3<W>
    returns
        x.pos.sum(x.rot.rotate(x.offset_t_l_i)),
{
    x.pos.sum(x.rot.rotate(x.offset_t_l_i))
}

/// Tree `b` is tree `a` without the points in the boxes.
pub open spec fn cleared<N: Scalar>(a: KdTree<N>, boxes: Seq<BoxPointType<N>>, b: KdTree<N>) -> bool {
    if boxes.len() == 0 {
        b == a
    } else {
        &&& b.wf()
        &&& b.live() == a.live().filter(outside_all(boxes))
        &&& b.same_params(a)
        &&& conserved(a.root, a.removed(), Multiset::empty(), b.root, b.removed())
        &&& exists|trees: Seq<Tree<N>>| #[trigger]
            delete_chain(
                trees,
                a.root,
                b.root,
                boxes,
                a.delete_criterion_param,
                a.balance_criterion_param,
            )
    }
}

/// `out` is the cloud thinned by voxels.
pub open spec fn downsampled<N: Scalar>(
    cloud: Seq<PointType<N>>,
    leaf: N,
    out: Seq<PointType<N>>,
) -> bool {
    &&& le(leaf, zero::<N>()) ==> out == cloud
    &&& !le(leaf, zero::<N>()) ==> is_thinned(cloud, leaf, out)
}

/// The map cube follows the lidar, what falls out of it is cleared, and the scan
/// is thinned.
pub open spec fn centred<N: Widen<W>, W: Scalar>(a: Mapper<N, W>, b: Mapper<N, W>) -> bool {
    let at = lidar_position(a.x);
    let boxes = to_clear(a.local, at, a.setup.cube_len, a.setup.det_range);
    &&& b.settled == le(
        W::ratio_spec(1, 10),
        a.intake.group.beg.minus_spec(a.first_time),
    )
    &&& b.local == slid(a.local, at, a.setup.cube_len, a.setup.det_range)
    &&& cleared(a.tree, boxes, b.tree)
    &&& downsampled(a.undistorted, a.setup.surf, b.down)
    &&& b == (Mapper { settled: b.settled, local: b.local, tree: b.tree, down: b.down, ..a })
}

/// The points of a cloud in the world.
pub open spec fn placed<N: Widen<W>, W: Scalar>(
    cloud: Seq<PointType<N>>,
    x: StateIkfom<W>,
) -> Seq<PointType<N>> {
    Seq::new(cloud.len(), |i: int| world_of(cloud[i], x))
}

/// The map has room for points beside `n` that it stores.
pub open spec fn has_room<N: Scalar>(points: Seq<PointType<N>>, n: nat) -> bool {
    points.len() + n <= i32::MAX
}

/// The map can be built of points.
pub open spec fn buildable<N: Scalar>(points: Seq<PointType<N>>) -> bool {
    seq_num(points) && has_room(points, 0)
}

/// Tree `b` is built of points.
pub open spec fn built<N: Scalar>(a: KdTree<N>, points: Seq<PointType<N>>, b: KdTree<N>) -> bool {
    &&& b.wf()
    &&& b.stored() == points.to_multiset()
    &&& b.live() == points.to_multiset()
    &&& balanced(b.root)
    &&& b.removed() == a.removed()
    &&& b.same_params(a)
}

/// An update that has just begun.
pub open spec fn update_start<N, W: Scalar>(a: Mapper<N, W>) -> UpdateView<W> {
    UpdateView {
        x: a.x,
        p: a.p,
        base_x: a.x,
        base_p: a.p,
        r: W::ratio_spec(1, 1000),
        limit: a.setup.limit,
        last: a.setup.last as nat,
        round: 0,
        t: 0,
        converge: true,
        stage: StageView::Measure,
    }
}

/// Some scan of a cloud, looked up for the first time.
pub open spec fn first_look<N: Widen<W>, W: Scalar>(
    t: Tree<N>,
    x: StateIkfom<W>,
    cloud: Seq<PointType<N>>,
    s: ScanView<N>,
) -> bool {
    exists|a: ScanView<N>|
        a.body == cloud && aligned(a) && #[trigger] looked_up(t, x, true, a, s)
}

/// The first usable scan of more than five points becomes the map; after that, a
/// scan of five points or more begins an update.
pub open spec fn opened<N: Widen<W>, W: Scalar>(a: Mapper<N, W>, b: Mapper<N, W>, r: Turn) -> bool {
    if a.tree.root is None {
        if a.down.len() > 5 && buildable(placed(a.down, a.x)) {
            r == Turn::Idle && built(a.tree, placed(a.down, a.x), b.tree) && b == (Mapper {
                tree: b.tree,
                ..a
            })
        } else if a.down.len() > 5 {
            r == Turn::Fault && b == a
        } else {
            r == Turn::Idle && b == a
        }
    } else if a.down.len() < 5 {
        r == Turn::Idle && b == a
    } else {
        &&& r == Turn::Busy
        &&& b == (Mapper { frame: b.frame, ..a })
        &&& b.frame matches Some(f) && f.time == a.intake.group.beg && f.update == update_start(a)
            && first_look(a.tree.root, a.x, a.down, f.scan)
    }
}

/// A call of [`LaserMapping::run_once`] takes state `a` to state `b`.
///
/// Nothing happens until a group is complete. The first group only sets the time
/// that the others count from. A later one goes through the inertial processing;
/// if there is a cloud after that, the map follows the lidar and the cloud begins
/// an update.
pub open spec fn ran<N: Widen<W>, W: Scalar>(a: Mapper<N, W>, b: Mapper<N, W>, r: Turn) -> bool {
    let intake = synced(a.intake);
    let beg = intake.group.beg;
    if !is_ready(a.intake) {
        r == Turn::Idle && b == (Mapper { intake, ..a })
    } else if a.first_scan {
        r == Turn::Idle && b == (Mapper {
            intake,
            first_scan: false,
            first_time: beg,
            imu: ImuState { first_lidar_time: beg, ..a.imu },
            ..a
        })
    } else if intake.group.imu.len() > 0 && !a.imu.imu_need_init && !sortable(intake.group.cloud) {
        r == Turn::Fault && b == (Mapper { intake, ..a })
    } else if after_imu(a).undistorted.len() == 0 {
        r == Turn::Idle && b == after_imu(a)
    } else {
        exists|c: Mapper<N, W>| #[trigger] centred(after_imu(a), c) && opened(c, b, r)
    }
}

/// The scan is ready for what the update wants next: if that is a measurement,
/// its points have been placed by the new state.
pub open spec fn resumed<N: Widen<W>, W: Scalar>(
    t: Tree<N>,
    u: UpdateView<W>,
    a: ScanView<N>,
    b: ScanView<N>,
) -> bool {
    if u.stage is Measure {
        looked_up(t, u.x, u.converge, a, b)
    } else {
        b == a
    }
}

/// The plane fits of the points are taken into the update.
pub open spec fn planes_taken<N: Widen<W>, W: Scalar>(
    a: Mapper<N, W>,
    sols: Seq<V3<N>>,
    b: Mapper<N, W>,
) -> bool {
    let f = a.frame->0;
    let s = weighed::<N, W>(f.scan, sols);
    let n = chosen(s.selected, s.selected.len()).len();
    let total = residual_sum::<N, W>(s, s.selected.len());
    let u = measured(
        f.update,
        n > 0,
        residuals::<N, W>(s),
        slopes(f.update.x, s, a.setup.ext),
    );
    &&& b.frame matches Some(g) && g.time == f.time && g.update == u && resumed(
        a.tree.root,
        u,
        s,
        g.scan,
    )
    &&& b == (Mapper {
        frame: b.frame,
        count: n as usize,
        mean: if n > 0 {
            total.over_spec(whole::<W>(n as int))
        } else {
            a.mean
        },
        ..a
    })
}

/// The inverse of a matrix is taken into the update.
pub open spec fn inverse_taken<N: Widen<W>, W: Scalar>(
    a: Mapper<N, W>,
    inv: Rows<W>,
    b: Mapper<N, W>,
) -> bool {
    let f = a.frame->0;
    let u = inverted(f.update, inv);
    &&& b.frame matches Some(g) && g.time == f.time && g.update == u && resumed(
        a.tree.root,
        u,
        f.scan,
        g.scan,
    )
    &&& b == (Mapper { frame: b.frame, ..a })
}

/// Tree `b` is tree `a` with points added.
pub open spec fn taken_in<N: Scalar>(
    a: KdTree<N>,
    b: KdTree<N>,
    points: Seq<PointType<N>>,
    downsample: bool,
) -> bool {
    &&& b.wf()
    &&& b.same_params(a)
    &&& exists|states: Seq<Tree<N>>|
        #![trigger added(states, points, a.downsample_size, downsample, points.len() as int)]
        add_chain(
            states,
            a.root,
            b.root,
            points,
            a.downsample_size,
            downsample,
            a.delete_criterion_param,
            a.balance_criterion_param,
        ) && conserved(
            a.root,
            a.removed(),
            added(states, points, a.downsample_size, downsample, points.len() as int),
            b.root,
            b.removed(),
        )
}

/// What is reported of a finished scan.
pub open spec fn result_of<N: Scalar, W: Scalar>(b: Mapper<N, W>, time: W, r: LioResult<W>) -> bool {
    &&& r.time == time
    &&& r.pos == b.x.pos
    &&& r.quat == [b.x.rot.w, b.x.rot.i, b.x.rot.j, b.x.rot.k]
    &&& r.vel == b.x.vel
    &&& r.bg == b.x.bg
    &&& r.ba == b.x.ba
    &&& r.map_points == b.tree.live().len()
    &&& r.effct_feat_num == b.count
    &&& r.res_mean == b.mean
}

/// The points of a scan in its final place with a given fate.
pub open spec fn points_with<N: Widen<W>, W: Scalar>(
    s: ScanView<N>,
    x: StateIkfom<W>,
    settled: bool,
    size: N,
    fate: Fate,
) -> Seq<PointType<N>> {
    with_fate(placed(s.body, x), s.near, settled, size, fate, s.body.len())
}

/// The update is over: the filter takes its state, and the scan is added to the
/// map. Without a result, the map had no room for the points.
pub open spec fn finished<N: Widen<W>, W: Scalar>(
    a: Mapper<N, W>,
    b: Mapper<N, W>,
    r: Option<LioResult<W>>,
) -> bool {
    let f = a.frame->0;
    let x = f.update.x;
    let add = points_with(f.scan, x, a.settled, a.setup.map, Fate::Add);
    let always = points_with(f.scan, x, a.settled, a.setup.map, Fate::AddAlways);
    &&& b == (Mapper { x, p: f.update.p, frame: None, tree: b.tree, ..a })
    &&& if !has_room(add, a.tree.stored().len()) {
        r is None && b.tree == a.tree
    } else {
        exists|t: KdTree<N>| #[trigger]
            taken_in(a.tree, t, add, true) && if has_room(always, t.stored().len()) {
                taken_in(t, b.tree, always, false) && r is Some && result_of(b, f.time, r->0)
            } else {
                r is None && b.tree == t
            }
    }
}

fn all_numbers<N: Scalar>(points: &Vec<PointType<N>>) -> (r: bool)
    ensures
        r == seq_num(points@),
{
    let mut i: usize = 0;
    while i < points.len()
        invariant
            i <= points@.len(),
            forall|k: int| 0 <= k < i ==> num_point(#[trigger] points@[k]),
        decreases points@.len() - i,
    {
        let p: PointType<N> = points[i];
        if !(p.x.at_most(p.x) && p.y.at_most(p.y) && p.z.at_most(p.z)) {
            assert(!num_point(points@[i as int]));
            return false;
        }
        i = i + 1;
    }
    true
}

fn all_timed<N: Scalar>(points: &Vec<PointType<N>>) -> (r: bool)
    ensures
        r == timed(points@),
{
    let mut i: usize = 0;
    while i < points.len()
        invariant
            i <= points@.len(),
            forall|k: int| 0 <= k < i ==> (#[trigger] points@[k]).curvature.is_num(),
        decreases points@.len() - i,
    {
        if !points[i].curvature.at_most(points[i].curvature) {
            assert(!points@[i as int].curvature.is_num());
            return false;
        }
        i = i + 1;
    }
    true
}

fn place_all<N: Widen<W>, W: Scalar>(cloud: &Vec<PointType<N>>, x: &StateIkfom<W>) -> (r: Vec<
    PointType<N>,
>)
    ensures
        r@ == placed(cloud@, *x),
{
    let mut r: Vec<PointType<N>> = Vec::new();
    let mut i: usize = 0;
    while i < cloud.len()
        invariant
            i <= cloud@.len(),
            r@ == placed(cloud@, *x).take(i as int),
        decreases cloud@.len() - i,
    {
        r.push(point_body_to_world(&cloud[i], x));
        i = i + 1;
        assert(r@ =~= placed(cloud@, *x).take(i as int));
    }
    assert(r@ =~= placed(cloud@, *x));
    r
}

fn fits_map<N: Scalar>(points: &Vec<PointType<N>>, n: i32) -> (r: bool)
    requires
        n >= 0,
    ensures
        r == has_room(points@, n as nat),
{
    points.len() <= (i32::MAX - n) as usize
}

impl<N: Widen<W>, W: Scalar> LaserMapping<N, W> {
    /// The invariant of the parts, and of a scan in the middle of its update.
    pub open spec fn wf(self) -> bool {
        &&& params_ok(self.preprocess)
        &&& self.imu.wf()
        &&& self.kf.wf()
        &&& self.kf.maximum_iter < usize::MAX
        &&& self.ikdtree.wf()
        &&& self.intake.wf()
        &&& self.frame matches Some(f) ==> f.update.wf() && aligned(f.scan@)
    }

    /// A pipeline that has seen nothing.
    pub fn new(cfg: &LioConfig<N, W>) -> (r: Self)
        requires
            cfg.max_iteration < usize::MAX,
        ensures
            r.wf(),
            r.preprocess.feature_enabled == cfg.feature_extract_enable,
            r.preprocess.lidar_type == cfg.lidar_type,
            r.preprocess.blind == cfg.blind,
            r.preprocess.point_filter_num == cfg.point_filter_num,
            r.preprocess.n_scans == cfg.n_scans,
            r.preprocess.scan_rate == cfg.scan_rate,
            r.preprocess.time_unit == cfg.timestamp_unit,
            (Preprocess {
                feature_enabled: false,
                lidar_type: LidarType::Avia,
                blind: W::ratio_spec(1, 100),
                point_filter_num: 1,
                n_scans: 6,
                scan_rate: 10,
                time_unit: TimeUnit::Us,
                ..r.preprocess
            }).is_fresh(),
            r@.imu == (ImuState {
                lidar_t_wrt_imu: V3 {
                    x: cfg.extrinsic_t[0],
                    y: cfg.extrinsic_t[1],
                    z: cfg.extrinsic_t[2],
                },
                lidar_r_wrt_imu: extrinsic_rotation(cfg.extrinsic_r),
                cov_gyr_scale: V3 { x: cfg.gyr_cov, y: cfg.gyr_cov, z: cfg.gyr_cov },
                cov_acc_scale: V3 { x: cfg.acc_cov, y: cfg.acc_cov, z: cfg.acc_cov },
                cov_bias_gyr: V3 { x: cfg.b_gyr_cov, y: cfg.b_gyr_cov, z: cfg.b_gyr_cov },
                cov_bias_acc: V3 { x: cfg.b_acc_cov, y: cfg.b_acc_cov, z: cfg.b_acc_cov },
                lidar_type: cfg.lidar_type,
                ..crate::imu_processing::fresh::<W>()
            }),
            r.imu.lidar_r_wrt_imu.a == (V3 {
                x: cfg.extrinsic_r[0],
                y: cfg.extrinsic_r[1],
                z: cfg.extrinsic_r[2],
            }),
            r.imu.lidar_r_wrt_imu.b == (V3 {
                x: cfg.extrinsic_r[3],
                y: cfg.extrinsic_r[4],
                z: cfg.extrinsic_r[5],
            }),
            r.imu.lidar_r_wrt_imu.c == (V3 {
                x: cfg.extrinsic_r[6],
                y: cfg.extrinsic_r[7],
                z: cfg.extrinsic_r[8],
            }),
            r@.x == StateIkfom::<W>::origin(),
            r@.p == identity_of::<W>(23),
            r@.tree.root is None,
            r@.tree.removed() == Seq::<PointType<N>>::empty(),
            r@.tree.delete_criterion_param == N::ratio_spec(1, 2),
            r@.tree.balance_criterion_param == N::ratio_spec(3, 5),
            r@.tree.downsample_size == cfg.filter_size_map,
            r@.intake == no_samples::<N, W>(cfg.lidar_type, cfg.time_offset_lidar_to_imu),
            r@.first_scan,
            r@.first_time == zero::<W>(),
            !r@.settled,
            !r@.local.placed,
            r@.undistorted.len() == 0,
            r@.down.len() == 0,
            r@.count == 0,
            r@.mean == W::ratio_spec(1, 20),
            r@.frame is None,
            r@.setup.surf == cfg.filter_size_surf,
            r@.setup.map == cfg.filter_size_map,
            r@.setup.cube_len == cfg.cube_len,
            r@.setup.det_range == cfg.det_range,
            r@.setup.ext == cfg.extrinsic_est_en,
            r@.setup.last == cfg.max_iteration,
            forall|i: int| 0 <= i < 23 ==> #[trigger] r@.setup.limit[i] == W::ratio_spec(1, 1000),
    {
        let mut preprocess: Preprocess<N, W> = Preprocess::new();
        preprocess.set(
            cfg.feature_extract_enable,
            cfg.lidar_type,
            cfg.blind,
            cfg.point_filter_num,
        );
        preprocess.n_scans = cfg.n_scans;
        preprocess.scan_rate = cfg.scan_rate;
        preprocess.time_unit = cfg.timestamp_unit;
        let mut imu: ImuProcess<W> = ImuProcess::new();
        imu.set_extrinsic(
            V3::new(cfg.extrinsic_t[0], cfg.extrinsic_t[1], cfg.extrinsic_t[2]),
            extrinsic_rotation(cfg.extrinsic_r),
        );
        imu.set_gyr_cov(V3::new(cfg.gyr_cov, cfg.gyr_cov, cfg.gyr_cov));
        imu.set_acc_cov(V3::new(cfg.acc_cov, cfg.acc_cov, cfg.acc_cov));
        imu.set_gyr_bias_cov(V3::new(cfg.b_gyr_cov, cfg.b_gyr_cov, cfg.b_gyr_cov));
        imu.set_acc_bias_cov(V3::new(cfg.b_acc_cov, cfg.b_acc_cov, cfg.b_acc_cov));
        imu.lidar_type = cfg.lidar_type;
        let mut kf: EseKf<W> = EseKf::new(StateIkfom::origin(), Mat::identity(23));
        kf.maximum_iter = cfg.max_iteration;
        let mut ikdtree: KdTree<N> = KdTree::new();
        ikdtree.set_downsample_param(cfg.filter_size_map);
        let o: N = N::ratio(0, 1);
        LaserMapping {
            preprocess,
            imu,
            kf,
            ikdtree,
            intake: Intake::new(cfg.lidar_type, cfg.time_offset_lidar_to_imu),
            filter_size_surf_min: cfg.filter_size_surf,
            filter_size_map_min: cfg.filter_size_map,
            cube_len: cfg.cube_len,
            det_range: cfg.det_range,
            extrinsic_est_en: cfg.extrinsic_est_en,
            flg_first_scan: true,
            first_lidar_time: W::ratio(0, 1),
            flg_ekf_inited: false,
            local_map: LocalMap {
                bounds: BoxPointType { vertex_min: [o, o, o], vertex_max: [o, o, o] },
                placed: false,
            },
            feats_undistort: Vec::new(),
            feats_down_body: Vec::new(),
            effct_feat_num: 0,
            res_mean_last: W::ratio(1, 20),
            frame: None,
        }
    }

    /// Takes in an inertial measurement.
    pub fn add_imu(&mut self, imu: &ImuRaw<W>)
        requires
            old(self).wf(),
        ensures
            final(self).wf(),
            final(self).preprocess == old(self).preprocess,
            final(self)@ == (Mapper { intake: imu_added(old(self)@.intake, *imu), ..old(self)@ }),
    {
        self.intake.add_imu(imu);
    }

    /// Takes in a Livox scan. Returns `false`, and takes nothing in, where a group of
    /// points runs beyond the end of its line.
    pub fn add_lidar_avia(&mut self, msg: &AviaMsg<N, W>) -> (r: bool)
        requires
            old(self).wf(),
            msg.points@.len() <= u32::MAX,
        ensures
            final(self).wf(),
            same_setup(final(self).preprocess, old(self).preprocess),
            final(self).preprocess.given_offset_time == old(self).preprocess.given_offset_time,
            match avia_clouds(old(self).preprocess, msg.points@) {
                None => !r && final(self)@ == old(self)@,
                Some((surf, corn)) => r && final(self)@ == (Mapper {
                    intake: scan_added(old(self)@.intake, msg.stamp, surf),
                    ..old(self)@
                }),
            },
    {
        match self.preprocess.process_avia(msg) {
            Some(cloud) => {
                self.intake.add_scan(msg.stamp, cloud);
                true
            },
            None => false,
        }
    }

    /// Takes in a scan of a spinning lidar. Returns `false`, and takes nothing in,
    /// where a group of points runs beyond the end of its line.
    pub fn add_lidar_standard(&mut self, msg: &StandardMsg<N, W>) -> (r: bool)
        requires
            old(self).wf(),
            standard_ok(old(self).preprocess, msg.points@),
        ensures
            final(self).wf(),
            same_setup(final(self).preprocess, old(self).preprocess),
            match standard_clouds(old(self).preprocess, msg.points@) {
                None => !r && final(self)@ == old(self)@,
                Some((surf, corn)) => r && final(self)@ == (Mapper {
                    intake: scan_added(old(self)@.intake, msg.stamp, surf),
                    ..old(self)@
                }),
            },
    {
        match self.preprocess.process_standard(msg) {
            Some(cloud) => {
                self.intake.add_scan(msg.stamp, cloud);
                true
            },
            None => false,
        }
    }

    /// A scan with the measurements that cover it is ready to be processed.
    pub fn has_data(&self) -> (r: bool)
        requires
            self.wf(),
        ensures
            r == is_ready(self@.intake),
    {
        self.intake.has_data()
    }

    /// Takes the next scan that is complete.
    pub fn run_once(&mut self) -> (r: Turn)
        requires
            old(self).wf(),
            old(self).frame is None,
        ensures
            final(self).wf(),
            final(self).preprocess == old(self).preprocess,
            ran(old(self)@, final(self)@, r),
            r == Turn::Busy <==> final(self).frame is Some,
    {
        if !self.intake.sync_packages() {
            return Turn::Idle;
        }
        let beg: W = self.intake.meas.lidar_beg_time;
        if self.flg_first_scan {
            self.first_lidar_time = beg;
            self.imu.first_lidar_time = beg;
            self.flg_first_scan = false;
            return Turn::Idle;
        }
        if self.intake.meas.imu.len() > 0 && !self.imu.imu_need_init && self.intake.meas.lidar.len()
            > 1 && !all_timed(&self.intake.meas.lidar) {
            return Turn::Fault;
        }
        self.imu.process(&self.intake.meas, &mut self.kf, &mut self.feats_undistort);
        assert(self@ == after_imu(old(self)@));
        if self.feats_undistort.len() == 0 {
            return Turn::Idle;
        }
        self.centre();
        self.open_frame()
    }

    /// Moves the map cube with the lidar and thins the scan.
    fn centre(&mut self)
        requires
            old(self).wf(),
            old(self).frame is None,
        ensures
            final(self).wf(),
            final(self).preprocess == old(self).preprocess,
            final(self).frame is None,
            centred(old(self)@, final(self)@),
    {
        let since: W = self.intake.meas.lidar_beg_time.minus(self.first_lidar_time);
        self.flg_ekf_inited = W::ratio(1, 10).at_most(since);
        let at: V3<W> = lidar_position(*self.kf.get_x());
        let boxes: Vec<BoxPointType<N>> = self.local_map.slide(at, self.cube_len, self.det_range);
        if boxes.len() > 0 {
            let _ = self.ikdtree.delete_point_boxes(boxes.as_slice());
        }
        self.feats_down_body =
        voxel_downsample(self.feats_undistort.as_slice(), self.filter_size_surf_min);
    }

    /// Builds the map of the first scan, or begins the update of a later one.
    fn open_frame(&mut self) -> (r: Turn)
        requires
            old(self).wf(),
            old(self).frame is None,
        ensures
            final(self).wf(),
            final(self).preprocess == old(self).preprocess,
            opened(old(self)@, final(self)@, r),
            r == Turn::Busy <==> final(self).frame is Some,
    {
        let n: usize = self.feats_down_body.len();
        if self.ikdtree.root.is_none() {
            if n > 5 {
                let world: Vec<PointType<N>> = place_all(&self.feats_down_body, self.kf.get_x());
                if !all_numbers(&world) || !fits_map(&world, 0) {
                    return Turn::Fault;
                }
                self.ikdtree.build(world);
            }
            return Turn::Idle;
        }
        if n < 5 {
            return Turn::Idle;
        }
        let update: IteratedUpdate<W> = self.kf.update_iterated_dyn_share_modified(
            W::ratio(1, 1000),
        );
        let mut scan: Scan<N> = Scan::new(copy_cloud(&self.feats_down_body));
        let ghost fresh = scan@;
        scan.look_up(&mut self.ikdtree, &update.x, true);
        assert(looked_up(self.ikdtree.root, update.x, true, fresh, scan@));
        self.frame = Some(Frame { time: self.intake.meas.lidar_beg_time, scan, update });
        Turn::Busy
    }

    /// Takes the plane fits of the points of the scan: for each selected point the
    /// vector `n` nearest to solving `n · p = -1` over its neighbours `p`; what
    /// stands for other points is not looked at.
    pub fn take_planes(&mut self, sols: &Vec<V3<N>>)
        requires
            old(self).wf(),
            old(self).frame matches Some(f) && f.update.stage is Measure && sols@.len()
                == f.scan.body@.len(),
        ensures
            final(self).wf(),
            final(self).preprocess == old(self).preprocess,
            planes_taken(old(self)@, sols@, final(self)@),
    {
        let mut frame: Option<Frame<N, W>> = None;
        std::mem::swap(&mut frame, &mut self.frame);
        if let Some(f) = frame {
            let mut scan: Scan<N> = f.scan;
            let mut update: IteratedUpdate<W> = f.update;
            scan.weigh::<W>(sols);
            let effect: Effect<W> = scan.effect(&update.x, self.extrinsic_est_en);
            let count: usize = effect.count;
            self.effct_feat_num = count;
            if count > 0 {
                self.res_mean_last = effect.total.over(W::count(count as u64));
            }
            update.measured(effect.share);
            self.resume(&mut scan, &update);
            self.frame = Some(Frame { time: f.time, scan, update });
        }
    }

    /// Takes the inverse of the matrix that the update asks for.
    pub fn take_inverse(&mut self, inv: Mat<W>)
        requires
            old(self).wf(),
            old(self).frame matches Some(f) && f.update.stage !is Measure && f.update.stage
                !is Finished && has_shape(
                inv@,
                wanted(f.update.stage@),
                wanted(f.update.stage@),
            ),
        ensures
            final(self).wf(),
            final(self).preprocess == old(self).preprocess,
            inverse_taken(old(self)@, inv@, final(self)@),
    {
        let mut frame: Option<Frame<N, W>> = None;
        std::mem::swap(&mut frame, &mut self.frame);
        if let Some(f) = frame {
            let mut scan: Scan<N> = f.scan;
            let mut update: IteratedUpdate<W> = f.update;
            update.inverted(inv);
            self.resume(&mut scan, &update);
            self.frame = Some(Frame { time: f.time, scan, update });
        }
    }

    fn resume(&mut self, scan: &mut Scan<N>, update: &IteratedUpdate<W>)
        requires
            old(self).ikdtree.wf(),
            aligned(old(scan)@),
        ensures
            *final(self) == *old(self),
            aligned(final(scan)@),
            resumed(old(self).ikdtree.root, update@, old(scan)@, final(scan)@),
    {
        match &update.stage {
            crate::update::Stage::Measure => {
                scan.look_up(&mut self.ikdtree, &update.x, update.converge);
            },
            _ => {},
        }
    }

    /// Ends a finished update: the filter takes its state and the scan is added to
    /// the map. Returns `None` where the map has no room for the points.
    pub fn finish(&mut self) -> (r: Option<LioResult<W>>)
        requires
            old(self).wf(),
            old(self).frame matches Some(f) && f.update.stage is Finished,
        ensures
            final(self).wf(),
            final(self).preprocess == old(self).preprocess,
            finished(old(self)@, final(self)@, r),
    {
        let mut frame: Option<Frame<N, W>> = None;
        std::mem::swap(&mut frame, &mut self.frame);
        match frame {
            None => None,
            Some(f) => {
                let ghost v = f.scan@;
                self.kf.accept(f.update);
                let x: StateIkfom<W> = *self.kf.get_x();
                let (_, mut add, mut always) = sort_by_fate(
                    &f.scan.body,
                    &f.scan.near,
                    &x,
                    self.flg_ekf_inited,
                    self.filter_size_map_min,
                );
                assert(Seq::new(f.scan.near@.len(), |i: int| f.scan.near@[i]@) =~= v.near);
                assert(Seq::new(f.scan.body@.len(), |i: int| world_of(f.scan.body@[i], x))
                    =~= placed(v.body, x));
                proof {
                    law_always_numbers(
                        placed(v.body, x),
                        v.near,
                        self.flg_ekf_inited,
                        self.filter_size_map_min,
                        v.body.len(),
                    );
                }
                if !fits_map(&add, self.ikdtree.size()) {
                    return None;
                }
                let ghost t0 = self.ikdtree;
                let _ = self.ikdtree.add_points(add.as_mut_slice(), true);
                let ghost t1 = self.ikdtree;
                if !fits_map(&always, self.ikdtree.size()) {
                    assert(taken_in(t0, t1, add@, true));
                    return None;
                }
                let _ = self.ikdtree.add_points(always.as_mut_slice(), false);
                assert(taken_in(t0, t1, add@, true));
                assert(taken_in(t1, self.ikdtree, always@, false));
                Some(
                    LioResult {
                        time: f.time,
                        pos: x.pos,
                        quat: [x.rot.w, x.rot.i, x.rot.j, x.rot.k],
                        vel: x.vel,
                        bg: x.bg,
                        ba: x.ba,
                        map_points: self.ikdtree.validnum(),
                        effct_feat_num: self.effct_feat_num,
                        res_mean: self.res_mean_last,
                    },
                )
            },
        }
    }
}

} // verus!
