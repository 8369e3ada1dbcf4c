//! Laws of the mapper.
use super::{after_imu, centred, lidar_position, planes_taken, ran, Mapper, Turn};
use crate::exact::{exact_angles, has_angles, is_unit};
use crate::ikdtree::model::in_box;
use crate::imu_processing::{
    law_compensation_moves_only, scan_tail, scan_track, time_sorted,
};
use crate::linear::V3;
use crate::local_map::{fate_of, law_cube_keeps_points, to_clear, with_fate, Fate};
use crate::manifold::StateIkfom;
use crate::measure::{chosen, residual_sum, weighed};
use crate::places::place_in_world;
use crate::preprocess::lines::lemma_shared_back;
use crate::scalar::{exact_arithmetic, is_reading, whole, Scalar, Widen};
use crate::slopes::law_step_is_motion;
use crate::sphere::lemma_nothing;
use crate::sync::{is_ready, synced};
use crate::types::PointType;
use vstd::prelude::*;

verus! {

/// In exact arithmetic the lidar is where it sees its own origin.
pub proof fn law_lidar_at_its_origin<W: Scalar>(x: StateIkfom<W>)
    requires
        exact_arithmetic::<W>(),
    ensures
        place_in_world(x, V3::zeros()) == lidar_position(x),
{
    reveal(exact_arithmetic);
    let value = choose|value: spec_fn(W) -> real| #[trigger] is_reading(value);
    let q = x.offset_r_l_i;
    let none = V3::<W>::zeros();
    let at = q.rotate(none);
    lemma_nothing(value(q.w));
    lemma_nothing(value(q.i));
    lemma_nothing(value(q.j));
    lemma_nothing(value(q.k));
    lemma_nothing(2int as real);
    assert(at == none) by {
        reveal(is_reading);
        assert(value(at.x) == value(none.x));
        assert(value(at.y) == value(none.y));
        assert(value(at.z) == value(none.z));
    }
    let t = x.offset_t_l_i;
    assert(none.sum(t) == t) by {
        reveal(is_reading);
        let s = none.sum(t);
        assert(value(s.x) == value(t.x));
        assert(value(s.y) == value(t.y));
        assert(value(s.z) == value(t.z));
    }
    let r = x.rot.rotate(t);
    let (l, m) = (r.sum(x.pos), x.pos.sum(r));
    assert(l == m) by {
        reveal(is_reading);
        assert(value(l.x) == value(m.x));
        assert(value(l.y) == value(m.y));
        assert(value(l.z) == value(m.z));
    }
}

/// When the cube follows the lidar, the map keeps every point of the new cube.
pub proof fn law_map_keeps_cube<N: Widen<W>, W: Scalar>(
    a: Mapper<N, W>,
    b: Mapper<N, W>,
    p: PointType<N>,
)
    requires
        centred(a, b),
        a.local.placed,
        in_box(b.local.bounds, p),
    ensures
        b.tree.live().count(p) == a.tree.live().count(p),
{
    let at = lidar_position(a.x);
    let boxes = to_clear(a.local, at, a.setup.cube_len, a.setup.det_range);
    assert forall|j: int| 0 <= j < boxes.len() implies !in_box(#[trigger] boxes[j], p) by {
        law_cube_keeps_points(a.local, at, a.setup.cube_len, a.setup.det_range, p, j);
    }
}

/// No point that is cleared stays in the map.
pub proof fn law_cleared_points_leave<N: Widen<W>, W: Scalar>(
    a: Mapper<N, W>,
    b: Mapper<N, W>,
    p: PointType<N>,
    j: int,
)
    requires
        centred(a, b),
        ({
            let boxes = to_clear(
                a.local,
                lidar_position(a.x),
                a.setup.cube_len,
                a.setup.det_range,
            );
            0 <= j < boxes.len() && in_box(boxes[j], p)
        }),
    ensures
        b.tree.live().count(p) == 0,
{
}

/// Every point of a scan has one fate: those added, those added in any case and those
/// dropped are all of them.
pub proof fn law_each_point_has_one_fate<N: Scalar>(
    world: Seq<PointType<N>>,
    near: Seq<Seq<PointType<N>>>,
    settled: bool,
    size: N,
    n: nat,
)
    requires
        n <= world.len(),
    ensures
        with_fate(world, near, settled, size, Fate::Add, n).len() + with_fate(
            world,
            near,
            settled,
            size,
            Fate::AddAlways,
            n,
        ).len() + with_fate(world, near, settled, size, Fate::Drop, n).len() == n,
        forall|i: int|
            0 <= i < n ==> with_fate(
                world,
                near,
                settled,
                size,
                fate_of(world[i], near[i], settled, size),
                n,
            ).contains(#[trigger] world[i]),
    decreases n,
{
    if n > 0 {
        law_each_point_has_one_fate(world, near, settled, size, (n - 1) as nat);
        let f = fate_of(world[n - 1], near[n - 1], settled, size);
        assert forall|i: int| 0 <= i < n implies with_fate(
            world,
            near,
            settled,
            size,
            fate_of(world[i], near[i], settled, size),
            n,
        ).contains(#[trigger] world[i]) by {
            let e = fate_of(world[i], near[i], settled, size);
            let (was, is) = (
                with_fate(world, near, settled, size, e, (n - 1) as nat),
                with_fate(world, near, settled, size, e, n),
            );
            if i == n - 1 {
                assert(is[is.len() - 1] == world[i]);
            } else {
                let k = choose|k: int| 0 <= k < was.len() && was[k] == world[i];
                assert(is[k] == world[i]);
            }
        }
    }
}

/// In exact arithmetic the mean distance that is reported, times the number of points that
/// take part, is the sum of their distances.
pub proof fn law_mean_distance<N: Widen<W>, W: Scalar>(
    a: Mapper<N, W>,
    sols: Seq<V3<N>>,
    b: Mapper<N, W>,
)
    requires
        exact_angles::<W>(),
        a.frame is Some,
        planes_taken(a, sols, b),
    ensures
        ({
            let s = weighed::<N, W>(a.frame->0.scan, sols);
            let n = chosen(s.selected, s.selected.len()).len() as int;
            &&& n > 0 ==> b.mean.times_spec(whole(n)) == residual_sum::<N, W>(s, s.selected.len())
            &&& n == 0 ==> b.mean == a.mean
        }),
{
    reveal(exact_angles);
    let value = choose|value: spec_fn(W) -> real| #[trigger] is_reading(value) && has_angles(value);
    let s = weighed::<N, W>(a.frame->0.scan, sols);
    let n = chosen(s.selected, s.selected.len()).len() as int;
    let total = residual_sum::<N, W>(s, s.selected.len());
    if n > 0 {
        lemma_shared_back(value, total, n);
    }
    assert(b.mean == if n > 0 {
        total.over_spec(whole::<W>(n))
    } else {
        a.mean
    });
}

/// Until a group is complete nothing is estimated and nothing is mapped, and the first group
/// does no more than set the time.
pub proof fn law_waits_for_groups<N: Widen<W>, W: Scalar>(
    a: Mapper<N, W>,
    b: Mapper<N, W>,
    r: Turn,
)
    requires
        ran(a, b, r),
        !is_ready(a.intake) || a.first_scan,
    ensures
        r == Turn::Idle,
        b.x == a.x,
        b.p == a.p,
        b.tree == a.tree,
        b.local == a.local,
        b.frame == a.frame,
        !is_ready(a.intake) ==> b.imu == a.imu && b.first_scan == a.first_scan,
        is_ready(a.intake) ==> !b.first_scan && b.first_time == b.intake.group.beg,
{
}

/// In exact arithmetic the state after a scan is that at its end: where the track through
/// the measurements leads on to with the time that is left, with the biases and gravity as
/// they were; and the next scan goes on from there.
pub proof fn law_state_is_at_scan_end<N: Widen<W>, W: Scalar>(a: Mapper<N, W>)
    requires
        exact_angles::<W>(),
        synced(a.intake).group.imu.len() > 0,
        !a.imu.imu_need_init,
        ({
            let g = synced(a.intake).group;
            is_unit(scan_track(a.imu, g.beg, g.imu, a.x, a.p).x.rot)
        }),
    ensures
        ({
            let g = synced(a.intake).group;
            let t = scan_track(a.imu, g.beg, g.imu, a.x, a.p);
            let b = after_imu(a);
            &&& b.x.pos == t.x.pos.sum(t.x.vel.scaled(scan_tail(g.end, g.imu)))
            &&& b.x.bg == t.x.bg && b.x.ba == t.x.ba && b.x.grav == t.x.grav
            &&& b.imu.last_lidar_end_time == g.end
            &&& b.imu.last_imu == Some(g.imu.last())
            &&& b.imu.imu_pose == t.poses
            &&& b.undistorted.len() == time_sorted(g.cloud).len()
        }),
{
    let g = synced(a.intake).group;
    let t = scan_track(a.imu, g.beg, g.imu, a.x, a.p);
    law_step_is_motion(t.x, t.input, scan_tail(g.end, g.imu));
    let pts = time_sorted(g.cloud);
    let end = after_imu(a).x;
    law_compensation_moves_only(pts, pts.len() - 1, t.poses, t.poses.len() - 1, end);
}

} // verus!
