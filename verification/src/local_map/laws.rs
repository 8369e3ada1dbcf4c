//! Laws of the cube of the map, in fixed point.
use super::{
    beyond, cell_middle, cube_around, direction, fate_of, left_behind, middle_point, shifted_box,
    slid, stride, to_clear, Fate, LocalMap,
};
use crate::fixed::{Fixed, ONE};
use crate::grid::laws::lemma_column_holds;
use crate::ikdtree::model::{dist, in_box, num_point, BoxPointType};
use crate::linear::V3;
use crate::model::entry_of;
use crate::scalar::{lt, Scalar};
use crate::types::{PointType, NUM_MATCH_POINTS};
use vstd::prelude::*;

verus! {

/// Small enough that nothing is cut off.
pub open spec fn is_modest(a: Fixed) -> bool {
    -0x1_0000_0000_0000 <= a.raw <= 0x1_0000_0000_0000
}

/// A coordinate is no further from the middle of its cell than the edge is, and the middle
/// lies halfway between the edges of the cell that holds the coordinate.
pub proof fn law_cell_middle_is_near(v: Fixed, size: Fixed)
    requires
        16 < size.raw <= 0x1_0000_0000,
        is_modest(v),
    ensures
        ({
            let m = cell_middle(v, size).raw as int;
            let lo = m - size.raw as int / 2;
            &&& lo % size.raw as int == 0
            &&& lo <= v.raw < lo + size.raw
        }),
{
    let (d, s) = (v.raw as int, size.raw as int);
    let q = (d * ONE) / s;
    assert(-0x1000_0000_0000_0000 <= q <= 0x1000_0000_0000_0000) by (nonlinear_arith)
        requires
            q == (d * ONE) / s,
            s > 16,
            ONE == 65536,
            -0x1_0000_0000_0000 <= d <= 0x1_0000_0000_0000,
    ;
    let c = q / 65536;
    lemma_column_holds(d, s, q, c);
    let f = v.over_spec(size).floor_spec();
    assert(f.raw == c * 65536);
    assert((c + 1) * s == c * s + s) by (nonlinear_arith);
    assert((c * 65536) * s == (c * s) * 65536) by (nonlinear_arith);
    assert(f.times_spec(size).raw == c * s);
    let half = Fixed::ratio_spec(1, 2).times_spec(size);
    assert(half.raw == (32768 * s) / 65536);
    assert(half.raw == s / 2);
    assert((c * s) % s == 0) by (nonlinear_arith)
        requires
            s > 0,
    ;
}

/// The cube around a position has it in the middle.
pub proof fn law_cube_has_middle(pos: V3<Fixed>, cube_len: Fixed, i: int)
    requires
        0 <= i < 3,
        0 <= cube_len.raw <= 0x1_0000_0000_0000,
        is_modest(pos.x),
        is_modest(pos.y),
        is_modest(pos.z),
    ensures
        ({
            let b = cube_around::<Fixed, Fixed>(pos, cube_len);
            let (lo, hi) = (b.vertex_min[i].raw as int, b.vertex_max[i].raw as int);
            &&& lo + hi == 2 * entry_of(pos, i).raw
            &&& cube_len.raw - 1 <= hi - lo <= cube_len.raw
        }),
{
    let l = cube_len.raw as int;
    assert(Fixed::ratio_spec(2, 1).raw == 131072);
    assert((l * 65536) / 131072 == l / 2);
    assert(cube_len.over_spec(Fixed::ratio_spec(2, 1)).raw == l / 2);
    assert(i == 0 || i == 1 || i == 2);
}

/// The cube moves by at least half the range of the sensor, and by nearly half of what the
/// cube is longer than three times the range; it moves by no more than the larger of them.
pub proof fn law_stride_is_long_enough(cube_len: Fixed, det_range: Fixed)
    requires
        0 <= det_range.raw <= 0x1_0000_0000,
        0 <= cube_len.raw <= 0x1_0000_0000_0000,
    ensures
        ({
            let by = stride::<Fixed, Fixed>(cube_len, det_range).raw as int;
            let room = cube_len.raw - 3 * det_range.raw;
            &&& by >= 0
            &&& 2 * by >= det_range.raw - 1
            &&& 100 * by >= 44 * room - 200
            &&& 2 * by <= det_range.raw || 100 * by <= 45 * room
        }),
{
    let (l, d) = (cube_len.raw as int, det_range.raw as int);
    assert(Fixed::ratio_spec(2, 1).raw == 131072);
    assert(Fixed::ratio_spec(3, 2).raw == 98304);
    assert(Fixed::ratio_spec(1, 2).raw == 32768);
    assert(Fixed::ratio_spec(9, 10).raw == 58982);
    assert(Fixed::ratio_spec(1, 1).raw == 65536);
    let three = Fixed::ratio_spec(2, 1).times_spec(Fixed::ratio_spec(3, 2));
    assert(three.raw == 196608);
    assert(three.times_spec(det_range).raw == 3 * d) by {
        assert((196608 * d) / 65536 == 3 * d);
    }
    let room = l - 3 * d;
    let a = (room * 32768) / 65536;
    let b = (a * 58982) / 65536;
    let half = (d * 32768) / 65536;
    assert(Fixed::ratio_spec(3, 2).minus_spec(Fixed::ratio_spec(1, 1)).raw == 32768);
    assert(det_range.times_spec(
        Fixed::ratio_spec(3, 2).minus_spec(Fixed::ratio_spec(1, 1)),
    ).raw == half);
    let left = cube_len.minus_spec(three.times_spec(det_range));
    assert(left.raw == room);
    assert(left.times_spec(Fixed::ratio_spec(1, 2)).raw == a);
    assert(left.times_spec(Fixed::ratio_spec(1, 2)).times_spec(Fixed::ratio_spec(9, 10)).raw == b);
    let by = stride::<Fixed, Fixed>(cube_len, det_range).raw as int;
    assert(by == if b < half {
        half
    } else {
        b
    });
}

/// The cube follows the sensor: with the sensor within one and a half times its range of
/// the lower face of an axis it moves down by a stride, else with the sensor as near to the
/// upper face it moves up, and else it stays.
pub proof fn law_cube_follows_sensor(
    m: LocalMap<Fixed>,
    pos: V3<Fixed>,
    cube_len: Fixed,
    det_range: Fixed,
    i: int,
)
    requires
        m.placed,
        0 <= i < 3,
        0 <= det_range.raw <= 0x1_0000_0000,
        0 <= cube_len.raw <= 0x1_0000_0000_0000,
        is_modest(entry_of(pos, i)),
        is_modest(m.bounds.vertex_min[i]),
        is_modest(m.bounds.vertex_max[i]),
    ensures
        ({
            let by = stride::<Fixed, Fixed>(cube_len, det_range).raw as int;
            let at = entry_of(pos, i).raw as int;
            let (lo, hi) = (m.bounds.vertex_min[i].raw as int, m.bounds.vertex_max[i].raw as int);
            let r = 3 * det_range.raw;
            let to = slid(m, pos, cube_len, det_range).bounds;
            let (a, b) = (to.vertex_min[i].raw as int, to.vertex_max[i].raw as int);
            if -r <= 2 * (at - lo) <= r {
                a == lo - by && b == hi - by
            } else if -r <= 2 * (at - hi) <= r {
                a == lo + by && b == hi + by
            } else {
                a == lo && b == hi
            }
        }),
{
    law_stride_is_long_enough(cube_len, det_range);
    reveal_with_fuel(shifted_box, 4);
    let d = det_range.raw as int;
    assert(Fixed::ratio_spec(3, 2).raw == 98304);
    let margin = super::margin(det_range);
    assert(margin.raw == (98304 * d) / 65536);
    assert(2 * margin.raw <= 3 * d < 2 * margin.raw + 2);
    assert(i == 0 || i == 1 || i == 2);
}

/// A coordinate of a point.
spec fn along(p: PointType<Fixed>, i: int) -> Fixed {
    if i == 0 {
        p.x
    } else if i == 1 {
        p.y
    } else {
        p.z
    }
}

proof fn lemma_slab_found(
    b: BoxPointType<Fixed>,
    pos: V3<Fixed>,
    det_range: Fixed,
    by: Fixed,
    n: nat,
    p: PointType<Fixed>,
    i: int,
) -> (j: int)
    requires
        0 <= i < n <= 3,
        0 <= by.raw <= 0x1_0000_0000_0000,
        forall|k: int|
            0 <= k < 3 ==> is_modest(#[trigger] b.vertex_min[k]) && is_modest(b.vertex_max[k]),
        in_box(b, p),
        direction::<Fixed, Fixed>(b, pos, det_range, i) < 0 ==> along(p, i).raw
            >= b.vertex_max[i].raw - by.raw,
        direction::<Fixed, Fixed>(b, pos, det_range, i) > 0 ==> along(p, i).raw
            < b.vertex_min[i].raw + by.raw,
        direction::<Fixed, Fixed>(b, pos, det_range, i) != 0,
    ensures
        0 <= j < left_behind::<Fixed, Fixed>(b, pos, det_range, by, n).len(),
        in_box(left_behind::<Fixed, Fixed>(b, pos, det_range, by, n)[j], p),
    decreases n,
{
    let s = left_behind::<Fixed, Fixed>(b, pos, det_range, by, (n - 1) as nat);
    if i < n - 1 {
        lemma_slab_found(b, pos, det_range, by, (n - 1) as nat, p, i)
    } else {
        assert(is_modest(b.vertex_min[i]));
        assert(i == 0 || i == 1 || i == 2);
        s.len() as int
    }
}

/// What the cube leaves is cleared: a point of the old cube that is not in the new one is in
/// one of the boxes to clear.
pub proof fn law_left_points_are_cleared(
    m: LocalMap<Fixed>,
    pos: V3<Fixed>,
    cube_len: Fixed,
    det_range: Fixed,
    p: PointType<Fixed>,
) -> (j: int)
    requires
        m.placed,
        0 <= det_range.raw <= 0x1_0000_0000,
        0 <= cube_len.raw <= 0x1_0000_0000_0000,
        forall|k: int|
            0 <= k < 3 ==> is_modest(#[trigger] m.bounds.vertex_min[k]) && is_modest(
                m.bounds.vertex_max[k],
            ),
        in_box(m.bounds, p),
        !in_box(slid(m, pos, cube_len, det_range).bounds, p),
    ensures
        0 <= j < to_clear(m, pos, cube_len, det_range).len(),
        in_box(to_clear(m, pos, cube_len, det_range)[j], p),
{
    let by = stride::<Fixed, Fixed>(cube_len, det_range);
    law_stride_is_long_enough(cube_len, det_range);
    reveal_with_fuel(shifted_box, 4);
    let b = m.bounds;
    assert(is_modest(b.vertex_min[0]) && is_modest(b.vertex_min[1]) && is_modest(b.vertex_min[2]));
    let to = slid(m, pos, cube_len, det_range).bounds;
    let i = if !(to.vertex_min[0].raw <= p.x.raw < to.vertex_max[0].raw) {
        0int
    } else if !(to.vertex_min[1].raw <= p.y.raw < to.vertex_max[1].raw) {
        1
    } else {
        2
    };
    lemma_slab_found(b, pos, det_range, by, 3, p, i)
}

/// A point is dropped only once the filter has settled and only for one of five neighbours
/// that is closer to the middle of the cell; without neighbours it is added.
pub proof fn law_dropped_for_a_better_one<N: Scalar>(
    p: PointType<N>,
    near: Seq<PointType<N>>,
    settled: bool,
    size: N,
)
    ensures
        ({
            let mid = middle_point(p, size);
            let f = fate_of(p, near, settled, size);
            &&& f == Fate::Drop ==> settled && near.len() >= NUM_MATCH_POINTS && exists|k: int|
                0 <= k < NUM_MATCH_POINTS && lt(dist(#[trigger] near[k], mid), dist(p, mid))
            &&& near.len() == 0 ==> f == Fate::Add
            &&& f == Fate::AddAlways ==> settled && near.len() > 0 && beyond(
                near[0].x,
                mid.x,
                size,
            ) && beyond(near[0].y, mid.y, size) && beyond(near[0].z, mid.z, size)
            &&& settled && num_point(p) && near.len() >= NUM_MATCH_POINTS && lt(
                dist(near[0], mid),
                dist(p, mid),
            ) ==> f != Fate::Add
        }),
{
}

} // verus!
