//! What the map keeps: the cube around the sensor, and which points of a scan
//! are worth adding.
pub mod laws;

use crate::fixed::Fixed;
use crate::ikdtree::edit::is_number;
use crate::ikdtree::model::{dist, in_box, num_point, seq_num, BoxPointType};
use crate::ikdtree::search::calc_dist;
use crate::linear::V3;
use crate::manifold::StateIkfom;
use crate::measure::{point_body_to_world, world_of};
use crate::model::{entry_of, pick_entry};
use crate::scalar::{greater_of, greater_spec, le, lt, Scalar, Widen};
use crate::types::{point_at, PointType, NUM_MATCH_POINTS};
use vstd::prelude::*;

verus! {

/// The cube of the world that the map covers.
#[derive(Clone, Copy, Debug)]
pub struct LocalMap<N> {
    pub bounds: BoxPointType<N>,
    /// The cube has been placed.
    pub placed: bool,
}

/// Three numbers with the one at `i` replaced.
pub open spec fn with_axis<N>(a: [N; 3], i: int, v: N) -> [N; 3] {
    [
        if i == 0 {
            v
        } else {
            a[0]
        },
        if i == 1 {
            v
        } else {
            a[1]
        },
        if i == 2 {
            v
        } else {
            a[2]
        },
    ]
}

fn set_axis<N: Scalar>(a: [N; 3], i: usize, v: N) -> (r: [N; 3])
    ensures
        r == with_axis(a, i as int, v),
{
    [
        if i == 0 {
            v
        } else {
            a[0]
        },
        if i == 1 {
            v
        } else {
            a[1]
        },
        if i == 2 {
            v
        } else {
            a[2]
        },
    ]
}

/// How close the sensor may come to a face of the cube.
pub open spec fn margin<N: Scalar>(det_range: N) -> N {
    N::ratio_spec(3, 2).times_spec(det_range)
}

/// The sensor is too close to a face at `edge`.
pub open spec fn crowds<N: Widen<W>, W: Scalar>(at: W, edge: N, det_range: N) -> bool {
    le(N::narrow_spec(at.minus_spec(edge.widen_spec()).magnitude_spec()), margin(det_range))
}

/// How far the cube moves.
pub open spec fn stride<N: Widen<W>, W: Scalar>(cube_len: W, det_range: N) -> N {
    greater_spec(
        N::narrow_spec(cube_len).minus_spec(
            N::ratio_spec(2, 1).times_spec(N::ratio_spec(3, 2)).times_spec(det_range),
        ).times_spec(N::ratio_spec(1, 2)).times_spec(N::ratio_spec(9, 10)),
        det_range.times_spec(N::ratio_spec(3, 2).minus_spec(N::ratio_spec(1, 1))),
    )
}

/// The direction in which the cube moves along an axis: down, up, or not at all.
pub open spec fn direction<N: Widen<W>, W: Scalar>(
    b: BoxPointType<N>,
    pos: V3<W>,
    det_range: N,
    i: int,
) -> int {
    if crowds(entry_of(pos, i), b.vertex_min[i], det_range) {
        -1
    } else if crowds(entry_of(pos, i), b.vertex_max[i], det_range) {
        1
    } else {
        0
    }
}

/// A coordinate moved by a stride.
pub open spec fn shift<N: Scalar>(v: N, dir: int, by: N) -> N {
    if dir < 0 {
        v.minus_spec(by)
    } else if dir > 0 {
        v.plus_spec(by)
    } else {
        v
    }
}

/// The cube after moving along the first `n` axes.
pub open spec fn shifted_box<N: Widen<W>, W: Scalar>(
    b: BoxPointType<N>,
    pos: V3<W>,
    det_range: N,
    by: N,
    n: nat,
) -> BoxPointType<N>
    decreases n,
{
    if n == 0 {
        b
    } else {
        let m = shifted_box(b, pos, det_range, by, (n - 1) as nat);
        let i = n - 1;
        let dir = direction(b, pos, det_range, i);
        BoxPointType {
            vertex_min: with_axis(m.vertex_min, i, shift(b.vertex_min[i], dir, by)),
            vertex_max: with_axis(m.vertex_max, i, shift(b.vertex_max[i], dir, by)),
        }
    }
}

/// The slabs of the old cube that moving along the first `n` axes leaves behind.
pub open spec fn left_behind<N: Widen<W>, W: Scalar>(
    b: BoxPointType<N>,
    pos: V3<W>,
    det_range: N,
    by: N,
    n: nat,
) -> Seq<BoxPointType<N>>
    decreases n,
{
    if n == 0 {
        Seq::empty()
    } else {
        let s = left_behind(b, pos, det_range, by, (n - 1) as nat);
        let i = n - 1;
        let dir = direction(b, pos, det_range, i);
        if dir < 0 {
            s.push(
                BoxPointType {
                    vertex_min: with_axis(b.vertex_min, i, b.vertex_max[i].minus_spec(by)),
                    vertex_max: b.vertex_max,
                },
            )
        } else if dir > 0 {
            s.push(
                BoxPointType {
                    vertex_min: b.vertex_min,
                    vertex_max: with_axis(b.vertex_max, i, b.vertex_min[i].plus_spec(by)),
                },
            )
        } else {
            s
        }
    }
}

/// The cube around a position.
pub open spec fn cube_around<N: Widen<W>, W: Scalar>(pos: V3<W>, cube_len: W) -> BoxPointType<N> {
    let half = cube_len.over_spec(W::ratio_spec(2, 1));
    BoxPointType {
        vertex_min: [
            N::narrow_spec(pos.x.minus_spec(half)),
            N::narrow_spec(pos.y.minus_spec(half)),
            N::narrow_spec(pos.z.minus_spec(half)),
        ],
        vertex_max: [
            N::narrow_spec(pos.x.plus_spec(half)),
            N::narrow_spec(pos.y.plus_spec(half)),
            N::narrow_spec(pos.z.plus_spec(half)),
        ],
    }
}

/// The map cube for a sensor at `pos`: at first the cube around it, after that the
/// cube moved away from each face that the sensor is too close to.
pub open spec fn slid<N: Widen<W>, W: Scalar>(
    m: LocalMap<N>,
    pos: V3<W>,
    cube_len: W,
    det_range: N,
) -> LocalMap<N> {
    LocalMap {
        bounds: if m.placed {
            shifted_box(m.bounds, pos, det_range, stride(cube_len, det_range), 3)
        } else {
            cube_around(pos, cube_len)
        },
        placed: true,
    }
}

/// The boxes to clear when the cube moves.
pub open spec fn to_clear<N: Widen<W>, W: Scalar>(
    m: LocalMap<N>,
    pos: V3<W>,
    cube_len: W,
    det_range: N,
) -> Seq<BoxPointType<N>> {
    if m.placed {
        left_behind(m.bounds, pos, det_range, stride(cube_len, det_range), 3)
    } else {
        Seq::empty()
    }
}

fn is_crowded<N: Widen<W>, W: Scalar>(at: W, edge: N, det_range: N) -> (r: bool)
    ensures
        r == crowds(at, edge, det_range),
{
    N::narrow(at.minus(edge.widen()).magnitude()).at_most(N::ratio(3, 2).times(det_range))
}

impl<N: Scalar> LocalMap<N> {
    /// Moves the cube with the sensor and returns the boxes to clear.
    pub fn slide<W: Scalar>(&mut self, pos: V3<W>, cube_len: W, det_range: N) -> (r: Vec<
        BoxPointType<N>,
    >) where N: Widen<W>,
        ensures
            *final(self) == slid(*old(self), pos, cube_len, det_range),
            r@ == to_clear(*old(self), pos, cube_len, det_range),
    {
        let mut boxes: Vec<BoxPointType<N>> = Vec::new();
        if !self.placed {
            let half: W = cube_len.over(W::ratio(2, 1));
            self.bounds =
            BoxPointType {
                vertex_min: [
                    N::narrow(pos.x.minus(half)),
                    N::narrow(pos.y.minus(half)),
                    N::narrow(pos.z.minus(half)),
                ],
                vertex_max: [
                    N::narrow(pos.x.plus(half)),
                    N::narrow(pos.y.plus(half)),
                    N::narrow(pos.z.plus(half)),
                ],
            };
            self.placed = true;
            assert(boxes@ =~= Seq::<BoxPointType<N>>::empty());
            return boxes;
        }
        let b: BoxPointType<N> = self.bounds;
        let by: N = greater_of(
            N::narrow(cube_len).minus(N::ratio(2, 1).times(N::ratio(3, 2)).times(det_range)).times(
                N::ratio(1, 2),
            ).times(N::ratio(9, 10)),
            det_range.times(N::ratio(3, 2).minus(N::ratio(1, 1))),
        );
        let mut m: BoxPointType<N> = b;
        let mut i: usize = 0;
        assert(boxes@ =~= left_behind(b, pos, det_range, by, 0));
        while i < 3
            invariant
                i <= 3,
                by == stride(cube_len, det_range),
                m == shifted_box(b, pos, det_range, by, i as nat),
                boxes@ == left_behind(b, pos, det_range, by, i as nat),
            decreases 3 - i,
        {
            let at: W = pick_entry(pos, i);
            let lo: N = b.vertex_min[i];
            let hi: N = b.vertex_max[i];
            if is_crowded(at, lo, det_range) {
                m =
                BoxPointType {
                    vertex_min: set_axis(m.vertex_min, i, lo.minus(by)),
                    vertex_max: set_axis(m.vertex_max, i, hi.minus(by)),
                };
                boxes.push(
                    BoxPointType {
                        vertex_min: set_axis(b.vertex_min, i, hi.minus(by)),
                        vertex_max: b.vertex_max,
                    },
                );
            } else if is_crowded(at, hi, det_range) {
                m =
                BoxPointType {
                    vertex_min: set_axis(m.vertex_min, i, lo.plus(by)),
                    vertex_max: set_axis(m.vertex_max, i, hi.plus(by)),
                };
                boxes.push(
                    BoxPointType {
                        vertex_min: b.vertex_min,
                        vertex_max: set_axis(b.vertex_max, i, lo.plus(by)),
                    },
                );
            } else {
                m =
                BoxPointType {
                    vertex_min: set_axis(m.vertex_min, i, lo),
                    vertex_max: set_axis(m.vertex_max, i, hi),
                };
            }
            i = i + 1;
        }
        self.bounds = m;
        boxes
    }
}

/// A cube that the sensor is well inside of stays, and nothing is cleared.
pub proof fn law_cube_stays<N: Widen<W>, W: Scalar>(
    m: LocalMap<N>,
    pos: V3<W>,
    cube_len: W,
    det_range: N,
)
    requires
        m.placed,
        forall|i: int| 0 <= i < 3 ==> #[trigger] direction(m.bounds, pos, det_range, i) == 0,
    ensures
        slid(m, pos, cube_len, det_range).bounds.vertex_min@ == m.bounds.vertex_min@,
        slid(m, pos, cube_len, det_range).bounds.vertex_max@ == m.bounds.vertex_max@,
        to_clear(m, pos, cube_len, det_range).len() == 0,
{
    let by = stride(cube_len, det_range);
    reveal_with_fuel(shifted_box, 4);
    reveal_with_fuel(left_behind, 4);
    assert(direction(m.bounds, pos, det_range, 0) == 0);
    assert(direction(m.bounds, pos, det_range, 1) == 0);
    assert(direction(m.bounds, pos, det_range, 2) == 0);
    let s = slid(m, pos, cube_len, det_range);
    assert(s.bounds.vertex_min@ =~= m.bounds.vertex_min@);
    assert(s.bounds.vertex_max@ =~= m.bounds.vertex_max@);
}

/// Both ends of the cube move alike along each axis.
pub proof fn law_cube_moves_whole<N: Widen<W>, W: Scalar>(
    m: LocalMap<N>,
    pos: V3<W>,
    cube_len: W,
    det_range: N,
    i: int,
)
    requires
        m.placed,
        0 <= i < 3,
    ensures
        ({
            let by = stride(cube_len, det_range);
            let dir = direction(m.bounds, pos, det_range, i);
            let s = slid(m, pos, cube_len, det_range).bounds;
            s.vertex_min[i] == shift(m.bounds.vertex_min[i], dir, by) && s.vertex_max[i] == shift(
                m.bounds.vertex_max[i],
                dir,
                by,
            )
        }),
{
    reveal_with_fuel(shifted_box, 4);
}

/// Where nothing is cut off at the ends of the range of numbers, the sides of the cube
/// keep their lengths.
pub proof fn law_cube_keeps_size(
    m: LocalMap<Fixed>,
    pos: V3<Fixed>,
    cube_len: Fixed,
    det_range: Fixed,
    i: int,
)
    requires
        m.placed,
        0 <= i < 3,
        ({
            let by = stride::<Fixed, Fixed>(cube_len, det_range).raw;
            let lo = m.bounds.vertex_min[i].raw;
            let hi = m.bounds.vertex_max[i].raw;
            &&& i64::MIN <= lo - by <= i64::MAX && i64::MIN <= lo + by <= i64::MAX
            &&& i64::MIN <= hi - by <= i64::MAX && i64::MIN <= hi + by <= i64::MAX
        }),
    ensures
        ({
            let s = slid(m, pos, cube_len, det_range).bounds;
            s.vertex_max[i].raw - s.vertex_min[i].raw == m.bounds.vertex_max[i].raw
                - m.bounds.vertex_min[i].raw
        }),
{
    law_cube_moves_whole(m, pos, cube_len, det_range, i);
}

proof fn lemma_slab_outside<N: Widen<W>, W: Scalar>(
    b: BoxPointType<N>,
    pos: V3<W>,
    det_range: N,
    by: N,
    n: nat,
    p: PointType<N>,
    j: int,
)
    requires
        n <= 3,
        0 <= j < left_behind(b, pos, det_range, by, n).len(),
        in_box(shifted_box(b, pos, det_range, by, 3), p),
    ensures
        !in_box(left_behind(b, pos, det_range, by, n)[j], p),
    decreases n,
{
    if n > 0 {
        let s = left_behind(b, pos, det_range, by, (n - 1) as nat);
        if j < s.len() {
            lemma_slab_outside(b, pos, det_range, by, (n - 1) as nat, p, j);
        } else {
            reveal_with_fuel(shifted_box, 4);
        }
    }
}

/// What is cleared when the cube moves lies outside of it: a point of the new cube is
/// in none of the boxes to clear.
pub proof fn law_cube_keeps_points<N: Widen<W>, W: Scalar>(
    m: LocalMap<N>,
    pos: V3<W>,
    cube_len: W,
    det_range: N,
    p: PointType<N>,
    j: int,
)
    requires
        m.placed,
        0 <= j < to_clear(m, pos, cube_len, det_range).len(),
        in_box(slid(m, pos, cube_len, det_range).bounds, p),
    ensures
        !in_box(to_clear(m, pos, cube_len, det_range)[j], p),
{
    lemma_slab_outside(m.bounds, pos, det_range, stride(cube_len, det_range), 3, p, j);
}

/// What becomes of a point of a scan.
#[derive(Clone, Copy, Debug, PartialEq, Eq, Structural)]
pub enum Fate {
    /// Added, as one of its cell.
    Add,
    /// Added without regard to its cell.
    AddAlways,
    /// Dropped.
    Drop,
}

/// The middle of the cell of a coordinate.
pub open spec fn cell_middle<N: Scalar>(v: N, size: N) -> N {
    v.over_spec(size).floor_spec().times_spec(size).plus_spec(
        N::ratio_spec(1, 2).times_spec(size),
    )
}

/// The middle of the cell of a point.
pub open spec fn middle_point<N: Scalar>(p: PointType<N>, size: N) -> PointType<N> {
    point_at(cell_middle(p.x, size), cell_middle(p.y, size), cell_middle(p.z, size))
}

/// A coordinate is further from the middle of a cell than its edge.
pub open spec fn beyond<N: Scalar>(v: N, mid: N, size: N) -> bool {
    lt(N::ratio_spec(1, 2).times_spec(size), v.minus_spec(mid).magnitude_spec())
}

/// What becomes of a point with its neighbours on the map: without neighbours, while
/// the filter settles, or if its place is not a number, it is to be added; if the nearest of them is beyond its
/// cell on every axis, it is added in any case; if one of five is closer to the
/// middle of its cell, it is dropped.
pub open spec fn fate_of<N: Scalar>(
    p: PointType<N>,
    near: Seq<PointType<N>>,
    settled: bool,
    size: N,
) -> Fate {
    let mid = middle_point(p, size);
    if near.len() == 0 || !settled || !num_point(p) {
        Fate::Add
    } else if beyond(near[0].x, mid.x, size) && beyond(near[0].y, mid.y, size) && beyond(
        near[0].z,
        mid.z,
        size,
    ) {
        Fate::AddAlways
    } else if near.len() >= NUM_MATCH_POINTS && exists|k: int|
        0 <= k < NUM_MATCH_POINTS && lt(dist(#[trigger] near[k], mid), dist(p, mid)) {
        Fate::Drop
    } else {
        Fate::Add
    }
}

/// The points of the first `n` with a given fate.
pub open spec fn with_fate<N: Scalar>(
    world: Seq<PointType<N>>,
    near: Seq<Seq<PointType<N>>>,
    settled: bool,
    size: N,
    fate: Fate,
    n: nat,
) -> Seq<PointType<N>>
    decreases n,
{
    if n == 0 {
        Seq::empty()
    } else {
        let s = with_fate(world, near, settled, size, fate, (n - 1) as nat);
        if fate_of(world[n - 1], near[n - 1], settled, size) == fate {
            s.push(world[n - 1])
        } else {
            s
        }
    }
}

/// Decides what becomes of a point.
pub fn decide<N: Scalar>(p: &PointType<N>, near: &Vec<PointType<N>>, settled: bool, size: N) -> (r:
    Fate)
    ensures
        r == fate_of(*p, near@, settled, size),
{
    if near.len() == 0 || !settled || !is_number(p) {
        return Fate::Add;
    }
    let half: N = N::ratio(1, 2).times(size);
    let mid: PointType<N> = PointType::new(
        p.x.over(size).floor().times(size).plus(half),
        p.y.over(size).floor().times(size).plus(half),
        p.z.over(size).floor().times(size).plus(half),
    );
    assert(mid == middle_point(*p, size));
    if half.less(near[0].x.minus(mid.x).magnitude()) && half.less(
        near[0].y.minus(mid.y).magnitude(),
    ) && half.less(near[0].z.minus(mid.z).magnitude()) {
        return Fate::AddAlways;
    }
    if near.len() < NUM_MATCH_POINTS {
        return Fate::Add;
    }
    let d: N = calc_dist(p, &mid);
    let mut k: usize = 0;
    while k < NUM_MATCH_POINTS
        invariant
            k <= NUM_MATCH_POINTS <= near@.len(),
            settled,
            num_point(*p),
            mid == middle_point(*p, size),
            !(beyond(near@[0].x, mid.x, size) && beyond(near@[0].y, mid.y, size) && beyond(
                near@[0].z,
                mid.z,
                size,
            )),
            d == dist(*p, mid),
            forall|j: int| 0 <= j < k ==> !lt(dist(#[trigger] near@[j], mid), dist(*p, mid)),
        decreases NUM_MATCH_POINTS - k,
    {
        if calc_dist(&near[k], &mid).less(d) {
            assert(lt(dist(near@[k as int], mid), dist(*p, mid)));
            return Fate::Drop;
        }
        k = k + 1;
    }
    Fate::Add
}

/// Places the points of a scan in the world and sorts them by their fates: the
/// points in the world, those to add, and those to add in any case.
pub fn sort_by_fate<N: Widen<W>, W: Scalar>(
    body: &Vec<PointType<N>>,
    near: &Vec<Vec<PointType<N>>>,
    s: &StateIkfom<W>,
    settled: bool,
    size: N,
) -> (r: (Vec<PointType<N>>, Vec<PointType<N>>, Vec<PointType<N>>))
    requires
        near@.len() == body@.len(),
    ensures
        r.0@ == Seq::new(body@.len(), |i: int| world_of(body@[i], *s)),
        r.1@ == with_fate(
            r.0@,
            Seq::new(near@.len(), |i: int| near@[i]@),
            settled,
            size,
            Fate::Add,
            body@.len(),
        ),
        r.2@ == with_fate(
            r.0@,
            Seq::new(near@.len(), |i: int| near@[i]@),
            settled,
            size,
            Fate::AddAlways,
            body@.len(),
        ),
{
    let n: usize = body.len();
    let ghost all = Seq::new(body@.len(), |i: int| world_of(body@[i], *s));
    let ghost by = Seq::new(near@.len(), |i: int| near@[i]@);
    let mut world: Vec<PointType<N>> = Vec::new();
    let mut add: Vec<PointType<N>> = Vec::new();
    let mut always: Vec<PointType<N>> = Vec::new();
    let mut i: usize = 0;
    assert(add@ =~= with_fate(all, by, settled, size, Fate::Add, 0));
    assert(always@ =~= with_fate(all, by, settled, size, Fate::AddAlways, 0));
    while i < n
        invariant
            i <= n == body@.len(),
            near@.len() == n,
            all == Seq::new(body@.len(), |i: int| world_of(body@[i], *s)),
            by == Seq::new(near@.len(), |i: int| near@[i]@),
            world@ == all.take(i as int),
            add@ == with_fate(all, by, settled, size, Fate::Add, i as nat),
            always@ == with_fate(all, by, settled, size, Fate::AddAlways, i as nat),
        decreases n - i,
    {
        let p: PointType<N> = point_body_to_world(&body[i], s);
        world.push(p);
        match decide(&p, &near[i], settled, size) {
            Fate::Add => {
                add.push(p);
            },
            Fate::AddAlways => {
                always.push(p);
            },
            Fate::Drop => {},
        }
        i = i + 1;
        assert(world@ =~= all.take(i as int));
    }
    assert(world@ =~= all);
    (world, add, always)
}

/// A point that is added in any case has numbers for coordinates.
pub proof fn law_always_numbers<N: Scalar>(
    world: Seq<PointType<N>>,
    near: Seq<Seq<PointType<N>>>,
    settled: bool,
    size: N,
    n: nat,
)
    ensures
        seq_num(with_fate(world, near, settled, size, Fate::AddAlways, n)),
    decreases n,
{
    if n > 0 {
        law_always_numbers(world, near, settled, size, (n - 1) as nat);
    }
}

/// Before the filter has settled no point is dropped.
pub proof fn law_nothing_dropped_at_start<N: Scalar>(
    world: Seq<PointType<N>>,
    near: Seq<Seq<PointType<N>>>,
    size: N,
    n: nat,
)
    requires
        n <= world.len(),
    ensures
        with_fate(world, near, false, size, Fate::Add, n) == world.take(n as int),
    decreases n,
{
    if n > 0 {
        law_nothing_dropped_at_start(world, near, size, (n - 1) as nat);
    }
    assert(with_fate(world, near, false, size, Fate::Add, n) =~= world.take(n as int));
}

} // verus!
