//! Laws of voxels and of thinning by them.
use super::{
    leaf_of, mean_point, middle_of, odds_of, slot_of, struck, tallies, voxel_of, VoxelMapParams,
};
use crate::cell_map::Cell;
use crate::exact::{exact_angles, has_angles};
use crate::fixed::{Fixed, ONE};
use crate::grid::laws::lemma_column_holds;
use crate::grid::Point3;
use crate::scalar::{is_reading, whole, zero, Scalar};
use crate::types::PointType;
use vstd::prelude::*;

verus! {

/// In fixed point, a coordinate lies between the edges of its slot.
pub proof fn law_slot_holds(v: Fixed, r: Fixed)
    requires
        r.raw > 16,
        -0x1_0000_0000_0000 <= v.raw <= 0x1_0000_0000_0000,
    ensures
        slot_of(v, r) * r.raw <= v.raw < (slot_of(v, r) + 1) * r.raw,
{
    let (d, s) = (v.raw as int, r.raw as int);
    let q = (d * ONE) / s;
    assert(-0x1000_0000_0000_0000 <= q <= 0x1000_0000_0000_0000) by (nonlinear_arith)
        requires
            q == (d * ONE) / s,
            s > 16,
            ONE == 65536,
            -0x1_0000_0000_0000 <= d <= 0x1_0000_0000_0000,
    ;
    lemma_column_holds(d, s, q, q / 65536);
    assert(v.over_spec(r).floor_spec().raw == (q / 65536) * 65536);
}

/// In fixed point, the middle of a slot is halfway between its edges, and lies in the slot.
pub proof fn law_middle_in_slot(i: i64, r: Fixed)
    requires
        16 < r.raw <= 0x10_0000,
        -0x100_0000 <= i <= 0x100_0000,
    ensures
        i * r.raw <= middle_of(i, r).raw <= i * r.raw + r.raw / 2,
        2 * (middle_of(i, r).raw - i * r.raw) >= r.raw - 1,
        slot_of(middle_of(i, r), r) == i,
{
    let (n, s) = (i as int, r.raw as int);
    let a = whole::<Fixed>(n).plus_spec(Fixed::ratio_spec(1, 2));
    assert(a.raw == n * 65536 + 32768);
    assert(a.raw * s == (n * s) * 65536 + 32768 * s) by (nonlinear_arith)
        requires
            a.raw == n * 65536 + 32768,
    ;
    assert(-0x1000_0000_0000 <= n * s <= 0x1000_0000_0000) by (nonlinear_arith)
        requires
            -0x100_0000 <= n <= 0x100_0000,
            0 < s <= 0x10_0000,
    ;
    let m = middle_of(i, r);
    assert(m.raw == n * s + s / 2);
    law_slot_holds(m, r);
    let c = slot_of(m, r) as int;
    assert(c == n) by (nonlinear_arith)
        requires
            c * s <= n * s + s / 2 < (c + 1) * s,
            s > 16,
    ;
}

/// In fixed point, a hit makes its voxel more likely to be occupied, up to the bound, and
/// makes no voxel less so.
pub proof fn law_hits_raise(
    p: VoxelMapParams<Fixed>,
    m: Map<Cell, Fixed>,
    points: Seq<Point3<Fixed>>,
    c: Cell,
)
    requires
        0 < p.occ_log_odds.raw <= 0x1000_0000_0000,
        0 < p.saturate.raw <= 0x1000_0000_0000,
        -0x1000_0000_0000 <= odds_of(m, c).raw <= p.saturate.raw,
    ensures
        ({
            let (was, is) = (odds_of(m, c).raw, odds_of(struck(p, m, points), c).raw);
            &&& was <= is <= p.saturate.raw
            &&& (exists|i: int|
                0 <= i < points.len() && voxel_of(p.resolution, #[trigger] points[i]) == c) ==> is
                > was || is == p.saturate.raw
        }),
    decreases points.len(),
{
    if points.len() > 0 {
        let before = points.drop_last();
        law_hits_raise(p, m, before, c);
        if exists|i: int|
            0 <= i < points.len() && voxel_of(p.resolution, #[trigger] points[i]) == c {
            let i = choose|i: int|
                0 <= i < points.len() && voxel_of(p.resolution, #[trigger] points[i]) == c;
            if i < points.len() - 1 {
                assert(before[i] == points[i]);
            }
        }
    }
}

/// What is averaged of a point: its place, intensity and curvature.
pub open spec fn measure_of<N>(p: PointType<N>, k: int) -> N {
    if k == 0 {
        p.x
    } else if k == 1 {
        p.y
    } else if k == 2 {
        p.z
    } else if k == 3 {
        p.intensity
    } else {
        p.curvature
    }
}

/// How many of the points fall into a voxel.
pub open spec fn count_in<N: Scalar>(points: Seq<PointType<N>>, leaf: N, c: Cell) -> nat
    decreases points.len(),
{
    if points.len() == 0 {
        0
    } else if leaf_of(points.last(), leaf) == c {
        count_in(points.drop_last(), leaf, c) + 1
    } else {
        count_in(points.drop_last(), leaf, c)
    }
}

/// The sum of a measure over the points that fall into a voxel.
pub open spec fn sum_in<N: Scalar>(points: Seq<PointType<N>>, leaf: N, c: Cell, k: int) -> N
    decreases points.len(),
{
    if points.len() == 0 {
        zero()
    } else if leaf_of(points.last(), leaf) == c {
        sum_in(points.drop_last(), leaf, c, k).plus_spec(measure_of(points.last(), k))
    } else {
        sum_in(points.drop_last(), leaf, c, k)
    }
}

proof fn lemma_tally<N: Scalar>(points: Seq<PointType<N>>, leaf: N, c: Cell, k: int)
    requires
        points.len() <= usize::MAX,
        0 <= k < 5,
    ensures
        count_in(points, leaf, c) <= points.len(),
        tallies(points, leaf).contains_key(c) <==> count_in(points, leaf, c) > 0,
        count_in(points, leaf, c) == 0 ==> sum_in(points, leaf, c, k) == zero::<N>(),
        tallies(points, leaf).contains_key(c) ==> {
            let h = tallies(points, leaf)[c];
            &&& h.count == count_in(points, leaf, c)
            &&& sum_in(points, leaf, c, k) == if k == 0 {
                h.x
            } else if k == 1 {
                h.y
            } else if k == 2 {
                h.z
            } else if k == 3 {
                h.intensity
            } else {
                h.curvature
            }
        },
    decreases points.len(),
{
    if points.len() > 0 {
        lemma_tally(points.drop_last(), leaf, c, k);
    }
}

/// In exact arithmetic thinning averages: the point for a voxel, times the number of points
/// in the voxel, is their sum, in place, intensity and curvature.
pub proof fn law_thinning_averages<N: Scalar>(
    points: Seq<PointType<N>>,
    leaf: N,
    c: Cell,
    k: int,
)
    requires
        exact_angles::<N>(),
        points.len() <= usize::MAX,
        count_in(points, leaf, c) > 0,
        0 <= k < 5,
    ensures
        tallies(points, leaf).contains_key(c),
        measure_of(mean_point(tallies(points, leaf)[c]), k).times_spec(
            whole(count_in(points, leaf, c) as int),
        ) == sum_in(points, leaf, c, k),
{
    lemma_tally(points, leaf, c, k);
    reveal(exact_angles);
    let value = choose|value: spec_fn(N) -> real| #[trigger] is_reading(value) && has_angles(value);
    let n = whole::<N>(count_in(points, leaf, c) as int);
    let sum = sum_in(points, leaf, c, k);
    assert(value(n) == (count_in(points, leaf, c) as int) as real) by {
        reveal(is_reading);
    }
    assert(value(sum.over_spec(n)) * value(n) == value(sum)) by {
        reveal(has_angles);
    }
    assert(measure_of(mean_point(tallies(points, leaf)[c]), k) == sum.over_spec(n)) by {
        assert(k == 0 || k == 1 || k == 2 || k == 3 || k == 4);
    }
    reveal(is_reading);
    assert(value(sum.over_spec(n).times_spec(n)) == value(sum));
}

} // verus!
