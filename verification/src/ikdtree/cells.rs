//! Laws of distances, cells and extents.
use super::{box_mid, cell_box, cell_floor, closest, midway};
use crate::exact::{exact_angles, has_angles};
use crate::fixed::{Fixed, ONE};
use crate::grid::laws::lemma_column_holds;
use crate::ikdtree::model::{
    coord, dist, half_diagonal_sq, highest, in_box, lowest, needs_rebuild, range_center, range_hi,
    range_lo, spread, widest, KdTreeNode, MINIMAL_UNBALANCED_TREE_SIZE,
};
use crate::scalar::{exact_arithmetic, is_reading, lt, zero, Scalar};
use crate::sphere::{lemma_signs, lemma_square_amount};
use crate::types::{point_at, PointType};
use vstd::prelude::*;

verus! {

/// In exact arithmetic the distance of two points is the same both ways, and nothing only
/// between points at the same place.
pub proof fn law_distance_separates<S: Scalar>(a: PointType<S>, b: PointType<S>)
    requires
        exact_arithmetic::<S>(),
    ensures
        dist(a, b) == dist(b, a),
        dist(a, b) == zero::<S>() ==> a.x == b.x && a.y == b.y && a.z == b.z,
        a.x == b.x && a.y == b.y && a.z == b.z ==> dist(a, b) == zero::<S>(),
{
    reveal(exact_arithmetic);
    let value = choose|value: spec_fn(S) -> real| #[trigger] is_reading(value);
    let (p, q, r) = (
        value(a.x) - value(b.x),
        value(a.y) - value(b.y),
        value(a.z) - value(b.z),
    );
    lemma_signs(p, p);
    lemma_signs(q, q);
    lemma_signs(r, r);
    lemma_square_amount(p);
    lemma_square_amount(q);
    lemma_square_amount(r);
    lemma_no_square(p);
    lemma_no_square(q);
    lemma_no_square(r);
    reveal(is_reading);
    assert(value(dist(a, b)) == p * p + q * q + r * r);
    assert(value(dist(b, a)) == (-p) * (-p) + (-q) * (-q) + (-r) * (-r));
    assert(value(zero::<S>()) == 0int as real);
}

proof fn lemma_no_square(x: real)
    ensures
        x * x == 0int as real <==> x == 0int as real,
{
    assert(x * x == 0int as real <==> x == 0int as real) by (nonlinear_arith);
}

/// In fixed point, the lower corner of a cell is a multiple of its size, at or below the
/// coordinate and less than a size below it.
pub proof fn law_cell_corner(v: Fixed, size: Fixed)
    requires
        16 < size.raw <= 0x1_0000_0000,
        -0x1_0000_0000_0000 <= v.raw <= 0x1_0000_0000_0000,
    ensures
        ({
            let lo = cell_floor(v, size).raw as int;
            &&& lo % size.raw as int == 0
            &&& lo <= v.raw < lo + size.raw
            &&& -0x2_0000_0000_0000 <= lo <= 0x2_0000_0000_0000
        }),
{
    let (d, s) = (v.raw as int, size.raw as int);
    let q = (d * ONE) / s;
    assert(-0x1000_0000_0000_0000 <= q <= 0x1000_0000_0000_0000) by (nonlinear_arith)
        requires
            q == (d * ONE) / s,
            s > 16,
            ONE == 65536,
            -0x1_0000_0000_0000 <= d <= 0x1_0000_0000_0000,
    ;
    let c = q / 65536;
    lemma_column_holds(d, s, q, c);
    let f = v.over_spec(size).floor_spec();
    assert(f.raw == c * 65536);
    assert((c + 1) * s == c * s + s) by (nonlinear_arith);
    assert((c * 65536) * s == (c * s) * 65536) by (nonlinear_arith);
    assert(f.times_spec(size).raw == c * s);
    assert((c * s) % s == 0) by (nonlinear_arith)
        requires
            s > 0,
    ;
}

/// In fixed point, the cell of a point holds the point, is as long as its size along every
/// axis, and has its middle halfway.
pub proof fn law_cell_holds_its_point(p: PointType<Fixed>, size: Fixed, i: int)
    requires
        16 < size.raw <= 0x1_0000_0000,
        forall|k: int|
            0 <= k < 3 ==> -0x1_0000_0000_0000 <= (#[trigger] coord(p, k)).raw <= 0x1_0000_0000_0000,
        0 <= i < 3,
    ensures
        ({
            let b = cell_box(p, size);
            let (lo, hi) = (b.vertex_min[i].raw as int, b.vertex_max[i].raw as int);
            let mid = coord(box_mid(b), i).raw as int;
            &&& in_box(b, p)
            &&& hi - lo == size.raw
            &&& lo + hi - 1 <= 2 * mid <= lo + hi
        }),
{
    assert(-0x1_0000_0000_0000 <= coord(p, 0).raw <= 0x1_0000_0000_0000);
    assert(-0x1_0000_0000_0000 <= coord(p, 1).raw <= 0x1_0000_0000_0000);
    assert(-0x1_0000_0000_0000 <= coord(p, 2).raw <= 0x1_0000_0000_0000);
    law_cell_corner(p.x, size);
    law_cell_corner(p.y, size);
    law_cell_corner(p.z, size);
    let b = cell_box(p, size);
    let s = size.raw as int;
    assert(Fixed::ratio_spec(2, 1).raw == 131072);
    assert((s * 65536) / 131072 == s / 2);
    assert(i == 0 || i == 1 || i == 2);
    assert(midway(b.vertex_min[i], b.vertex_max[i]).raw == b.vertex_min[i].raw + s / 2);
}

/// In fixed point, the point that stands for a cell is the new one or one of those in it,
/// and none of them is closer to the middle.
pub proof fn law_closest_is_closest(
    s: Seq<PointType<Fixed>>,
    mid: PointType<Fixed>,
    p: PointType<Fixed>,
)
    ensures
        ({
            let best = closest(s, mid, p);
            &&& best == p || s.contains(best)
            &&& dist(best, mid).raw <= dist(p, mid).raw
            &&& forall|i: int|
                0 <= i < s.len() ==> dist(best, mid).raw <= dist(#[trigger] s[i], mid).raw
            &&& best != p ==> dist(best, mid).raw < dist(p, mid).raw
        }),
    decreases s.len(),
{
    if s.len() > 0 {
        let before = s.drop_last();
        law_closest_is_closest(before, mid, p);
        let best = closest(before, mid, p);
        assert(s[s.len() - 1] == s.last());
        if best != p {
            let k = choose|k: int| 0 <= k < before.len() && before[k] == best;
            assert(s[k] == best);
        }
        assert forall|i: int| 0 <= i < s.len() implies dist(closest(s, mid, p), mid).raw <= dist(
            #[trigger] s[i],
            mid,
        ).raw by {
            if i < s.len() - 1 {
                assert(before[i] == s[i]);
            }
        }
    }
}

/// In fixed point, the ends of the points along an axis are the coordinates of points, and
/// no point is beyond them.
pub proof fn law_extent_of_points(s: Seq<PointType<Fixed>>, axis: int)
    requires
        s.len() > 0,
    ensures
        forall|i: int|
            0 <= i < s.len() ==> lowest(s, axis).raw <= coord(#[trigger] s[i], axis).raw
                <= highest(s, axis).raw,
        exists|i: int| 0 <= i < s.len() && coord(#[trigger] s[i], axis) == lowest(s, axis),
        exists|i: int| 0 <= i < s.len() && coord(#[trigger] s[i], axis) == highest(s, axis),
    decreases s.len(),
{
    if s.len() > 1 {
        let before = s.drop_last();
        law_extent_of_points(before, axis);
        let a = choose|i: int|
            0 <= i < before.len() && coord(#[trigger] before[i], axis) == lowest(before, axis);
        let b = choose|i: int|
            0 <= i < before.len() && coord(#[trigger] before[i], axis) == highest(before, axis);
        assert(s[a] == before[a] && s[b] == before[b]);
        assert(s[s.len() - 1] == s.last());
        assert forall|i: int| 0 <= i < s.len() implies lowest(s, axis).raw <= coord(
            #[trigger] s[i],
            axis,
        ).raw <= highest(s, axis).raw by {
            if i < s.len() - 1 {
                assert(before[i] == s[i]);
            }
        }
    } else {
        assert(coord(s[0], axis) == lowest(s, axis));
    }
}

/// In fixed point, along no axis do points extend further than along the widest.
pub proof fn law_widest_axis(s: Seq<PointType<Fixed>>, axis: int)
    requires
        0 <= axis < 3,
    ensures
        0 <= widest(s) < 3,
        spread(s, axis).raw <= spread(s, widest(s)).raw,
        axis < widest(s) ==> spread(s, axis).raw < spread(s, widest(s)).raw,
{
    assert(axis == 0 || axis == 1 || axis == 2);
}

/// In exact arithmetic the ball around the range of a node reaches its corners.
pub proof fn law_ball_reaches_corners<S: Scalar>(n: KdTreeNode<S>)
    requires
        exact_angles::<S>(),
    ensures
        ({
            let low = point_at(range_lo(n, 0), range_lo(n, 1), range_lo(n, 2));
            let high = point_at(range_hi(n, 0), range_hi(n, 1), range_hi(n, 2));
            &&& dist(range_center(n), low) == half_diagonal_sq(n)
            &&& dist(high, range_center(n)) == half_diagonal_sq(n)
        }),
{
    reveal(exact_angles);
    let value = choose|value: spec_fn(S) -> real| #[trigger] is_reading(value) && has_angles(value);
    lemma_halfway(value, range_lo(n, 0), range_hi(n, 0));
    lemma_halfway(value, range_lo(n, 1), range_hi(n, 1));
    lemma_halfway(value, range_lo(n, 2), range_hi(n, 2));
}

proof fn lemma_halfway<S: Scalar>(value: spec_fn(S) -> real, lo: S, hi: S)
    requires
        is_reading(value),
        has_angles(value),
    ensures
        ({
            let half = S::ratio_spec(1, 2);
            let mid = lo.plus_spec(hi).times_spec(half);
            &&& mid.minus_spec(lo) == hi.minus_spec(lo).times_spec(half)
            &&& hi.minus_spec(mid) == hi.minus_spec(lo).times_spec(half)
        }),
{
    let half = S::ratio_spec(1, 2);
    let h = value(half);
    assert(h * (2int as real) == 1int as real) by {
        reveal(has_angles);
    }
    let (a, b) = (value(lo), value(hi));
    crate::frames::lemma_two_times(a, b, h);
    crate::frames::lemma_less_times(b, a, h);
    assert(a == a * h + a * h && b == b * h + b * h) by (nonlinear_arith)
        requires
            h * (2int as real) == 1int as real,
    ;
    reveal(is_reading);
    let mid = lo.plus_spec(hi).times_spec(half);
    let e = hi.minus_spec(lo).times_spec(half);
    assert(value(mid.minus_spec(lo)) == value(e));
    assert(value(hi.minus_spec(mid)) == value(e));
}

/// In fixed point, a subtree that is large enough is rebuilt once the deleted points are
/// more than their share of it.
pub proof fn law_rebuilt_when_deleted(
    n: KdTreeNode<Fixed>,
    delete_limit: Fixed,
    balance_limit: Fixed,
)
    requires
        n.tree_size > MINIMAL_UNBALANCED_TREE_SIZE,
        0 <= n.invalid_point_num <= n.tree_size,
        delete_limit.raw >= 0,
        n.invalid_point_num * ONE >= (delete_limit.raw + 1) * n.tree_size,
    ensures
        needs_rebuild(n, delete_limit, balance_limit),
{
    let (a, b, l) = (n.invalid_point_num as int, n.tree_size as int, delete_limit.raw as int);
    let q = (a * ONE) / b;
    assert(l < q <= 65536) by (nonlinear_arith)
        requires
            q == (a * ONE) / b,
            ONE == 65536,
            a * ONE >= (l + 1) * b,
            0 <= a <= b,
            b > 0,
    ;
    assert(Fixed::ratio_spec(a, b).raw == q);
    assert(lt(delete_limit, Fixed::ratio_spec(a, b)));
}

} // verus!
