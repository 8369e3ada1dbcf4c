//! Laws of the occupancy grid in fixed point.
use super::{
    log_odds_of, marked, probability, ray_cast, ray_cell, ray_cleared, ray_reach, ray_steps, Cells,
    GridMapParams, Point2, Point3,
};
use crate::fixed::{clip, squared, Fixed, ONE};
use crate::scalar::{Scalar};
use vstd::prelude::*;

verus! {

/// A cell holds the points from its lower edge up to its upper edge.
pub(crate) proof fn lemma_column_holds(d: int, r: int, q: int, c: int)
    requires
        r > 0,
        q == (d * 65536) / r,
        c == q / 65536,
    ensures
        c * r <= d < (c + 1) * r,
{
    assert(q * r <= d * 65536 < q * r + r) by (nonlinear_arith)
        requires
            r > 0,
            q == (d * 65536) / r,
    ;
    let n = c * 65536;
    assert(n <= q <= n + 65535);
    assert(n * r <= q * r && q * r + r <= (n + 65536) * r) by (nonlinear_arith)
        requires
            r > 0,
            n <= q <= n + 65535,
    ;
    assert(n * r == (c * r) * 65536 && (n + 65536) * r == ((c + 1) * r) * 65536) by (nonlinear_arith)
        requires
            n == c * 65536,
    ;
}

/// Near enough to the corner of a grid, in units.
pub open spec fn is_near(x: Fixed, lo: Fixed) -> bool {
    -0x1_0000_0000_0000 <= x.raw - lo.raw <= 0x1_0000_0000_0000
}

/// In fixed point, the cell of a point is the one whose edges the point lies between.
pub proof fn law_cell_holds_point(p: GridMapParams<Fixed>, x: Fixed, y: Fixed)
    requires
        p.resolution.raw > 16,
        is_near(x, p.min_x),
        is_near(y, p.min_y),
    ensures
        ({
            let c = p.cell_of(x, y);
            let r = p.resolution.raw;
            &&& p.min_x.raw + c.0 * r <= x.raw < p.min_x.raw + (c.0 + 1) * r
            &&& p.min_y.raw + c.1 * r <= y.raw < p.min_y.raw + (c.1 + 1) * r
        }),
{
    lemma_index(x, p.min_x, p.resolution);
    lemma_index(y, p.min_y, p.resolution);
}

proof fn lemma_index(x: Fixed, lo: Fixed, res: Fixed)
    requires
        res.raw > 16,
        is_near(x, lo),
    ensures
        ({
            let c = x.minus_spec(lo).over_spec(res).floor_spec().to_index_spec();
            let d = x.raw - lo.raw;
            c * res.raw <= d < (c + 1) * res.raw
        }),
{
    let d = x.raw - lo.raw;
    let r = res.raw as int;
    let q = (d * ONE) / r;
    assert(-0x1000_0000_0000_0000 <= q <= 0x1000_0000_0000_0000) by (nonlinear_arith)
        requires
            q == (d * ONE) / r,
            r > 16,
            ONE == 65536,
            -0x1_0000_0000_0000 <= d <= 0x1_0000_0000_0000,
    ;
    let c = q / 65536;
    lemma_column_holds(d, r, q, c);
    assert(x.minus_spec(lo).over_spec(res).floor_spec().raw == c * 65536);
}

/// In fixed point, the middle of a cell lies in the cell.
pub proof fn law_center_in_cell(p: GridMapParams<Fixed>, col: i64, row: i64)
    requires
        16 < p.resolution.raw <= 0x10_0000,
        -0x100_0000 <= col <= 0x100_0000,
        -0x100_0000 <= row <= 0x100_0000,
        -0x1000_0000_0000_0000 <= p.min_x.raw <= 0x1000_0000_0000_0000,
        -0x1000_0000_0000_0000 <= p.min_y.raw <= 0x1000_0000_0000_0000,
    ensures
        ({
            let m = p.center_of(col, row);
            p.cell_of(m.0, m.1) == (col, row)
        }),
{
    lemma_middle(p.min_x, p.resolution, col);
    lemma_middle(p.min_y, p.resolution, row);
}

/// The middle of a cell along an axis, in units.
pub(crate) proof fn lemma_center(lo: Fixed, res: Fixed, k: i64)
    requires
        16 < res.raw <= 0x10_0000,
        -0x100_0000 <= k <= 0x100_0000,
        -0x1000_0000_0000_0000 <= lo.raw <= 0x1000_0000_0000_0000,
    ensures
        lo.plus_spec(
            Fixed::ratio_spec(k as int, 1).plus_spec(Fixed::ratio_spec(1, 2)).times_spec(res),
        ).raw == lo.raw + k * res.raw + res.raw as int / 2,
        -0x1000_0000_0000 <= k * res.raw <= 0x1000_0000_0000,
{
    let r = res.raw as int;
    let n = k as int;
    let a = Fixed::ratio_spec(n, 1).plus_spec(Fixed::ratio_spec(1, 2));
    assert(a.raw == n * 65536 + 32768);
    assert(a.raw * r == (n * r) * 65536 + 32768 * r) by (nonlinear_arith)
        requires
            a.raw == n * 65536 + 32768,
    ;
    assert(-0x1000_0000_0000 <= n * r <= 0x1000_0000_0000) by (nonlinear_arith)
        requires
            -0x100_0000 <= n <= 0x100_0000,
            0 < r <= 0x10_0000,
    ;
    assert((a.raw * r) / 65536 == n * r + r / 2);
}

proof fn lemma_middle(lo: Fixed, res: Fixed, k: i64)
    requires
        16 < res.raw <= 0x10_0000,
        -0x100_0000 <= k <= 0x100_0000,
        -0x1000_0000_0000_0000 <= lo.raw <= 0x1000_0000_0000_0000,
    ensures
        ({
            let half = Fixed::ratio_spec(1, 2);
            let m = lo.plus_spec(Fixed::ratio_spec(k as int, 1).plus_spec(half).times_spec(res));
            m.minus_spec(lo).over_spec(res).floor_spec().to_index_spec() == k
        }),
{
    let half = Fixed::ratio_spec(1, 2);
    let r = res.raw as int;
    let n = k as int;
    lemma_center(lo, res, k);
    let m = lo.plus_spec(Fixed::ratio_spec(n, 1).plus_spec(half).times_spec(res));
    let w = m.raw - lo.raw;
    lemma_index(m, lo, res);
    let c = m.minus_spec(lo).over_spec(res).floor_spec().to_index_spec() as int;
    assert(c == n) by (nonlinear_arith)
        requires
            c * r <= w < (c + 1) * r,
            n * r <= w < n * r + r,
            r > 0,
    ;
}

/// In fixed point, the last step of a ray that stays on the grid is in the cell of the hit.
pub proof fn law_ray_ends_at_hit(
    p: GridMapParams<Fixed>,
    sensor: Point2<Fixed>,
    hit: Point2<Fixed>,
    n: i64,
)
    requires
        0 < n <= 0x100_0000,
        is_near(hit[0], sensor[0]),
        is_near(hit[1], sensor[1]),
    ensures
        ray_cell(p, sensor, hit, n, n - 1) == p.cell_of(hit[0], hit[1]),
{
    let top = Fixed::ratio_spec(n - 1, 1).plus_spec(Fixed::ratio_spec(1, 1));
    let bottom = Fixed::ratio_spec(n as int, 1);
    let m = n * 65536;
    assert(top.raw == m && bottom.raw == m);
    assert((m * ONE) / m == ONE) by (nonlinear_arith)
        requires
            m > 0,
            ONE == 65536,
    ;
    let t = top.over_spec(bottom);
    assert(t.raw == ONE);
    let (a, b) = (hit[0].raw - sensor[0].raw, hit[1].raw - sensor[1].raw);
    assert((a * ONE) / (ONE as int) == a && (b * ONE) / (ONE as int) == b);
    assert(hit[0].minus_spec(sensor[0]).times_spec(t).raw == a);
    assert(hit[1].minus_spec(sensor[1]).times_spec(t).raw == b);
    assert(sensor[0].plus_spec(hit[0].minus_spec(sensor[0]).times_spec(t)) == hit[0]);
    assert(sensor[1].plus_spec(hit[1].minus_spec(sensor[1]).times_spec(t)) == hit[1]);
}

/// The ray is in the cell at one of its first `k` steps.
pub open spec fn crosses(
    p: GridMapParams<Fixed>,
    sensor: Point2<Fixed>,
    hit: Point2<Fixed>,
    n: i64,
    k: int,
    c: (i64, i64),
) -> bool {
    exists|i: int| 0 <= i < k && #[trigger] ray_cell(p, sensor, hit, n, i) == c
}

/// The log-odds are within the bound.
pub open spec fn is_bounded(p: GridMapParams<Fixed>, l: Fixed) -> bool {
    -p.saturate.raw <= l.raw <= p.saturate.raw
}

proof fn lemma_cleared(
    p: GridMapParams<Fixed>,
    m: Cells<Fixed>,
    sensor: Point2<Fixed>,
    hit: Point2<Fixed>,
    n: i64,
    end: (i64, i64),
    k: int,
    c: (i64, i64),
)
    requires
        0 < p.free_log_odds.raw <= 0x1000_0000_0000,
        0 < p.saturate.raw <= 0x1000_0000_0000,
        is_bounded(p, log_odds_of(m, c.0, c.1)),
    ensures
        ({
            let after = ray_cleared(p, m, sensor, hit, n, end, k);
            let (was, is) = (log_odds_of(m, c.0, c.1), log_odds_of(after, c.0, c.1));
            &&& is_bounded(p, is)
            &&& is.raw <= was.raw
            &&& c == end || !crosses(p, sensor, hit, n, k, c) ==> is == was && (
            after.contains_key((c.0, c.1, 0)) <==> m.contains_key((c.0, c.1, 0)))
            &&& c != end && crosses(p, sensor, hit, n, k, c) && p.covers(c.0, c.1) ==> is.raw
                < was.raw || is.raw == -p.saturate.raw
        }),
    decreases k,
{
    if k > 0 {
        lemma_cleared(p, m, sensor, hit, n, end, k - 1, c);
        let d = ray_cell(p, sensor, hit, n, k - 1);
        let before = ray_cleared(p, m, sensor, hit, n, end, k - 1);
        if crosses(p, sensor, hit, n, k, c) && d != c {
            let i = choose|i: int| 0 <= i < k && #[trigger] ray_cell(p, sensor, hit, n, i) == c;
            assert(0 <= i < k - 1);
            assert(crosses(p, sensor, hit, n, k - 1, c));
        }
        if d == c {
            assert(crosses(p, sensor, hit, n, k, c));
        }
        if crosses(p, sensor, hit, n, k - 1, c) {
            let i = choose|i: int|
                0 <= i < k - 1 && #[trigger] ray_cell(p, sensor, hit, n, i) == c;
            assert(0 <= i < k && ray_cell(p, sensor, hit, n, i) == c);
        }
    }
}

/// In fixed point, a ray frees what it crosses and nothing else: a cell that it crosses on
/// its way is taken for occupied less than before, unless it is so as little as can be; the
/// cell at its end is taken for occupied more than before, unless it is so as much as can
/// be; and of every other cell the same is known as before.
pub proof fn law_ray_frees_what_it_crosses(
    p: GridMapParams<Fixed>,
    m: Cells<Fixed>,
    sensor: Point2<Fixed>,
    hit: Point2<Fixed>,
    c: (i64, i64),
)
    requires
        0 < p.free_log_odds.raw <= 0x1000_0000_0000,
        0 < p.occ_log_odds.raw <= 0x1000_0000_0000,
        0 < p.saturate.raw <= 0x1000_0000_0000,
        is_bounded(p, log_odds_of(m, c.0, c.1)),
        p.covers(c.0, c.1),
        super::plane_dist(sensor, hit).raw > ONE,
        ray_reach(p, sensor, hit, ray_steps(p, sensor, hit), 0) > 0,
    ensures
        ({
            let n = ray_steps(p, sensor, hit);
            let k = ray_reach(p, sensor, hit, n, 0);
            let end = ray_cell(p, sensor, hit, n, k - 1);
            let after = ray_cast(p, m, sensor, hit);
            let (was, is) = (log_odds_of(m, c.0, c.1), log_odds_of(after, c.0, c.1));
            &&& c == end ==> is.raw > was.raw || is.raw == p.saturate.raw
            &&& c != end && crosses(p, sensor, hit, n, k, c) ==> is.raw < was.raw || is.raw
                == -p.saturate.raw
            &&& c != end && !crosses(p, sensor, hit, n, k, c) ==> is == was && (after.contains_key(
                (c.0, c.1, 0),
            ) <==> m.contains_key((c.0, c.1, 0)))
        }),
{
    let n = ray_steps(p, sensor, hit);
    let k = ray_reach(p, sensor, hit, n, 0);
    let end = ray_cell(p, sensor, hit, n, k - 1);
    lemma_cleared(p, m, sensor, hit, n, end, k, c);
    assert(Fixed::ratio_spec(1, 1000000).raw <= ONE);
}

/// Powers of a number between zero and one stay there, those of a number above one stay
/// above.
proof fn lemma_powers(v: Fixed, n: nat)
    requires
        v.raw >= 0,
    ensures
        v.raw <= ONE ==> 0 <= squared(v, n).raw <= ONE,
        v.raw >= ONE ==> squared(v, n).raw >= ONE,
    decreases n,
{
    if n > 0 {
        let r = v.raw as int;
        assert(r <= ONE ==> 0 <= r * r <= 65536 * 65536) by (nonlinear_arith)
            requires
                r >= 0,
                ONE == 65536,
        ;
        assert(r >= ONE ==> r * r >= 65536 * 65536) by (nonlinear_arith)
            requires
                ONE == 65536,
        ;
        assert(r * r >= 0) by (nonlinear_arith);
        lemma_powers(v.times_spec(v), (n - 1) as nat);
    }
}

/// In fixed point, positive log-odds are a probability of one half or more, and negative
/// ones of one half or less.
pub proof fn law_probability_side(l: Fixed)
    requires
        -256 * ONE <= l.raw <= 256 * ONE,
    ensures
        l.raw >= 0 ==> probability(l).raw >= ONE / 2,
        l.raw <= 0 ==> probability(l).raw <= ONE / 2,
{
    let one = Fixed { raw: ONE };
    let d = clip(256 * ONE) as int;
    let x = l.negate_spec();
    let q = (x.raw * ONE) / d;
    assert(q == x.raw as int / 256) by {
        assert((x.raw * 65536) / 16777216 == x.raw as int / 256);
    }
    let base = one.plus_spec(x.over_spec(Fixed { raw: clip(256 * ONE) }));
    assert(base.raw >= 0);
    lemma_powers(base, 8);
    let e = x.exp_spec();
    let s = Fixed::ratio_spec(1, 1).plus_spec(e).raw as int;
    assert(l.raw >= 0 ==> 65536 <= s <= 131072);
    assert(l.raw <= 0 ==> s >= 131072);
    assert(s <= 131072 && s > 0 ==> (65536int * 65536int) / s >= 32768) by (nonlinear_arith);
    assert(s >= 131072 ==> (65536int * 65536int) / s <= 32768) by (nonlinear_arith);
}

/// In fixed point, the steps of a ray are no longer than the step of the grid, up to the
/// rounding, and no more than that asks for.
pub proof fn law_ray_steps_are_short(
    p: GridMapParams<Fixed>,
    sensor: Point2<Fixed>,
    hit: Point2<Fixed>,
)
    requires
        16 < p.ray_step.raw <= ONE,
        0 <= super::plane_dist(sensor, hit).raw <= 0x1_0000_0000_0000,
    ensures
        ({
            let n = ray_steps(p, sensor, hit) as int;
            let d = super::plane_dist(sensor, hit).raw as int;
            &&& n >= 1
            &&& n * p.ray_step.raw >= d
            &&& n == 1 || (n - 1) * p.ray_step.raw < d
        }),
{
    let d = super::plane_dist(sensor, hit);
    crate::astar::laws::lemma_cells_span(d, p.ray_step);
    let m = d.over_spec(p.ray_step).ceil_spec();
    let k = m.to_index_spec() as int;
    let s = p.ray_step.raw as int;
    let n = ray_steps(p, sensor, hit) as int;
    assert(Fixed::ratio_spec(1, 1).raw == 65536);
    assert(n == if k < 1 {
        1
    } else {
        k
    });
    assert(n * s >= k * s) by (nonlinear_arith)
        requires
            n >= k,
            s > 0,
    ;
}

/// In fixed point, marking points as occupied makes the cells that hold one more likely to
/// be occupied, up to the bound, and leaves every other cell as it was.
pub proof fn law_marks_raise(
    p: GridMapParams<Fixed>,
    m: Cells<Fixed>,
    points: Seq<Point3<Fixed>>,
    c: (i64, i64),
)
    requires
        0 < p.occ_log_odds.raw <= 0x1000_0000_0000,
        0 < p.saturate.raw <= 0x1000_0000_0000,
        is_bounded(p, log_odds_of(m, c.0, c.1)),
        p.covers(c.0, c.1),
    ensures
        ({
            let after = marked(p, m, points);
            let (was, is) = (log_odds_of(m, c.0, c.1), log_odds_of(after, c.0, c.1));
            &&& was.raw <= is.raw <= p.saturate.raw
            &&& if exists|i: int|
                0 <= i < points.len() && p.cell_of((#[trigger] points[i])[0], points[i][1]) == c {
                after.contains_key((c.0, c.1, 0)) && (is.raw > was.raw || is == p.saturate)
            } else {
                is == was && (after.contains_key((c.0, c.1, 0)) <==> m.contains_key(
                    (c.0, c.1, 0),
                ))
            }
        }),
    decreases points.len(),
{
    if points.len() > 0 {
        let before = points.drop_last();
        law_marks_raise(p, m, before, c);
        assert(forall|i: int| 0 <= i < before.len() ==> #[trigger] before[i] == points[i]);
        let last = points[points.len() - 1];
        assert(last == points.last());
        if p.cell_of(last[0], last[1]) != c {
            if exists|i: int|
                0 <= i < points.len() && p.cell_of((#[trigger] points[i])[0], points[i][1]) == c {
                let i = choose|i: int|
                    0 <= i < points.len() && p.cell_of((#[trigger] points[i])[0], points[i][1])
                        == c;
                assert(p.cell_of(before[i][0], before[i][1]) == c);
            }
        }
    }
}

} // verus!
