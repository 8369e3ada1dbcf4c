//! Laws of planned paths in fixed point.
use super::{inflation_cells, is_path, law_path_is_clear, planned, snap_limit, waypoints, Place, Waypoint};
use crate::fixed::{Fixed, ONE};
use crate::grid::laws::lemma_center;
use crate::grid::{log_odds_of, probability, GridMap};
use crate::scalar::Scalar;
use vstd::prelude::*;

verus! {

/// A number of cells that spans a distance: the least one, up to the rounding.
pub(crate) proof fn lemma_cells_span(d: Fixed, res: Fixed)
    requires
        0 <= d.raw <= 0x1_0000_0000_0000,
        16 < res.raw <= ONE,
    ensures
        ({
            let n = d.over_spec(res).ceil_spec().to_index_spec() as int;
            &&& 0 <= n <= 0x1_0000_0000_0000
            &&& d.over_spec(res).ceil_spec().raw == n * ONE
            &&& n * res.raw >= d.raw
            &&& (n - 1) * res.raw < d.raw || n == 0
        }),
{
    let (a, s) = (d.raw as int, res.raw as int);
    let q = (a * 65536) / s;
    assert(q * s <= a * 65536 < q * s + s && 0 <= q <= 0x1000_0000_0000_0000) by (nonlinear_arith)
        requires
            q == (a * 65536) / s,
            s > 16,
            0 <= a <= 0x1_0000_0000_0000,
    ;
    let n = -((-q) / 65536);
    assert(n * 65536 >= q && (n - 1) * 65536 < q && n >= 0);
    assert(d.over_spec(res).raw == q);
    assert(d.over_spec(res).ceil_spec().raw == n * 65536);
    assert(d.over_spec(res).ceil_spec().to_index_spec() == n);
    assert((n * 65536) * s >= q * s && (q - (n - 1) * 65536) * s >= s) by (nonlinear_arith)
        requires
            n * 65536 >= q,
            q - (n - 1) * 65536 >= 1,
            s > 0,
    ;
    assert((n * 65536) * s == (n * s) * 65536 && (q - (n - 1) * 65536) * s == q * s - ((n - 1) * s)
        * 65536) by (nonlinear_arith);
}

/// The cells kept clear span the inflation distance, and with one less they would not.
pub proof fn law_inflation_spans(g: GridMap<Fixed>, inflation: Fixed)
    requires
        16 < g.params.resolution.raw <= ONE,
        0 <= inflation.raw <= 0x1_0000_0000_0000,
    ensures
        ({
            let n = inflation_cells(g, inflation) as int;
            &&& n >= 0
            &&& n * g.params.resolution.raw >= inflation.raw
            &&& (n - 1) * g.params.resolution.raw < inflation.raw || n == 0
        }),
{
    lemma_cells_span(inflation, g.params.resolution);
}

/// An end of a path may be moved by a meter at least, and by four cells at least.
pub proof fn law_ends_move_a_meter(g: GridMap<Fixed>)
    requires
        16 < g.params.resolution.raw <= ONE,
    ensures
        snap_limit(g) >= 4,
        snap_limit(g) * g.params.resolution.raw >= ONE,
        snap_limit(g) == 4 || (snap_limit(g) - 1) * g.params.resolution.raw < ONE,
{
    let one = Fixed::ratio_spec(1, 1);
    assert(one.raw == 65536);
    lemma_cells_span(one, g.params.resolution);
    let n = one.over_spec(g.params.resolution).ceil_spec().to_index_spec() as int;
    let (k, s) = (snap_limit(g) as int, g.params.resolution.raw as int);
    assert(k * s >= n * s) by (nonlinear_arith)
        requires
            k >= n,
            s > 0,
    ;
}

/// The grid is of a size at which no coordinate is cut off.
pub open spec fn is_ordinary(g: GridMap<Fixed>) -> bool {
    &&& 16 < g.params.resolution.raw <= ONE
    &&& g.params.ncols() <= 0x100_0000
    &&& g.params.nrows() <= 0x100_0000
    &&& -0x1000_0000_0000_0000 <= g.params.min_x.raw <= 0x1000_0000_0000_0000
    &&& -0x1000_0000_0000_0000 <= g.params.min_y.raw <= 0x1000_0000_0000_0000
}

/// The distance of two numbers.
pub open spec fn span(a: int, b: int) -> int {
    if a < b {
        b - a
    } else {
        a - b
    }
}

/// The middles of two cells are as many cells apart as the cells.
proof fn lemma_middles_apart(g: GridMap<Fixed>, c: Place, d: Place)
    requires
        is_ordinary(g),
        g.params.covers(c.0, c.1),
        g.params.covers(d.0, d.1),
    ensures
        ({
            let (p, q) = (g.params.center_of(c.0, c.1), g.params.center_of(d.0, d.1));
            let r = g.params.resolution.raw;
            &&& span(p.0.raw as int, q.0.raw as int) == span(c.0 as int, d.0 as int) * r
            &&& span(p.1.raw as int, q.1.raw as int) == span(c.1 as int, d.1 as int) * r
        }),
{
    let r = g.params.resolution;
    lemma_center(g.params.min_x, r, c.0);
    lemma_center(g.params.min_x, r, d.0);
    lemma_center(g.params.min_y, r, c.1);
    lemma_center(g.params.min_y, r, d.1);
    lemma_times_span(c.0 as int, d.0 as int, r.raw as int);
    lemma_times_span(c.1 as int, d.1 as int, r.raw as int);
}

proof fn lemma_times_span(a: int, b: int, r: int)
    requires
        r > 0,
    ensures
        span(a * r, b * r) == span(a, b) * r,
{
    assert((a - b) * r == a * r - b * r && (b - a) * r == b * r - a * r) by (nonlinear_arith);
    assert(a < b ==> a * r < b * r) by (nonlinear_arith)
        requires
            r > 0,
    ;
    assert(a >= b ==> a * r >= b * r) by (nonlinear_arith)
        requires
            r > 0,
    ;
}

/// The robot keeps clear of what is occupied: along one of the axes every waypoint is
/// further than the inflation distance from the middle of every cell of the grid that is
/// taken for occupied.
pub proof fn law_path_keeps_distance(
    g: GridMap<Fixed>,
    inflation: Fixed,
    from: Place,
    to: Place,
    path: Seq<Waypoint<Fixed>>,
    i: int,
    d: Place,
)
    requires
        is_ordinary(g),
        0 <= inflation.raw <= 0x1_0000_0000_0000,
        planned(g, inflation_cells(g, inflation), from, to, path),
        0 <= i < path.len(),
        g.params.covers(d.0, d.1),
        probability(log_odds_of(g.cells@, d.0, d.1)).raw > Fixed::ratio_spec(3, 5).raw,
    ensures
        ({
            let m = g.params.center_of(d.0, d.1);
            ||| span(path[i].x.raw as int, m.0.raw as int) > inflation.raw
            ||| span(path[i].y.raw as int, m.1.raw as int) > inflation.raw
        }),
{
    let infl = inflation_cells(g, inflation);
    law_inflation_spans(g, inflation);
    law_path_is_clear(g, infl, from, to, path);
    let cells = choose|cells: Seq<Place>|
        {
            &&& #[trigger] is_path(g, infl, cells)
            &&& path == waypoints(g, cells)
        };
    let c = cells[i];
    assert(super::passable(g, infl, c));
    assert(super::steps_between(c, d) > infl) by {
        let l = log_odds_of(g.cells@, d.0, d.1);
    }
    lemma_middles_apart(g, c, d);
    let r = g.params.resolution.raw as int;
    let (a, b) = (span(c.0 as int, d.0 as int), span(c.1 as int, d.1 as int));
    lemma_further(a, infl as int, r, inflation.raw as int);
    lemma_further(b, infl as int, r, inflation.raw as int);
}

proof fn lemma_further(a: int, n: int, r: int, d: int)
    requires
        r > 0,
        n * r >= d,
    ensures
        a > n ==> a * r > d,
{
    assert(a > n ==> a * r >= n * r + r) by (nonlinear_arith)
        requires
            r > 0,
    ;
}

/// A waypoint is next to the one before it: a cell away along an axis at most.
pub proof fn law_waypoints_are_near(
    g: GridMap<Fixed>,
    infl: i64,
    from: Place,
    to: Place,
    path: Seq<Waypoint<Fixed>>,
    i: int,
)
    requires
        is_ordinary(g),
        planned(g, infl, from, to, path),
        0 < i < path.len(),
    ensures
        span(path[i - 1].x.raw as int, path[i].x.raw as int) <= g.params.resolution.raw,
        span(path[i - 1].y.raw as int, path[i].y.raw as int) <= g.params.resolution.raw,
        path[i - 1].x != path[i].x || path[i - 1].y != path[i].y,
{
    law_path_is_clear(g, infl, from, to, path);
    let cells = choose|cells: Seq<Place>|
        {
            &&& #[trigger] is_path(g, infl, cells)
            &&& path == waypoints(g, cells)
        };
    let (c, d) = (cells[i - 1], cells[i]);
    assert(super::passable(g, infl, c) && super::passable(g, infl, d));
    assert(super::adjacent(cells[i - 1], cells[i]));
    lemma_middles_apart(g, c, d);
    let r = g.params.resolution.raw as int;
    let (a, b) = (span(c.0 as int, d.0 as int), span(c.1 as int, d.1 as int));
    assert(0 <= a <= 1 && 0 <= b <= 1 && (a == 1 || b == 1));
    assert(0 * r == 0 && 1 * r == r);
}

} // verus!
