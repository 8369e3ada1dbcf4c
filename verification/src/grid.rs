//! A two-dimensional occupancy grid with incremental ray casting.
//!
//! The grid covers a fixed rectangle of the world. Each cell holds a log-odds
//! value: positive for occupied, negative for free, zero for unknown. Only
//! observed cells are stored.
pub mod laws;

use crate::cell_map::{Cell, CellMap};
use crate::fixed::{clip, lemma_one_squared, lemma_squared, Fixed, ONE};
use crate::scalar::{clamp_spec, clamp_to, le, lt, max_of, max_spec, whole, zero, Scalar};
use vstd::prelude::*;

verus! {

/// A point in the plane.
pub type Point2<S> = [S; 2];

/// A point in space.
pub type Point3<S> = [S; 3];

/// Configuration of a [`GridMap`].
#[derive(Clone, Copy, Debug)]
pub struct GridMapParams<S> {
    /// Cell size in meters.
    pub resolution: S,
    /// Minimum world x of the covered rectangle.
    pub min_x: S,
    /// Minimum world y of the covered rectangle.
    pub min_y: S,
    /// Maximum world x of the covered rectangle.
    pub max_x: S,
    /// Maximum world y of the covered rectangle.
    pub max_y: S,
    /// Log-odds decrement of free cells along a ray.
    pub free_log_odds: S,
    /// Log-odds increment of hit cells.
    pub occ_log_odds: S,
    /// Step along a ray in meters.
    pub ray_step: S,
    /// Bound of the absolute log-odds.
    pub saturate: S,
    /// Number of columns and rows, where they are known; without it they follow from
    /// the covered rectangle and the cell size.
    pub size: Option<(i64, i64)>,
}

impl<S: Scalar> Default for GridMapParams<S> {
    fn default() -> (r: Self)
        ensures
            r.resolution == S::ratio_spec(1, 20),
            r.min_x == S::ratio_spec(-50, 1),
            r.min_y == S::ratio_spec(-50, 1),
            r.max_x == S::ratio_spec(50, 1),
            r.max_y == S::ratio_spec(50, 1),
            r.free_log_odds == S::ratio_spec(1, 5),
            r.occ_log_odds == S::ratio_spec(3, 5),
            r.ray_step == S::ratio_spec(1, 20),
            r.saturate == S::ratio_spec(4, 1),
            r.size is None,
    {
        GridMapParams {
            resolution: S::ratio(1, 20),
            min_x: S::ratio(-50, 1),
            min_y: S::ratio(-50, 1),
            max_x: S::ratio(50, 1),
            max_y: S::ratio(50, 1),
            free_log_odds: S::ratio(1, 5),
            occ_log_odds: S::ratio(3, 5),
            ray_step: S::ratio(1, 20),
            saturate: S::ratio(4, 1),
            size: None,
        }
    }
}

impl<S: Scalar> GridMapParams<S> {
    /// The saturation bound is one: a number that is not negative.
    pub open spec fn bounded(self) -> bool {
        le(self.saturate.negate_spec(), self.saturate)
    }

    /// Number of columns.
    pub open spec fn ncols(self) -> i64 {
        match self.size {
            Some(n) => n.0,
            None => self.max_x.minus_spec(self.min_x).over_spec(self.resolution).to_index_spec(),
        }
    }

    /// Number of rows.
    pub open spec fn nrows(self) -> i64 {
        match self.size {
            Some(n) => n.1,
            None => self.max_y.minus_spec(self.min_y).over_spec(self.resolution).to_index_spec(),
        }
    }

    /// The cell lies in the covered rectangle.
    pub open spec fn covers(self, col: i64, row: i64) -> bool {
        0 <= col < self.ncols() && 0 <= row < self.nrows()
    }

    /// The cell of a point.
    pub open spec fn cell_of(self, x: S, y: S) -> (i64, i64) {
        (
            x.minus_spec(self.min_x).over_spec(self.resolution).floor_spec().to_index_spec(),
            y.minus_spec(self.min_y).over_spec(self.resolution).floor_spec().to_index_spec(),
        )
    }

    /// The middle of a cell.
    pub open spec fn center_of(self, col: i64, row: i64) -> (S, S) {
        let half = S::ratio_spec(1, 2);
        (
            self.min_x.plus_spec(whole::<S>(col as int).plus_spec(half).times_spec(self.resolution)),
            self.min_y.plus_spec(whole::<S>(row as int).plus_spec(half).times_spec(self.resolution)),
        )
    }
}

/// The log-odds of the observed cells.
pub type Cells<S> = Map<Cell, S>;

/// The log-odds of a cell, zero when it was never observed.
pub open spec fn log_odds_of<S: Scalar>(m: Cells<S>, col: i64, row: i64) -> S {
    if m.contains_key((col, row, 0)) {
        m[(col, row, 0)]
    } else {
        zero()
    }
}

/// The probability of a log-odds value.
pub open spec fn probability<S: Scalar>(l: S) -> S {
    S::ratio_spec(1, 1).over_spec(S::ratio_spec(1, 1).plus_spec(l.negate_spec().exp_spec()))
}

/// The cells after a change of one of them.
pub open spec fn bumped<S: Scalar>(
    p: GridMapParams<S>,
    m: Cells<S>,
    col: i64,
    row: i64,
    delta: S,
) -> Cells<S> {
    if p.covers(col, row) {
        m.insert(
            (col, row, 0),
            clamp_spec(
                log_odds_of(m, col, row).plus_spec(delta),
                p.saturate.negate_spec(),
                p.saturate,
            ),
        )
    } else {
        m
    }
}

/// The distance of two points in the plane.
pub open spec fn plane_dist<S: Scalar>(a: Point2<S>, b: Point2<S>) -> S {
    let dx = b[0].minus_spec(a[0]);
    let dy = b[1].minus_spec(a[1]);
    dx.times_spec(dx).plus_spec(dy.times_spec(dy)).root_spec()
}

/// The number of steps of a ray.
pub open spec fn ray_steps<S: Scalar>(p: GridMapParams<S>, sensor: Point2<S>, hit: Point2<S>) -> i64 {
    max_spec(
        S::ratio_spec(1, 1),
        plane_dist(sensor, hit).over_spec(p.ray_step).ceil_spec(),
    ).to_index_spec()
}

/// The cell at a step of a ray of `n` steps.
pub open spec fn ray_cell<S: Scalar>(
    p: GridMapParams<S>,
    sensor: Point2<S>,
    hit: Point2<S>,
    n: i64,
    i: int,
) -> (i64, i64) {
    let t = whole::<S>(i).plus_spec(S::ratio_spec(1, 1)).over_spec(whole(n as int));
    p.cell_of(
        sensor[0].plus_spec(hit[0].minus_spec(sensor[0]).times_spec(t)),
        sensor[1].plus_spec(hit[1].minus_spec(sensor[1]).times_spec(t)),
    )
}

/// The number of steps of a ray, from step `i` on, until it leaves the grid.
pub open spec fn ray_reach<S: Scalar>(
    p: GridMapParams<S>,
    sensor: Point2<S>,
    hit: Point2<S>,
    n: i64,
    i: int,
) -> int
    decreases n - i,
{
    if i >= n {
        i
    } else {
        let c = ray_cell(p, sensor, hit, n, i);
        if p.covers(c.0, c.1) {
            ray_reach(p, sensor, hit, n, i + 1)
        } else {
            i
        }
    }
}

/// The cells after the first `k` steps of a ray have cleared theirs, all but the
/// cell `end`.
pub open spec fn ray_cleared<S: Scalar>(
    p: GridMapParams<S>,
    m: Cells<S>,
    sensor: Point2<S>,
    hit: Point2<S>,
    n: i64,
    end: (i64, i64),
    k: int,
) -> Cells<S>
    decreases k,
{
    if k <= 0 {
        m
    } else {
        let c = ray_cell(p, sensor, hit, n, k - 1);
        let before = ray_cleared(p, m, sensor, hit, n, end, k - 1);
        if c == end {
            before
        } else {
            bumped(p, before, c.0, c.1, p.free_log_odds.negate_spec())
        }
    }
}

/// The cells after one ray: the last cell before the ray leaves the grid is hit, and
/// each step in another cell on the way clears that one.
pub open spec fn ray_cast<S: Scalar>(
    p: GridMapParams<S>,
    m: Cells<S>,
    sensor: Point2<S>,
    hit: Point2<S>,
) -> Cells<S> {
    let n = ray_steps(p, sensor, hit);
    let k = ray_reach(p, sensor, hit, n, 0);
    if lt(plane_dist(sensor, hit), S::ratio_spec(1, 1000000)) || k <= 0 {
        m
    } else {
        let c = ray_cell(p, sensor, hit, n, k - 1);
        bumped(p, ray_cleared(p, m, sensor, hit, n, c, k), c.0, c.1, p.occ_log_odds)
    }
}

/// The cells after a scan, its rays in order.
pub open spec fn scanned<S: Scalar>(
    p: GridMapParams<S>,
    m: Cells<S>,
    sensor: Point2<S>,
    hits: Seq<Point2<S>>,
) -> Cells<S>
    decreases hits.len(),
{
    if hits.len() == 0 {
        m
    } else {
        ray_cast(p, scanned(p, m, sensor, hits.drop_last()), sensor, hits.last())
    }
}

/// The cells after each point has hit its own.
pub open spec fn marked<S: Scalar>(
    p: GridMapParams<S>,
    m: Cells<S>,
    points: Seq<Point3<S>>,
) -> Cells<S>
    decreases points.len(),
{
    if points.len() == 0 {
        m
    } else {
        let c = p.cell_of(points.last()[0], points.last()[1]);
        bumped(p, marked(p, m, points.drop_last()), c.0, c.1, p.occ_log_odds)
    }
}

/// The grey value of an observed cell: black for occupied, white for free.
pub open spec fn shade<S: Scalar>(l: S) -> u8 {
    let p = probability(l);
    if le(S::ratio_spec(3, 5), p) {
        0
    } else if le(p, S::ratio_spec(2, 5)) {
        255
    } else {
        127
    }
}

/// The grey value of a cell, the middle grey when it was never observed.
pub open spec fn shade_of<S: Scalar>(m: Cells<S>, col: i64, row: i64) -> u8 {
    if m.contains_key((col, row, 0)) {
        shade(m[(col, row, 0)])
    } else {
        127
    }
}

/// A two-dimensional occupancy grid.
#[derive(Debug)]
pub struct GridMap<S> {
    pub params: GridMapParams<S>,
    pub cells: CellMap<S>,
}

impl<S: Scalar> Clone for GridMap<S> {
    fn clone(&self) -> (r: Self)
        ensures
            r.params == self.params,
            self.wf() ==> r.wf() && r.cells@ == self.cells@,
    {
        GridMap { params: self.params, cells: self.cells.clone() }
    }
}

/// Number of columns and rows of the rectangle that `p` covers.
fn extent<S: Scalar>(p: &GridMapParams<S>) -> (r: (i64, i64))
    ensures
        r == (p.ncols(), p.nrows()),
{
    match p.size {
        Some(n) => n,
        None => {
            let ncols: i64 = p.max_x.minus(p.min_x).over(p.resolution).to_index();
            let nrows: i64 = p.max_y.minus(p.min_y).over(p.resolution).to_index();
            (ncols, nrows)
        },
    }
}

/// Tests whether a cell lies in the rectangle that `p` covers.
fn covered<S: Scalar>(p: &GridMapParams<S>, col: i64, row: i64) -> (r: bool)
    ensures
        r == p.covers(col, row),
{
    let (ncols, nrows) = extent(p);
    col >= 0 && row >= 0 && col < ncols && row < nrows
}

impl<S: Scalar> GridMap<S> {
    /// The invariant: only cells of the covered rectangle are stored, and their
    /// log-odds are within the bound if they are numbers.
    pub open spec fn wf(self) -> bool {
        &&& self.cells.wf()
        &&& self.params.bounded()
        &&& cells_wf(self.params, self.cells@)
    }

    /// An empty grid.
    pub fn new(params: GridMapParams<S>) -> (r: Self)
        requires
            params.bounded(),
        ensures
            r.wf(),
            r.params == params,
            r.cells@ == Map::<Cell, S>::empty(),
    {
        GridMap { params, cells: CellMap::new() }
    }

    /// The configuration.
    pub fn params(&self) -> (r: &GridMapParams<S>)
        ensures
            *r == self.params,
    {
        &self.params
    }

    /// The cell of a point.
    pub fn world_to_cell(&self, x: S, y: S) -> (r: (i64, i64))
        ensures
            r == self.params.cell_of(x, y),
    {
        let col: i64 = x.minus(self.params.min_x).over(self.params.resolution).floor().to_index();
        let row: i64 = y.minus(self.params.min_y).over(self.params.resolution).floor().to_index();
        (col, row)
    }

    /// The middle of a cell.
    pub fn cell_to_world(&self, col: i64, row: i64) -> (r: Point2<S>)
        ensures
            (r[0], r[1]) == self.params.center_of(col, row),
    {
        let half: S = S::ratio(1, 2);
        [
            self.params.min_x.plus(S::ratio(col, 1).plus(half).times(self.params.resolution)),
            self.params.min_y.plus(S::ratio(row, 1).plus(half).times(self.params.resolution)),
        ]
    }

    /// Tests whether a cell lies in the covered rectangle.
    pub fn in_bounds(&self, col: i64, row: i64) -> (r: bool)
        ensures
            r == self.params.covers(col, row),
    {
        covered(&self.params, col, row)
    }

    /// The log-odds of a cell, zero when it was never observed.
    pub fn cell_log_odds(&self, col: i64, row: i64) -> (r: S)
        requires
            self.wf(),
        ensures
            r == log_odds_of(self.cells@, col, row),
    {
        match self.cells.get((col, row, 0)) {
            Some(l) => l,
            None => S::ratio(0, 1),
        }
    }

    /// The probability that a cell is occupied; one half means unknown.
    pub fn occupancy(&self, col: i64, row: i64) -> (r: S)
        requires
            self.wf(),
        ensures
            r == probability(log_odds_of(self.cells@, col, row)),
    {
        let l: S = self.cell_log_odds(col, row);
        to_probability(l)
    }

    /// The probability that the cell of a point is occupied; one half outside
    /// of the covered rectangle.
    pub fn occupancy_at(&self, x: S, y: S) -> (r: S)
        requires
            self.wf(),
        ensures
            r == self.occupancy_at_spec(x, y),
    {
        let (c, r) = self.world_to_cell(x, y);
        if !self.in_bounds(c, r) {
            return S::ratio(1, 2);
        }
        self.occupancy(c, r)
    }

    /// What [`GridMap::occupancy_at`] returns.
    pub open spec fn occupancy_at_spec(self, x: S, y: S) -> S {
        let c = self.params.cell_of(x, y);
        if self.params.covers(c.0, c.1) {
            probability(log_odds_of(self.cells@, c.0, c.1))
        } else {
            S::ratio_spec(1, 2)
        }
    }

    /// Tests whether the probability at a point exceeds a threshold.
    pub fn is_occupied(&self, x: S, y: S, threshold: S) -> (r: bool)
        requires
            self.wf(),
        ensures
            r == lt(threshold, self.occupancy_at_spec(x, y)),
    {
        threshold.less(self.occupancy_at(x, y))
    }

    /// Changes the log-odds of one cell, within the bound.
    pub(crate) fn apply_delta(&mut self, col: i64, row: i64, delta: S)
        requires
            old(self).wf(),
        ensures
            final(self).wf(),
            final(self).params == old(self).params,
            final(self).cells@ == bumped(old(self).params, old(self).cells@, col, row, delta),
    {
        if !self.in_bounds(col, row) {
            return;
        }
        let l: S = self.cell_log_odds(col, row).plus(delta);
        let v: S = clamp_to(l, self.params.saturate.negate(), self.params.saturate);
        self.cells.insert((col, row, 0), v);
    }

    /// The cell at a step of a ray of `n` steps.
    fn cell_on_ray(&self, sensor: Point2<S>, hit: Point2<S>, n: i64, i: i64) -> (r: (i64, i64))
        ensures
            r == ray_cell(self.params, sensor, hit, n, i as int),
    {
        let t: S = S::ratio(i, 1).plus(S::ratio(1, 1)).over(S::ratio(n, 1));
        let x: S = sensor[0].plus(hit[0].minus(sensor[0]).times(t));
        let y: S = sensor[1].plus(hit[1].minus(sensor[1]).times(t));
        self.world_to_cell(x, y)
    }

    /// The number of steps of a ray of `n` steps until it leaves the grid.
    fn reach_of_ray(&self, sensor: Point2<S>, hit: Point2<S>, n: i64) -> (r: i64)
        ensures
            r == ray_reach(self.params, sensor, hit, n, 0),
            0 <= r,
            r <= n || r == 0,
            r > 0 ==> {
                let c = ray_cell(self.params, sensor, hit, n, r - 1);
                self.params.covers(c.0, c.1)
            },
    {
        let ghost p = self.params;
        let mut i: i64 = 0;
        while i < n
            invariant
                0 <= i,
                i <= n || i == 0,
                p == self.params,
                ray_reach(p, sensor, hit, n, 0) == ray_reach(p, sensor, hit, n, i as int),
                i > 0 ==> {
                    let c = ray_cell(p, sensor, hit, n, i - 1);
                    p.covers(c.0, c.1)
                },
            decreases n - i,
        {
            let (c, r) = self.cell_on_ray(sensor, hit, n, i);
            if !self.in_bounds(c, r) {
                return i;
            }
            i = i + 1;
        }
        i
    }

    /// Casts one ray.
    fn cast_ray(&mut self, sensor: Point2<S>, hit: Point2<S>)
        requires
            old(self).wf(),
        ensures
            final(self).wf(),
            final(self).params == old(self).params,
            final(self).cells@ == ray_cast(old(self).params, old(self).cells@, sensor, hit),
    {
        let ghost p = self.params;
        let ghost m = self.cells@;
        let dx: S = hit[0].minus(sensor[0]);
        let dy: S = hit[1].minus(sensor[1]);
        let dist: S = dx.times(dx).plus(dy.times(dy)).root();
        if dist.less(S::ratio(1, 1000000)) {
            return;
        }
        let n: i64 = max_of(S::ratio(1, 1), dist.over(self.params.ray_step).ceil()).to_index();
        let k: i64 = self.reach_of_ray(sensor, hit, n);
        if k == 0 {
            return;
        }
        let end: (i64, i64) = self.cell_on_ray(sensor, hit, n, k - 1);
        let mut i: i64 = 0;
        while i < k
            invariant
                0 <= i <= k,
                self.wf(),
                self.params == p,
                self.cells@ == ray_cleared(p, m, sensor, hit, n, end, i as int),
            decreases k - i,
        {
            let (c, r) = self.cell_on_ray(sensor, hit, n, i);
            if c != end.0 || r != end.1 {
                let delta: S = self.params.free_log_odds.negate();
                self.apply_delta(c, r, delta);
            }
            i = i + 1;
        }
        let delta: S = self.params.occ_log_odds;
        self.apply_delta(end.0, end.1, delta);
    }

    /// Updates the map from one scan: `sensor` is the origin of the rays, `points`
    /// are where they hit. A ray that leaves the grid hits where it leaves.
    pub fn update_from_scan(&mut self, sensor: Point2<S>, points: &[Point2<S>])
        requires
            old(self).wf(),
        ensures
            final(self).wf(),
            final(self).params == old(self).params,
            final(self).cells@ == scanned(old(self).params, old(self).cells@, sensor, points@),
    {
        let mut i: usize = 0;
        assert(points@.take(0) =~= Seq::empty());
        while i < points.len()
            invariant
                i <= points@.len(),
                self.wf(),
                self.params == old(self).params,
                self.cells@ == scanned(
                    old(self).params,
                    old(self).cells@,
                    sensor,
                    points@.take(i as int),
                ),
            decreases points@.len() - i,
        {
            self.cast_ray(sensor, points[i]);
            assert(points@.take(i + 1).drop_last() =~= points@.take(i as int));
            i = i + 1;
        }
        assert(points@.take(i as int) =~= points@);
    }

    /// Updates the map from a cloud, of which only x and y count.
    pub fn update_from_cloud(&mut self, sensor: Point2<S>, points: &[Point3<S>])
        requires
            old(self).wf(),
        ensures
            final(self).wf(),
            final(self).params == old(self).params,
            final(self).cells@ == scanned(
                old(self).params,
                old(self).cells@,
                sensor,
                points@.map_values(|q: Point3<S>| [q[0], q[1]]),
            ),
    {
        let mut flat: Vec<Point2<S>> = Vec::new();
        let mut i: usize = 0;
        while i < points.len()
            invariant
                i <= points@.len(),
                flat@ == points@.take(i as int).map_values(|q: Point3<S>| [q[0], q[1]]),
            decreases points@.len() - i,
        {
            flat.push([points[i][0], points[i][1]]);
            i = i + 1;
            assert(flat@ =~= points@.take(i as int).map_values(|q: Point3<S>| [q[0], q[1]]));
        }
        assert(points@.take(i as int) =~= points@);
        self.update_from_scan(sensor, &flat);
    }

    /// Marks the cells of points as occupied without clearing any.
    pub fn mark_occupied(&mut self, points: &[Point3<S>])
        requires
            old(self).wf(),
        ensures
            final(self).wf(),
            final(self).params == old(self).params,
            final(self).cells@ == marked(old(self).params, old(self).cells@, points@),
    {
        let mut i: usize = 0;
        assert(points@.take(0) =~= Seq::empty());
        while i < points.len()
            invariant
                i <= points@.len(),
                self.wf(),
                self.params == old(self).params,
                self.cells@ == marked(old(self).params, old(self).cells@, points@.take(i as int)),
            decreases points@.len() - i,
        {
            let (c, r) = self.world_to_cell(points[i][0], points[i][1]);
            let delta: S = self.params.occ_log_odds;
            self.apply_delta(c, r, delta);
            assert(points@.take(i + 1).drop_last() =~= points@.take(i as int));
            i = i + 1;
        }
        assert(points@.take(i as int) =~= points@);
    }

    /// All observed cells with their log-odds.
    pub fn iter_cells(&self) -> (r: Vec<((i64, i64), S)>)
        requires
            self.wf(),
        ensures
            r@.len() == self.cells@.len(),
            forall|i: int|
                0 <= i < r@.len() ==> {
                    let c = (#[trigger] r@[i]).0;
                    self.cells@.contains_key((c.0, c.1, 0)) && self.cells@[(c.0, c.1, 0)] == r@[i].1
                },
            forall|i: int, j: int|
                0 <= i < j < r@.len() ==> (#[trigger] r@[i]).0 != (#[trigger] r@[j]).0,
    {
        let n: usize = self.cells.len();
        let mut r: Vec<((i64, i64), S)> = Vec::new();
        proof {
            self.cells.lemma_listed();
        }
        let mut i: usize = 0;
        while i < n
            invariant
                i <= n,
                n == self.cells.listed().len(),
                r@.len() == i,
                forall|j: int|
                    0 <= j < i ==> (#[trigger] r@[j]) == (
                        (self.cells.listed()[j].0.0, self.cells.listed()[j].0.1),
                        self.cells.listed()[j].1,
                    ),
            decreases n - i,
        {
            let (k, v) = self.cells.entry(i);
            r.push(((k.0, k.1), v));
            i = i + 1;
        }
        proof {
            let s = self.cells.listed();
            assert forall|j: int| 0 <= j < r@.len() implies {
                let c = (#[trigger] r@[j]).0;
                self.cells@.contains_key((c.0, c.1, 0)) && self.cells@[(c.0, c.1, 0)] == r@[j].1
            } by {
                assert(self.cells@.contains_key(s[j].0));
                assert(s[j].0.2 == 0);
            }
            assert forall|a: int, b: int| 0 <= a < b < r@.len() implies (#[trigger] r@[a]).0 != (
            #[trigger] r@[b]).0 by {
                assert(s[a].0 != s[b].0);
                assert(self.cells@.contains_key(s[a].0) && self.cells@.contains_key(s[b].0));
            }
        }
        r
    }

    /// Number of observed cells.
    pub fn cell_count(&self) -> (r: usize)
        requires
            self.wf(),
        ensures
            r == self.cells@.len(),
    {
        self.cells.len()
    }

    /// Forgets every cell.
    pub fn clear(&mut self)
        requires
            old(self).wf(),
        ensures
            final(self).wf(),
            final(self).params == old(self).params,
            final(self).cells@ == Map::<Cell, S>::empty(),
    {
        self.cells.clear();
    }

    /// Width and height of the grid in cells, at least one each.
    pub fn dims(&self) -> (r: (usize, usize))
        requires
            self.params.ncols() <= usize::MAX,
            self.params.nrows() <= usize::MAX,
        ensures
            r == dims_of(self.params),
    {
        let (ncols, nrows) = extent(&self.params);
        let w: usize = if ncols < 1 {
            1
        } else {
            ncols as usize
        };
        let h: usize = if nrows < 1 {
            1
        } else {
            nrows as usize
        };
        (w, h)
    }

    /// Renders the grid as a grey image: width, height and the pixels by rows,
    /// the row of the largest y first.
    pub fn to_grayscale(&self) -> (r: (usize, usize, Vec<u8>))
        requires
            self.wf(),
            self.params.ncols() <= usize::MAX,
            self.params.nrows() <= usize::MAX,
            dims_of(self.params).0 * dims_of(self.params).1 <= usize::MAX,
        ensures
            (r.0, r.1) == dims_of(self.params),
            r.2@ == rendered(self.params, self.cells@),
    {
        let (w, h) = self.dims();
        let mut img: Vec<u8> = Vec::new();
        let ghost total = w * h;
        let mut r: usize = 0;
        while r < h
            invariant
                r <= h,
                self.wf(),
                (w, h) == dims_of(self.params),
                w * h <= usize::MAX,
                h <= i64::MAX,
                w <= i64::MAX,
                img@ == rendered_part(self.params, self.cells@, r * w),
            decreases h - r,
        {
            let row: i64 = (h - 1 - r) as i64;
            let mut c: usize = 0;
            while c < w
                invariant
                    c <= w,
                    r < h,
                    row == h - 1 - r,
                    self.wf(),
                    (w, h) == dims_of(self.params),
                    w <= i64::MAX,
                    img@ == rendered_part(self.params, self.cells@, r * w + c),
                decreases w - c,
            {
                let v: u8 = match self.cells.get((c as i64, row, 0)) {
                    Some(l) => to_shade(l),
                    None => 127,
                };
                img.push(v);
                proof {
                    let k = r * w + c;
                    assert(k / w as int == r && k % w as int == c) by (nonlinear_arith)
                        requires
                            k == r * w + c,
                            0 <= c < w,
                    ;
                    assert(img@ =~= rendered_part(self.params, self.cells@, r * w + (c + 1)));
                }
                c = c + 1;
            }
            assert((r + 1) * w == r * w + w) by (nonlinear_arith);
            r = r + 1;
        }
        assert(h * w == w * h) by (nonlinear_arith);
        assert(img@ =~= rendered(self.params, self.cells@));
        (w, h, img)
    }
}

/// Width and height in cells, at least one each.
pub open spec fn dims_of<S: Scalar>(p: GridMapParams<S>) -> (usize, usize) {
    (
        if p.ncols() < 1 {
            1
        } else {
            p.ncols() as usize
        },
        if p.nrows() < 1 {
            1
        } else {
            p.nrows() as usize
        },
    )
}

/// The pixel at a place of the image.
pub open spec fn pixel<S: Scalar>(p: GridMapParams<S>, m: Cells<S>, k: int) -> u8 {
    let w = dims_of(p).0 as int;
    let h = dims_of(p).1 as int;
    shade_of(m, (k % w) as i64, (h - 1 - k / w) as i64)
}

/// The first `n` pixels of the image.
pub open spec fn rendered_part<S: Scalar>(p: GridMapParams<S>, m: Cells<S>, n: int) -> Seq<u8> {
    Seq::new(n as nat, |k: int| pixel(p, m, k))
}

/// The pixels of the image, by rows from the one of the largest y.
pub open spec fn rendered<S: Scalar>(p: GridMapParams<S>, m: Cells<S>) -> Seq<u8> {
    rendered_part(p, m, dims_of(p).0 * dims_of(p).1)
}

/// Every stored cell lies in the covered rectangle with log-odds within the bound.
pub open spec fn cells_wf<S: Scalar>(p: GridMapParams<S>, m: Cells<S>) -> bool {
    forall|c: Cell| #[trigger]
        m.contains_key(c) ==> c.2 == 0 && p.covers(c.0, c.1) && (m[c].is_num() ==> le(
            p.saturate.negate_spec(),
            m[c],
        ) && le(m[c], p.saturate))
}

/// The probability of a log-odds value.
pub fn to_probability<S: Scalar>(l: S) -> (r: S)
    ensures
        r == probability(l),
{
    let one: S = S::ratio(1, 1);
    one.over(one.plus(l.negate().exp()))
}

fn to_shade<S: Scalar>(l: S) -> (r: u8)
    ensures
        r == shade(l),
{
    let p: S = to_probability(l);
    if S::ratio(3, 5).at_most(p) {
        0
    } else if p.at_most(S::ratio(2, 5)) {
        255
    } else {
        127
    }
}

/// A probability lies between zero and one, and is one half where nothing is known.
pub proof fn law_fixed_probability(l: Fixed)
    ensures
        0 <= probability(l).raw <= ONE,
        probability(zero::<Fixed>()) == Fixed::ratio_spec(1, 2),
{
    let e = l.negate_spec().exp_spec();
    lemma_squared(
        (Fixed { raw: ONE }).plus_spec(
            l.negate_spec().over_spec(Fixed { raw: clip(256 * ONE) }),
        ),
        8,
    );
    assert(e.raw >= 0);
    let d = Fixed::ratio_spec(1, 1).plus_spec(e).raw as int;
    assert(d >= ONE);
    assert(0 <= (ONE * ONE) / d <= ONE) by (nonlinear_arith)
        requires
            d >= ONE,
            ONE == 65536,
    ;
    lemma_one_squared(8);
    let o = zero::<Fixed>();
    assert(o.raw == 0);
    assert(o.negate_spec() == o);
    assert(o.over_spec(Fixed { raw: clip(256 * ONE) }) == o);
    assert(o.exp_spec() == (Fixed { raw: ONE }));
}

/// A ray that is outside of the grid at its first step changes nothing.
pub proof fn law_ray_from_outside<S: Scalar>(
    p: GridMapParams<S>,
    m: Cells<S>,
    sensor: Point2<S>,
    hit: Point2<S>,
)
    requires
        ({
            let c = ray_cell(p, sensor, hit, ray_steps(p, sensor, hit), 0);
            !p.covers(c.0, c.1)
        }),
    ensures
        ray_cast(p, m, sensor, hit) == m,
{
}

/// A scan whose rays are all outside of the grid at their first step changes nothing.
pub proof fn law_scan_from_outside<S: Scalar>(
    p: GridMapParams<S>,
    m: Cells<S>,
    sensor: Point2<S>,
    hits: Seq<Point2<S>>,
)
    requires
        forall|i: int|
            0 <= i < hits.len() ==> {
                let c = ray_cell(p, sensor, #[trigger] hits[i], ray_steps(p, sensor, hits[i]), 0);
                !p.covers(c.0, c.1)
            },
    ensures
        scanned(p, m, sensor, hits) == m,
    decreases hits.len(),
{
    if hits.len() > 0 {
        law_scan_from_outside(p, m, sensor, hits.drop_last());
        law_ray_from_outside(p, m, sensor, hits[hits.len() - 1]);
    }
}

/// The column or row of a coordinate.
pub open spec fn index_at<S: Scalar>(lo: S, res: S, x: S) -> i64 {
    x.minus_spec(lo).over_spec(res).floor_spec().to_index_spec()
}

/// The coordinate at a step of a ray of `n` steps from `s` to `h`.
pub open spec fn ray_place<S: Scalar>(s: S, h: S, n: i64, i: int) -> S {
    let t = whole::<S>(i).plus_spec(S::ratio_spec(1, 1)).over_spec(whole(n as int));
    s.plus_spec(h.minus_spec(s).times_spec(t))
}

/// The arithmetic of `S` keeps a ray between its ends: the cells of its steps lie
/// between those of the ends.
#[verifier::opaque]
pub open spec fn rays_between<S: Scalar>() -> bool {
    forall|lo: S, res: S, s: S, h: S, n: i64, i: int|
        lt(zero::<S>(), res) && 0 <= i < n ==> {
            let a = index_at(lo, res, s);
            let b = index_at(lo, res, h);
            let c = #[trigger] index_at(lo, res, ray_place(s, h, n, i));
            (a <= c || b <= c) && (c <= a || c <= b)
        }
}

/// The cell is outside of the grid on the given side: left, right, below or above.
pub open spec fn beside<S: Scalar>(p: GridMapParams<S>, side: int, c: (i64, i64)) -> bool {
    if side == 0 {
        c.0 < 0
    } else if side == 1 {
        c.0 >= p.ncols()
    } else if side == 2 {
        c.1 < 0
    } else {
        c.1 >= p.nrows()
    }
}

/// A scan whose sensor and hits are all outside on one side of the grid changes
/// nothing.
pub proof fn law_scan_beside<S: Scalar>(
    p: GridMapParams<S>,
    m: Cells<S>,
    sensor: Point2<S>,
    hits: Seq<Point2<S>>,
    side: int,
)
    requires
        rays_between::<S>(),
        lt(zero::<S>(), p.resolution),
        beside(p, side, p.cell_of(sensor[0], sensor[1])),
        forall|i: int|
            0 <= i < hits.len() ==> beside(
                p,
                side,
                p.cell_of((#[trigger] hits[i])[0], hits[i][1]),
            ),
    ensures
        scanned(p, m, sensor, hits) == m,
    decreases hits.len(),
{
    if hits.len() > 0 {
        law_scan_beside(p, m, sensor, hits.drop_last(), side);
        let hit = hits[hits.len() - 1];
        let n = ray_steps(p, sensor, hit);
        if n > 0 {
            reveal(rays_between);
            let c = ray_cell(p, sensor, hit, n, 0);
            assert(c.0 == index_at(
                p.min_x,
                p.resolution,
                ray_place(sensor[0], hit[0], n, 0),
            ));
            assert(c.1 == index_at(
                p.min_y,
                p.resolution,
                ray_place(sensor[1], hit[1], n, 0),
            ));
            assert(beside(p, side, c));
        }
    }
}

/// The column or row grows with the coordinate.
proof fn lemma_index_grows(lo: Fixed, res: Fixed, x: Fixed, y: Fixed)
    requires
        res.raw > 0,
        x.raw <= y.raw,
    ensures
        index_at(lo, res, x) <= index_at(lo, res, y),
{
    let g = x.minus_spec(lo).raw as int;
    let k = y.minus_spec(lo).raw as int;
    let r = res.raw as int;
    assert((g * ONE) / r <= (k * ONE) / r) by (nonlinear_arith)
        requires
            g <= k,
            r > 0,
            ONE == 65536,
    ;
    let u = x.minus_spec(lo).over_spec(res);
    let v = y.minus_spec(lo).over_spec(res);
    assert(u.raw <= v.raw);
    assert(u.floor_spec().raw <= v.floor_spec().raw);
}

/// Fixed-point rays stay between their ends.
pub proof fn law_fixed_rays_between()
    ensures
        rays_between::<Fixed>(),
{
    reveal(rays_between);
    assert forall|lo: Fixed, res: Fixed, s: Fixed, h: Fixed, n: i64, i: int|
        lt(zero::<Fixed>(), res) && 0 <= i < n implies {
        let a = index_at(lo, res, s);
        let b = index_at(lo, res, h);
        let c = #[trigger] index_at(lo, res, ray_place(s, h, n, i));
        (a <= c || b <= c) && (c <= a || c <= b)
    } by {
        assert(res.raw > 0);
        let top = whole::<Fixed>(i).plus_spec(Fixed::ratio_spec(1, 1));
        let bottom = whole::<Fixed>(n as int);
        assert(0 < top.raw <= bottom.raw);
        let u = top.raw as int;
        let v = bottom.raw as int;
        assert(0 <= (u * ONE) / v <= ONE) by (nonlinear_arith)
            requires
                0 < u <= v,
                ONE == 65536,
        ;
        let t = top.over_spec(bottom).raw as int;
        assert(0 <= t <= ONE);
        let d = h.minus_spec(s).raw as int;
        let way = (d * t) / (ONE as int);
        assert(d >= 0 ==> 0 <= way <= d) by (nonlinear_arith)
            requires
                way == (d * t) / (ONE as int),
                0 <= t <= ONE,
                ONE == 65536,
        ;
        assert(d < 0 ==> d <= way <= 0) by (nonlinear_arith)
            requires
                way == (d * t) / (ONE as int),
                0 <= t <= ONE,
                ONE == 65536,
        ;
        let x = ray_place(s, h, n, i);
        assert((s.raw <= x.raw || h.raw <= x.raw) && (x.raw <= s.raw || x.raw <= h.raw));
        if s.raw <= x.raw {
            lemma_index_grows(lo, res, s, x);
        } else {
            lemma_index_grows(lo, res, h, x);
        }
        if x.raw <= s.raw {
            lemma_index_grows(lo, res, x, s);
        } else {
            lemma_index_grows(lo, res, x, h);
        }
    }
}

/// In fixed point, a place left of the covered rectangle or below it, and one right of
/// it or above it where its size follows from the rectangle, is in a cell outside of
/// the grid on that side.
pub proof fn law_fixed_outside(p: GridMapParams<Fixed>, x: Fixed, y: Fixed)
    requires
        p.resolution.raw > 0,
    ensures
        x.raw < p.min_x.raw ==> beside(p, 0, p.cell_of(x, y)),
        p.size is None && p.min_x.raw <= p.max_x.raw <= x.raw ==> beside(p, 1, p.cell_of(x, y)),
        y.raw < p.min_y.raw ==> beside(p, 2, p.cell_of(x, y)),
        p.size is None && p.min_y.raw <= p.max_y.raw <= y.raw ==> beside(p, 3, p.cell_of(x, y)),
{
    let r = p.resolution.raw as int;
    let gx = x.minus_spec(p.min_x).raw as int;
    let gy = y.minus_spec(p.min_y).raw as int;
    assert(gx < 0 ==> (gx * ONE) / r < 0) by (nonlinear_arith)
        requires
            r > 0,
            ONE == 65536,
    ;
    assert(gy < 0 ==> (gy * ONE) / r < 0) by (nonlinear_arith)
        requires
            r > 0,
            ONE == 65536,
    ;
    if p.min_x.raw <= p.max_x.raw <= x.raw {
        lemma_over_amount(p.max_x.minus_spec(p.min_x), p.resolution);
        lemma_index_grows(p.min_x, p.resolution, p.max_x, x);
        lemma_floor_index(p.max_x.minus_spec(p.min_x).over_spec(p.resolution));
    }
    if p.min_y.raw <= p.max_y.raw <= y.raw {
        lemma_over_amount(p.max_y.minus_spec(p.min_y), p.resolution);
        lemma_index_grows(p.min_y, p.resolution, p.max_y, y);
        lemma_floor_index(p.max_y.minus_spec(p.min_y).over_spec(p.resolution));
    }
}

/// Rounding down first does not change the whole part of a number that is not
/// negative.
proof fn lemma_floor_index(v: Fixed)
    requires
        v.raw >= 0,
    ensures
        v.floor_spec().to_index_spec() == v.to_index_spec(),
{
}

/// A quotient of numbers that are not negative is not negative.
proof fn lemma_over_amount(a: Fixed, b: Fixed)
    requires
        a.raw >= 0,
        b.raw > 0,
    ensures
        a.over_spec(b).raw >= 0,
{
    let g = a.raw as int;
    let r = b.raw as int;
    assert((g * ONE) / r >= 0) by (nonlinear_arith)
        requires
            g >= 0,
            r > 0,
            ONE == 65536,
    ;
}

proof fn lemma_cleared_keeps<S: Scalar>(
    p: GridMapParams<S>,
    m: Cells<S>,
    sensor: Point2<S>,
    hit: Point2<S>,
    n: i64,
    end: (i64, i64),
    k: int,
)
    ensures
        forall|c: Cell|
            m.contains_key(c) ==> #[trigger] ray_cleared(p, m, sensor, hit, n, end, k).contains_key(
                c,
            ),
        log_odds_of(ray_cleared(p, m, sensor, hit, n, end, k), end.0, end.1) == log_odds_of(
            m,
            end.0,
            end.1,
        ),
    decreases k,
{
    if k > 0 {
        lemma_cleared_keeps(p, m, sensor, hit, n, end, k - 1);
    }
}

/// A cell that was observed stays so in a scan.
pub proof fn law_observed_stays<S: Scalar>(
    p: GridMapParams<S>,
    m: Cells<S>,
    sensor: Point2<S>,
    hits: Seq<Point2<S>>,
    c: Cell,
)
    requires
        m.contains_key(c),
    ensures
        scanned(p, m, sensor, hits).contains_key(c),
    decreases hits.len(),
{
    if hits.len() > 0 {
        law_observed_stays(p, m, sensor, hits.drop_last(), c);
        let hit = hits.last();
        let n = ray_steps(p, sensor, hit);
        let k = ray_reach(p, sensor, hit, n, 0);
        let end = ray_cell(p, sensor, hit, n, k - 1);
        lemma_cleared_keeps(
            p,
            scanned(p, m, sensor, hits.drop_last()),
            sensor,
            hit,
            n,
            end,
            k,
        );
    }
}

/// The cell that a ray hits gains the increment of a hit, within the bound, and loses
/// nothing to the ray itself.
pub proof fn law_hit_cell_gains<S: Scalar>(
    p: GridMapParams<S>,
    m: Cells<S>,
    sensor: Point2<S>,
    hit: Point2<S>,
)
    requires
        !lt(plane_dist(sensor, hit), S::ratio_spec(1, 1000000)),
        ray_reach(p, sensor, hit, ray_steps(p, sensor, hit), 0) > 0,
    ensures
        ({
            let n = ray_steps(p, sensor, hit);
            let end = ray_cell(p, sensor, hit, n, ray_reach(p, sensor, hit, n, 0) - 1);
            log_odds_of(ray_cast(p, m, sensor, hit), end.0, end.1) == clamp_spec(
                log_odds_of(m, end.0, end.1).plus_spec(p.occ_log_odds),
                p.saturate.negate_spec(),
                p.saturate,
            )
        }),
{
    let n = ray_steps(p, sensor, hit);
    let k = ray_reach(p, sensor, hit, n, 0);
    let end = ray_cell(p, sensor, hit, n, k - 1);
    lemma_reached_cell(p, sensor, hit, n, 0);
    lemma_cleared_keeps(p, m, sensor, hit, n, end, k);
}

proof fn lemma_reached_cell<S: Scalar>(
    p: GridMapParams<S>,
    sensor: Point2<S>,
    hit: Point2<S>,
    n: i64,
    i: int,
)
    ensures
        ray_reach(p, sensor, hit, n, i) >= i,
        ray_reach(p, sensor, hit, n, i) > i ==> {
            let c = ray_cell(p, sensor, hit, n, ray_reach(p, sensor, hit, n, i) - 1);
            p.covers(c.0, c.1)
        },
    decreases n - i,
{
    if i < n {
        let c = ray_cell(p, sensor, hit, n, i);
        if p.covers(c.0, c.1) {
            lemma_reached_cell(p, sensor, hit, n, i + 1);
        }
    }
}

} // verus!
