//! Shortest paths on the occupancy grid.
//!
//! A* on the eight-connected grid: a straight step has length one, a diagonal
//! step the square root of two. A cell may be entered if no occupied cell is
//! within the inflation distance of it.
pub mod laws;

use crate::cell_map::{Cell, CellMap};
use crate::grid::{log_odds_of, probability, GridMap};
use crate::open_set::{OpenCell, OpenSet};
use crate::root2::{below, lemma_below_trans, positive, upto, Root2};
use crate::scalar::{lt, Scalar};
use vstd::multiset::Multiset;
use vstd::prelude::*;

verus! {

/// A point of a planned path in meters.
#[derive(Clone, Copy, Debug)]
pub struct Waypoint<S> {
    pub x: S,
    pub y: S,
}

/// Options of the search.
#[derive(Clone, Copy, Debug)]
pub struct AStarOptions<S> {
    /// Cells within this distance of an occupied cell are blocked.
    pub inflation: S,
    /// Maximum number of cells expanded before giving up.
    pub max_expansions: usize,
}

impl<S: Scalar> Default for AStarOptions<S> {
    fn default() -> (r: Self)
        ensures
            r.inflation == S::ratio_spec(3, 10),
            r.max_expansions == 200000,
    {
        AStarOptions { inflation: S::ratio(3, 10), max_expansions: 200000 }
    }
}

/// Column and row of a cell.
pub type Place = (i64, i64);

/// Largest extent of a grid that can be searched.
pub const GRID_LIMIT: i64 = 0x1000_0000_0000_0000;

/// The distance of two cells in steps in any of eight directions.
pub open spec fn steps_between(u: Place, v: Place) -> int {
    let dx = if u.0 < v.0 {
        v.0 - u.0
    } else {
        u.0 - v.0
    };
    let dy = if u.1 < v.1 {
        v.1 - u.1
    } else {
        u.1 - v.1
    };
    if dx < dy {
        dy
    } else {
        dx
    }
}

/// The cell may be entered: no cell of the grid within `infl` cells of it is
/// occupied.
pub open spec fn clear_of<S: Scalar>(g: GridMap<S>, infl: i64, c: Place) -> bool {
    forall|d: Place|
        steps_between(c, d) <= infl && g.params.covers(d.0, d.1) ==> !lt(
            S::ratio_spec(3, 5),
            probability(#[trigger] log_odds_of(g.cells@, d.0, d.1)),
        )
}

/// The cell lies on the grid and may be entered.
pub open spec fn passable<S: Scalar>(g: GridMap<S>, infl: i64, c: Place) -> bool {
    g.params.covers(c.0, c.1) && clear_of(g, infl, c)
}

/// The extent of the grid and the inflation are within the limits of a search.
pub open spec fn searchable<S: Scalar>(g: GridMap<S>, infl: i64) -> bool {
    g.wf() && g.params.ncols() <= GRID_LIMIT && g.params.nrows() <= GRID_LIMIT && infl <= GRID_LIMIT
}

/// The cells are neighbours.
pub open spec fn adjacent(u: Place, v: Place) -> bool {
    steps_between(u, v) == 1
}

/// The step from `u` to `v` is a diagonal one.
pub open spec fn diagonal(u: Place, v: Place) -> bool {
    u.0 != v.0 && u.1 != v.1
}

/// A sequence of neighbouring cells that may be entered.
pub open spec fn is_path<S: Scalar>(g: GridMap<S>, infl: i64, p: Seq<Place>) -> bool {
    &&& p.len() > 0
    &&& forall|i: int| 0 <= i < p.len() ==> passable(g, infl, #[trigger] p[i])
    &&& forall|i: int| 0 < i < p.len() ==> adjacent(p[i - 1], #[trigger] p[i])
}

/// A path from `u` to `v`.
pub open spec fn leads<S: Scalar>(
    g: GridMap<S>,
    infl: i64,
    p: Seq<Place>,
    u: Place,
    v: Place,
) -> bool {
    is_path(g, infl, p) && p[0] == u && p[p.len() - 1] == v
}

/// The numbers of straight and of diagonal steps among the first `n`.
pub open spec fn length_upto(p: Seq<Place>, n: int) -> (int, int)
    decreases n,
{
    if n <= 0 {
        (0, 0)
    } else {
        let l = length_upto(p, n - 1);
        if diagonal(p[n - 1], p[n]) {
            (l.0, l.1 + 1)
        } else {
            (l.0 + 1, l.1)
        }
    }
}

/// The numbers of straight and of diagonal steps of a path.
pub open spec fn length(p: Seq<Place>) -> (int, int) {
    length_upto(p, p.len() - 1)
}

/// No path from `u` to `v` is shorter than `a` straight and `b` diagonal steps.
pub open spec fn least<S: Scalar>(
    g: GridMap<S>,
    infl: i64,
    u: Place,
    v: Place,
    a: int,
    b: int,
) -> bool {
    forall|q: Seq<Place>| #[trigger]
        leads(g, infl, q, u, v) ==> upto(a, b, length(q).0, length(q).1)
}

/// A path from `u` to `v` such that none is shorter.
pub open spec fn shortest<S: Scalar>(
    g: GridMap<S>,
    infl: i64,
    p: Seq<Place>,
    u: Place,
    v: Place,
) -> bool {
    leads(g, infl, p, u, v) && least(g, infl, u, v, length(p).0, length(p).1)
}

/// Some path leads from `u` to `v`.
pub open spec fn reachable<S: Scalar>(g: GridMap<S>, infl: i64, u: Place, v: Place) -> bool {
    exists|q: Seq<Place>| leads(g, infl, q, u, v)
}

/// More than `n` cells can be reached from `u`.
pub open spec fn crowded<S: Scalar>(g: GridMap<S>, infl: i64, u: Place, n: nat) -> bool {
    exists|s: Set<Place>|
        #![trigger s.len()]
        s.finite() && s.len() > n && forall|c: Place| #[trigger]
            s.contains(c) ==> reachable(g, infl, u, c)
}

/// The lower bound of the length of a path from `c` to `goal`.
pub open spec fn estimate(c: Place, goal: Place) -> (int, int) {
    let dx = if c.0 < goal.0 {
        goal.0 - c.0
    } else {
        c.0 - goal.0
    };
    let dy = if c.1 < goal.1 {
        goal.1 - c.1
    } else {
        c.1 - goal.1
    };
    if dx < dy {
        (dx - dy, dy)
    } else {
        (dy - dx, dx)
    }
}

/// A step shortens the estimate by no more than its length.
pub proof fn lemma_consistent(u: Place, v: Place, goal: Place)
    requires
        adjacent(u, v),
    ensures
        diagonal(u, v) ==> upto(
            estimate(u, goal).0,
            estimate(u, goal).1,
            estimate(v, goal).0,
            estimate(v, goal).1 + 1,
        ),
        !diagonal(u, v) ==> upto(
            estimate(u, goal).0,
            estimate(u, goal).1,
            estimate(v, goal).0 + 1,
            estimate(v, goal).1,
        ),
{
    reveal(positive);
    assert(positive(2, -1));
    assert(positive(-2, 2));
    assert(positive(2, 0) && positive(0, 1) && positive(0, 2));
}

/// Adding the same to both sides keeps the order.
proof fn lemma_shift(a: int, b: int, c: int, d: int, e: int, f: int)
    requires
        upto(a, b, c, d),
    ensures
        upto(a + e, b + f, c + e, d + f),
        below(a, b, c, d) ==> below(a + e, b + f, c + e, d + f),
{
}

/// Along a path, the length so far with the estimate of the rest never shrinks.
proof fn lemma_monotone(p: Seq<Place>, goal: Place, j: int, k: int)
    requires
        0 <= j <= k < p.len(),
        forall|i: int| 0 < i < p.len() ==> adjacent(p[i - 1], #[trigger] p[i]),
    ensures
        upto(
            length_upto(p, j).0 + estimate(p[j], goal).0,
            length_upto(p, j).1 + estimate(p[j], goal).1,
            length_upto(p, k).0 + estimate(p[k], goal).0,
            length_upto(p, k).1 + estimate(p[k], goal).1,
        ),
    decreases k - j,
{
    if j < k {
        lemma_monotone(p, goal, j, k - 1);
        let u = p[k - 1];
        let v = p[k];
        assert(adjacent(p[k - 1], p[k]));
        lemma_consistent(u, v, goal);
        let l = length_upto(p, k - 1);
        let m = length_upto(p, k);
        let s = if diagonal(u, v) {
            (0int, 1int)
        } else {
            (1int, 0int)
        };
        lemma_shift(
            estimate(u, goal).0,
            estimate(u, goal).1,
            estimate(v, goal).0 + s.0,
            estimate(v, goal).1 + s.1,
            l.0,
            l.1,
        );
        lemma_below_trans(
            length_upto(p, j).0 + estimate(p[j], goal).0,
            length_upto(p, j).1 + estimate(p[j], goal).1,
            l.0 + estimate(u, goal).0,
            l.1 + estimate(u, goal).1,
            m.0 + estimate(v, goal).0,
            m.1 + estimate(v, goal).1,
        );
    }
}

/// The length of the first steps does not depend on what follows.
proof fn lemma_prefix_length(p: Seq<Place>, q: Seq<Place>, n: int)
    requires
        n < p.len(),
        n < q.len(),
        forall|i: int| 0 <= i <= n ==> p[i] == q[i],
    ensures
        length_upto(p, n) == length_upto(q, n),
    decreases n,
{
    if n > 0 {
        lemma_prefix_length(p, q, n - 1);
    }
}

/// A path with one more cell.
proof fn lemma_extend<S: Scalar>(
    g: GridMap<S>,
    infl: i64,
    p: Seq<Place>,
    start: Place,
    u: Place,
    v: Place,
)
    requires
        leads(g, infl, p, start, u),
        adjacent(u, v),
        passable(g, infl, v),
    ensures
        leads(g, infl, p.push(v), start, v),
        length(p.push(v)) == if diagonal(u, v) {
            (length(p).0, length(p).1 + 1)
        } else {
            (length(p).0 + 1, length(p).1)
        },
{
    let q = p.push(v);
    assert forall|i: int| 0 < i < q.len() implies adjacent(q[i - 1], #[trigger] q[i]) by {
        if i < p.len() {
            assert(adjacent(p[i - 1], p[i]));
        }
    }
    lemma_prefix_length(p, q, p.len() - 1);
}

/// The `k`-th neighbour of a cell.
pub open spec fn neighbor_of(c: Place, k: int) -> (int, int) {
    if k == 0 {
        (c.0 + 1, c.1 as int)
    } else if k == 1 {
        (c.0 - 1, c.1 as int)
    } else if k == 2 {
        (c.0 as int, c.1 + 1)
    } else if k == 3 {
        (c.0 as int, c.1 - 1)
    } else if k == 4 {
        (c.0 + 1, c.1 + 1)
    } else if k == 5 {
        (c.0 + 1, c.1 - 1)
    } else if k == 6 {
        (c.0 - 1, c.1 + 1)
    } else {
        (c.0 - 1, c.1 - 1)
    }
}

/// The neighbours of a cell are the eight.
proof fn lemma_neighbors(u: Place, v: Place)
    requires
        adjacent(u, v),
    ensures
        exists|k: int|
            0 <= k < 8 && #[trigger] neighbor_of(u, k) == (v.0 as int, v.1 as int),
{
    let w = (v.0 as int, v.1 as int);
    assert(neighbor_of(u, 0) == w || neighbor_of(u, 1) == w || neighbor_of(u, 2) == w
        || neighbor_of(u, 3) == w || neighbor_of(u, 4) == w || neighbor_of(u, 5) == w
        || neighbor_of(u, 6) == w || neighbor_of(u, 7) == w);
}

fn neighbor(c: Place, k: usize) -> (r: Place)
    requires
        k < 8,
        -1 <= c.0 <= GRID_LIMIT,
        -1 <= c.1 <= GRID_LIMIT,
    ensures
        (r.0 as int, r.1 as int) == neighbor_of(c, k as int),
        adjacent(c, r),
{
    if k == 0 {
        (c.0 + 1, c.1)
    } else if k == 1 {
        (c.0 - 1, c.1)
    } else if k == 2 {
        (c.0, c.1 + 1)
    } else if k == 3 {
        (c.0, c.1 - 1)
    } else if k == 4 {
        (c.0 + 1, c.1 + 1)
    } else if k == 5 {
        (c.0 + 1, c.1 - 1)
    } else if k == 6 {
        (c.0 - 1, c.1 + 1)
    } else {
        (c.0 - 1, c.1 - 1)
    }
}

/// Tests whether a cell may be entered.
fn traversable<S: Scalar>(g: &GridMap<S>, c: Place, infl: i64) -> (r: bool)
    requires
        searchable(*g, infl),
        g.params.covers(c.0, c.1),
    ensures
        r == clear_of(*g, infl, c),
{
    if infl < 0 {
        return true;
    }
    let mut dr: i64 = -infl;
    while dr <= infl
        invariant
            searchable(*g, infl),
            g.params.covers(c.0, c.1),
            0 <= infl,
            -infl <= dr <= infl + 1,
            forall|d: Place|
                steps_between(c, d) <= infl && g.params.covers(d.0, d.1) && d.1 < c.1 + dr ==> !lt(
                    S::ratio_spec(3, 5),
                    probability(#[trigger] log_odds_of(g.cells@, d.0, d.1)),
                ),
        decreases infl + 1 - dr,
    {
        let mut dc: i64 = -infl;
        while dc <= infl
            invariant
                searchable(*g, infl),
                g.params.covers(c.0, c.1),
                0 <= infl,
                -infl <= dr <= infl,
                -infl <= dc <= infl + 1,
                forall|d: Place|
                    steps_between(c, d) <= infl && g.params.covers(d.0, d.1) && (d.1 < c.1 + dr || (
                    d.1 == c.1 + dr && d.0 < c.0 + dc)) ==> !lt(
                        S::ratio_spec(3, 5),
                        probability(#[trigger] log_odds_of(g.cells@, d.0, d.1)),
                    ),
            decreases infl + 1 - dc,
        {
            let col: i64 = c.0 + dc;
            let row: i64 = c.1 + dr;
            if g.in_bounds(col, row) {
                let limit: S = S::ratio(3, 5);
                if limit.less(g.occupancy(col, row)) {
                    proof {
                        let d: Place = (col, row);
                        assert(steps_between(c, d) <= infl);
                        assert(lt(
                            S::ratio_spec(3, 5),
                            probability(log_odds_of(g.cells@, d.0, d.1)),
                        ));
                    }
                    return false;
                }
            }
            dc = dc + 1;
        }
        dr = dr + 1;
    }
    true
}

/// `s` is a cell that may be entered, no more than `max` steps from `c`, and no
/// such cell is closer.
pub open spec fn nearest_free<S: Scalar>(
    g: GridMap<S>,
    infl: i64,
    c: Place,
    max: nat,
    s: Place,
) -> bool {
    &&& passable(g, infl, s)
    &&& steps_between(c, s) <= max
    &&& forall|d: Place| #[trigger]
        passable(g, infl, d) ==> steps_between(c, s) <= steps_between(c, d)
}

/// No cell within `max` steps of `c` may be entered.
pub open spec fn none_free<S: Scalar>(g: GridMap<S>, infl: i64, c: Place, max: nat) -> bool {
    forall|d: Place| #[trigger] passable(g, infl, d) ==> steps_between(c, d) > max
}

/// The cell is in the list.
spec fn listed(order: Seq<Place>, c: Place) -> bool {
    exists|i: int| 0 <= i < order.len() && #[trigger] order[i] == c
}

/// The neighbour of `c` on the way to `to`.
spec fn toward(c: Place, to: Place) -> Place {
    (
        if c.0 < to.0 {
            (c.0 + 1) as i64
        } else if c.0 > to.0 {
            (c.0 - 1) as i64
        } else {
            c.0
        },
        if c.1 < to.1 {
            (c.1 + 1) as i64
        } else if c.1 > to.1 {
            (c.1 - 1) as i64
        } else {
            c.1
        },
    )
}

/// What a breadth-first search from `start` knows when the first `head` cells of
/// `order` have been expanded up to `max` steps.
spec fn flooded<S: Scalar>(
    g: GridMap<S>,
    infl: i64,
    start: Place,
    max: nat,
    order: Seq<Place>,
    head: int,
) -> bool {
    &&& order.len() > 0
    &&& order[0] == start
    &&& forall|i: int|
        0 <= i < order.len() ==> {
            let c = #[trigger] order[i];
            g.params.covers(c.0, c.1) && !clear_of(g, infl, c) && steps_between(start, c) <= max
        }
    &&& forall|i: int, j: int|
        0 <= i < j < order.len() ==> steps_between(start, #[trigger] order[i]) <= steps_between(
            start,
            #[trigger] order[j],
        )
    &&& forall|i: int, v: Place|
        0 <= i < head && steps_between(start, order[i]) < max && adjacent(#[trigger] order[i], v)
            && #[trigger] g.params.covers(v.0, v.1) ==> listed(order, v)
}

/// Every cell up to `k` steps away is listed if those closer were expanded.
proof fn lemma_flooded<S: Scalar>(
    g: GridMap<S>,
    infl: i64,
    start: Place,
    max: nat,
    order: Seq<Place>,
    head: int,
    k: int,
    c: Place,
)
    requires
        flooded(g, infl, start, max, order, head),
        0 <= head <= order.len(),
        k <= max,
        g.params.covers(start.0, start.1),
        g.params.covers(c.0, c.1),
        steps_between(start, c) <= k,
        forall|i: int|
            head <= i < order.len() ==> steps_between(start, #[trigger] order[i]) >= k,
    ensures
        listed(order, c),
    decreases k,
{
    let d = steps_between(start, c);
    if d == 0 {
        assert(order[0] == c);
    } else {
        let b = toward(c, start);
        assert(steps_between(start, b) == d - 1);
        assert(adjacent(b, c));
        assert(g.params.covers(b.0, b.1));
        lemma_flooded(g, infl, start, max, order, head, k - 1, b);
        let i = choose|i: int| 0 <= i < order.len() && #[trigger] order[i] == b;
        assert(i < head);
        assert(adjacent(order[i], c));
    }
}

/// The nearest cell that may be entered, by breadth-first search over at most
/// `max_cells` steps.
fn snap_to_free<S: Scalar>(g: &GridMap<S>, start: Place, infl: i64, max_cells: usize) -> (r: Option<
    Place,
>)
    requires
        searchable(*g, infl),
        g.params.covers(start.0, start.1),
    ensures
        match r {
            Some(s) => nearest_free(*g, infl, start, max_cells as nat, s),
            None => none_free(*g, infl, start, max_cells as nat),
        },
{
    let ghost max = max_cells as nat;
    if traversable(g, start, infl) {
        return Some(start);
    }
    let mut visited: CellMap<usize> = CellMap::new();
    let mut order: Vec<Place> = Vec::new();
    order.push(start);
    visited.insert((start.0, start.1, 0), 0);
    let mut head: usize = 0;
    assert(order@[0] == start);
    while head < order.len()
        invariant
            searchable(*g, infl),
            g.params.covers(start.0, start.1),
            max == max_cells,
            head <= order@.len(),
            flooded(*g, infl, start, max, order@, head as int),
            visited.wf(),
            seen_all(visited@, start, order@),
            head > 0 ==> forall|i: int|
                0 <= i < order@.len() ==> steps_between(start, #[trigger] order@[i])
                    <= steps_between(start, order@[head - 1]) + 1,
            head == 0 ==> order@.len() == 1,
        decreases usize::MAX - head,
    {
        let cell: Place = order[head];
        let ghost d = steps_between(start, cell);
        assert(listed(order@, cell));
        let depth: usize = match visited.get((cell.0, cell.1, 0)) {
            Some(n) => n,
            None => 0,
        };
        if depth < max_cells {
            let mut k: usize = 0;
            while k < 8
                invariant
                    k <= 8,
                    searchable(*g, infl),
                    g.params.covers(start.0, start.1),
                    g.params.covers(cell.0, cell.1),
                    max == max_cells,
                    d == steps_between(start, cell),
                    d == depth,
                    depth < max_cells,
                    head < order@.len(),
                    order@[head as int] == cell,
                    flooded(*g, infl, start, max, order@, head as int),
                    visited.wf(),
                    seen_all(visited@, start, order@),
                    forall|i: int|
                        0 <= i < order@.len() ==> steps_between(start, #[trigger] order@[i]) <= d + 1,
                    forall|j: int, v: Place|
                        0 <= j < k && #[trigger] neighbor_of(cell, j) == (v.0 as int, v.1 as int)
                            && #[trigger] g.params.covers(v.0, v.1) ==> listed(order@, v),
                decreases 8 - k,
            {
                let nc: Place = neighbor(cell, k);
                if g.in_bounds(nc.0, nc.1) && visited.get((nc.0, nc.1, 0)).is_none() {
                    proof {
                        if steps_between(start, nc) <= d {
                            lemma_flooded(
                                *g,
                                infl,
                                start,
                                max,
                                order@,
                                head as int,
                                d,
                                nc,
                            );
                        }
                        assert(steps_between(start, nc) == d + 1);
                    }
                    if traversable(g, nc, infl) {
                        proof {
                            assert forall|c: Place| #[trigger]
                                passable(*g, infl, c) implies steps_between(start, nc)
                                <= steps_between(start, c) by {
                                if steps_between(start, c) <= d {
                                    lemma_flooded(
                                        *g,
                                        infl,
                                        start,
                                        max,
                                        order@,
                                        head as int,
                                        d,
                                        c,
                                    );
                                    let i = choose|i: int|
                                        0 <= i < order@.len() && #[trigger] order@[i] == c;
                                }
                            }
                        }
                        return Some(nc);
                    }
                    let ghost before = order@;
                    order.push(nc);
                    visited.insert((nc.0, nc.1, 0), depth + 1);
                    proof {
                        lemma_listed_push(before, nc);
                        assert forall|i: int, v: Place|
                            0 <= i < head && steps_between(start, order@[i]) < max && adjacent(
                                #[trigger] order@[i],
                                v,
                            ) && #[trigger] g.params.covers(v.0, v.1) implies listed(order@, v) by {
                            assert(before[i] == order@[i]);
                            assert(listed(before, v));
                        }
                    }
                }
                k = k + 1;
            }
        }
        proof {
            assert forall|i: int, v: Place|
                0 <= i < head + 1 && steps_between(start, order@[i]) < max && adjacent(
                    #[trigger] order@[i],
                    v,
                ) && #[trigger] g.params.covers(v.0, v.1) implies listed(order@, v) by {
                if i == head {
                    lemma_neighbors(cell, v);
                    let j = choose|j: int|
                        0 <= j < 8 && #[trigger] neighbor_of(cell, j) == (v.0 as int, v.1 as int);
                    assert(neighbor_of(cell, j) == (v.0 as int, v.1 as int));
                }
            }
            assert(order@[head as int] == cell);
        }
        head = head + 1;
    }
    proof {
        assert forall|c: Place| #[trigger] passable(*g, infl, c) implies steps_between(start, c)
            > max by {
            if steps_between(start, c) <= max {
                lemma_flooded(
                    *g,
                    infl,
                    start,
                    max,
                    order@,
                    head as int,
                    max as int,
                    c,
                );
                let i = choose|i: int| 0 <= i < order@.len() && #[trigger] order@[i] == c;
            }
        }
    }
    None
}

/// The map holds the listed cells, each with its distance from `start`.
spec fn seen_all(m: Map<Cell, usize>, start: Place, order: Seq<Place>) -> bool {
    &&& forall|c: Place| #[trigger]
        m.contains_key((c.0, c.1, 0)) <==> listed(order, c)
    &&& forall|c: Place| #[trigger]
        m.contains_key((c.0, c.1, 0)) ==> m[(c.0, c.1, 0)] == steps_between(start, c)
}

/// A list with one more cell.
proof fn lemma_listed_push(order: Seq<Place>, c: Place)
    ensures
        forall|d: Place| #[trigger]
            listed(order.push(c), d) <==> listed(order, d) || d
                == c,
{
    let s = order.push(c);
    assert forall|d: Place| #[trigger]
        listed(s, d) <==> listed(order, d) || d == c by {
        if listed(order, d) {
            let i = choose|i: int| 0 <= i < order.len() && #[trigger] order[i] == d;
            assert(s[i] == d);
        }
        if d == c {
            assert(s[order.len() as int] == d);
        }
        if listed(s, d) {
            let i = choose|i: int| 0 <= i < order.len() + 1 && #[trigger] s[i] == d;
            if i < order.len() {
                assert(order[i] == d);
            }
        }
    }
}

/// What the search knows of a cell: the length of the best path found so far, the
/// cell before it on that path, and whether the cell was expanded.
#[derive(Clone, Copy, Debug)]
struct Mark {
    g: Root2,
    from: Place,
    closed: bool,
}

/// The marks of a search.
type Marks = Map<Cell, Mark>;

spec fn known(m: Marks, c: Place) -> bool {
    m.contains_key((c.0, c.1, 0))
}

spec fn mark(m: Marks, c: Place) -> Mark {
    m[(c.0, c.1, 0)]
}

spec fn closed(m: Marks, c: Place) -> bool {
    known(m, c) && mark(m, c).closed
}

/// The length of a step, straight and diagonal.
spec fn step_length(u: Place, v: Place) -> (int, int) {
    if diagonal(u, v) {
        (0, 1)
    } else {
        (1, 0)
    }
}

/// A path of the length in the mark of `c`, the one of the cell before it with
/// `c` added.
#[verifier::opaque]
spec fn traced<S: Scalar>(
    g: GridMap<S>,
    infl: i64,
    start: Place,
    m: Marks,
    paths: Map<Place, Seq<Place>>,
    c: Place,
) -> bool {
    let k = mark(m, c);
    &&& leads(g, infl, paths[c], start, c)
    &&& length(paths[c]) == (k.g.a as int, k.g.b as int)
    &&& c == start ==> paths[c] == seq![start]
    &&& c != start ==> closed(m, k.from) && paths[c] == paths[k.from].push(c)
}

/// From `u` to `v` the marks allow no short cut.
spec fn relaxed(m: Marks, u: Place, v: Place) -> bool {
    let w = step_length(u, v);
    known(m, v) && upto(
        mark(m, v).g.a as int,
        mark(m, v).g.b as int,
        mark(m, u).g.a + w.0,
        mark(m, u).g.b + w.1,
    )
}

/// The length in the mark of `c` is that of a shortest path.
#[verifier::opaque]
spec fn settled<S: Scalar>(g: GridMap<S>, infl: i64, start: Place, m: Marks, c: Place) -> bool {
    least(g, infl, start, c, mark(m, c).g.a as int, mark(m, c).g.b as int)
}

/// No short cut leads from `u` to a neighbour that may be entered.
#[verifier::opaque]
spec fn expanded<S: Scalar>(g: GridMap<S>, infl: i64, m: Marks, u: Place) -> bool {
    forall|v: Place| adjacent(u, v) && #[trigger] passable(g, infl, v) ==> relaxed(m, u, v)
}

/// The entry of the open set for a cell with its current length.
spec fn entry_of(m: Marks, goal: Place, c: Place) -> OpenCell {
    let h = estimate(c, goal);
    OpenCell {
        cell: c,
        f: Root2 { a: (mark(m, c).g.a + h.0) as i64, b: (mark(m, c).g.b + h.1) as i64 },
    }
}

/// The invariant of the search. `busy` is the cell that is being expanded.
spec fn searching<S: Scalar>(
    g: GridMap<S>,
    infl: i64,
    start: Place,
    goal: Place,
    m: Marks,
    open: Multiset<OpenCell>,
    paths: Map<Place, Seq<Place>>,
    n: nat,
    busy: Option<Place>,
) -> bool {
    &&& known(m, start)
    &&& mark(m, start).g == (Root2 { a: 0, b: 0 })
    &&& !closed(m, goal)
    &&& forall|c: Place| #[trigger] known(m, c) ==> traced(g, infl, start, m, paths, c)
    &&& forall|c: Place| #[trigger]
        known(m, c) ==> 0 <= mark(m, c).g.a && 0 <= mark(m, c).g.b && mark(m, c).g.a + mark(
            m,
            c,
        ).g.b <= n
    &&& forall|c: Place| #[trigger] closed(m, c) ==> settled(g, infl, start, m, c)
    &&& forall|c: Place| #[trigger]
        closed(m, c) && busy != Some(c) ==> expanded(g, infl, m, c)
    &&& forall|c: Place| #[trigger]
        known(m, c) && !closed(m, c) ==> open.count(entry_of(m, goal, c)) > 0
    &&& forall|e: OpenCell| #[trigger]
        open.count(e) > 0 ==> known(m, e.cell) && entry_of(m, goal, e.cell).f.le(e.f)
}

/// A cell with a mark may be entered.
proof fn lemma_traced_passable<S: Scalar>(
    g: GridMap<S>,
    infl: i64,
    start: Place,
    m: Marks,
    paths: Map<Place, Seq<Place>>,
    c: Place,
)
    requires
        traced(g, infl, start, m, paths, c),
    ensures
        passable(g, infl, c),
{
    reveal(traced);
    assert(passable(g, infl, paths[c][paths[c].len() - 1]));
}

/// The parts of an entry are sums without wrapping.
proof fn lemma_entry<S: Scalar>(g: GridMap<S>, m: Marks, goal: Place, c: Place, n: nat)
    requires
        searchable(g, 0),
        g.params.covers(c.0, c.1),
        g.params.covers(goal.0, goal.1),
        0 <= mark(m, c).g.a,
        0 <= mark(m, c).g.b,
        mark(m, c).g.a + mark(m, c).g.b <= n,
        n <= GRID_LIMIT + 1,
    ensures
        entry_of(m, goal, c).f.a == mark(m, c).g.a + estimate(c, goal).0,
        entry_of(m, goal, c).f.b == mark(m, c).g.b + estimate(c, goal).1,
        entry_of(m, goal, c).f.small(),
{
}

/// The first cell of a path that was not expanded.
proof fn lemma_first_open(m: Marks, q: Seq<Place>, n: int) -> (j: int)
    requires
        0 <= n < q.len(),
        !closed(m, q[n]),
    ensures
        0 <= j <= n,
        !closed(m, q[j]),
        forall|i: int| 0 <= i < j ==> closed(m, #[trigger] q[i]),
    decreases n,
{
    if forall|i: int| 0 <= i < n ==> closed(m, #[trigger] q[i]) {
        n
    } else {
        let i = choose|i: int| 0 <= i < n && !closed(m, #[trigger] q[i]);
        lemma_first_open(m, q, i)
    }
}

/// The cell behind an expanded one on a path is marked with no more than the
/// length of the path up to it.
proof fn lemma_reached<S: Scalar>(
    g: GridMap<S>,
    infl: i64,
    start: Place,
    m: Marks,
    q: Seq<Place>,
    j: int,
)
    requires
        is_path(g, infl, q),
        q[0] == start,
        0 < j < q.len(),
        settled(g, infl, start, m, q[j - 1]),
        expanded(g, infl, m, q[j - 1]),
    ensures
        known(m, q[j]),
        upto(
            mark(m, q[j]).g.a as int,
            mark(m, q[j]).g.b as int,
            length_upto(q, j).0,
            length_upto(q, j).1,
        ),
{
    let x = q[j - 1];
    let y = q[j];
    let pre = q.take(j);
    assert(leads(g, infl, pre, start, x)) by {
        assert forall|i: int| 0 <= i < pre.len() implies passable(g, infl, #[trigger] pre[i]) by {
            assert(pre[i] == q[i]);
        }
        assert forall|i: int| 0 < i < pre.len() implies adjacent(pre[i - 1], #[trigger] pre[i]) by {
            assert(adjacent(q[i - 1], q[i]));
        }
    }
    lemma_prefix_length(pre, q, j - 1);
    let k = length_upto(q, j - 1);
    assert(upto(mark(m, x).g.a as int, mark(m, x).g.b as int, k.0, k.1)) by {
        reveal(settled);
    }
    assert(adjacent(q[j - 1], q[j]));
    assert(passable(g, infl, q[j]));
    assert(relaxed(m, x, y)) by {
        reveal(expanded);
    }
    let w = step_length(x, y);
    lemma_shift(mark(m, x).g.a as int, mark(m, x).g.b as int, k.0, k.1, w.0, w.1);
    lemma_below_trans(
        mark(m, y).g.a as int,
        mark(m, y).g.b as int,
        mark(m, x).g.a + w.0,
        mark(m, x).g.b + w.1,
        k.0 + w.0,
        k.1 + w.1,
    );
}

/// On any path to a cell that was not expanded, an open cell promises no more
/// than the length of the path.
proof fn lemma_frontier<S: Scalar>(
    g: GridMap<S>,
    infl: i64,
    start: Place,
    goal: Place,
    m: Marks,
    open: Multiset<OpenCell>,
    paths: Map<Place, Seq<Place>>,
    n: nat,
    q: Seq<Place>,
    u: Place,
) -> (y: Place)
    requires
        searchable(g, infl),
        g.params.covers(goal.0, goal.1),
        n <= GRID_LIMIT,
        searching(g, infl, start, goal, m, open, paths, n, None),
        leads(g, infl, q, start, u),
        !closed(m, u),
    ensures
        known(m, y),
        !closed(m, y),
        upto(
            mark(m, y).g.a + estimate(y, goal).0,
            mark(m, y).g.b + estimate(y, goal).1,
            length(q).0 + estimate(u, goal).0,
            length(q).1 + estimate(u, goal).1,
        ),
{
    let last = q.len() - 1;
    let j = lemma_first_open(m, q, last);
    let y = q[j];
    let l = length_upto(q, j);
    assert(known(m, y) && upto(mark(m, y).g.a as int, mark(m, y).g.b as int, l.0, l.1)) by {
        if j > 0 {
            assert(closed(m, q[j - 1]));
            lemma_reached(g, infl, start, m, q, j);
        }
    }
    lemma_monotone(q, goal, j, last);
    let h = estimate(y, goal);
    lemma_shift(mark(m, y).g.a as int, mark(m, y).g.b as int, l.0, l.1, h.0, h.1);
    lemma_below_trans(
        mark(m, y).g.a + h.0,
        mark(m, y).g.b + h.1,
        l.0 + h.0,
        l.1 + h.1,
        length(q).0 + estimate(u, goal).0,
        length(q).1 + estimate(u, goal).1,
    );
    y
}

/// The cell that is taken from the open set has been reached on a shortest path.
proof fn lemma_settled<S: Scalar>(
    g: GridMap<S>,
    infl: i64,
    start: Place,
    goal: Place,
    m: Marks,
    open: Multiset<OpenCell>,
    paths: Map<Place, Seq<Place>>,
    n: nat,
    e: OpenCell,
)
    requires
        searchable(g, infl),
        g.params.covers(goal.0, goal.1),
        n <= GRID_LIMIT,
        searching(g, infl, start, goal, m, open, paths, n, None),
        open.count(e) > 0,
        forall|d: OpenCell| #[trigger] open.count(d) > 0 ==> e.first(d),
        !closed(m, e.cell),
    ensures
        settled(g, infl, start, m, e.cell),
{
    let u = e.cell;
    let a = mark(m, u).g.a as int;
    let b = mark(m, u).g.b as int;
    assert(known(m, u));
    lemma_traced_passable(g, infl, start, m, paths, u);
    reveal(settled);
    assert forall|q: Seq<Place>| #[trigger] leads(g, infl, q, start, u) implies upto(
        a,
        b,
        length(q).0,
        length(q).1,
    ) by {
        let y = lemma_frontier(g, infl, start, goal, m, open, paths, n, q, u);
        lemma_traced_passable(g, infl, start, m, paths, y);
        lemma_entry(g, m, goal, u, n);
        lemma_entry(g, m, goal, y, n);
        let fu = entry_of(m, goal, u).f;
        let fy = entry_of(m, goal, y).f;
        assert(open.count(entry_of(m, goal, y)) > 0);
        assert(e.first(entry_of(m, goal, y)));
        fu.lemma_trans(e.f, fy);
        let h = estimate(u, goal);
        lemma_below_trans(
            a + h.0,
            b + h.1,
            fy.a as int,
            fy.b as int,
            length(q).0 + h.0,
            length(q).1 + h.1,
        );
        lemma_shift(a + h.0, b + h.1, length(q).0 + h.0, length(q).1 + h.1, -h.0, -h.1);
    }
}

/// The mark of `v` when it is reached from `u`.
spec fn stepped(m: Marks, u: Place, v: Place) -> Mark {
    let w = step_length(u, v);
    Mark {
        g: Root2 { a: (mark(m, u).g.a + w.0) as i64, b: (mark(m, u).g.b + w.1) as i64 },
        from: u,
        closed: false,
    }
}

/// Taking a short cut from the busy cell keeps the invariant.
proof fn lemma_relax<S: Scalar>(
    g: GridMap<S>,
    infl: i64,
    start: Place,
    goal: Place,
    m: Marks,
    open: Multiset<OpenCell>,
    paths: Map<Place, Seq<Place>>,
    n: nat,
    u: Place,
    v: Place,
) -> (paths2: Map<Place, Seq<Place>>)
    requires
        searchable(g, infl),
        g.params.covers(goal.0, goal.1),
        n <= GRID_LIMIT,
        searching(g, infl, start, goal, m, open, paths, n, Some(u)),
        closed(m, u),
        mark(m, u).g.a + mark(m, u).g.b + 1 <= n,
        adjacent(u, v),
        passable(g, infl, v),
        known(m, v) ==> stepped(m, u, v).g.lt(mark(m, v).g),
    ensures
        ({
            let m2 = m.insert((v.0, v.1, 0), stepped(m, u, v));
            &&& searching(
                g,
                infl,
                start,
                goal,
                m2,
                open.insert(entry_of(m2, goal, v)),
                paths2,
                n,
                Some(u),
            )
            &&& relaxed(m2, u, v)
            &&& forall|x: Place| #[trigger] relaxed(m, u, x) ==> relaxed(m2, u, x)
            &&& closed(m2, u)
            &&& forall|c: Place| #[trigger] closed(m2, c) <==> closed(m, c)
            &&& mark(m2, u) == mark(m, u)
            &&& entry_of(m2, goal, v).f.small()
        }),
{
    let m2 = m.insert((v.0, v.1, 0), stepped(m, u, v));
    let paths2 = paths.insert(v, paths[u].push(v));
    lemma_relax_target(g, infl, start, goal, m, open, paths, n, u, v);
    lemma_relax_traced(g, infl, start, goal, m, open, paths, n, u, v);
    lemma_relax_expanded(g, infl, start, goal, m, open, paths, n, u, v);
    lemma_relax_open(g, infl, start, goal, m, open, paths, n, u, v);
    assert(mark(m2, start) == mark(m, start));
    assert(known(m, u));
    paths2
}

/// The paths after a short cut.
proof fn lemma_relax_traced<S: Scalar>(
    g: GridMap<S>,
    infl: i64,
    start: Place,
    goal: Place,
    m: Marks,
    open: Multiset<OpenCell>,
    paths: Map<Place, Seq<Place>>,
    n: nat,
    u: Place,
    v: Place,
)
    requires
        searchable(g, infl),
        g.params.covers(goal.0, goal.1),
        n <= GRID_LIMIT,
        searching(g, infl, start, goal, m, open, paths, n, Some(u)),
        closed(m, u),
        mark(m, u).g.a + mark(m, u).g.b + 1 <= n,
        adjacent(u, v),
        passable(g, infl, v),
        known(m, v) ==> stepped(m, u, v).g.lt(mark(m, v).g),
    ensures
        ({
            let m2 = m.insert((v.0, v.1, 0), stepped(m, u, v));
            let paths2 = paths.insert(v, paths[u].push(v));
            &&& forall|c: Place| #[trigger] known(m2, c) ==> traced(g, infl, start, m2, paths2, c)
            &&& forall|c: Place| #[trigger]
                known(m2, c) ==> 0 <= mark(m2, c).g.a && 0 <= mark(m2, c).g.b && mark(m2, c).g.a
                    + mark(m2, c).g.b <= n
        }),
{
    let m2 = m.insert((v.0, v.1, 0), stepped(m, u, v));
    let paths2 = paths.insert(v, paths[u].push(v));
    lemma_relax_target(g, infl, start, goal, m, open, paths, n, u, v);
    assert(known(m, u));
    assert forall|c: Place| #[trigger] known(m2, c) implies traced(
        g,
        infl,
        start,
        m2,
        paths2,
        c,
    ) by {
        if c != v {
            assert(known(m, c));
            lemma_traced_kept(g, infl, start, m, paths, u, v, c);
        } else {
            lemma_traced_step(g, infl, start, m, paths, u, v);
        }
    }
    assert forall|c: Place| #[trigger] known(m2, c) implies 0 <= mark(m2, c).g.a && 0 <= mark(
        m2,
        c,
    ).g.b && mark(m2, c).g.a + mark(m2, c).g.b <= n by {
        if c != v {
            assert(known(m, c));
        }
    }
}

/// The path of another cell stays as it is.
proof fn lemma_traced_kept<S: Scalar>(
    g: GridMap<S>,
    infl: i64,
    start: Place,
    m: Marks,
    paths: Map<Place, Seq<Place>>,
    u: Place,
    v: Place,
    c: Place,
)
    requires
        traced(g, infl, start, m, paths, c),
        !closed(m, v),
        c != v,
    ensures
        traced(
            g,
            infl,
            start,
            m.insert((v.0, v.1, 0), stepped(m, u, v)),
            paths.insert(v, paths[u].push(v)),
            c,
        ),
{
    reveal(traced);
}

/// The path of the cell that the short cut leads to.
proof fn lemma_traced_step<S: Scalar>(
    g: GridMap<S>,
    infl: i64,
    start: Place,
    m: Marks,
    paths: Map<Place, Seq<Place>>,
    u: Place,
    v: Place,
)
    requires
        traced(g, infl, start, m, paths, u),
        closed(m, u),
        0 <= mark(m, u).g.a <= GRID_LIMIT,
        0 <= mark(m, u).g.b <= GRID_LIMIT,
        adjacent(u, v),
        passable(g, infl, v),
        v != start,
    ensures
        traced(
            g,
            infl,
            start,
            m.insert((v.0, v.1, 0), stepped(m, u, v)),
            paths.insert(v, paths[u].push(v)),
            v,
        ),
{
    reveal(traced);
    assert(u != v);
    lemma_extend(g, infl, paths[u], start, u, v);
}

/// The expanded cells after a short cut.
proof fn lemma_relax_expanded<S: Scalar>(
    g: GridMap<S>,
    infl: i64,
    start: Place,
    goal: Place,
    m: Marks,
    open: Multiset<OpenCell>,
    paths: Map<Place, Seq<Place>>,
    n: nat,
    u: Place,
    v: Place,
)
    requires
        searchable(g, infl),
        g.params.covers(goal.0, goal.1),
        n <= GRID_LIMIT,
        searching(g, infl, start, goal, m, open, paths, n, Some(u)),
        closed(m, u),
        mark(m, u).g.a + mark(m, u).g.b + 1 <= n,
        adjacent(u, v),
        passable(g, infl, v),
        known(m, v) ==> stepped(m, u, v).g.lt(mark(m, v).g),
    ensures
        ({
            let m2 = m.insert((v.0, v.1, 0), stepped(m, u, v));
            &&& forall|c: Place| #[trigger] closed(m2, c) <==> closed(m, c)
            &&& forall|c: Place| #[trigger] closed(m2, c) ==> settled(g, infl, start, m2, c)
            &&& forall|c: Place| #[trigger]
                closed(m2, c) && Some(u) != Some(c) ==> expanded(g, infl, m2, c)
            &&& relaxed(m2, u, v)
            &&& forall|x: Place| #[trigger] relaxed(m, u, x) ==> relaxed(m2, u, x)
        }),
{
    let m2 = m.insert((v.0, v.1, 0), stepped(m, u, v));
    lemma_relax_target(g, infl, start, goal, m, open, paths, n, u, v);
    assert(known(m, u));
    assert forall|c: Place| #[trigger] closed(m2, c) <==> closed(m, c) by {
    }
    assert forall|c: Place| #[trigger] closed(m2, c) implies settled(g, infl, start, m2, c) by {
        assert(closed(m, c));
        assert(settled(g, infl, start, m, c));
        assert(mark(m2, c) == mark(m, c));
        reveal(settled);
    }
    assert forall|c: Place| #[trigger] closed(m2, c) && Some(u) != Some(c) implies expanded(
        g,
        infl,
        m2,
        c,
    ) by {
        assert(closed(m, c));
        assert(expanded(g, infl, m, c));
        reveal(expanded);
        assert forall|x: Place| adjacent(c, x) && #[trigger] passable(g, infl, x) implies relaxed(
            m2,
            c,
            x,
        ) by {
            assert(relaxed(m, c, x));
            lemma_relaxed_kept(m, u, v, c, x);
        }
    }
    assert forall|x: Place| #[trigger] relaxed(m, u, x) implies relaxed(m2, u, x) by {
        lemma_relaxed_kept(m, u, v, u, x);
    }
}

/// The open set after a short cut.
proof fn lemma_relax_open<S: Scalar>(
    g: GridMap<S>,
    infl: i64,
    start: Place,
    goal: Place,
    m: Marks,
    open: Multiset<OpenCell>,
    paths: Map<Place, Seq<Place>>,
    n: nat,
    u: Place,
    v: Place,
)
    requires
        searchable(g, infl),
        g.params.covers(goal.0, goal.1),
        n <= GRID_LIMIT,
        searching(g, infl, start, goal, m, open, paths, n, Some(u)),
        closed(m, u),
        mark(m, u).g.a + mark(m, u).g.b + 1 <= n,
        adjacent(u, v),
        passable(g, infl, v),
        known(m, v) ==> stepped(m, u, v).g.lt(mark(m, v).g),
    ensures
        ({
            let m2 = m.insert((v.0, v.1, 0), stepped(m, u, v));
            let open2 = open.insert(entry_of(m2, goal, v));
            &&& forall|c: Place| #[trigger]
                known(m2, c) && !closed(m2, c) ==> open2.count(entry_of(m2, goal, c)) > 0
            &&& forall|e: OpenCell| #[trigger]
                open2.count(e) > 0 ==> known(m2, e.cell) && entry_of(m2, goal, e.cell).f.le(e.f)
            &&& entry_of(m2, goal, v).f.small()
        }),
{
    let k2 = stepped(m, u, v);
    let m2 = m.insert((v.0, v.1, 0), k2);
    let e2 = entry_of(m2, goal, v);
    let open2 = open.insert(e2);
    lemma_relax_target(g, infl, start, goal, m, open, paths, n, u, v);
    assert(known(m, u));
    assert forall|c: Place| #[trigger] known(m2, c) && !closed(m2, c) implies open2.count(
        entry_of(m2, goal, c),
    ) > 0 by {
        if c != v {
            assert(known(m, c) && !closed(m, c));
            assert(entry_of(m2, goal, c) == entry_of(m, goal, c));
            assert(open.count(entry_of(m, goal, c)) > 0);
        }
    }
    lemma_entry(g, m2, goal, v, n);
    assert forall|e: OpenCell| #[trigger] open2.count(e) > 0 implies known(m2, e.cell) && entry_of(
        m2,
        goal,
        e.cell,
    ).f.le(e.f) by {
        if open.count(e) > 0 {
            assert(known(m, e.cell));
            if e.cell == v {
                assert(entry_of(m, goal, v).f.le(e.f));
                lemma_entry(g, m, goal, v, n);
                let h = estimate(v, goal);
                lemma_shift(
                    k2.g.a as int,
                    k2.g.b as int,
                    mark(m, v).g.a as int,
                    mark(m, v).g.b as int,
                    h.0,
                    h.1,
                );
                e2.f.lemma_trans(entry_of(m, goal, v).f, e.f);
            } else {
                assert(entry_of(m2, goal, e.cell) == entry_of(m, goal, e.cell));
            }
        } else {
            assert(e == e2);
        }
    }
}

/// A short cut leads to a cell that is neither the start nor expanded.
proof fn lemma_relax_target<S: Scalar>(
    g: GridMap<S>,
    infl: i64,
    start: Place,
    goal: Place,
    m: Marks,
    open: Multiset<OpenCell>,
    paths: Map<Place, Seq<Place>>,
    n: nat,
    u: Place,
    v: Place,
)
    requires
        n <= GRID_LIMIT,
        searching(g, infl, start, goal, m, open, paths, n, Some(u)),
        closed(m, u),
        adjacent(u, v),
        passable(g, infl, v),
        known(m, v) ==> stepped(m, u, v).g.lt(mark(m, v).g),
    ensures
        v != start,
        !closed(m, v),
        u != v,
{
    let k2 = stepped(m, u, v);
    assert(known(m, u));
    if v == start {
        reveal(positive);
        assert(!positive(0 - k2.g.a, 0 - k2.g.b));
    }
    if closed(m, v) {
        assert(traced(g, infl, start, m, paths, u));
        assert(settled(g, infl, start, m, v));
        lemma_no_shortcut(g, infl, start, m, paths, u, v);
    }
}

/// No short cut leads to a cell that was reached on a shortest path.
proof fn lemma_no_shortcut<S: Scalar>(
    g: GridMap<S>,
    infl: i64,
    start: Place,
    m: Marks,
    paths: Map<Place, Seq<Place>>,
    u: Place,
    v: Place,
)
    requires
        traced(g, infl, start, m, paths, u),
        settled(g, infl, start, m, v),
        adjacent(u, v),
        passable(g, infl, v),
        0 <= mark(m, u).g.a <= GRID_LIMIT,
        0 <= mark(m, u).g.b <= GRID_LIMIT,
    ensures
        !stepped(m, u, v).g.lt(mark(m, v).g),
{
    let q = paths[u].push(v);
    lemma_traced_ends(g, infl, start, m, paths, u);
    lemma_extend(g, infl, paths[u], start, u, v);
    assert(upto(mark(m, v).g.a as int, mark(m, v).g.b as int, length(q).0, length(q).1)) by {
        reveal(settled);
    }
    stepped(m, u, v).g.lemma_total(mark(m, v).g);
}

/// A shorter mark of `v` keeps every relation to it.
proof fn lemma_relaxed_kept(m: Marks, u: Place, v: Place, x: Place, y: Place)
    requires
        known(m, v) ==> stepped(m, u, v).g.lt(mark(m, v).g),
        x != v,
        relaxed(m, x, y),
    ensures
        relaxed(m.insert((v.0, v.1, 0), stepped(m, u, v)), x, y),
{
    if y == v {
        let k2 = stepped(m, u, v);
        let wx = step_length(x, v);
        lemma_below_trans(
            k2.g.a as int,
            k2.g.b as int,
            mark(m, v).g.a as int,
            mark(m, v).g.b as int,
            mark(m, x).g.a + wx.0,
            mark(m, x).g.b + wx.1,
        );
    }
}

/// Closing a cell makes it the busy one.
proof fn lemma_close<S: Scalar>(
    g: GridMap<S>,
    infl: i64,
    start: Place,
    goal: Place,
    m: Marks,
    open: Multiset<OpenCell>,
    paths: Map<Place, Seq<Place>>,
    n: nat,
    e: OpenCell,
)
    requires
        searchable(g, infl),
        g.params.covers(goal.0, goal.1),
        n < GRID_LIMIT,
        searching(g, infl, start, goal, m, open, paths, n, None),
        open.count(e) > 0,
        forall|d: OpenCell| #[trigger] open.count(d) > 0 ==> e.first(d),
        !closed(m, e.cell),
        e.cell != goal,
    ensures
        searching(
            g,
            infl,
            start,
            goal,
            m.insert((e.cell.0, e.cell.1, 0), Mark { closed: true, ..mark(m, e.cell) }),
            open.remove(e),
            paths,
            (n + 1) as nat,
            Some(e.cell),
        ),
{
    let u = e.cell;
    let m2 = m.insert((u.0, u.1, 0), Mark { closed: true, ..mark(m, u) });
    lemma_settled(g, infl, start, goal, m, open, paths, n, e);
    assert(known(m, u));
    assert forall|c: Place| #[trigger] known(m2, c) == known(m, c) by {
    }
    assert forall|c: Place| #[trigger] mark(m2, c).g == mark(m, c).g && mark(m2, c).from == mark(
        m,
        c,
    ).from by {
    }
    assert forall|c: Place| #[trigger] closed(m2, c) <==> closed(m, c) || c == u by {
    }
    assert forall|c: Place| #[trigger] known(m2, c) implies traced(
        g,
        infl,
        start,
        m2,
        paths,
        c,
    ) by {
        assert(known(m, c));
        assert(traced(g, infl, start, m, paths, c));
        reveal(traced);
        if c != start {
            assert(closed(m, mark(m, c).from));
            assert(closed(m2, mark(m, c).from));
        }
    }
    assert forall|c: Place| #[trigger] known(m2, c) implies 0 <= mark(m2, c).g.a && 0 <= mark(
        m2,
        c,
    ).g.b && mark(m2, c).g.a + mark(m2, c).g.b <= n + 1 by {
        assert(known(m, c));
    }
    assert forall|c: Place| #[trigger] closed(m2, c) implies settled(g, infl, start, m2, c) by {
        assert(closed(m, c) || c == u);
        assert(settled(g, infl, start, m, c));
        reveal(settled);
    }
    assert forall|c: Place| #[trigger] closed(m2, c) && Some(u) != Some(c) implies expanded(
        g,
        infl,
        m2,
        c,
    ) by {
        assert(closed(m, c));
        assert(expanded(g, infl, m, c));
        reveal(expanded);
        assert forall|x: Place| adjacent(c, x) && #[trigger] passable(g, infl, x) implies relaxed(
            m2,
            c,
            x,
        ) by {
            assert(relaxed(m, c, x));
        }
    }
    assert forall|c: Place| #[trigger] known(m2, c) && !closed(m2, c) implies open.remove(e).count(
        entry_of(m2, goal, c),
    ) > 0 by {
        assert(known(m, c) && !closed(m, c));
        assert(entry_of(m2, goal, c) == entry_of(m, goal, c));
        assert(open.count(entry_of(m, goal, c)) > 0);
    }
    assert forall|d: OpenCell| #[trigger] open.remove(e).count(d) > 0 implies known(m2, d.cell)
        && entry_of(m2, goal, d.cell).f.le(d.f) by {
        assert(open.count(d) > 0);
        assert(entry_of(m2, goal, d.cell) == entry_of(m, goal, d.cell));
    }
}

/// What a search between two cells ends with.
#[derive(Clone, Debug)]
pub enum Outcome {
    /// The cells of a shortest path.
    Found(Vec<Place>),
    /// No path exists.
    Unreachable,
    /// More cells were expanded than allowed.
    Exhausted,
}

/// The lengths of the paths that a search of `max_expansions` cells tries are within
/// the limits of their arithmetic: so many cells are not expanded, or the grid does not
/// have them.
pub open spec fn countable<S: Scalar>(g: GridMap<S>, max_expansions: usize) -> bool {
    max_expansions < GRID_LIMIT || g.params.ncols() * g.params.nrows() < GRID_LIMIT
}

/// A grid has no more cells than its extent says.
proof fn lemma_cells_of_grid(done: Set<Place>, w: int, h: int)
    requires
        done.finite(),
        w > 0,
        h > 0,
        forall|c: Place| #[trigger] done.contains(c) ==> 0 <= c.0 < w && 0 <= c.1 < h,
    ensures
        done.len() <= w * h,
{
    let f = |c: Place| c.1 * w + c.0;
    let image = done.map(f);
    assert forall|a: Place, b: Place|
        done.contains(a) && done.contains(b) && #[trigger] f(a) == #[trigger] f(b) implies a == b by {
        let (a0, a1, b0, b1) = (a.0 as int, a.1 as int, b.0 as int, b.1 as int);
        assert(a0 == b0 && a1 == b1) by (nonlinear_arith)
            requires
                0 <= a0 < w,
                0 <= b0 < w,
                a1 * w + a0 == b1 * w + b0,
        ;
    }
    vstd::set_lib::lemma_map_size(done, image, f);
    assert(0 <= w * h) by (nonlinear_arith)
        requires
            w > 0,
            h > 0,
    ;
    vstd::set_lib::lemma_int_range(0, w * h);
    assert forall|k: int| #[trigger] image.contains(k) implies vstd::set_lib::set_int_range(
        0,
        w * h,
    ).contains(k) by {
        let c = choose|c: Place| done.contains(c) && f(c) == k;
        let (c0, c1) = (c.0 as int, c.1 as int);
        assert(0 <= c1 * w + c0 < w * h) by (nonlinear_arith)
            requires
                0 <= c0 < w,
                0 <= c1 < h,
        ;
    }
    vstd::set_lib::lemma_len_subset(image, vstd::set_lib::set_int_range(0, w * h));
}

fn estimate_of(c: Place, goal: Place) -> (r: Root2)
    requires
        0 <= c.0 < GRID_LIMIT,
        0 <= c.1 < GRID_LIMIT,
        0 <= goal.0 < GRID_LIMIT,
        0 <= goal.1 < GRID_LIMIT,
    ensures
        (r.a as int, r.b as int) == estimate(c, goal),
        0 <= -r.a <= r.b <= GRID_LIMIT,
{
    let dx: i64 = if c.0 < goal.0 {
        goal.0 - c.0
    } else {
        c.0 - goal.0
    };
    let dy: i64 = if c.1 < goal.1 {
        goal.1 - c.1
    } else {
        c.1 - goal.1
    };
    if dx < dy {
        Root2 { a: dx - dy, b: dy }
    } else {
        Root2 { a: dy - dx, b: dx }
    }
}

/// Walks back from `goal` over the cells that the marks name.
fn reconstruct<S: Scalar>(
    marks: &CellMap<Mark>,
    start: Place,
    goal: Place,
    Ghost(g): Ghost<GridMap<S>>,
    Ghost(infl): Ghost<i64>,
    Ghost(paths): Ghost<Map<Place, Seq<Place>>>,
) -> (r: Vec<Place>)
    requires
        marks.wf(),
        known(marks@, goal),
        forall|c: Place| #[trigger]
            known(marks@, c) ==> traced(g, infl, start, marks@, paths, c),
    ensures
        r@ == paths[goal],
{
    let ghost all = paths[goal];
    let mut back: Vec<Place> = Vec::new();
    back.push(goal);
    let mut cur: Place = goal;
    let ghost mut n: int = all.len() - 1;
    assert(traced(g, infl, start, marks@, paths, goal));
    proof {
        reveal(traced);
        assert(all.take(n + 1) =~= all);
    }
    while cur.0 != start.0 || cur.1 != start.1
        invariant
            marks.wf(),
            known(marks@, cur),
            forall|c: Place| #[trigger]
                known(marks@, c) ==> traced(g, infl, start, marks@, paths, c),
            0 <= n < all.len(),
            paths[cur] == all.take(n + 1),
            back@.len() == all.len() - n,
            forall|i: int| 0 <= i < back@.len() ==> #[trigger] back@[i] == all[all.len() - 1 - i],
        decreases n,
    {
        proof {
            lemma_traced_back(g, infl, start, marks@, paths, cur);
        }
        match marks.get((cur.0, cur.1, 0)) {
            Some(k) => {
                let ghost was = cur;
                cur = k.from;
                back.push(cur);
                proof {
                    let p = paths[was];
                    assert(p == paths[cur].push(was));
                    assert(paths[cur] =~= all.take(n)) by {
                        assert(paths[cur] =~= p.drop_last());
                        assert(p.drop_last() =~= all.take(n));
                    }
                    assert(paths[cur].len() > 0);
                    assert(all[n - 1] == cur) by {
                        assert(paths[cur][paths[cur].len() - 1] == cur);
                    }
                    n = n - 1;
                }
            },
            None => {
                return back;
            },
        }
    }
    let mut r: Vec<Place> = Vec::new();
    proof {
        lemma_traced_start(g, infl, start, marks@, paths, cur);
        assert(n == 0);
    }
    let len: usize = back.len();
    let mut i: usize = 0;
    while i < len
        invariant
            i <= len,
            len == back@.len(),
            back@.len() == all.len(),
            forall|j: int| 0 <= j < back@.len() ==> #[trigger] back@[j] == all[all.len() - 1 - j],
            r@ == all.take(i as int),
        decreases len - i,
    {
        r.push(back[len - 1 - i]);
        i = i + 1;
        assert(r@ =~= all.take(i as int));
    }
    assert(r@ =~= all);
    r
}

/// The cell before `c` on its path.
proof fn lemma_traced_back<S: Scalar>(
    g: GridMap<S>,
    infl: i64,
    start: Place,
    m: Marks,
    paths: Map<Place, Seq<Place>>,
    c: Place,
)
    requires
        traced(g, infl, start, m, paths, c),
        forall|d: Place| #[trigger] known(m, d) ==> traced(g, infl, start, m, paths, d),
        c != start,
    ensures
        known(m, mark(m, c).from),
        paths[c] == paths[mark(m, c).from].push(c),
        paths[mark(m, c).from].len() > 0,
        paths[mark(m, c).from][paths[mark(m, c).from].len() - 1] == mark(m, c).from,
{
    let f = mark(m, c).from;
    assert(closed(m, f) && paths[c] == paths[f].push(c)) by {
        reveal(traced);
    }
    assert(traced(g, infl, start, m, paths, f));
    lemma_traced_ends(g, infl, start, m, paths, f);
}

proof fn lemma_traced_ends<S: Scalar>(
    g: GridMap<S>,
    infl: i64,
    start: Place,
    m: Marks,
    paths: Map<Place, Seq<Place>>,
    c: Place,
)
    requires
        traced(g, infl, start, m, paths, c),
    ensures
        leads(g, infl, paths[c], start, c),
        length(paths[c]) == (mark(m, c).g.a as int, mark(m, c).g.b as int),
{
    reveal(traced);
}

/// The path of the start is the start alone.
proof fn lemma_traced_start<S: Scalar>(
    g: GridMap<S>,
    infl: i64,
    start: Place,
    m: Marks,
    paths: Map<Place, Seq<Place>>,
    c: Place,
)
    requires
        traced(g, infl, start, m, paths, c),
        c == start,
    ensures
        paths[c].len() == 1,
{
    reveal(traced);
}

/// Searches a shortest path between two cells.
pub fn find_path<S: Scalar>(
    g: &GridMap<S>,
    start: Place,
    goal: Place,
    infl: i64,
    max_expansions: usize,
) -> (r: Outcome)
    requires
        searchable(*g, infl),
        passable(*g, infl, start),
        passable(*g, infl, goal),
        countable(*g, max_expansions),
    ensures
        match r {
            Outcome::Found(p) => shortest(*g, infl, p@, start, goal),
            Outcome::Unreachable => !reachable(*g, infl, start, goal),
            Outcome::Exhausted => crowded(*g, infl, start, max_expansions as nat),
        },
{
    let max: u64 = max_expansions as u64;
    let mut marks: CellMap<Mark> = CellMap::new();
    let mut open: OpenSet = OpenSet::new();
    let h0: Root2 = estimate_of(start, goal);
    marks.insert(
        (start.0, start.1, 0),
        Mark { g: Root2 { a: 0, b: 0 }, from: start, closed: false },
    );
    open.push(OpenCell { cell: start, f: h0 });
    let ghost mut paths: Map<Place, Seq<Place>> = Map::empty().insert(start, seq![start]);
    let ghost mut done: Set<Place> = Set::empty();
    let mut n: u64 = 0;
    proof {
        lemma_start(*g, infl, start, goal, marks@, open@, paths);
    }
    loop
        invariant
            searchable(*g, infl),
            passable(*g, infl, start),
            passable(*g, infl, goal),
            max == max_expansions,
            countable(*g, max_expansions),
            n <= max,
            n < GRID_LIMIT,
            marks.wf(),
            open.wf(),
            searching(*g, infl, start, goal, marks@, open@, paths, n as nat, None),
            done.finite(),
            done.len() == n,
            forall|c: Place| #[trigger] done.contains(c) <==> closed(marks@, c),
        decreases max - n, open@.len(),
    {
        let ghost before = open@;
        let e: OpenCell = match open.pop() {
            Some(e) => e,
            None => {
                proof {
                    lemma_exhausted(*g, infl, start, goal, marks@, before, paths, n as nat);
                }
                return Outcome::Unreachable;
            },
        };
        let u: Place = e.cell;
        assert(known(marks@, u));
        let k: Mark = match marks.get((u.0, u.1, 0)) {
            Some(k) => k,
            None => {
                return Outcome::Unreachable;
            },
        };
        if u.0 == goal.0 && u.1 == goal.1 {
            proof {
                lemma_settled(*g, infl, start, goal, marks@, before, paths, n as nat, e);
                lemma_traced_ends(*g, infl, start, marks@, paths, goal);
                reveal(settled);
            }
            let p: Vec<Place> = reconstruct::<S>(
                &marks,
                start,
                goal,
                Ghost(*g),
                Ghost(infl),
                Ghost(paths),
            );
            return Outcome::Found(p);
        }
        if !k.closed {
            if n >= max {
                proof {
                    lemma_crowded(
                        *g,
                        infl,
                        start,
                        goal,
                        marks@,
                        before,
                        paths,
                        n as nat,
                        done,
                        u,
                    );
                }
                return Outcome::Exhausted;
            }
            proof {
                lemma_close(*g, infl, start, goal, marks@, before, paths, n as nat, e);
                lemma_traced_passable(*g, infl, start, marks@, paths, u);
                assert(!done.contains(u));
                if max >= GRID_LIMIT {
                    let more = done.insert(u);
                    assert forall|c: Place| #[trigger] more.contains(c) implies 0 <= c.0
                        < g.params.ncols() && 0 <= c.1 < g.params.nrows() by {
                        assert(known(marks@, c));
                        lemma_traced_passable(*g, infl, start, marks@, paths, c);
                    }
                    lemma_cells_of_grid(
                        more,
                        g.params.ncols() as int,
                        g.params.nrows() as int,
                    );
                }
            }
            let ghost m0 = marks@;
            marks.insert((u.0, u.1, 0), Mark { g: k.g, from: k.from, closed: true });
            n = n + 1;
            proof {
                done = done.insert(u);
                assert forall|c: Place| #[trigger] done.contains(c) <==> closed(marks@, c) by {
                    assert(closed(marks@, c) <==> closed(m0, c) || c == u);
                }
                assert(k.g.a + k.g.b + 1 <= n);
            }
            let mut i: usize = 0;
            while i < 8
                invariant
                    i <= 8,
                    searchable(*g, infl),
                    passable(*g, infl, start),
                    passable(*g, infl, goal),
                    passable(*g, infl, u),
                    n < GRID_LIMIT,
                    marks.wf(),
                    open.wf(),
                    searching(*g, infl, start, goal, marks@, open@, paths, n as nat, Some(u)),
                    closed(marks@, u),
                    mark(marks@, u).g == k.g,
                    0 <= k.g.a,
                    0 <= k.g.b,
                    k.g.a + k.g.b + 1 <= n,
                    forall|c: Place| #[trigger] done.contains(c) <==> closed(marks@, c),
                    forall|j: int, v: Place|
                        0 <= j < i && #[trigger] neighbor_of(u, j) == (v.0 as int, v.1 as int)
                            && #[trigger] passable(*g, infl, v) ==> relaxed(marks@, u, v),
                decreases 8 - i,
            {
                let v: Place = neighbor(u, i);
                if g.in_bounds(v.0, v.1) && traversable(g, v, infl) {
                    let tent: Root2 = if u.0 != v.0 && u.1 != v.1 {
                        Root2 { a: k.g.a, b: k.g.b + 1 }
                    } else {
                        Root2 { a: k.g.a + 1, b: k.g.b }
                    };
                    assert(passable(*g, infl, v));
                    assert(tent == stepped(marks@, u, v).g);
                    let better: bool = match marks.get((v.0, v.1, 0)) {
                        Some(old) => {
                            assert(known(marks@, v));
                            tent.less(old.g)
                        },
                        None => true,
                    };
                    if better {
                        let ghost m1 = marks@;
                        let ghost open1 = open@;
                        let h: Root2 = estimate_of(v, goal);
                        proof {
                            paths = lemma_relax(
                                *g,
                                infl,
                                start,
                                goal,
                                m1,
                                open1,
                                paths,
                                n as nat,
                                u,
                                v,
                            );
                        }
                        marks.insert((v.0, v.1, 0), Mark { g: tent, from: u, closed: false });
                        let f: Root2 = Root2 { a: tent.a + h.a, b: tent.b + h.b };
                        assert(OpenCell { cell: v, f } == entry_of(marks@, goal, v));
                        open.push(OpenCell { cell: v, f });
                    } else {
                        proof {
                            assert(known(marks@, v));
                            tent.lemma_total(mark(marks@, v).g);
                            assert(relaxed(marks@, u, v));
                        }
                    }
                }
                i = i + 1;
            }
            proof {
                lemma_expanded(*g, infl, marks@, u);
                assert(searching(*g, infl, start, goal, marks@, open@, paths, n as nat, None));
            }
        } else {
            proof {
                lemma_stale(*g, infl, start, goal, marks@, before, paths, n as nat, e);
            }
        }
    }
}

/// With nothing left open, the goal cannot be reached.
proof fn lemma_exhausted<S: Scalar>(
    g: GridMap<S>,
    infl: i64,
    start: Place,
    goal: Place,
    m: Marks,
    open: Multiset<OpenCell>,
    paths: Map<Place, Seq<Place>>,
    n: nat,
)
    requires
        searchable(g, infl),
        g.params.covers(goal.0, goal.1),
        n <= GRID_LIMIT,
        searching(g, infl, start, goal, m, open, paths, n, None),
        open == Multiset::<OpenCell>::empty(),
    ensures
        !reachable(g, infl, start, goal),
{
    if reachable(g, infl, start, goal) {
        let q = choose|q: Seq<Place>| leads(g, infl, q, start, goal);
        let y = lemma_frontier(g, infl, start, goal, m, open, paths, n, q, goal);
        assert(open.count(entry_of(m, goal, y)) > 0);
    }
}

/// The expanded cells and one more can be reached.
proof fn lemma_crowded<S: Scalar>(
    g: GridMap<S>,
    infl: i64,
    start: Place,
    goal: Place,
    m: Marks,
    open: Multiset<OpenCell>,
    paths: Map<Place, Seq<Place>>,
    n: nat,
    done: Set<Place>,
    u: Place,
)
    requires
        searching(g, infl, start, goal, m, open, paths, n, None),
        done.finite(),
        done.len() == n,
        forall|c: Place| #[trigger] done.contains(c) <==> closed(m, c),
        known(m, u),
        !closed(m, u),
    ensures
        crowded(g, infl, start, n),
{
    let s = done.insert(u);
    assert(!done.contains(u));
    assert(s.len() == n + 1);
    assert forall|c: Place| #[trigger] s.contains(c) implies reachable(g, infl, start, c) by {
        assert(known(m, c)) by {
            if c != u {
                assert(done.contains(c));
                assert(closed(m, c));
            }
        }
        lemma_traced_ends(g, infl, start, m, paths, c);
    }
}

/// Every neighbour was looked at, so the cell is expanded.
proof fn lemma_expanded<S: Scalar>(g: GridMap<S>, infl: i64, m: Marks, u: Place)
    requires
        forall|j: int, v: Place|
            0 <= j < 8 && #[trigger] neighbor_of(u, j) == (v.0 as int, v.1 as int)
                && #[trigger] passable(g, infl, v) ==> relaxed(m, u, v),
    ensures
        expanded(g, infl, m, u),
{
    reveal(expanded);
    assert forall|v: Place| adjacent(u, v) && #[trigger] passable(g, infl, v) implies relaxed(
        m,
        u,
        v,
    ) by {
        lemma_neighbors(u, v);
        let j = choose|j: int|
            0 <= j < 8 && #[trigger] neighbor_of(u, j) == (v.0 as int, v.1 as int);
        assert(neighbor_of(u, j) == (v.0 as int, v.1 as int));
    }
}

/// Dropping an entry of an expanded cell keeps the invariant.
proof fn lemma_stale<S: Scalar>(
    g: GridMap<S>,
    infl: i64,
    start: Place,
    goal: Place,
    m: Marks,
    open: Multiset<OpenCell>,
    paths: Map<Place, Seq<Place>>,
    n: nat,
    e: OpenCell,
)
    requires
        searching(g, infl, start, goal, m, open, paths, n, None),
        open.count(e) > 0,
        closed(m, e.cell),
    ensures
        searching(g, infl, start, goal, m, open.remove(e), paths, n, None),
{
    assert forall|c: Place| #[trigger] known(m, c) && !closed(m, c) implies open.remove(e).count(
        entry_of(m, goal, c),
    ) > 0 by {
        assert(open.count(entry_of(m, goal, c)) > 0);
    }
    assert forall|d: OpenCell| #[trigger] open.remove(e).count(d) > 0 implies known(m, d.cell)
        && entry_of(m, goal, d.cell).f.le(d.f) by {
        assert(open.count(d) > 0);
    }
}

/// The invariant holds at the start.
proof fn lemma_start<S: Scalar>(
    g: GridMap<S>,
    infl: i64,
    start: Place,
    goal: Place,
    m: Marks,
    open: Multiset<OpenCell>,
    paths: Map<Place, Seq<Place>>,
)
    requires
        passable(g, infl, start),
        m == Map::<Cell, Mark>::empty().insert(
            (start.0, start.1, 0),
            Mark { g: Root2 { a: 0, b: 0 }, from: start, closed: false },
        ),
        open == Multiset::<OpenCell>::empty().insert(entry_of(m, goal, start)),
        paths == Map::<Place, Seq<Place>>::empty().insert(start, seq![start]),
    ensures
        searching(g, infl, start, goal, m, open, paths, 0, None),
{
    assert forall|c: Place| #[trigger] known(m, c) implies traced(g, infl, start, m, paths, c) by {
        reveal(traced);
    }
}

/// The inflation distance in cells.
pub open spec fn inflation_cells<S: Scalar>(g: GridMap<S>, inflation: S) -> i64 {
    inflation.over_spec(g.params.resolution).ceil_spec().to_index_spec()
}

/// How many steps away a blocked end of a path may be moved: one meter, at least
/// four cells.
pub open spec fn snap_limit<S: Scalar>(g: GridMap<S>) -> nat {
    let n = S::ratio_spec(1, 1).over_spec(g.params.resolution).ceil_spec().to_index_spec();
    if n < 4 {
        4
    } else {
        n as nat
    }
}

/// The waypoints in the middle of the cells.
pub open spec fn waypoints<S: Scalar>(g: GridMap<S>, cells: Seq<Place>) -> Seq<Waypoint<S>> {
    cells.map_values(
        |c: Place|
            Waypoint {
                x: g.params.center_of(c.0, c.1).0,
                y: g.params.center_of(c.0, c.1).1,
            },
    )
}

/// `path` runs through the middles of the cells of a shortest path between cells
/// that may be entered and are as near to the two ends as possible.
pub open spec fn planned<S: Scalar>(
    g: GridMap<S>,
    infl: i64,
    from: Place,
    to: Place,
    path: Seq<Waypoint<S>>,
) -> bool {
    exists|u: Place, v: Place, cells: Seq<Place>|
        {
            &&& nearest_free(g, infl, from, snap_limit(g), u)
            &&& nearest_free(g, infl, to, snap_limit(g), v)
            &&& #[trigger] shortest(g, infl, cells, u, v)
            &&& path == waypoints(g, cells)
        }
}

/// Why there is no path: an end is off the grid, no cell near an end may be
/// entered, no path exists between such cells, or too many can be reached.
pub open spec fn no_plan<S: Scalar>(
    g: GridMap<S>,
    infl: i64,
    from: Place,
    to: Place,
    max_expansions: usize,
) -> bool {
    ||| !g.params.covers(from.0, from.1)
    ||| !g.params.covers(to.0, to.1)
    ||| none_free(g, infl, from, snap_limit(g))
    ||| none_free(g, infl, to, snap_limit(g))
    ||| exists|u: Place, v: Place|
        #![trigger nearest_free(g, infl, from, snap_limit(g), u), nearest_free(g, infl, to, snap_limit(g), v)]
        nearest_free(g, infl, from, snap_limit(g), u) && nearest_free(
            g,
            infl,
            to,
            snap_limit(g),
            v,
        ) && (!reachable(g, infl, u, v) || crowded(g, infl, u, max_expansions as nat))
}

/// Plans a shortest path from `start` to `goal`, both ends included.
///
/// An end that lies in a blocked cell is moved to the nearest cell that may be
/// entered. Returns `None` if no path exists or the search takes too long.
pub fn astar<S: Scalar>(
    grid: &GridMap<S>,
    start: Waypoint<S>,
    goal: Waypoint<S>,
    opts: &AStarOptions<S>,
) -> (r: Option<Vec<Waypoint<S>>>)
    requires
        searchable(*grid, inflation_cells(*grid, opts.inflation)),
        snap_limit(*grid) <= usize::MAX,
        countable(*grid, opts.max_expansions),
    ensures
        ({
            let infl = inflation_cells(*grid, opts.inflation);
            let from = grid.params.cell_of(start.x, start.y);
            let to = grid.params.cell_of(goal.x, goal.y);
            match r {
                Some(path) => planned(*grid, infl, from, to, path@),
                None => no_plan(*grid, infl, from, to, opts.max_expansions),
            }
        }),
{
    let res: S = grid.params.resolution;
    let infl: i64 = opts.inflation.over(res).ceil().to_index();
    let from: Place = grid.world_to_cell(start.x, start.y);
    let to: Place = grid.world_to_cell(goal.x, goal.y);
    if !grid.in_bounds(from.0, from.1) || !grid.in_bounds(to.0, to.1) {
        return None;
    }
    let n: i64 = S::ratio(1, 1).over(res).ceil().to_index();
    let snap_max: usize = if n < 4 {
        4
    } else {
        n as usize
    };
    let u: Place = match snap_to_free(grid, from, infl, snap_max) {
        Some(u) => u,
        None => {
            return None;
        },
    };
    let v: Place = match snap_to_free(grid, to, infl, snap_max) {
        Some(v) => v,
        None => {
            return None;
        },
    };
    match find_path(grid, u, v, infl, opts.max_expansions) {
        Outcome::Found(cells) => {
            let mut path: Vec<Waypoint<S>> = Vec::new();
            let mut i: usize = 0;
            while i < cells.len()
                invariant
                    i <= cells@.len(),
                    path@ == waypoints(*grid, cells@.take(i as int)),
                decreases cells@.len() - i,
            {
                let w = grid.cell_to_world(cells[i].0, cells[i].1);
                path.push(Waypoint { x: w[0], y: w[1] });
                i = i + 1;
                assert(path@ =~= waypoints(*grid, cells@.take(i as int)));
            }
            assert(cells@.take(i as int) =~= cells@);
            Some(path)
        },
        _ => None,
    }
}

/// A path that was found starts and ends where it should.
pub proof fn law_path_ends<S: Scalar>(
    g: GridMap<S>,
    infl: i64,
    from: Place,
    to: Place,
    path: Seq<Waypoint<S>>,
)
    requires
        planned(g, infl, from, to, path),
        passable(g, infl, from),
        passable(g, infl, to),
    ensures
        path.len() > 0,
        (path[0].x, path[0].y) == g.params.center_of(from.0, from.1),
        (path[path.len() - 1].x, path[path.len() - 1].y) == g.params.center_of(to.0, to.1),
{
    let (u, v, cells) = choose|u: Place, v: Place, cells: Seq<Place>|
        {
            &&& nearest_free(g, infl, from, snap_limit(g), u)
            &&& nearest_free(g, infl, to, snap_limit(g), v)
            &&& #[trigger] shortest(g, infl, cells, u, v)
            &&& path == waypoints(g, cells)
        };
    assert(steps_between(from, u) <= steps_between(from, from));
    assert(steps_between(to, v) <= steps_between(to, to));
}

/// A path that was found runs through the middles of cells that may be entered,
/// each next to the one before it.
pub proof fn law_path_is_clear<S: Scalar>(
    g: GridMap<S>,
    infl: i64,
    from: Place,
    to: Place,
    path: Seq<Waypoint<S>>,
)
    requires
        planned(g, infl, from, to, path),
    ensures
        exists|cells: Seq<Place>|
            {
                &&& #[trigger] is_path(g, infl, cells)
                &&& path == waypoints(g, cells)
            },
{
    let (u, v, cells) = choose|u: Place, v: Place, cells: Seq<Place>|
        {
            &&& nearest_free(g, infl, from, snap_limit(g), u)
            &&& nearest_free(g, infl, to, snap_limit(g), v)
            &&& #[trigger] shortest(g, infl, cells, u, v)
            &&& path == waypoints(g, cells)
        };
    assert(is_path(g, infl, cells));
}

/// A search that may expand as many cells as can be reached is not given up.
pub proof fn law_not_crowded<S: Scalar>(g: GridMap<S>, infl: i64, u: Place, all: Set<Place>, n: nat)
    requires
        all.finite(),
        all.len() <= n,
        forall|c: Place| #[trigger] reachable(g, infl, u, c) ==> all.contains(c),
    ensures
        !crowded(g, infl, u, n),
{
    if crowded(g, infl, u, n) {
        let s = choose|s: Set<Place>|
            #![trigger s.len()]
            s.finite() && s.len() > n && forall|c: Place| #[trigger]
                s.contains(c) ==> reachable(g, infl, u, c);
        assert(s.subset_of(all));
        vstd::set_lib::lemma_len_subset(s, all);
    }
}

} // verus!
