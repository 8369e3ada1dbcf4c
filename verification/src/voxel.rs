//! A sparse occupancy map of space, and thinning of clouds by voxels.
//!
//! Points of the world fall into cubes of equal size. [`VoxelMap`] keeps a
//! log-odds value for each cube that was hit; it has no bounds and grows with
//! the explored space. [`voxel_downsample`] replaces the points within each
//! cube by their mean.
pub mod laws;

use crate::cell_map::{distinct, Cell, CellMap};
use crate::grid::{probability, to_probability, Point3};
use crate::scalar::{le, lesser_of, lesser_spec, lt, whole, zero, Scalar};
use crate::types::{zero_point, PointType};
use vstd::prelude::*;

verus! {

/// Configuration of a [`VoxelMap`].
#[derive(Clone, Copy, Debug)]
pub struct VoxelMapParams<S> {
    /// Edge length of a voxel in meters.
    pub resolution: S,
    /// Log-odds increment of a voxel that was hit.
    pub occ_log_odds: S,
    /// Bound of the log-odds.
    pub saturate: S,
}

impl<S: Scalar> Default for VoxelMapParams<S> {
    fn default() -> (r: Self)
        ensures
            r.resolution == S::ratio_spec(1, 10),
            r.occ_log_odds == S::ratio_spec(3, 5),
            r.saturate == S::ratio_spec(4, 1),
    {
        VoxelMapParams {
            resolution: S::ratio(1, 10),
            occ_log_odds: S::ratio(3, 5),
            saturate: S::ratio(4, 1),
        }
    }
}

/// The index of a coordinate among cells of size `r`.
pub open spec fn slot_of<S: Scalar>(v: S, r: S) -> i64 {
    v.over_spec(r).floor_spec().to_index_spec()
}

/// The voxel that holds a point.
pub open spec fn voxel_of<S: Scalar>(r: S, p: Point3<S>) -> Cell {
    (slot_of(p[0], r), slot_of(p[1], r), slot_of(p[2], r))
}

/// The middle of a cell of size `r`.
pub open spec fn middle_of<S: Scalar>(i: i64, r: S) -> S {
    whole::<S>(i as int).plus_spec(S::ratio_spec(1, 2)).times_spec(r)
}

/// The log-odds of a voxel, zero when it was never hit.
pub open spec fn odds_of<S: Scalar>(m: Map<Cell, S>, c: Cell) -> S {
    if m.contains_key(c) {
        m[c]
    } else {
        zero()
    }
}

/// The voxels after hits at points.
pub open spec fn struck<S: Scalar>(
    p: VoxelMapParams<S>,
    m: Map<Cell, S>,
    points: Seq<Point3<S>>,
) -> Map<Cell, S>
    decreases points.len(),
{
    if points.len() == 0 {
        m
    } else {
        let before = struck(p, m, points.drop_last());
        let c = voxel_of(p.resolution, points.last());
        before.insert(
            c,
            lesser_spec(odds_of(before, c).plus_spec(p.occ_log_odds), p.saturate),
        )
    }
}

/// A sparse occupancy map of space.
#[derive(Debug)]
pub struct VoxelMap<S> {
    pub params: VoxelMapParams<S>,
    pub voxels: CellMap<S>,
}

impl<S: Scalar> Clone for VoxelMap<S> {
    fn clone(&self) -> (r: Self)
        ensures
            r.params == self.params,
            self.wf() ==> r.wf() && r.voxels@ == self.voxels@,
    {
        VoxelMap { params: self.params, voxels: self.voxels.clone() }
    }
}

impl<S: Scalar> VoxelMap<S> {
    /// The invariant: no log-odds value is above a bound that is a number.
    pub open spec fn wf(self) -> bool {
        &&& self.voxels.wf()
        &&& self.params.saturate.is_num() ==> forall|c: Cell| #[trigger]
            self.voxels@.contains_key(c) ==> le(self.voxels@[c], self.params.saturate)
    }

    /// An empty map.
    pub fn new(params: VoxelMapParams<S>) -> (r: Self)
        ensures
            r.wf(),
            r.params == params,
            r.voxels@ == Map::<Cell, S>::empty(),
    {
        VoxelMap { params, voxels: CellMap::new() }
    }

    /// The configuration.
    pub fn params(&self) -> (r: &VoxelMapParams<S>)
        ensures
            *r == self.params,
    {
        &self.params
    }

    /// The voxel that holds a point.
    pub fn world_to_voxel(&self, p: Point3<S>) -> (r: (i64, i64, i64))
        ensures
            r == voxel_of(self.params.resolution, p),
    {
        let r: S = self.params.resolution;
        (
            p[0].over(r).floor().to_index(),
            p[1].over(r).floor().to_index(),
            p[2].over(r).floor().to_index(),
        )
    }

    /// The centre of a voxel.
    pub fn voxel_to_world(&self, i: (i64, i64, i64)) -> (w: Point3<S>)
        ensures
            w[0] == middle_of(i.0, self.params.resolution),
            w[1] == middle_of(i.1, self.params.resolution),
            w[2] == middle_of(i.2, self.params.resolution),
    {
        let r: S = self.params.resolution;
        let half: S = S::ratio(1, 2);
        [
            S::ratio(i.0, 1).plus(half).times(r),
            S::ratio(i.1, 1).plus(half).times(r),
            S::ratio(i.2, 1).plus(half).times(r),
        ]
    }

    /// The log-odds of a voxel.
    pub fn voxel_log_odds(&self, i: (i64, i64, i64)) -> (r: S)
        requires
            self.wf(),
        ensures
            r == odds_of(self.voxels@, i),
    {
        match self.voxels.get(i) {
            Some(v) => v,
            None => S::ratio(0, 1),
        }
    }

    /// The probability that a voxel is occupied; one half when nothing is known.
    pub fn occupancy(&self, i: (i64, i64, i64)) -> (r: S)
        requires
            self.wf(),
        ensures
            r == probability(odds_of(self.voxels@, i)),
    {
        to_probability(self.voxel_log_odds(i))
    }

    /// The probability that the voxel of a point is occupied.
    pub fn occupancy_at(&self, p: Point3<S>) -> (r: S)
        requires
            self.wf(),
        ensures
            r == probability(odds_of(self.voxels@, voxel_of(self.params.resolution, p))),
    {
        self.occupancy(self.world_to_voxel(p))
    }

    /// The voxel of a point is occupied with more than a given probability.
    pub fn is_occupied(&self, p: Point3<S>, threshold: S) -> (r: bool)
        requires
            self.wf(),
        ensures
            r == lt(
                threshold,
                probability(odds_of(self.voxels@, voxel_of(self.params.resolution, p))),
            ),
    {
        threshold.less(self.occupancy_at(p))
    }

    /// Adds hits at points.
    pub fn update(&mut self, points: &[Point3<S>])
        requires
            old(self).wf(),
        ensures
            final(self).wf(),
            final(self).params == old(self).params,
            final(self).voxels@ == struck(old(self).params, old(self).voxels@, points@),
    {
        let mut i: usize = 0;
        assert(points@.take(0) =~= Seq::empty());
        while i < points.len()
            invariant
                i <= points@.len(),
                self.wf(),
                self.params == old(self).params,
                self.voxels@ == struck(old(self).params, old(self).voxels@, points@.take(i as int)),
            decreases points@.len() - i,
        {
            let c: Cell = self.world_to_voxel(points[i]);
            let l: S = self.voxel_log_odds(c).plus(self.params.occ_log_odds);
            self.voxels.insert(c, lesser_of(l, self.params.saturate));
            assert(points@.take(i + 1).drop_last() =~= points@.take(i as int));
            i = i + 1;
        }
        assert(points@.take(i as int) =~= points@);
    }

    /// All voxels that were hit with their log-odds.
    pub fn iter_voxels(&self) -> (r: Vec<((i64, i64, i64), S)>)
        requires
            self.wf(),
        ensures
            r@.len() == self.voxels@.len(),
            distinct(r@),
            forall|i: int|
                0 <= i < r@.len() ==> self.voxels@.contains_key((#[trigger] r@[i]).0)
                    && self.voxels@[r@[i].0] == r@[i].1,
    {
        let n: usize = self.voxels.len();
        let mut r: Vec<((i64, i64, i64), S)> = Vec::new();
        proof {
            self.voxels.lemma_listed();
        }
        let mut i: usize = 0;
        while i < n
            invariant
                i <= n,
                n == self.voxels.listed().len(),
                r@ == self.voxels.listed().take(i as int),
            decreases n - i,
        {
            r.push(self.voxels.entry(i));
            i = i + 1;
            assert(r@ =~= self.voxels.listed().take(i as int));
        }
        assert(r@ =~= self.voxels.listed());
        r
    }

    /// Number of voxels that were hit.
    pub fn voxel_count(&self) -> (r: usize)
        requires
            self.wf(),
        ensures
            r == self.voxels@.len(),
    {
        self.voxels.len()
    }

    /// Forgets every voxel.
    pub fn clear(&mut self)
        ensures
            final(self).wf(),
            final(self).params == old(self).params,
            final(self).voxels@ == Map::<Cell, S>::empty(),
    {
        self.voxels.clear();
    }
}

/// Hits never clear a voxel, and a voxel that no point falls into keeps its
/// value.
pub proof fn law_hits_are_local<S: Scalar>(
    p: VoxelMapParams<S>,
    m: Map<Cell, S>,
    points: Seq<Point3<S>>,
    c: Cell,
)
    ensures
        m.contains_key(c) ==> struck(p, m, points).contains_key(c),
        (forall|i: int| 0 <= i < points.len() ==> voxel_of(p.resolution, #[trigger] points[i]) != c)
            ==> odds_of(struck(p, m, points), c) == odds_of(m, c),
    decreases points.len(),
{
    if points.len() > 0 {
        law_hits_are_local(p, m, points.drop_last(), c);
        assert(points.last() == points[points.len() - 1]);
        assert(forall|i: int|
            0 <= i < points.drop_last().len() ==> points.drop_last()[i] == #[trigger] points[i]);
    }
}

/// The sums over the points of one voxel.
#[derive(Clone, Copy, Debug)]
pub struct Tally<N> {
    pub x: N,
    pub y: N,
    pub z: N,
    pub intensity: N,
    pub curvature: N,
    pub count: usize,
}

/// The sums over no points.
pub open spec fn empty_tally<N: Scalar>() -> Tally<N> {
    Tally {
        x: zero::<N>(),
        y: zero::<N>(),
        z: zero::<N>(),
        intensity: zero::<N>(),
        curvature: zero::<N>(),
        count: 0,
    }
}

/// The sums with one more point.
pub open spec fn tallied<N: Scalar>(h: Tally<N>, p: PointType<N>) -> Tally<N> {
    Tally {
        x: h.x.plus_spec(p.x),
        y: h.y.plus_spec(p.y),
        z: h.z.plus_spec(p.z),
        intensity: h.intensity.plus_spec(p.intensity),
        curvature: h.curvature.plus_spec(p.curvature),
        count: (h.count + 1) as usize,
    }
}

/// `i` moved into the range of a 32-bit index.
pub open spec fn short_index(i: i64) -> i64 {
    if i < i32::MIN {
        i32::MIN as i64
    } else if i > i32::MAX {
        i32::MAX as i64
    } else {
        i
    }
}

/// The voxel of a point in a grid with edge length `leaf`.
pub open spec fn leaf_of<N: Scalar>(p: PointType<N>, leaf: N) -> Cell {
    (
        short_index(slot_of(p.x, leaf)),
        short_index(slot_of(p.y, leaf)),
        short_index(slot_of(p.z, leaf)),
    )
}

/// The sums over the points of each voxel.
pub open spec fn tallies<N: Scalar>(points: Seq<PointType<N>>, leaf: N) -> Map<Cell, Tally<N>>
    decreases points.len(),
{
    if points.len() == 0 {
        Map::empty()
    } else {
        let before = tallies(points.drop_last(), leaf);
        let c = leaf_of(points.last(), leaf);
        let h = if before.contains_key(c) {
            before[c]
        } else {
            empty_tally()
        };
        before.insert(c, tallied(h, points.last()))
    }
}

/// The mean of the points that were summed.
pub open spec fn mean_point<N: Scalar>(h: Tally<N>) -> PointType<N> {
    let n = whole::<N>(h.count as int);
    PointType {
        x: h.x.over_spec(n),
        y: h.y.over_spec(n),
        z: h.z.over_spec(n),
        intensity: h.intensity.over_spec(n),
        curvature: h.curvature.over_spec(n),
        ..zero_point()
    }
}

/// `out` holds the mean of each voxel once.
pub open spec fn is_thinned<N: Scalar>(
    points: Seq<PointType<N>>,
    leaf: N,
    out: Seq<PointType<N>>,
) -> bool {
    exists|cells: Seq<Cell>|
        {
            &&& cells.len() == out.len()
            &&& out.len() == tallies(points, leaf).len()
            &&& #[trigger] cells.no_duplicates()
            &&& forall|i: int|
                0 <= i < out.len() ==> tallies(points, leaf).contains_key(#[trigger] cells[i])
                    && out[i] == mean_point(tallies(points, leaf)[cells[i]])
        }
}

fn short(i: i64) -> (r: i64)
    ensures
        r == short_index(i),
{
    if i < -0x8000_0000 {
        -0x8000_0000
    } else if i > 0x7fff_ffff {
        0x7fff_ffff
    } else {
        i
    }
}

/// The voxel counts add up: each is at least one and at most the number of
/// points, and there are no more voxels than points.
proof fn lemma_tallies<N: Scalar>(points: Seq<PointType<N>>, leaf: N)
    ensures
        tallies(points, leaf).dom().finite(),
        tallies(points, leaf).len() <= points.len(),
        forall|c: Cell| #[trigger]
            tallies(points, leaf).contains_key(c) ==> tallies(points, leaf)[c].count <= points.len(),
        forall|i: int|
            0 <= i < points.len() ==> tallies(points, leaf).contains_key(
                leaf_of(#[trigger] points[i], leaf),
            ),
        forall|c: Cell| #[trigger]
            tallies(points, leaf).contains_key(c) ==> exists|i: int|
                0 <= i < points.len() && leaf_of(#[trigger] points[i], leaf) == c,
    decreases points.len(),
{
    if points.len() > 0 {
        let shorter = points.drop_last();
        lemma_tallies(shorter, leaf);
        let m = tallies(points, leaf);
        let before = tallies(shorter, leaf);
        let last = leaf_of(points.last(), leaf);
        assert(m.dom() =~= before.dom().insert(last));
        assert forall|i: int| 0 <= i < points.len() implies m.contains_key(
            leaf_of(#[trigger] points[i], leaf),
        ) by {
            if i < points.len() - 1 {
                assert(shorter[i] == points[i]);
            }
        }
        assert forall|c: Cell| #[trigger] m.contains_key(c) implies exists|i: int|
            0 <= i < points.len() && leaf_of(#[trigger] points[i], leaf) == c by {
            if c == last {
                assert(leaf_of(points[points.len() - 1], leaf) == c);
            } else {
                assert(before.contains_key(c));
                let i = choose|i: int|
                    0 <= i < shorter.len() && leaf_of(#[trigger] shorter[i], leaf) == c;
                assert(points[i] == shorter[i]);
            }
        }
    }
}

/// Replaces the points within each voxel by their mean, in no particular order
/// of the voxels. A leaf size that is not positive leaves the cloud as it is.
pub fn voxel_downsample<N: Scalar>(input: &[PointType<N>], leaf: N) -> (r: Vec<PointType<N>>)
    ensures
        le(leaf, zero::<N>()) ==> r@ == input@,
        !le(leaf, zero::<N>()) ==> is_thinned(input@, leaf, r@),
{
    let len: usize = input.len();
    let mut out: Vec<PointType<N>> = Vec::new();
    let mut i: usize = 0;
    if leaf.at_most(N::ratio(0, 1)) {
        while i < len
            invariant
                i <= len == input@.len(),
                out@ == input@.take(i as int),
            decreases len - i,
        {
            out.push(input[i]);
            i = i + 1;
            assert(out@ =~= input@.take(i as int));
        }
        assert(out@ =~= input@);
        return out;
    }
    let mut map: CellMap<Tally<N>> = CellMap::new();
    assert(input@.take(0) =~= Seq::empty());
    while i < len
        invariant
            i <= len == input@.len(),
            map.wf(),
            map@ == tallies(input@.take(i as int), leaf),
        decreases len - i,
    {
        let p: PointType<N> = input[i];
        let c: Cell = (
            short(p.x.over(leaf).floor().to_index()),
            short(p.y.over(leaf).floor().to_index()),
            short(p.z.over(leaf).floor().to_index()),
        );
        let o: N = N::ratio(0, 1);
        let h: Tally<N> = match map.get(c) {
            Some(h) => h,
            None => Tally { x: o, y: o, z: o, intensity: o, curvature: o, count: 0 },
        };
        proof {
            lemma_tallies(input@.take(i as int), leaf);
        }
        let sum: Tally<N> = Tally {
            x: h.x.plus(p.x),
            y: h.y.plus(p.y),
            z: h.z.plus(p.z),
            intensity: h.intensity.plus(p.intensity),
            curvature: h.curvature.plus(p.curvature),
            count: h.count + 1,
        };
        map.insert(c, sum);
        assert(input@.take(i + 1).drop_last() =~= input@.take(i as int));
        i = i + 1;
    }
    assert(input@.take(i as int) =~= input@);
    let n: usize = map.len();
    proof {
        map.lemma_listed();
    }
    let ghost all = map.listed();
    let ghost cells = Seq::new(all.len(), |k: int| all[k].0);
    let mut k: usize = 0;
    while k < n
        invariant
            k <= n,
            n == map.listed().len(),
            all == map.listed(),
            out@.len() == k,
            forall|j: int| 0 <= j < k ==> #[trigger] out@[j] == mean_point(all[j].1),
        decreases n - k,
    {
        let (_, h) = map.entry(k);
        let m: N = N::count(h.count as u64);
        let o: N = N::ratio(0, 1);
        out.push(
            PointType {
                x: h.x.over(m),
                y: h.y.over(m),
                z: h.z.over(m),
                intensity: h.intensity.over(m),
                curvature: h.curvature.over(m),
                normal_x: o,
                normal_y: o,
                normal_z: o,
            },
        );
        k = k + 1;
    }
    proof {
        assert forall|a: int, b: int| 0 <= a < cells.len() && 0 <= b < cells.len() && a
            != b implies cells[a] != cells[b] by {
            if a < b {
                assert(all[a].0 != all[b].0);
            } else {
                assert(all[b].0 != all[a].0);
            }
        }
        assert(cells.no_duplicates());
    }
    out
}

/// A thinned cloud has no more points than the cloud, and a point for each voxel
/// that holds one: none for an empty cloud, at least one for another.
pub proof fn law_thinning_reduces<N: Scalar>(
    points: Seq<PointType<N>>,
    leaf: N,
    out: Seq<PointType<N>>,
)
    requires
        is_thinned(points, leaf, out),
    ensures
        out.len() <= points.len(),
        out.len() == 0 <==> points.len() == 0,
{
    lemma_tallies(points, leaf);
    if points.len() > 0 {
        assert(tallies(points, leaf).dom().contains(leaf_of(points[0], leaf)));
        if out.len() == 0 {
            assert(tallies(points, leaf).dom() =~= Set::empty());
        }
    }
}

} // verus!
