//! An incremental k-d tree.
//!
//! The tree keeps deleted points until a subtree is rebuilt; it rebuilds a
//! subtree that leans too far to one side or holds too many deleted points.
pub mod cells;
pub(crate) mod edit;
pub mod laws;
pub mod model;
pub(crate) mod node;
pub(crate) mod search;

use crate::ikdtree::edit::{
    add_by_point, delete_by_point, delete_by_range, is_number, same_point,
};
use crate::ikdtree::model::{
    alike, all_tight, balanced, ball_hits, conserved, cut, dist, exact, grown, in_box, inside,
    lemma_conserved, lemma_conserved_chain, lemma_filter_len, lemma_listing, lemma_live_num,
    lemma_live_stored, listing, live, near_equal, neighbours, none_closer, num_point, outside,
    point_hit, points_of, segment, seq_num, stored, struck, wf, widest, without, PointCmp, Tree,
};
use crate::ikdtree::node::{build_tree, flatten, Limits};
use crate::ikdtree::search::{search, search_by_radius, search_by_range};
use crate::scalar::{lt, Scalar};
use crate::types::{point_at, PointType};
use vstd::multiset::Multiset;
use vstd::prelude::*;

pub use crate::ikdtree::model::{BoxPointType, KdTreeNode};
pub use crate::ikdtree::search::calc_dist;

verus! {

/// The incremental k-d tree.
#[derive(Debug)]
pub struct KdTree<S> {
    pub root: Option<Box<KdTreeNode<S>>>,
    pub pcl_storage: Vec<PointType<S>>,
    pub delete_criterion_param: S,
    pub balance_criterion_param: S,
    pub downsample_size: S,
    /// Deleted points that rebuilding dropped and nobody has asked for yet.
    pub points_deleted: Vec<PointType<S>>,
}

/// Points and distances side by side.
pub open spec fn pairs<S>(points: Seq<PointType<S>>, dists: Seq<S>) -> Seq<PointCmp<S>> {
    Seq::new(points.len(), |i: int| PointCmp { point: points[i], dist: dists[i] })
}

/// `points` are live points of the tree no further than `max_dist` from `q`, at
/// most `k`, in the order of their squared distances `dists`. Where the
/// arithmetic keeps the order of distances, no closer point was left out.
pub open spec fn nearest_result<S: Scalar>(
    t: Tree<S>,
    q: PointType<S>,
    k: nat,
    max_dist: S,
    points: Seq<PointType<S>>,
    dists: Seq<S>,
) -> bool {
    let limit_sq = max_dist.times_spec(max_dist);
    let found = pairs(points, dists);
    &&& points.len() == dists.len()
    &&& neighbours(found, q, k, limit_sq)
    &&& points.to_multiset().subset_of(live(t))
    &&& exact(t, q) ==> none_closer(found, live(t), q, k, limit_sq)
}

/// The lower corner of the grid cell that holds a coordinate.
pub open spec fn cell_floor<S: Scalar>(v: S, size: S) -> S {
    v.over_spec(size).floor_spec().times_spec(size)
}

/// The grid cell that holds a point.
pub open spec fn cell_box<S: Scalar>(p: PointType<S>, size: S) -> BoxPointType<S> {
    let x = cell_floor(p.x, size);
    let y = cell_floor(p.y, size);
    let z = cell_floor(p.z, size);
    BoxPointType {
        vertex_min: [x, y, z],
        vertex_max: [x.plus_spec(size), y.plus_spec(size), z.plus_spec(size)],
    }
}

/// The middle between two coordinates.
pub open spec fn midway<S: Scalar>(lo: S, hi: S) -> S {
    lo.plus_spec(hi.minus_spec(lo).over_spec(S::ratio_spec(2, 1)))
}

/// The middle of a box.
pub open spec fn box_mid<S: Scalar>(b: BoxPointType<S>) -> PointType<S> {
    point_at(
        midway(b.vertex_min[0], b.vertex_max[0]),
        midway(b.vertex_min[1], b.vertex_max[1]),
        midway(b.vertex_min[2], b.vertex_max[2]),
    )
}

/// The point closest to `mid` among `p` and the points of `s`: `p` unless another
/// is closer, the first of equally close ones otherwise.
pub open spec fn closest<S: Scalar>(
    s: Seq<PointType<S>>,
    mid: PointType<S>,
    p: PointType<S>,
) -> PointType<S>
    decreases s.len(),
{
    if s.len() == 0 {
        p
    } else {
        let best = closest(s.drop_last(), mid, p);
        if lt(dist(s.last(), mid), dist(best, mid)) {
            s.last()
        } else {
            best
        }
    }
}

/// The points of a list in the cell of a new point.
pub open spec fn cell_hits<S: Scalar>(s: Seq<PointType<S>>, p: PointType<S>, size: S) -> Seq<
    PointType<S>,
> {
    s.filter(inside(cell_box(p, size)))
}

/// The point that is to stand for the cell of a new point.
pub open spec fn cell_best<S: Scalar>(
    s: Seq<PointType<S>>,
    p: PointType<S>,
    size: S,
) -> PointType<S> {
    closest(cell_hits(s, p, size), box_mid(cell_box(p, size)), p)
}

/// Adding a point changes its cell: the cell holds more than one point, or the
/// new one is to stand for it. A point whose place is not a number is in no cell.
pub open spec fn cell_changes<S: Scalar>(s: Seq<PointType<S>>, p: PointType<S>, size: S) -> bool {
    num_point(p) && (cell_hits(s, p, size).len() > 1 || near_equal(p, cell_best(s, p, size)))
}

/// The live points after one point was added.
pub open spec fn add_step<S: Scalar>(
    before: Seq<PointType<S>>,
    after: Seq<PointType<S>>,
    p: PointType<S>,
    size: S,
    downsample: bool,
) -> bool {
    after.to_multiset() == if !downsample {
        before.to_multiset().insert(p)
    } else if cell_changes(before, p, size) {
        before.to_multiset().filter(outside(cell_box(p, size))).insert(cell_best(before, p, size))
    } else {
        before.to_multiset()
    }
}

/// The points that end up added when `points` are added one by one, `states`
/// being the trees before each.
pub open spec fn added<S: Scalar>(
    states: Seq<Tree<S>>,
    points: Seq<PointType<S>>,
    size: S,
    downsample: bool,
    n: int,
) -> Multiset<PointType<S>>
    decreases n,
{
    if n <= 0 {
        Multiset::empty()
    } else {
        let before = added(states, points, size, downsample, n - 1);
        let p = points[n - 1];
        if !downsample {
            before.insert(p)
        } else if cell_changes(listing(states[n - 1]), p, size) {
            before.insert(cell_best(listing(states[n - 1]), p, size))
        } else {
            before
        }
    }
}

/// The axis that divides a whole tree, the first one while it is empty.
pub open spec fn top_axis<S>(t: Tree<S>) -> usize {
    match t {
        Some(n) => n.division_axis,
        None => 0,
    }
}

/// Tree `before` became tree `after` when a point was added. With downsampling, looking
/// for the points of its cell may hand deletions down; if the cell changes, its points
/// are deleted first, and then the one that is to stand for it is added.
pub open spec fn point_taken<S: Scalar>(
    before: Tree<S>,
    after: Tree<S>,
    p: PointType<S>,
    size: S,
    downsample: bool,
    delete_limit: S,
    balance_limit: S,
) -> bool {
    let s = listing(before);
    let cell = cell_box(p, size);
    if !downsample {
        grown(before, after, p, top_axis(before), true, delete_limit, balance_limit)
    } else if cell_changes(s, p, size) {
        exists|u: Tree<S>, t: Tree<S>|
            #![trigger alike(before, u), grown(t, after, cell_best(s, p, size), top_axis(t), true, delete_limit, balance_limit)]
            {
                &&& alike(before, u)
                &&& if cell_hits(s, p, size).len() > 0 {
                    cut(u, t, cell, true, true, delete_limit, balance_limit)
                } else {
                    t == u
                }
                &&& grown(
                    t,
                    after,
                    cell_best(s, p, size),
                    top_axis(t),
                    true,
                    delete_limit,
                    balance_limit,
                )
            }
    } else {
        alike(before, after)
    }
}

/// `states` lists the trees from `first` to `last` while `points` are added one by
/// one, and subtrees that are due are rebuilt on the way.
pub open spec fn add_chain<S: Scalar>(
    states: Seq<Tree<S>>,
    first: Tree<S>,
    last: Tree<S>,
    points: Seq<PointType<S>>,
    size: S,
    downsample: bool,
    delete_limit: S,
    balance_limit: S,
) -> bool {
    &&& states.len() == points.len() + 1
    &&& states[0] == first
    &&& states[points.len() as int] == last
    &&& forall|i: int|
        0 <= i < points.len() ==> {
            &&& add_step(
                listing(#[trigger] states[i]),
                listing(states[i + 1]),
                points[i],
                size,
                downsample,
            )
            &&& point_taken(
                states[i],
                states[i + 1],
                points[i],
                size,
                downsample,
                delete_limit,
                balance_limit,
            )
        }
}

/// `trees` lists the states of a tree from `first` to `last` while the points in the
/// boxes are deleted, box by box, and subtrees that are due are rebuilt on the way.
pub open spec fn delete_chain<S: Scalar>(
    trees: Seq<Tree<S>>,
    first: Tree<S>,
    last: Tree<S>,
    boxes: Seq<BoxPointType<S>>,
    delete_limit: S,
    balance_limit: S,
) -> bool {
    &&& trees.len() == boxes.len() + 1
    &&& trees[0] == first
    &&& trees[boxes.len() as int] == last
    &&& forall|i: int|
        0 <= i < boxes.len() ==> {
            &&& live(trees[i + 1]) == live(#[trigger] trees[i]).filter(outside(boxes[i]))
            &&& cut(trees[i], trees[i + 1], boxes[i], false, true, delete_limit, balance_limit)
        }
}

/// The test for the points that are in none of the boxes.
pub open spec fn outside_all<S: Scalar>(boxes: Seq<BoxPointType<S>>) -> spec_fn(
    PointType<S>,
) -> bool {
    |p: PointType<S>| forall|i: int| 0 <= i < boxes.len() ==> !in_box(#[trigger] boxes[i], p)
}

impl<S: Scalar> Default for KdTree<S> {
    fn default() -> (r: Self)
        ensures
            r.wf(),
            r.stored() == Multiset::<PointType<S>>::empty(),
            r.removed() == Seq::<PointType<S>>::empty(),
            r.delete_criterion_param == S::ratio_spec(1, 2),
            r.balance_criterion_param == S::ratio_spec(3, 5),
            r.downsample_size == S::ratio_spec(1, 5),
    {
        KdTree::new()
    }
}

impl<S: Scalar> KdTree<S> {
    /// The invariant.
    pub open spec fn wf(self) -> bool {
        wf(self.root)
    }

    /// All points, deleted ones included.
    pub open spec fn stored(self) -> Multiset<PointType<S>> {
        stored(self.root)
    }

    /// The points that are not deleted.
    pub open spec fn live(self) -> Multiset<PointType<S>> {
        live(self.root)
    }

    /// The points that are not deleted, in the order of the tree.
    pub open spec fn listing(self) -> Seq<PointType<S>> {
        listing(self.root)
    }

    /// The deleted points that rebuilding dropped and nobody has asked for yet.
    pub open spec fn removed(self) -> Seq<PointType<S>> {
        self.points_deleted@
    }

    /// Two trees differ in their points at most.
    pub open spec fn same_params(self, other: Self) -> bool {
        &&& self.delete_criterion_param == other.delete_criterion_param
        &&& self.balance_criterion_param == other.balance_criterion_param
        &&& self.downsample_size == other.downsample_size
        &&& self.pcl_storage == other.pcl_storage
    }

    /// Two trees hold the same points and settings.
    pub open spec fn same_content(self, other: Self) -> bool {
        alike(self.root, other.root) && self.removed() == other.removed() && self.same_params(other)
    }

    /// An empty tree.
    pub fn new() -> (r: Self)
        ensures
            r.wf(),
            r.stored() == Multiset::<PointType<S>>::empty(),
            r.removed() == Seq::<PointType<S>>::empty(),
            r.delete_criterion_param == S::ratio_spec(1, 2),
            r.balance_criterion_param == S::ratio_spec(3, 5),
            r.downsample_size == S::ratio_spec(1, 5),
    {
        KdTree {
            root: None,
            pcl_storage: Vec::new(),
            delete_criterion_param: S::ratio(1, 2),
            balance_criterion_param: S::ratio(3, 5),
            downsample_size: S::ratio(1, 5),
            points_deleted: Vec::new(),
        }
    }

    /// Sets the share of deleted points beyond which a subtree is rebuilt.
    pub fn set_delete_criterion_param(&mut self, v: S)
        ensures
            *final(self) == (KdTree { delete_criterion_param: v, ..*old(self) }),
    {
        self.delete_criterion_param = v;
    }

    /// Sets the share of one son beyond which a subtree is rebuilt.
    pub fn set_balance_criterion_param(&mut self, v: S)
        ensures
            *final(self) == (KdTree { balance_criterion_param: v, ..*old(self) }),
    {
        self.balance_criterion_param = v;
    }

    /// Sets the length of the sides of a downsampling cell.
    pub fn set_downsample_param(&mut self, v: S)
        ensures
            *final(self) == (KdTree { downsample_size: v, ..*old(self) }),
    {
        self.downsample_size = v;
    }

    /// Sets the three parameters.
    pub fn initialize(&mut self, delete_param: S, balance_param: S, box_length: S)
        ensures
            *final(self) == (KdTree {
                delete_criterion_param: delete_param,
                balance_criterion_param: balance_param,
                downsample_size: box_length,
                ..*old(self)
            }),
    {
        self.set_delete_criterion_param(delete_param);
        self.set_balance_criterion_param(balance_param);
        self.set_downsample_param(box_length);
    }

    /// The number of points, deleted ones included.
    pub fn size(&self) -> (r: i32)
        requires
            self.wf(),
        ensures
            r == self.stored().len(),
    {
        match &self.root {
            Some(n) => n.tree_size,
            None => 0,
        }
    }

    /// The number of points that are not deleted.
    pub fn validnum(&self) -> (r: i32)
        requires
            self.wf(),
        ensures
            r == self.live().len(),
    {
        proof {
            lemma_live_stored(self.root);
        }
        match &self.root {
            Some(n) => n.tree_size - n.invalid_point_num,
            None => 0,
        }
    }

    /// Replaces the content of the tree by a point cloud.
    pub fn build(&mut self, point_cloud: Vec<PointType<S>>)
        requires
            point_cloud@.len() <= i32::MAX,
            seq_num(point_cloud@),
        ensures
            final(self).wf(),
            final(self).stored() == point_cloud@.to_multiset(),
            final(self).live() == point_cloud@.to_multiset(),
            final(self).stored().len() == point_cloud@.len(),
            balanced(final(self).root),
            all_tight(final(self).root),
            final(self).root is None == (point_cloud@.len() == 0),
            final(self).root is Some ==> final(self).root->0.division_axis == widest(point_cloud@),
            final(self).removed() == old(self).removed(),
            final(self).same_params(*old(self)),
    {
        broadcast use vstd::seq_lib::group_to_multiset_ensures;

        let mut storage: Vec<PointType<S>> = point_cloud;
        let n: usize = storage.len();
        assert(segment(storage@, 0, n) =~= storage@);
        self.root = build_tree(&mut storage, 0, n);
    }

    /// Finds the `k_nearest` live points nearest to `point` that are no further
    /// than `max_dist`, with their squared distances, sorted by distance.
    pub fn nearest_search(
        &mut self,
        point: &PointType<S>,
        k_nearest: i32,
        nearest_points: &mut Vec<PointType<S>>,
        point_distance: &mut Vec<S>,
        max_dist: S,
    )
        requires
            old(self).wf(),
            0 <= k_nearest,
        ensures
            *final(self) == *old(self),
            nearest_result(
                old(self).root,
                *point,
                k_nearest as nat,
                max_dist,
                final(nearest_points)@,
                final(point_distance)@,
            ),
    {
        broadcast use vstd::seq_lib::group_to_multiset_ensures;

        let limit_sq: S = max_dist.times(max_dist);
        let mut q: Vec<PointCmp<S>> = Vec::new();
        let ghost none = Multiset::<PointType<S>>::empty();
        proof {
            assert(points_of(q@) =~= Seq::empty());
            assert(points_of(q@).to_multiset() =~= none);
        }
        if k_nearest > 0 {
            search(&self.root, k_nearest as usize, point, limit_sq, &mut q, Ghost(none));
            assert(none.add(live(self.root)) =~= live(self.root));
        }
        let ghost found = q@;
        nearest_points.clear();
        point_distance.clear();
        let mut i: usize = 0;
        while i < q.len()
            invariant
                i <= q@.len(),
                q@ == found,
                nearest_points@ == points_of(found).take(i as int),
                point_distance@ == found.map_values(|c: PointCmp<S>| c.dist).take(i as int),
            decreases q@.len() - i,
        {
            nearest_points.push(q[i].point);
            point_distance.push(q[i].dist);
            i = i + 1;
            assert(nearest_points@ =~= points_of(found).take(i as int));
            assert(point_distance@ =~= found.map_values(|c: PointCmp<S>| c.dist).take(i as int));
        }
        proof {
            assert(nearest_points@ =~= points_of(found));
            assert(point_distance@ =~= found.map_values(|c: PointCmp<S>| c.dist));
            assert(pairs(nearest_points@, point_distance@) =~= found);
        }
    }

    /// Finds the live points in a box, in the order of the tree.
    pub fn box_search(&mut self, boxpoint: &BoxPointType<S>, storage: &mut Vec<PointType<S>>)
        requires
            old(self).wf(),
        ensures
            final(self).wf(),
            final(self).same_content(*old(self)),
            final(storage)@ == old(self).listing().filter(inside(*boxpoint)),
    {
        storage.clear();
        search_by_range(&mut self.root, boxpoint, storage);
        assert(storage@ =~= old(self).listing().filter(inside(*boxpoint)));
    }

    /// Finds the live points in a ball, in the order of the tree.
    pub fn radius_search(&mut self, point: &PointType<S>, radius: S, storage: &mut Vec<PointType<S>>)
        requires
            old(self).wf(),
        ensures
            final(self).wf(),
            final(self).same_content(*old(self)),
            final(storage)@ == ball_hits(old(self).root, *point, radius),
    {
        storage.clear();
        search_by_radius(&mut self.root, point, radius, storage);
        assert(storage@ =~= ball_hits(old(self).root, *point, radius));
    }

    /// The limits beyond which a subtree is rebuilt.
    fn limits(&self) -> (r: Limits<S>)
        ensures
            r.delete == self.delete_criterion_param,
            r.balance == self.balance_criterion_param,
    {
        Limits { delete: self.delete_criterion_param, balance: self.balance_criterion_param }
    }

    /// The axis that divides the whole tree, the first one while it is empty.
    fn root_axis(&self) -> (r: usize)
        requires
            self.wf(),
        ensures
            r == top_axis(self.root),
            r < 3,
    {
        match &self.root {
            Some(n) => n.division_axis,
            None => 0,
        }
    }

    /// Adds one point.
    fn add_one(&mut self, point: &PointType<S>)
        requires
            old(self).wf(),
            old(self).stored().len() < i32::MAX,
            num_point(*point),
        ensures
            final(self).wf(),
            final(self).live() == old(self).live().insert(*point),
            final(self).same_params(*old(self)),
            conserved(
                old(self).root,
                old(self).removed(),
                Multiset::singleton(*point),
                final(self).root,
                final(self).removed(),
            ),
            grown(
                old(self).root,
                final(self).root,
                *point,
                top_axis(old(self).root),
                true,
                old(self).delete_criterion_param,
                old(self).balance_criterion_param,
            ),
    {
        let limits = self.limits();
        let axis: usize = self.root_axis();
        add_by_point(&mut self.root, point, true, axis, limits, &mut self.points_deleted);
    }

    /// Deletes the points in one box and counts them.
    fn delete_box(&mut self, boxpoint: &BoxPointType<S>, is_downsample: bool) -> (r: i32)
        requires
            old(self).wf(),
        ensures
            final(self).wf(),
            final(self).live() == old(self).live().filter(outside(*boxpoint)),
            r == old(self).live().len() - final(self).live().len(),
            final(self).same_params(*old(self)),
            conserved(
                old(self).root,
                old(self).removed(),
                Multiset::empty(),
                final(self).root,
                final(self).removed(),
            ),
            cut(
                old(self).root,
                final(self).root,
                *boxpoint,
                is_downsample,
                true,
                old(self).delete_criterion_param,
                old(self).balance_criterion_param,
            ),
    {
        let limits = self.limits();
        delete_by_range(
            &mut self.root,
            boxpoint,
            true,
            is_downsample,
            limits,
            &mut self.points_deleted,
        )
    }

    /// Deletes the points in the boxes and counts them.
    pub fn delete_point_boxes(&mut self, boxes: &[BoxPointType<S>]) -> (r: i32)
        requires
            old(self).wf(),
        ensures
            final(self).wf(),
            final(self).live() == old(self).live().filter(outside_all(boxes@)),
            r == old(self).live().len() - final(self).live().len(),
            final(self).same_params(*old(self)),
            conserved(
                old(self).root,
                old(self).removed(),
                Multiset::empty(),
                final(self).root,
                final(self).removed(),
            ),
            exists|trees: Seq<Tree<S>>| #[trigger]
                delete_chain(
                    trees,
                    old(self).root,
                    final(self).root,
                    boxes@,
                    old(self).delete_criterion_param,
                    old(self).balance_criterion_param,
                ),
    {
        let ghost none = Multiset::<PointType<S>>::empty();
        let ghost t0 = self.root;
        let ghost r0 = self.removed();
        let ghost dl = self.delete_criterion_param;
        let ghost bl = self.balance_criterion_param;
        let ghost mut trees: Seq<Tree<S>> = seq![self.root];
        let mut count: i32 = 0;
        let mut i: usize = 0;
        proof {
            assert(live(t0).filter(outside_all(boxes@.take(0))) =~= live(t0));
            assert(stored(t0).add(r0.to_multiset()).add(none) =~= stored(t0).add(r0.to_multiset()));
        }
        while i < boxes.len()
            invariant
                i <= boxes@.len(),
                none == Multiset::<PointType<S>>::empty(),
                t0 == old(self).root,
                r0 == old(self).removed(),
                old(self).wf(),
                self.wf(),
                self.live() == live(t0).filter(outside_all(boxes@.take(i as int))),
                count == live(t0).len() - self.live().len(),
                self.same_params(*old(self)),
                conserved(t0, r0, none, self.root, self.removed()),
                dl == old(self).delete_criterion_param,
                bl == old(self).balance_criterion_param,
                delete_chain(trees, t0, self.root, boxes@.take(i as int), dl, bl),
            decreases boxes@.len() - i,
        {
            let ghost t1 = self.root;
            let ghost chain = trees;
            let ghost r1 = self.removed();
            proof {
                lemma_live_stored(t0);
                lemma_filter_len(live(t0), outside_all(boxes@.take(i as int)));
                lemma_filter_len(live(t1), outside(boxes@[i as int]));
                lemma_tree_len(t0);
            }
            count = count + self.delete_box(&boxes[i], false);
            proof {
                let a = outside_all(boxes@.take(i as int));
                let b = outside_all(boxes@.take(i + 1));
                let one = outside(boxes@[i as int]);
                assert forall|p: PointType<S>| #[trigger] b(p) == (a(p) && one(p)) by {
                    let u = boxes@.take(i as int);
                    let v = boxes@.take(i + 1);
                    if b(p) {
                        assert forall|j: int| 0 <= j < u.len() implies !in_box(#[trigger] u[j], p) by {
                            assert(u[j] == v[j]);
                        }
                        assert(v[i as int] == boxes@[i as int]);
                    }
                    if a(p) && one(p) {
                        assert forall|j: int| 0 <= j < v.len() implies !in_box(#[trigger] v[j], p) by {
                            if j < i {
                                assert(u[j] == v[j]);
                            }
                        }
                    }
                }
                assert(live(t0).filter(a).filter(one) =~= live(t0).filter(b));
                trees = chain.push(self.root);
                let u = boxes@.take(i as int);
                let v = boxes@.take(i + 1);
                assert forall|j: int| 0 <= j < v.len() implies {
                    &&& live(trees[j + 1]) == live(#[trigger] trees[j]).filter(outside(v[j]))
                    &&& cut(trees[j], trees[j + 1], v[j], false, true, dl, bl)
                } by {
                    if j < i {
                        assert(u[j] == v[j]);
                        assert(trees[j] == chain[j] && trees[j + 1] == chain[j + 1]);
                    } else {
                        assert(trees[j] == t1);
                    }
                }
                lemma_conserved_chain(t0, r0, none, t1, r1, none, self.root, self.removed());
                assert(none.add(none) =~= none);
            }
            i = i + 1;
        }
        assert(boxes@.take(i as int) =~= boxes@);
        count
    }

    /// Adds one point unless another stands for its cell, and says whether it did.
    fn add_downsampled(&mut self, pt: &PointType<S>) -> (r: bool)
        requires
            old(self).wf(),
            old(self).stored().len() < i32::MAX,
        ensures
            final(self).wf(),
            r == cell_changes(old(self).listing(), *pt, old(self).downsample_size),
            add_step(
                old(self).listing(),
                final(self).listing(),
                *pt,
                old(self).downsample_size,
                true,
            ),
            final(self).same_params(*old(self)),
            conserved(
                old(self).root,
                old(self).removed(),
                if r {
                    Multiset::singleton(
                        cell_best(old(self).listing(), *pt, old(self).downsample_size),
                    )
                } else {
                    Multiset::empty()
                },
                final(self).root,
                final(self).removed(),
            ),
            point_taken(
                old(self).root,
                final(self).root,
                *pt,
                old(self).downsample_size,
                true,
                old(self).delete_criterion_param,
                old(self).balance_criterion_param,
            ),
    {
        let ghost none = Multiset::<PointType<S>>::empty();
        let ghost t0 = self.root;
        let ghost r0 = self.removed();
        if !is_number(pt) {
            proof {
                let all = stored(t0).add(r0.to_multiset());
                assert(all.add(none) =~= all);
            }
            return false;
        }
        let size: S = self.downsample_size;
        let x: S = pt.x.over(size).floor().times(size);
        let y: S = pt.y.over(size).floor().times(size);
        let z: S = pt.z.over(size).floor().times(size);
        let cell: BoxPointType<S> = BoxPointType {
            vertex_min: [x, y, z],
            vertex_max: [x.plus(size), y.plus(size), z.plus(size)],
        };
        let two: S = S::ratio(2, 1);
        let mid: PointType<S> = PointType::new(
            x.plus(cell.vertex_max[0].minus(x).over(two)),
            y.plus(cell.vertex_max[1].minus(y).over(two)),
            z.plus(cell.vertex_max[2].minus(z).over(two)),
        );
        let mut hits: Vec<PointType<S>> = Vec::new();
        self.box_search(&cell, &mut hits);
        let ghost t1 = self.root;
        proof {
            lemma_listing(t0);
            lemma_live_num(t0);
            assert(stored(t0).add(r0.to_multiset()).add(none) =~= stored(t1).add(r0.to_multiset()));
        }
        let mut min_dist: S = calc_dist(pt, &mid);
        let mut best: PointType<S> = *pt;
        let mut i: usize = 0;
        assert(hits@.take(0) =~= Seq::empty());
        while i < hits.len()
            invariant
                i <= hits@.len(),
                best == closest(hits@.take(i as int), mid, *pt),
                min_dist == dist(best, mid),
                best == *pt || hits@.contains(best),
            decreases hits@.len() - i,
        {
            let d: S = calc_dist(&hits[i], &mid);
            proof {
                assert(hits@.take(i + 1).drop_last() =~= hits@.take(i as int));
                assert(hits@.contains(hits@[i as int]));
            }
            if d.less(min_dist) {
                min_dist = d;
                best = hits[i];
            }
            i = i + 1;
        }
        assert(hits@.take(i as int) =~= hits@);
        if hits.len() > 1 || same_point(pt, &best) {
            proof {
                if best != *pt {
                    listing(t0).lemma_filter_contains_rev(inside(cell), best);
                    vstd::seq_lib::to_multiset_contains(listing(t0), best);
                    assert(live(t0).contains(best));
                }
            }
            if hits.len() > 0 {
                let _count: i32 = self.delete_box(&cell, true);
            } else {
                proof {
                    assert(live(t0).filter(outside(cell)) =~= live(t0)) by {
                        assert forall|p: PointType<S>| #[trigger]
                            live(t0).filter(outside(cell)).count(p) == live(t0).count(p) by {
                            if live(t0).contains(p) && in_box(cell, p) {
                                vstd::seq_lib::to_multiset_contains(listing(t0), p);
                                assert(listing(t0).contains(p));
                                let j = choose|j: int|
                                    0 <= j < listing(t0).len() && listing(t0)[j] == p;
                                listing(t0).lemma_filter_contains(inside(cell), j);
                                assert(hits@.contains(p));
                            }
                        }
                    }
                }
            }
            let ghost t2 = self.root;
            let ghost r2 = self.removed();
            proof {
                if hits@.len() > 0 {
                    lemma_conserved_chain(t0, r0, none, t1, r0, none, t2, r2);
                }
                assert(none.add(none) =~= none);
                lemma_conserved(t0, r0, none, t2, r2);
            }
            self.add_one(&best);
            proof {
                assert(cell == cell_box(*pt, size));
                assert(best == cell_best(listing(t0), *pt, size));
                assert(alike(t0, t1));
                let one = Multiset::singleton(best);
                lemma_conserved_chain(t0, r0, none, t2, r2, one, self.root, self.removed());
                assert(none.add(one) =~= one);
                lemma_listing(self.root);
            }
            true
        } else {
            proof {
                lemma_listing(self.root);
            }
            false
        }
    }

    /// Adds points, one after the other, and counts those that were added. With
    /// downsampling a cell of the grid ends up with the point closest to its middle.
    pub fn add_points(&mut self, points: &mut [PointType<S>], downsample_on: bool) -> (r: i32)
        requires
            old(self).wf(),
            old(self).stored().len() + old(points)@.len() <= i32::MAX,
            !downsample_on ==> seq_num(old(points)@),
        ensures
            final(self).wf(),
            final(points)@ == old(points)@,
            final(self).same_params(*old(self)),
            exists|states: Seq<Tree<S>>|
                #![trigger added(
                    states,
                    old(points)@,
                    old(self).downsample_size,
                    downsample_on,
                    old(points)@.len() as int,
                )]
                add_chain(
                    states,
                    old(self).root,
                    final(self).root,
                    old(points)@,
                    old(self).downsample_size,
                    downsample_on,
                    old(self).delete_criterion_param,
                    old(self).balance_criterion_param,
                ) && r == added(
                    states,
                    old(points)@,
                    old(self).downsample_size,
                    downsample_on,
                    old(points)@.len() as int,
                ).len() && conserved(
                    old(self).root,
                    old(self).removed(),
                    added(
                        states,
                        old(points)@,
                        old(self).downsample_size,
                        downsample_on,
                        old(points)@.len() as int,
                    ),
                    final(self).root,
                    final(self).removed(),
                ),
            !downsample_on ==> r == old(points)@.len() && final(self).live() == old(
                self,
            ).live().add(old(points)@.to_multiset()),
    {
        broadcast use vstd::seq_lib::group_to_multiset_ensures;

        let ghost pts = points@;
        let ghost size = self.downsample_size;
        let ghost dl = self.delete_criterion_param;
        let ghost bl = self.balance_criterion_param;
        let ghost mut states: Seq<Tree<S>> = seq![self.root];
        proof {
            let all = self.stored().add(self.removed().to_multiset());
            assert(all.add(Multiset::empty()) =~= all);
            assert(pts.take(0) =~= Seq::empty());
            assert(self.live().add(pts.take(0).to_multiset()) =~= self.live());
        }
        let mut count: i32 = 0;
        let mut i: usize = 0;
        while i < points.len()
            invariant
                i <= points@.len(),
                points@ == pts,
                old(self).stored().len() + pts.len() <= i32::MAX,
                !downsample_on ==> seq_num(pts),
                self.wf(),
                self.stored().len() <= old(self).stored().len() + i,
                self.same_params(*old(self)),
                size == old(self).downsample_size,
                count <= i,
                dl == old(self).delete_criterion_param,
                bl == old(self).balance_criterion_param,
                add_chain(
                    states,
                    old(self).root,
                    self.root,
                    pts.take(i as int),
                    size,
                    downsample_on,
                    dl,
                    bl,
                ),
                count == added(states, pts, size, downsample_on, i as int).len(),
                conserved(
                    old(self).root,
                    old(self).removed(),
                    added(states, pts, size, downsample_on, i as int),
                    self.root,
                    self.removed(),
                ),
                !downsample_on ==> count == i && self.live() == old(self).live().add(
                    pts.take(i as int).to_multiset(),
                ),
            decreases points@.len() - i,
        {
            let ghost before = *self;
            let ghost chain = states;
            let pt: PointType<S> = points[i];
            if downsample_on {
                if self.add_downsampled(&pt) {
                    count = count + 1;
                }
            } else {
                self.add_one(&pt);
                count = count + 1;
            }
            proof {
                lemma_listing(before.root);
                lemma_listing(self.root);
                let gone = if !downsample_on {
                    Multiset::singleton(pt)
                } else if cell_changes(before.listing(), pt, size) {
                    Multiset::singleton(cell_best(before.listing(), pt, size))
                } else {
                    Multiset::empty()
                };
                lemma_conserved(before.root, before.removed(), gone, self.root, self.removed());
                states = chain.push(self.root);
                let a = pts.take(i as int);
                let b = pts.take(i + 1);
                lemma_add_chain(
                    chain,
                    old(self).root,
                    before.root,
                    a,
                    self.root,
                    pt,
                    size,
                    downsample_on,
                    dl,
                    bl,
                );
                assert(b =~= a.push(pt));
                if !downsample_on {
                    assert(b.to_multiset() =~= a.to_multiset().insert(pt)) by {
                        a.to_multiset_ensures();
                    }
                    assert(self.live() =~= before.live().insert(pt));
                    assert(self.live() =~= old(self).live().add(b.to_multiset()));
                }
                lemma_added(chain, states, pts, size, downsample_on, i as int);
                let done = added(chain, pts, size, downsample_on, i as int);
                let next = added(states, pts, size, downsample_on, i + 1);
                lemma_conserved_chain(
                    old(self).root,
                    old(self).removed(),
                    done,
                    before.root,
                    before.removed(),
                    gone,
                    self.root,
                    self.removed(),
                );
                assert(next =~= done.add(gone));
            }
            i = i + 1;
        }
        proof {
            assert(pts.take(i as int) =~= pts);
        }
        count
    }

    /// Deletes the live point that is the same as `point` but for rounding, if it
    /// is met on the way to where `point` belongs.
    pub fn delete_by_point(&mut self, point: &PointType<S>)
        requires
            old(self).wf(),
        ensures
            final(self).wf(),
            final(self).live() == without(old(self).live(), point_hit(old(self).root, *point)),
            final(self).same_params(*old(self)),
            conserved(
                old(self).root,
                old(self).removed(),
                Multiset::empty(),
                final(self).root,
                final(self).removed(),
            ),
            struck(
                old(self).root,
                final(self).root,
                *point,
                true,
                old(self).delete_criterion_param,
                old(self).balance_criterion_param,
            ),
    {
        let limits = self.limits();
        delete_by_point(&mut self.root, point, true, limits, &mut self.points_deleted);
    }

    /// Hands out the deleted points that rebuilding has dropped since the last call.
    pub fn acquire_removed_points(&mut self) -> (r: Vec<PointType<S>>)
        ensures
            r@ == old(self).removed(),
            final(self).removed() == Seq::<PointType<S>>::empty(),
            final(self).root == old(self).root,
            final(self).same_params(*old(self)),
    {
        let mut removed: Vec<PointType<S>> = Vec::new();
        removed.append(&mut self.points_deleted);
        removed
    }

    /// Lists the live points in `pcl_storage`.
    pub fn flatten_to_storage(&mut self)
        requires
            old(self).wf(),
        ensures
            final(self).wf(),
            alike(old(self).root, final(self).root),
            final(self).removed() == old(self).removed(),
            final(self).delete_criterion_param == old(self).delete_criterion_param,
            final(self).balance_criterion_param == old(self).balance_criterion_param,
            final(self).downsample_size == old(self).downsample_size,
            final(self).pcl_storage@ == old(self).listing(),
    {
        self.pcl_storage.clear();
        flatten(&mut self.root, &mut self.pcl_storage);
        assert(self.pcl_storage@ =~= old(self).listing());
    }
}

/// A chain of added points goes on with one more.
proof fn lemma_add_chain<S: Scalar>(
    chain: Seq<Tree<S>>,
    first: Tree<S>,
    before: Tree<S>,
    points: Seq<PointType<S>>,
    after: Tree<S>,
    p: PointType<S>,
    size: S,
    downsample: bool,
    dl: S,
    bl: S,
)
    requires
        add_chain(chain, first, before, points, size, downsample, dl, bl),
        add_step(listing(before), listing(after), p, size, downsample),
        point_taken(before, after, p, size, downsample, dl, bl),
    ensures
        add_chain(chain.push(after), first, after, points.push(p), size, downsample, dl, bl),
{
    let states = chain.push(after);
    let b = points.push(p);
    assert forall|j: int| 0 <= j < b.len() implies {
        &&& add_step(listing(#[trigger] states[j]), listing(states[j + 1]), b[j], size, downsample)
        &&& point_taken(states[j], states[j + 1], b[j], size, downsample, dl, bl)
    } by {
        if j < points.len() {
            assert(b[j] == points[j]);
            assert(states[j] == chain[j] && states[j + 1] == chain[j + 1]);
        } else {
            assert(states[j] == before);
        }
    }
}

/// What is added depends on the states before each point only.
proof fn lemma_added<S: Scalar>(
    a: Seq<Tree<S>>,
    b: Seq<Tree<S>>,
    points: Seq<PointType<S>>,
    size: S,
    downsample: bool,
    n: int,
)
    requires
        n <= a.len(),
        n <= b.len(),
        forall|i: int| 0 <= i < n ==> a[i] == b[i],
    ensures
        added(a, points, size, downsample, n) == added(b, points, size, downsample, n),
    decreases n,
{
    if n > 0 {
        lemma_added(a, b, points, size, downsample, n - 1);
    }
}

/// A well-formed tree fits its counters.
proof fn lemma_tree_len<S: Scalar>(t: Tree<S>)
    requires
        wf(t),
    ensures
        stored(t).len() <= i32::MAX,
{
}

} // verus!
