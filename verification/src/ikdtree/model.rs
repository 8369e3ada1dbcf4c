//! The nodes of the incremental k-d tree and what they stand for.
use crate::scalar::{
    gap_square, is_amount, law_finite_between, law_finite_is_num, law_gap_monotone, law_gap_square,
    law_plus_monotone, law_plus_zero, lawful, le, lt, max_spec, min_spec, zero, Scalar,
};
use crate::types::{point_at, PointType};
use vstd::multiset::Multiset;
use vstd::prelude::*;

verus! {

/// An axis-aligned box: each lower face belongs to it, no upper face does.
#[derive(Clone, Copy, Debug)]
pub struct BoxPointType<S> {
    pub vertex_min: [S; 3],
    pub vertex_max: [S; 3],
}

/// A node of the tree with the subtree below it.
#[derive(Debug)]
pub struct KdTreeNode<S> {
    pub point: PointType<S>,
    pub division_axis: usize,
    /// Number of points in the subtree, deleted ones included.
    pub tree_size: i32,
    /// Number of deleted points in the subtree.
    pub invalid_point_num: i32,
    /// Number of points that downsampling deleted.
    pub down_del_num: i32,
    pub point_deleted: bool,
    pub tree_deleted: bool,
    pub point_downsample_deleted: bool,
    pub tree_downsample_deleted: bool,
    pub need_push_down_to_left: bool,
    pub need_push_down_to_right: bool,
    pub node_range_x: [S; 2],
    pub node_range_y: [S; 2],
    pub node_range_z: [S; 2],
    pub radius_sq: S,
    pub left_son: Option<Box<KdTreeNode<S>>>,
    pub right_son: Option<Box<KdTreeNode<S>>>,
    pub alpha_del: S,
    pub alpha_bal: S,
}

impl<S: Scalar> Default for BoxPointType<S> {
    fn default() -> (r: Self)
        ensures
            r.vertex_min == [zero::<S>(), zero::<S>(), zero::<S>()],
            r.vertex_max == [zero::<S>(), zero::<S>(), zero::<S>()],
    {
        let o: S = S::ratio(0, 1);
        BoxPointType { vertex_min: [o, o, o], vertex_max: [o, o, o] }
    }
}

impl<S: Scalar> Clone for KdTreeNode<S> {
    fn clone(&self) -> (r: Self)
        ensures
            r == *self,
        decreases self,
    {
        KdTreeNode {
            point: self.point,
            division_axis: self.division_axis,
            tree_size: self.tree_size,
            invalid_point_num: self.invalid_point_num,
            down_del_num: self.down_del_num,
            point_deleted: self.point_deleted,
            tree_deleted: self.tree_deleted,
            point_downsample_deleted: self.point_downsample_deleted,
            tree_downsample_deleted: self.tree_downsample_deleted,
            need_push_down_to_left: self.need_push_down_to_left,
            need_push_down_to_right: self.need_push_down_to_right,
            node_range_x: self.node_range_x,
            node_range_y: self.node_range_y,
            node_range_z: self.node_range_z,
            radius_sq: self.radius_sq,
            left_son: match &self.left_son {
                Some(son) => Some(Box::new((**son).clone())),
                None => None,
            },
            right_son: match &self.right_son {
                Some(son) => Some(Box::new((**son).clone())),
                None => None,
            },
            alpha_del: self.alpha_del,
            alpha_bal: self.alpha_bal,
        }
    }
}

/// A subtree.
pub type Tree<S> = Option<Box<KdTreeNode<S>>>;

/// The coordinate of a point along an axis.
pub open spec fn coord<S>(p: PointType<S>, axis: int) -> S {
    if axis == 0 {
        p.x
    } else if axis == 1 {
        p.y
    } else {
        p.z
    }
}

/// Every coordinate takes part in the order.
pub open spec fn num_point<S: Scalar>(p: PointType<S>) -> bool {
    p.x.is_num() && p.y.is_num() && p.z.is_num()
}

/// Every coordinate is finite.
pub open spec fn finite_point<S: Scalar>(p: PointType<S>) -> bool {
    p.x.is_finite() && p.y.is_finite() && p.z.is_finite()
}

/// Lower end of the range of a node along an axis.
pub open spec fn range_lo<S>(n: KdTreeNode<S>, axis: int) -> S {
    if axis == 0 {
        n.node_range_x[0]
    } else if axis == 1 {
        n.node_range_y[0]
    } else {
        n.node_range_z[0]
    }
}

/// Upper end of the range of a node along an axis.
pub open spec fn range_hi<S>(n: KdTreeNode<S>, axis: int) -> S {
    if axis == 0 {
        n.node_range_x[1]
    } else if axis == 1 {
        n.node_range_y[1]
    } else {
        n.node_range_z[1]
    }
}

/// The point lies in the box.
pub open spec fn in_box<S: Scalar>(b: BoxPointType<S>, p: PointType<S>) -> bool {
    &&& le(b.vertex_min[0], p.x) && lt(p.x, b.vertex_max[0])
    &&& le(b.vertex_min[1], p.y) && lt(p.y, b.vertex_max[1])
    &&& le(b.vertex_min[2], p.z) && lt(p.z, b.vertex_max[2])
}

/// Along an axis, the range of the node lies outside the box.
pub open spec fn axis_apart<S: Scalar>(b: BoxPointType<S>, n: KdTreeNode<S>, axis: int) -> bool {
    le(b.vertex_max[axis], range_lo(n, axis)) || lt(range_hi(n, axis), b.vertex_min[axis])
}

/// The range of the node lies outside the box along some axis.
pub open spec fn range_apart<S: Scalar>(b: BoxPointType<S>, n: KdTreeNode<S>) -> bool {
    axis_apart(b, n, 0) || axis_apart(b, n, 1) || axis_apart(b, n, 2)
}

/// Along an axis, the range of the node lies inside the box.
pub open spec fn axis_covered<S: Scalar>(b: BoxPointType<S>, n: KdTreeNode<S>, axis: int) -> bool {
    le(b.vertex_min[axis], range_lo(n, axis)) && lt(range_hi(n, axis), b.vertex_max[axis])
}

/// The range of the node lies inside the box along every axis.
pub open spec fn range_covered<S: Scalar>(b: BoxPointType<S>, n: KdTreeNode<S>) -> bool {
    axis_covered(b, n, 0) && axis_covered(b, n, 1) && axis_covered(b, n, 2)
}

/// The squared distance of two points.
pub open spec fn dist<S: Scalar>(a: PointType<S>, b: PointType<S>) -> S {
    gap_square(a.x, b.x).plus_spec(gap_square(a.y, b.y)).plus_spec(gap_square(a.z, b.z))
}

/// All points of a subtree, deleted ones included.
pub open spec fn stored<S>(t: Tree<S>) -> Multiset<PointType<S>>
    decreases t,
{
    match t {
        None => Multiset::empty(),
        Some(n) => Multiset::singleton(n.point).add(stored(n.left_son)).add(stored(n.right_son)),
    }
}

/// The points of a subtree that are not deleted.
pub open spec fn live<S>(t: Tree<S>) -> Multiset<PointType<S>>
    decreases t,
{
    match t {
        None => Multiset::empty(),
        Some(n) => if n.tree_deleted {
            Multiset::empty()
        } else {
            own_live(*n).add(live(n.left_son)).add(live(n.right_son))
        },
    }
}

/// The point of a node, unless it is deleted.
pub open spec fn own_live<S>(n: KdTreeNode<S>) -> Multiset<PointType<S>> {
    if n.point_deleted {
        Multiset::empty()
    } else {
        Multiset::singleton(n.point)
    }
}

/// The points that are not deleted, each node before its left and its right
/// subtree.
pub open spec fn listing<S>(t: Tree<S>) -> Seq<PointType<S>>
    decreases t,
{
    match t {
        None => Seq::empty(),
        Some(n) => if n.tree_deleted {
            Seq::empty()
        } else {
            own_listing(*n) + listing(n.left_son) + listing(n.right_son)
        },
    }
}

/// The point of a node, unless it is deleted.
pub open spec fn own_listing<S>(n: KdTreeNode<S>) -> Seq<PointType<S>> {
    if n.point_deleted {
        Seq::empty()
    } else {
        seq![n.point]
    }
}

/// Half the extent of the range of a node along an axis.
pub open spec fn half_extent<S: Scalar>(n: KdTreeNode<S>, axis: int) -> S {
    range_hi(n, axis).minus_spec(range_lo(n, axis)).times_spec(S::ratio_spec(1, 2))
}

/// The squared length of half the diagonal of the range of a node.
pub open spec fn half_diagonal_sq<S: Scalar>(n: KdTreeNode<S>) -> S {
    let x = half_extent(n, 0);
    let y = half_extent(n, 1);
    let z = half_extent(n, 2);
    x.times_spec(x).plus_spec(y.times_spec(y)).plus_spec(z.times_spec(z))
}

/// Nothing of the subtree is live and its root says so.
pub open spec fn dead<S>(t: Tree<S>) -> bool {
    t is Some ==> t->0.tree_deleted
}

/// The range of a node is a box of numbers around `p`.
pub open spec fn in_range<S: Scalar>(n: KdTreeNode<S>, p: PointType<S>) -> bool {
    forall|axis: int|
        0 <= axis < 3 ==> range_lo(n, axis).key() <= (#[trigger] coord(p, axis)).key() <= range_hi(
            n,
            axis,
        ).key()
}

pub open spec fn range_num<S: Scalar>(n: KdTreeNode<S>) -> bool {
    forall|axis: int|
        0 <= axis < 3 ==> (#[trigger] range_lo(n, axis)).is_num() && (#[trigger] range_hi(
            n,
            axis,
        )).is_num()
}

pub open spec fn range_finite<S: Scalar>(n: KdTreeNode<S>) -> bool {
    forall|axis: int|
        0 <= axis < 3 ==> (#[trigger] range_lo(n, axis)).is_finite() && (#[trigger] range_hi(
            n,
            axis,
        )).is_finite()
}

/// Every point of the collection is finite.
pub open spec fn all_finite<S: Scalar>(m: Multiset<PointType<S>>) -> bool {
    forall|p: PointType<S>| #[trigger] m.contains(p) ==> finite_point(p)
}

/// Every point of the collection has numbers for coordinates.
pub open spec fn all_num<S: Scalar>(m: Multiset<PointType<S>>) -> bool {
    forall|p: PointType<S>| #[trigger] m.contains(p) ==> num_point(p)
}

/// No point of the collection is above `at` along the axis.
pub open spec fn all_below<S: Scalar>(m: Multiset<PointType<S>>, at: PointType<S>, axis: int) -> bool {
    forall|p: PointType<S>| #[trigger] m.contains(p) ==> coord(p, axis).key() <= coord(at, axis).key()
}

/// No point of the collection is below `at` along the axis.
pub open spec fn all_above<S: Scalar>(m: Multiset<PointType<S>>, at: PointType<S>, axis: int) -> bool {
    forall|p: PointType<S>| #[trigger] m.contains(p) ==> coord(at, axis).key() <= coord(p, axis).key()
}

/// The invariant that concerns the two subtrees of a node: they are well formed
/// and the point of the node splits them along its axis.
pub open spec fn sons_wf<S: Scalar>(n: KdTreeNode<S>) -> bool
    decreases n, 0int,
{
    &&& wf(n.left_son)
    &&& wf(n.right_son)
    &&& n.division_axis < 3
    &&& num_point(n.point)
    &&& all_below(stored(n.left_son), n.point, n.division_axis as int)
    &&& all_above(stored(n.right_son), n.point, n.division_axis as int)
    &&& stored(n.left_son).len() + stored(n.right_son).len() < i32::MAX
}

/// The counters, flags and ranges of a node describe its subtree.
pub open spec fn node_wf<S: Scalar>(n: KdTreeNode<S>) -> bool {
    let t = Some(Box::new(n));
    &&& n.tree_size == stored(t).len()
    &&& n.invalid_point_num == stored(t).len() - live(t).len()
    &&& 0 <= n.down_del_num <= n.tree_size
    &&& n.radius_sq == half_diagonal_sq(n)
    &&& !n.tree_deleted ==> live(t).len() > 0
    &&& n.need_push_down_to_left || n.need_push_down_to_right ==> n.tree_deleted
    &&& n.tree_deleted ==> n.point_deleted && (n.need_push_down_to_left || dead(n.left_son)) && (
    n.need_push_down_to_right || dead(n.right_son))
    &&& range_num(n)
    &&& forall|p: PointType<S>| #[trigger] live(t).contains(p) ==> in_range(n, p)
}

/// The invariant of the tree.
pub open spec fn wf<S: Scalar>(t: Tree<S>) -> bool
    decreases t,
{
    match t {
        None => true,
        Some(n) => sons_wf(*n) && node_wf(*n),
    }
}

/// A live point is a stored one.
pub proof fn lemma_live_stored<S: Scalar>(t: Tree<S>)
    requires
        wf(t),
    ensures
        live(t).subset_of(stored(t)),
        live(t).len() <= stored(t).len(),
    decreases t,
{
    broadcast use vstd::multiset::group_multiset_axioms;

    if let Some(n) = t {
        lemma_live_stored(n.left_son);
        lemma_live_stored(n.right_son);
    }
}

/// The live points have numbers for coordinates.
pub proof fn lemma_live_num<S: Scalar>(t: Tree<S>)
    requires
        wf(t),
    ensures
        all_num(live(t)),
        all_num(stored(t)),
    decreases t,
{
    broadcast use vstd::multiset::group_multiset_axioms;

    if let Some(n) = t {
        lemma_live_num(n.left_son);
        lemma_live_num(n.right_son);
        assert forall|p: PointType<S>| #[trigger] stored(t).contains(p) implies num_point(p) by {
            assert(p == n.point || stored(n.left_son).contains(p) || stored(n.right_son).contains(p));
        }
        lemma_live_stored(t);
        assert forall|p: PointType<S>| #[trigger] live(t).contains(p) implies num_point(p) by {
            assert(live(t).count(p) <= stored(t).count(p));
            assert(stored(t).contains(p));
        }
    }
}

/// The range of the node contains that of a live son.
pub open spec fn range_contains<S: Scalar>(n: KdTreeNode<S>, son: Tree<S>) -> bool {
    !dead(son) ==> forall|axis: int|
        0 <= axis < 3 ==> (#[trigger] range_lo(n, axis)).key() <= range_lo(*son->0, axis).key()
            && range_hi(*son->0, axis).key() <= range_hi(n, axis).key()
}

/// A range that contains those of the live sons and the live point contains
/// every live point.
pub proof fn lemma_range_contains<S: Scalar>(n: KdTreeNode<S>)
    requires
        sons_wf(n),
        range_contains(n, n.left_son),
        range_contains(n, n.right_son),
        !n.point_deleted ==> in_range(n, n.point),
    ensures
        forall|p: PointType<S>| #[trigger]
            live(Some(Box::new(n))).contains(p) ==> in_range(n, p),
{
    broadcast use vstd::multiset::group_multiset_axioms;

    let t = Some(Box::new(n));
    assert forall|p: PointType<S>| #[trigger] live(t).contains(p) implies in_range(n, p) by {
        if live(n.left_son).contains(p) {
            let son = *n.left_son->0;
            assert(in_range(son, p));
            assert forall|axis: int| 0 <= axis < 3 implies range_lo(n, axis).key() <= (
            #[trigger] coord(p, axis)).key() <= range_hi(n, axis).key() by {
                assert(range_lo(n, axis).key() <= range_lo(son, axis).key());
            }
        } else if live(n.right_son).contains(p) {
            let son = *n.right_son->0;
            assert(in_range(son, p));
            assert forall|axis: int| 0 <= axis < 3 implies range_lo(n, axis).key() <= (
            #[trigger] coord(p, axis)).key() <= range_hi(n, axis).key() by {
                assert(range_lo(n, axis).key() <= range_lo(son, axis).key());
            }
        } else {
            assert(p == n.point && !n.point_deleted);
        }
    }
}

/// Finite live points in a subtree are finite live points in its sons.
pub proof fn lemma_finite_sons<S: Scalar>(n: KdTreeNode<S>)
    requires
        !n.tree_deleted,
        all_finite(live(Some(Box::new(n)))),
    ensures
        !n.point_deleted ==> finite_point(n.point),
        all_finite(live(n.left_son)),
        all_finite(live(n.right_son)),
{
    broadcast use vstd::multiset::group_multiset_axioms;

    let t = Some(Box::new(n));
    if !n.point_deleted {
        assert(live(t).contains(n.point));
    }
    assert forall|p: PointType<S>| #[trigger] live(n.left_son).contains(p) implies finite_point(p) by {
        assert(live(t).contains(p));
    }
    assert forall|p: PointType<S>| #[trigger] live(n.right_son).contains(p) implies finite_point(
        p,
    ) by {
        assert(live(t).contains(p));
    }
}

/// The listing holds the live points.
pub proof fn lemma_listing<S: Scalar>(t: Tree<S>)
    ensures
        listing(t).to_multiset() == live(t),
    decreases t,
{
    broadcast use vstd::multiset::group_multiset_axioms;
    broadcast use vstd::seq_lib::group_to_multiset_ensures;

    match t {
        None => {
            assert(listing(t).to_multiset() =~= live(t));
        },
        Some(n) => {
            if !n.tree_deleted {
                lemma_listing(n.left_son);
                lemma_listing(n.right_son);
                let own = own_listing(*n);
                let a = listing(n.left_son);
                let b = listing(n.right_son);
                vstd::seq_lib::lemma_multiset_commutative(own + a, b);
                vstd::seq_lib::lemma_multiset_commutative(own, a);
                if !n.point_deleted {
                    assert(own =~= Seq::empty().push(n.point));
                }
                assert(own.to_multiset() =~= own_live(*n));
            }
            assert(listing(t).to_multiset() =~= live(t));
        },
    }
}

/// Without pending deletions the live points of a node are its own and its sons'.
pub proof fn lemma_live_parts<S: Scalar>(n: KdTreeNode<S>)
    requires
        node_wf(n),
        !n.need_push_down_to_left,
        !n.need_push_down_to_right,
    ensures
        live(Some(Box::new(n))) == own_live(n).add(live(n.left_son)).add(live(n.right_son)),
        listing(Some(Box::new(n))) == own_listing(n) + listing(n.left_son) + listing(n.right_son),
{
    broadcast use vstd::multiset::group_multiset_axioms;

    let t = Some(Box::new(n));
    assert(live(t) =~= own_live(n).add(live(n.left_son)).add(live(n.right_son)));
    assert(listing(t) =~= own_listing(n) + listing(n.left_son) + listing(n.right_son));
}

/// The largest subtree that is never rebuilt.
pub const MINIMAL_UNBALANCED_TREE_SIZE: i32 = 10;

/// The son by which the balance of a node is measured: the left one if there is one.
pub open spec fn measured_son<S>(n: KdTreeNode<S>) -> Tree<S> {
    if n.left_son is Some {
        n.left_son
    } else {
        n.right_son
    }
}

/// The subtree holds too many deleted points or leans too far to one side.
pub open spec fn needs_rebuild<S: Scalar>(n: KdTreeNode<S>, delete_limit: S, balance_limit: S) -> bool {
    let deleted = S::ratio_spec(n.invalid_point_num as int, n.tree_size as int);
    let balance = S::ratio_spec(measured_son(n)->0.tree_size as int, n.tree_size - 1);
    &&& n.tree_size > MINIMAL_UNBALANCED_TREE_SIZE
    &&& lt(delete_limit, deleted) || lt(balance_limit, balance) || lt(
        balance,
        S::ratio_spec(1, 1).minus_spec(balance_limit),
    )
}

/// At every node the two subtrees differ by one point at most.
pub open spec fn balanced<S>(t: Tree<S>) -> bool
    decreases t,
{
    match t {
        None => true,
        Some(n) => {
            &&& -1 <= stored(n.left_son).len() - stored(n.right_son).len() <= 1
            &&& balanced(n.left_son)
            &&& balanced(n.right_son)
        },
    }
}

/// The subtree is as a rebuild leaves it: it holds no deleted point and is balanced.
pub open spec fn rebuilt<S>(t: Tree<S>) -> bool {
    stored(t) == live(t) && balanced(t)
}

/// The number of nodes on the longest way down.
pub open spec fn height<S>(t: Tree<S>) -> nat
    decreases t,
{
    match t {
        None => 0,
        Some(n) => if height(n.left_son) < height(n.right_son) {
            1 + height(n.right_son)
        } else {
            1 + height(n.left_son)
        },
    }
}

/// Points of the collection lie on both ends of the range of a node along an axis.
#[verifier::opaque]
pub open spec fn reaches<S: Scalar>(
    m: Multiset<PointType<S>>,
    n: KdTreeNode<S>,
    axis: int,
) -> bool {
    &&& exists|p: PointType<S>| #[trigger]
        m.contains(p) && coord(p, axis).key() == range_lo(n, axis).key()
    &&& exists|p: PointType<S>| #[trigger]
        m.contains(p) && coord(p, axis).key() == range_hi(n, axis).key()
}

/// Live points lie on the ends of the range of a subtree; of a deleted subtree, any
/// of its points do.
pub open spec fn tight<S: Scalar>(t: Tree<S>) -> bool {
    t is Some ==> {
        let m = if t->0.tree_deleted {
            stored(t)
        } else {
            live(t)
        };
        reaches(m, *t->0, 0) && reaches(m, *t->0, 1) && reaches(m, *t->0, 2)
    }
}

/// Every subtree has a tight range.
pub open spec fn all_tight<S: Scalar>(t: Tree<S>) -> bool
    decreases t,
{
    tight(t) && (t is Some ==> all_tight(t->0.left_son) && all_tight(t->0.right_son))
}

/// An end of the range of a node comes from a part of its subtree that counts: what
/// is live, or everything where nothing is.
pub open spec fn end_from_parts<S: Scalar>(n: KdTreeNode<S>, axis: int, low: bool) -> bool {
    let end = if low {
        range_lo(n, axis)
    } else {
        range_hi(n, axis)
    };
    let left = if low {
        range_lo(*n.left_son->0, axis)
    } else {
        range_hi(*n.left_son->0, axis)
    };
    let right = if low {
        range_lo(*n.right_son->0, axis)
    } else {
        range_hi(*n.right_son->0, axis)
    };
    ||| n.left_son is Some && (n.tree_deleted || !n.left_son->0.tree_deleted) && end == left
    ||| n.right_son is Some && (n.tree_deleted || !n.right_son->0.tree_deleted) && end == right
    ||| (n.tree_deleted || !n.point_deleted) && end == coord(n.point, axis)
}

/// Tight ranges of the sons make the range of their node tight.
pub proof fn lemma_tight<S: Scalar>(n: KdTreeNode<S>, axis: int)
    requires
        0 <= axis < 3,
        n.tree_deleted == (n.point_deleted && dead(n.left_son) && dead(n.right_son)),
        tight(n.left_son),
        tight(n.right_son),
        end_from_parts(n, axis, true),
        end_from_parts(n, axis, false),
    ensures
        reaches(
            if n.tree_deleted {
                stored(Some(Box::new(n)))
            } else {
                live(Some(Box::new(n)))
            },
            n,
            axis,
        ),
{
    broadcast use vstd::multiset::group_multiset_axioms;

    reveal(reaches);
    let t = Some(Box::new(n));
    let m = if n.tree_deleted {
        stored(t)
    } else {
        live(t)
    };
    if n.left_son is Some && (n.tree_deleted || !n.left_son->0.tree_deleted) {
        let son = *n.left_son->0;
        let k = if son.tree_deleted {
            stored(n.left_son)
        } else {
            live(n.left_son)
        };
        assert(reaches(k, son, axis));
        let p = choose|p: PointType<S>| #[trigger]
            k.contains(p) && coord(p, axis).key() == range_lo(son, axis).key();
        let q = choose|q: PointType<S>| #[trigger]
            k.contains(q) && coord(q, axis).key() == range_hi(son, axis).key();
        assert(m.contains(p) && m.contains(q));
    }
    if n.right_son is Some && (n.tree_deleted || !n.right_son->0.tree_deleted) {
        let son = *n.right_son->0;
        let k = if son.tree_deleted {
            stored(n.right_son)
        } else {
            live(n.right_son)
        };
        assert(reaches(k, son, axis));
        let p = choose|p: PointType<S>| #[trigger]
            k.contains(p) && coord(p, axis).key() == range_lo(son, axis).key();
        let q = choose|q: PointType<S>| #[trigger]
            k.contains(q) && coord(q, axis).key() == range_hi(son, axis).key();
        assert(m.contains(p) && m.contains(q));
    }
    if n.tree_deleted || !n.point_deleted {
        assert(m.contains(n.point));
    }
}

/// A node whose subtree was deleted as a whole, its sons left for later.
pub open spec fn deleted_node<S>(n: KdTreeNode<S>, downsample: bool) -> KdTreeNode<S> {
    KdTreeNode {
        point_deleted: true,
        tree_deleted: true,
        invalid_point_num: n.tree_size,
        point_downsample_deleted: n.point_downsample_deleted || downsample,
        tree_downsample_deleted: n.tree_downsample_deleted || downsample,
        down_del_num: if downsample {
            n.tree_size
        } else {
            n.down_del_num
        },
        need_push_down_to_left: true,
        need_push_down_to_right: true,
        ..n
    }
}

/// A son to which a pending deletion was handed down.
pub open spec fn handed_down<S>(son: Tree<S>, pending: bool, downsample: bool) -> Tree<S> {
    match son {
        Some(n) if pending => Some(Box::new(deleted_node(*n, downsample))),
        _ => son,
    }
}

/// The number of points that downsampling deleted in a subtree.
pub open spec fn down_deleted<S>(t: Tree<S>) -> int {
    match t {
        Some(n) => n.down_del_num as int,
        None => 0,
    }
}

/// Downsampling deleted the whole subtree, or there is none.
pub open spec fn down_dead<S>(t: Tree<S>) -> bool {
    t is Some ==> t->0.tree_downsample_deleted
}

/// A node whose pending deletion was handed down to its sons.
#[verifier::opaque]
pub open spec fn pushed<S>(n: KdTreeNode<S>) -> KdTreeNode<S> {
    KdTreeNode {
        left_son: handed_down(n.left_son, n.need_push_down_to_left, n.tree_downsample_deleted),
        right_son: handed_down(n.right_son, n.need_push_down_to_right, n.tree_downsample_deleted),
        need_push_down_to_left: false,
        need_push_down_to_right: false,
        ..n
    }
}

/// Handing a deletion down does not change the shape.
pub proof fn lemma_pushed_height<S>(n: KdTreeNode<S>)
    ensures
        height(pushed(n).left_son) < height(Some(Box::new(n))),
        height(pushed(n).right_son) < height(Some(Box::new(n))),
{
    reveal(pushed);
    assert(height(pushed(n).left_son) == height(n.left_son));
    assert(height(pushed(n).right_son) == height(n.right_son));
}

/// The counters, flags and ranges of a node are as its sons and its point ask for.
pub open spec fn refreshed<S: Scalar>(m: KdTreeNode<S>) -> bool {
    &&& node_wf(m)
    &&& !m.need_push_down_to_left && !m.need_push_down_to_right
    &&& m.tree_deleted == (m.point_deleted && dead(m.left_son) && dead(m.right_son))
    &&& m.down_del_num == down_deleted(m.left_son) + down_deleted(m.right_son) + (
    if m.point_downsample_deleted {
        1int
    } else {
        0
    })
    &&& m.tree_downsample_deleted == (m.point_downsample_deleted && down_dead(m.left_son)
        && down_dead(m.right_son))
    &&& tight(m.left_son) && tight(m.right_son) ==> tight(Some(Box::new(m)))
}

/// Node `m` holds the point of node `n` and divides along its axis; `deleted` and
/// `down` say whether the point is deleted, and whether by downsampling.
pub open spec fn same_place<S: Scalar>(
    n: KdTreeNode<S>,
    m: KdTreeNode<S>,
    deleted: bool,
    down: bool,
) -> bool {
    &&& m.point == n.point
    &&& m.division_axis == n.division_axis
    &&& m.alpha_del == n.alpha_del
    &&& m.alpha_bal == n.alpha_bal
    &&& m.point_deleted == deleted
    &&& m.point_downsample_deleted == down
    &&& refreshed(m)
}

/// What becomes of a subtree with root `m` after an edit: if it is due and rebuilding
/// is allowed, it is rebuilt of just its live points; else it stays as it is.
pub open spec fn renewed<S: Scalar>(
    m: KdTreeNode<S>,
    after: Tree<S>,
    allow_rebuild: bool,
    delete_limit: S,
    balance_limit: S,
) -> bool {
    if allow_rebuild && needs_rebuild(m, delete_limit, balance_limit) {
        rebuilt(after) && live(after) == live(Some(Box::new(m)))
    } else {
        after == Some(Box::new(m))
    }
}

/// The node is a new one without sons.
pub open spec fn new_leaf<S: Scalar>(m: KdTreeNode<S>, p: PointType<S>, axis: usize) -> bool {
    &&& m.point == p
    &&& m.division_axis == axis
    &&& m.left_son is None && m.right_son is None
    &&& !m.point_deleted && !m.point_downsample_deleted
    &&& refreshed(m)
}

/// Point `p` was added to a subtree below a node that divides along `father_axis`: on
/// the side where it belongs, as a leaf that divides along the next axis, and every
/// subtree on the way that is due is rebuilt.
#[verifier::opaque]
pub open spec fn grown<S: Scalar>(
    before: Tree<S>,
    after: Tree<S>,
    p: PointType<S>,
    father_axis: usize,
    allow_rebuild: bool,
    delete_limit: S,
    balance_limit: S,
) -> bool
    decreases height(before),
{
    match before {
        None => after is Some && new_leaf(*after->0, p, ((father_axis + 1) % 3) as usize),
        Some(n) => {
            let u = pushed(*n);
            proof {
                lemma_pushed_height(*n);
            }
            exists|m: KdTreeNode<S>|
                {
                    &&& #[trigger] same_place(u, m, u.point_deleted, u.point_downsample_deleted)
                    &&& if goes_left(u, p) {
                        m.right_son == u.right_son && grown(
                            u.left_son,
                            m.left_son,
                            p,
                            u.division_axis,
                            allow_rebuild,
                            delete_limit,
                            balance_limit,
                        )
                    } else {
                        m.left_son == u.left_son && grown(
                            u.right_son,
                            m.right_son,
                            p,
                            u.division_axis,
                            allow_rebuild,
                            delete_limit,
                            balance_limit,
                        )
                    }
                    &&& renewed(m, after, allow_rebuild, delete_limit, balance_limit)
                }
        },
    }
}

/// Node `m` holds the point of node `n`, deleted if it lies in a box.
pub open spec fn marked_in<S: Scalar>(
    n: KdTreeNode<S>,
    m: KdTreeNode<S>,
    b: BoxPointType<S>,
    downsample: bool,
) -> bool {
    let hit = !n.point_deleted && in_box(b, n.point);
    same_place(
        n,
        m,
        n.point_deleted || hit,
        n.point_downsample_deleted || (hit && downsample),
    )
}

/// The live points in a box were deleted from a subtree. A dead subtree and one outside
/// of the box stay as they are; one inside of it is deleted as a whole and keeps what
/// it stores. Of the others, the sons are cut, and then a subtree that is due is
/// rebuilt.
#[verifier::opaque]
pub open spec fn cut<S: Scalar>(
    before: Tree<S>,
    after: Tree<S>,
    b: BoxPointType<S>,
    downsample: bool,
    allow_rebuild: bool,
    delete_limit: S,
    balance_limit: S,
) -> bool
    decreases before,
{
    match before {
        None => after is None,
        Some(n) => if n.tree_deleted || range_apart(b, *n) {
            after == before
        } else if range_covered(b, *n) {
            after == Some(Box::new(deleted_node(*n, downsample)))
        } else {
            exists|m: KdTreeNode<S>|
                {
                    &&& #[trigger] marked_in(*n, m, b, downsample)
                    &&& cut(
                        n.left_son,
                        m.left_son,
                        b,
                        downsample,
                        allow_rebuild,
                        delete_limit,
                        balance_limit,
                    )
                    &&& cut(
                        n.right_son,
                        m.right_son,
                        b,
                        downsample,
                        allow_rebuild,
                        delete_limit,
                        balance_limit,
                    )
                    &&& renewed(m, after, allow_rebuild, delete_limit, balance_limit)
                }
        },
    }
}

/// A node whose own point was deleted.
pub open spec fn struck_node<S>(n: KdTreeNode<S>) -> KdTreeNode<S> {
    KdTreeNode {
        point_deleted: true,
        invalid_point_num: (n.invalid_point_num + 1) as i32,
        tree_deleted: n.invalid_point_num + 1 == n.tree_size,
        ..n
    }
}

/// The point that is the same as `p` was deleted from a subtree if it is met on the way
/// to where `p` belongs, and every subtree above it that is due is rebuilt.
#[verifier::opaque]
pub open spec fn struck<S: Scalar>(
    before: Tree<S>,
    after: Tree<S>,
    p: PointType<S>,
    allow_rebuild: bool,
    delete_limit: S,
    balance_limit: S,
) -> bool
    decreases before,
{
    match before {
        None => after is None,
        Some(n) => if n.tree_deleted {
            after == before
        } else if !n.point_deleted && near_equal(n.point, p) {
            after == Some(Box::new(struck_node(*n)))
        } else {
            exists|m: KdTreeNode<S>|
                {
                    &&& #[trigger] same_place(
                        *n,
                        m,
                        n.point_deleted,
                        n.point_downsample_deleted,
                    )
                    &&& if goes_left(*n, p) {
                        m.right_son == n.right_son && struck(
                            n.left_son,
                            m.left_son,
                            p,
                            allow_rebuild,
                            delete_limit,
                            balance_limit,
                        )
                    } else {
                        m.left_son == n.left_son && struck(
                            n.right_son,
                            m.right_son,
                            p,
                            allow_rebuild,
                            delete_limit,
                            balance_limit,
                        )
                    }
                    &&& renewed(m, after, allow_rebuild, delete_limit, balance_limit)
                }
        },
    }
}

/// The coordinate of `a` along the axis is smaller than that of `b`.
pub open spec fn precedes<S: Scalar>(axis: usize, a: PointType<S>, b: PointType<S>) -> bool {
    coord(a, axis as int).key() < coord(b, axis as int).key()
}

/// The part of a sequence from `start` up to but not including `end`.
pub open spec fn segment<A>(s: Seq<A>, start: usize, end: usize) -> Seq<A> {
    s.subrange(start as int, end as int)
}

/// The smallest coordinate of the points along an axis.
pub open spec fn lowest<S: Scalar>(s: Seq<PointType<S>>, axis: int) -> S
    decreases s.len(),
{
    if s.len() <= 1 {
        coord(s[0], axis)
    } else {
        min_spec(lowest(s.drop_last(), axis), coord(s.last(), axis))
    }
}

/// The largest coordinate of the points along an axis.
pub open spec fn highest<S: Scalar>(s: Seq<PointType<S>>, axis: int) -> S
    decreases s.len(),
{
    if s.len() <= 1 {
        coord(s[0], axis)
    } else {
        max_spec(highest(s.drop_last(), axis), coord(s.last(), axis))
    }
}

/// How far the points extend along an axis.
pub open spec fn spread<S: Scalar>(s: Seq<PointType<S>>, axis: int) -> S {
    highest(s, axis).minus_spec(lowest(s, axis))
}

/// The first axis along which the points extend furthest.
pub open spec fn widest<S: Scalar>(s: Seq<PointType<S>>) -> int {
    let first: int = if lt(spread(s, 0), spread(s, 1)) {
        1
    } else {
        0
    };
    if lt(spread(s, first), spread(s, 2)) {
        2
    } else {
        first
    }
}

/// Two sequences of one length agree but for the part between `start` and `end`.
pub open spec fn agree_outside<A>(s: Seq<A>, t: Seq<A>, start: usize, end: usize) -> bool {
    &&& s.len() == t.len()
    &&& forall|i: int| 0 <= i < s.len() && !(start <= i < end) ==> #[trigger] s[i] == t[i]
}

/// In the part between `start` and `end`, nothing before `mid` is above the
/// element at `mid` along the axis and nothing behind it is below.
pub open spec fn split_along<S: Scalar>(
    s: Seq<PointType<S>>,
    start: usize,
    mid: usize,
    end: usize,
    axis: usize,
) -> bool {
    &&& forall|i: int| start <= i < mid ==> !precedes(axis, s[mid as int], #[trigger] s[i])
    &&& forall|i: int| mid < i < end ==> !precedes(axis, #[trigger] s[i], s[mid as int])
}

/// Every point of the sequence has numbers for coordinates.
pub open spec fn seq_num<S: Scalar>(s: Seq<PointType<S>>) -> bool {
    forall|i: int| 0 <= i < s.len() ==> num_point(#[trigger] s[i])
}

/// No point is lost: what was stored or already removed before, with the points
/// `added` since, is stored or removed now, and what was removed stays so.
pub open spec fn conserved<S>(
    before: Tree<S>,
    removed_before: Seq<PointType<S>>,
    added: Multiset<PointType<S>>,
    after: Tree<S>,
    removed_after: Seq<PointType<S>>,
) -> bool {
    &&& stored(after).add(removed_after.to_multiset()) == stored(before).add(
        removed_before.to_multiset(),
    ).add(added)
    &&& removed_before.to_multiset().subset_of(removed_after.to_multiset())
}

/// A subtree holds no point that it neither held before nor was given.
pub proof fn lemma_conserved<S>(
    before: Tree<S>,
    removed_before: Seq<PointType<S>>,
    added: Multiset<PointType<S>>,
    after: Tree<S>,
    removed_after: Seq<PointType<S>>,
)
    requires
        conserved(before, removed_before, added, after, removed_after),
    ensures
        stored(after).subset_of(stored(before).add(added)),
        stored(after).len() <= stored(before).len() + added.len(),
{
    broadcast use vstd::multiset::group_multiset_axioms;
    broadcast use vstd::seq_lib::group_to_multiset_ensures;

    let r0 = removed_before.to_multiset();
    let r1 = removed_after.to_multiset();
    assert forall|p: PointType<S>| #[trigger]
        stored(after).count(p) <= stored(before).add(added).count(p) by {
        assert(stored(after).add(r1).count(p) == stored(before).add(r0).add(added).count(p));
        assert(r0.count(p) <= r1.count(p));
    }
    assert(r1.sub(r0).add(r0) =~= r1);
    assert(r1.sub(r0).add(r0).len() == r1.sub(r0).len() + r0.len());
    assert(stored(after).add(r1).len() == stored(before).add(r0).add(added).len());
}

/// Conservation over two steps.
pub proof fn lemma_conserved_chain<S>(
    t0: Tree<S>,
    r0: Seq<PointType<S>>,
    a: Multiset<PointType<S>>,
    t1: Tree<S>,
    r1: Seq<PointType<S>>,
    b: Multiset<PointType<S>>,
    t2: Tree<S>,
    r2: Seq<PointType<S>>,
)
    requires
        conserved(t0, r0, a, t1, r1),
        conserved(t1, r1, b, t2, r2),
    ensures
        conserved(t0, r0, a.add(b), t2, r2),
{
    broadcast use vstd::multiset::group_multiset_axioms;

    let lhs = stored(t2).add(r2.to_multiset());
    let rhs = stored(t0).add(r0.to_multiset()).add(a.add(b));
    assert(lhs =~= rhs);
    assert forall|p: PointType<S>| #[trigger]
        r0.to_multiset().count(p) <= r2.to_multiset().count(p) by {
        assert(r0.to_multiset().count(p) <= r1.to_multiset().count(p));
    }
}

/// Conservation passes from a left and a right son to their node.
pub proof fn lemma_conserved_sons<S>(
    n: KdTreeNode<S>,
    r0: Seq<PointType<S>>,
    left_added: Multiset<PointType<S>>,
    r1: Seq<PointType<S>>,
    right_added: Multiset<PointType<S>>,
    m: KdTreeNode<S>,
    r2: Seq<PointType<S>>,
)
    requires
        n.point == m.point,
        conserved(n.left_son, r0, left_added, m.left_son, r1),
        conserved(n.right_son, r1, right_added, m.right_son, r2),
    ensures
        conserved(
            Some(Box::new(n)),
            r0,
            left_added.add(right_added),
            Some(Box::new(m)),
            r2,
        ),
{
    broadcast use vstd::multiset::group_multiset_axioms;

    let tn = Some(Box::new(n));
    let tm = Some(Box::new(m));
    let lhs = stored(tm).add(r2.to_multiset());
    let rhs = stored(tn).add(r0.to_multiset()).add(left_added.add(right_added));
    assert forall|p: PointType<S>| #[trigger] lhs.count(p) == rhs.count(p) by {
        assert(stored(m.left_son).add(r1.to_multiset()).count(p) == stored(n.left_son).add(
            r0.to_multiset(),
        ).add(left_added).count(p));
        assert(stored(m.right_son).add(r2.to_multiset()).count(p) == stored(n.right_son).add(
            r1.to_multiset(),
        ).add(right_added).count(p));
    }
    assert(lhs =~= rhs);
    assert forall|p: PointType<S>| #[trigger]
        r0.to_multiset().count(p) <= r2.to_multiset().count(p) by {
        assert(r0.to_multiset().count(p) <= r1.to_multiset().count(p));
    }
}

/// `acc` with the squared gap between `v` and the range from `lo` to `hi` added.
pub open spec fn axis_gap<S: Scalar>(acc: S, v: S, lo: S, hi: S) -> S {
    let below = if lt(v, lo) {
        acc.plus_spec(gap_square(v, lo))
    } else {
        acc
    };
    if lt(hi, v) {
        below.plus_spec(gap_square(v, hi))
    } else {
        below
    }
}

/// The squared distance between a point and the range of a node.
pub open spec fn box_dist<S: Scalar>(n: KdTreeNode<S>, p: PointType<S>) -> S {
    let x = axis_gap(zero(), p.x, n.node_range_x[0], n.node_range_x[1]);
    let y = axis_gap(x, p.y, n.node_range_y[0], n.node_range_y[1]);
    axis_gap(y, p.z, n.node_range_z[0], n.node_range_z[1])
}

proof fn lemma_axis_gap<S: Scalar>(acc: S, bound: S, v: S, lo: S, hi: S, c: S)
    requires
        lawful::<S>(),
        is_amount(acc),
        is_amount(bound),
        acc.key() <= bound.key(),
        v.is_finite(),
        lo.is_num(),
        hi.is_num(),
        c.is_finite(),
        lo.key() <= c.key() <= hi.key(),
    ensures
        is_amount(axis_gap(acc, v, lo, hi)),
        is_amount(bound.plus_spec(gap_square(v, c))),
        axis_gap(acc, v, lo, hi).key() <= bound.plus_spec(gap_square(v, c)).key(),
{
    law_finite_is_num(v);
    law_finite_is_num(c);
    law_gap_square(v, c);
    law_plus_zero(acc);
    if lt(v, lo) {
        law_finite_between(v, lo, c);
        law_gap_square(v, lo);
        law_gap_monotone(v, lo, c);
        law_plus_monotone(acc, gap_square(v, lo), bound, gap_square(v, c));
    } else if lt(hi, v) {
        law_finite_between(c, hi, v);
        law_gap_square(v, hi);
        law_gap_monotone(v, hi, c);
        law_plus_monotone(acc, gap_square(v, hi), bound, gap_square(v, c));
    } else {
        law_plus_monotone(acc, zero(), bound, gap_square(v, c));
    }
}

/// A point in the range of a node is no closer than the range.
pub proof fn law_box_dist_bound<S: Scalar>(n: KdTreeNode<S>, q: PointType<S>, p: PointType<S>)
    requires
        lawful::<S>(),
        range_num(n),
        finite_point(q),
        finite_point(p),
        in_range(n, p),
    ensures
        box_dist(n, q).is_num(),
        dist(q, p).is_num(),
        box_dist(n, q).key() <= dist(q, p).key(),
{
    assert(range_lo(n, 0) == n.node_range_x[0] && range_hi(n, 0) == n.node_range_x[1]);
    assert(range_lo(n, 1) == n.node_range_y[0] && range_hi(n, 1) == n.node_range_y[1]);
    assert(range_lo(n, 2) == n.node_range_z[0] && range_hi(n, 2) == n.node_range_z[1]);
    assert(coord(p, 0) == p.x && coord(p, 1) == p.y && coord(p, 2) == p.z);
    law_gap_square(q.x, p.x);
    let dx = gap_square(q.x, p.x);
    let x = axis_gap(zero(), q.x, n.node_range_x[0], n.node_range_x[1]);
    let y = axis_gap(x, q.y, n.node_range_y[0], n.node_range_y[1]);
    law_plus_zero(dx);
    lemma_axis_gap(zero(), zero(), q.x, n.node_range_x[0], n.node_range_x[1], p.x);
    lemma_axis_gap(x, dx, q.y, n.node_range_y[0], n.node_range_y[1], p.y);
    lemma_axis_gap(
        y,
        dx.plus_spec(gap_square(q.y, p.y)),
        q.z,
        n.node_range_z[0],
        n.node_range_z[1],
        p.z,
    );
}

/// A neighbour with its squared distance.
#[derive(Clone, Copy)]
pub struct PointCmp<S> {
    pub point: PointType<S>,
    pub dist: S,
}

/// The order of neighbours: by distance, equal distances by `x`.
pub open spec fn ranked<S: Scalar>(a: PointCmp<S>, b: PointCmp<S>) -> bool {
    a.dist.key() < b.dist.key() || (a.dist.key() == b.dist.key() && a.point.x.key()
        <= b.point.x.key())
}

/// The point is no further than the limit.
pub open spec fn within<S: Scalar>(q: PointType<S>, limit_sq: S, p: PointType<S>) -> bool {
    le(dist(q, p), limit_sq)
}

/// The points of a list of neighbours.
pub open spec fn points_of<S>(s: Seq<PointCmp<S>>) -> Seq<PointType<S>> {
    s.map_values(|c: PointCmp<S>| c.point)
}

/// A list of at most `k` neighbours of `q` within the limit, in order.
pub open spec fn neighbours<S: Scalar>(
    s: Seq<PointCmp<S>>,
    q: PointType<S>,
    k: nat,
    limit_sq: S,
) -> bool {
    &&& s.len() <= k
    &&& forall|i: int|
        0 <= i < s.len() ==> (#[trigger] s[i]).dist == dist(q, s[i].point) && within(
            q,
            limit_sq,
            s[i].point,
        ) && num_point(s[i].point)
    &&& forall|i: int, j: int| 0 <= i < j < s.len() ==> ranked(#[trigger] s[i], #[trigger] s[j])
}

/// Nothing closer was left out: a point of `m` within the limit that is not in
/// the list faces a full list, none of it further away.
pub open spec fn none_closer<S: Scalar>(
    s: Seq<PointCmp<S>>,
    m: Multiset<PointType<S>>,
    q: PointType<S>,
    k: nat,
    limit_sq: S,
) -> bool {
    forall|p: PointType<S>|
        #![trigger m.count(p)]
        m.count(p) > points_of(s).to_multiset().count(p) && within(q, limit_sq, p) ==> s.len() == k
            && forall|i: int| 0 <= i < s.len() ==> (#[trigger] s[i]).dist.key() <= dist(q, p).key()
}

/// The distances to the live points of the tree can be relied on to keep their order.
pub open spec fn exact<S: Scalar>(t: Tree<S>, q: PointType<S>) -> bool {
    lawful::<S>() && finite_point(q) && all_finite(live(t))
}

/// A subtree beyond the limit or beyond a full list may be left out.
pub proof fn lemma_skip<S: Scalar>(
    t: Tree<S>,
    s: Seq<PointCmp<S>>,
    seen: Multiset<PointType<S>>,
    q: PointType<S>,
    k: nat,
    limit_sq: S,
)
    requires
        wf(t),
        exact(t, q),
        neighbours(s, q, k, limit_sq),
        none_closer(s, seen, q, k, limit_sq),
        t is Some ==> t->0.tree_deleted || lt(limit_sq, box_dist(*t->0, q)) || (s.len() == k
            && s.len() > 0 && !lt(box_dist(*t->0, q), s.last().dist)),
    ensures
        none_closer(s, seen.add(live(t)), q, k, limit_sq),
{
    broadcast use vstd::multiset::group_multiset_axioms;

    let m = seen.add(live(t));
    assert forall|p: PointType<S>|
        #![trigger m.count(p)]
        m.count(p) > points_of(s).to_multiset().count(p) && within(q, limit_sq, p) implies s.len()
        == k && forall|i: int|
        0 <= i < s.len() ==> (#[trigger] s[i]).dist.key() <= dist(q, p).key() by {
        if seen.count(p) > points_of(s).to_multiset().count(p) {
        } else {
            let n = *t->0;
            assert(live(t).contains(p));
            assert(in_range(n, p));
            law_box_dist_bound(n, q, p);
            assert(!lt(limit_sq, box_dist(n, q)));
            let top = s.last();
            assert(s[s.len() - 1] == top);
            assert forall|i: int| 0 <= i < s.len() implies (#[trigger] s[i]).dist.key() <= dist(
                q,
                p,
            ).key() by {
                assert(i == s.len() - 1 || ranked(s[i], s[s.len() - 1]));
            }
        }
    }
}

/// Two coordinates are the same but for rounding.
pub open spec fn same_coord<S: Scalar>(a: S, b: S) -> bool {
    lt(a.minus_spec(b).magnitude_spec(), S::ratio_spec(1, 1000000))
}

/// Two points are the same but for rounding.
pub open spec fn near_equal<S: Scalar>(a: PointType<S>, b: PointType<S>) -> bool {
    same_coord(a.x, b.x) && same_coord(a.y, b.y) && same_coord(a.z, b.z)
}

/// The side of a node on which a point belongs.
pub open spec fn goes_left<S: Scalar>(n: KdTreeNode<S>, p: PointType<S>) -> bool {
    lt(coord(p, n.division_axis as int), coord(n.point, n.division_axis as int))
}

/// The live point that is met on the way to where `p` belongs and is the same as `p`.
pub open spec fn point_hit<S: Scalar>(t: Tree<S>, p: PointType<S>) -> Option<PointType<S>>
    decreases t,
{
    match t {
        None => None,
        Some(n) => if n.tree_deleted {
            None
        } else if !n.point_deleted && near_equal(n.point, p) {
            Some(n.point)
        } else if goes_left(*n, p) {
            point_hit(n.left_son, p)
        } else {
            point_hit(n.right_son, p)
        },
    }
}

/// The collection without the point that was hit.
pub open spec fn without<S>(
    m: Multiset<PointType<S>>,
    hit: Option<PointType<S>>,
) -> Multiset<PointType<S>> {
    match hit {
        Some(p) => m.remove(p),
        None => m,
    }
}

/// A point that is hit is live.
pub proof fn lemma_point_hit<S: Scalar>(t: Tree<S>, p: PointType<S>)
    requires
        wf(t),
    ensures
        point_hit(t, p) matches Some(h) ==> live(t).contains(h) && near_equal(h, p),
    decreases t,
{
    broadcast use vstd::multiset::group_multiset_axioms;

    if let Some(n) = t {
        lemma_point_hit(n.left_son, p);
        lemma_point_hit(n.right_son, p);
    }
}

/// The middle of the range of a node.
pub open spec fn range_center<S: Scalar>(n: KdTreeNode<S>) -> PointType<S> {
    let half = S::ratio_spec(1, 2);
    point_at(
        n.node_range_x[0].plus_spec(n.node_range_x[1]).times_spec(half),
        n.node_range_y[0].plus_spec(n.node_range_y[1]).times_spec(half),
        n.node_range_z[0].plus_spec(n.node_range_z[1]).times_spec(half),
    )
}

/// The distance between the middle of the range of a node and a point.
pub open spec fn center_dist<S: Scalar>(n: KdTreeNode<S>, q: PointType<S>) -> S {
    dist(range_center(n), q).root_spec()
}

/// The ball around the range of a node does not meet the ball around `q`.
pub open spec fn ball_far<S: Scalar>(n: KdTreeNode<S>, q: PointType<S>, radius: S) -> bool {
    lt(radius.plus_spec(n.radius_sq.root_spec()), center_dist(n, q))
}

/// The ball around the range of a node lies in the ball around `q`.
pub open spec fn ball_near<S: Scalar>(n: KdTreeNode<S>, q: PointType<S>, radius: S) -> bool {
    le(center_dist(n, q), radius.minus_spec(n.radius_sq.root_spec()))
}

/// The test for the points in a ball.
pub open spec fn in_ball<S: Scalar>(q: PointType<S>, radius: S) -> spec_fn(PointType<S>) -> bool {
    |p: PointType<S>| le(dist(p, q), radius.times_spec(radius))
}

/// The live points that a radius search finds: a subtree whose ball is far
/// counts as outside, one whose ball is near counts as inside.
pub open spec fn ball_hits<S: Scalar>(t: Tree<S>, q: PointType<S>, radius: S) -> Seq<PointType<S>>
    decreases t,
{
    match t {
        None => Seq::empty(),
        Some(n) => if n.tree_deleted || ball_far(*n, q, radius) {
            Seq::empty()
        } else if ball_near(*n, q, radius) {
            listing(t)
        } else {
            own_listing(*n).filter(in_ball(q, radius)) + ball_hits(n.left_son, q, radius)
                + ball_hits(n.right_son, q, radius)
        },
    }
}

/// The balls around the ranges tell the truth about the points: none of a far
/// subtree is in the ball around `q`, all of a near one are.
pub open spec fn balls_true<S: Scalar>(t: Tree<S>, q: PointType<S>, radius: S) -> bool
    decreases t,
{
    match t {
        None => true,
        Some(n) => {
            &&& ball_far(*n, q, radius) ==> forall|p: PointType<S>| #[trigger]
                live(t).contains(p) ==> !in_ball(q, radius)(p)
            &&& !ball_far(*n, q, radius) && ball_near(*n, q, radius) ==> forall|p: PointType<S>|
                #[trigger]
                live(t).contains(p) ==> in_ball(q, radius)(p)
            &&& balls_true(n.left_son, q, radius)
            &&& balls_true(n.right_son, q, radius)
        },
    }
}

/// Where rounding does not falsify the balls, a radius search finds exactly the
/// live points in the ball.
pub proof fn law_ball_hits<S: Scalar>(t: Tree<S>, q: PointType<S>, radius: S)
    requires
        wf(t),
        balls_true(t, q, radius),
    ensures
        ball_hits(t, q, radius) == listing(t).filter(in_ball(q, radius)),
    decreases t,
{
    let f = in_ball(q, radius);
    match t {
        None => {
            reveal(Seq::filter);
        },
        Some(n) => {
            lemma_listing(t);
            if n.tree_deleted {
                reveal(Seq::filter);
            } else if ball_far(*n, q, radius) {
                lemma_filter_none(listing(t), f);
            } else if ball_near(*n, q, radius) {
                lemma_filter_all(listing(t), f);
            } else {
                law_ball_hits(n.left_son, q, radius);
                law_ball_hits(n.right_son, q, radius);
                Seq::filter_distributes_over_add(
                    own_listing(*n) + listing(n.left_son),
                    listing(n.right_son),
                    f,
                );
                Seq::filter_distributes_over_add(own_listing(*n), listing(n.left_son), f);
            }
        },
    }
}

/// What a test leaves of the point of a node.
pub proof fn lemma_filter_own<S>(n: KdTreeNode<S>, f: spec_fn(PointType<S>) -> bool)
    ensures
        own_listing(n).filter(f) == if !n.point_deleted && f(n.point) {
            seq![n.point]
        } else {
            Seq::empty()
        },
        Seq::<PointType<S>>::empty().filter(f) == Seq::<PointType<S>>::empty(),
{
    reveal_with_fuel(Seq::filter, 2);
    if !n.point_deleted {
        assert(own_listing(n).drop_last() =~= Seq::empty());
        assert(own_listing(n).filter(f) =~= if f(n.point) {
            seq![n.point]
        } else {
            Seq::empty()
        });
    }
}

/// A test that no element passes leaves nothing.
pub proof fn lemma_filter_none<A>(s: Seq<A>, f: spec_fn(A) -> bool)
    requires
        forall|a: A| #[trigger] s.to_multiset().contains(a) ==> !f(a),
    ensures
        s.filter(f) == Seq::<A>::empty(),
{
    broadcast use vstd::seq_lib::group_to_multiset_ensures;

    assert forall|i: int| 0 <= i < s.len() implies !f(#[trigger] s[i]) by {
        assert(s.contains(s[i]));
        assert(s.to_multiset().contains(s[i]));
    }
    if s.filter(f).len() > 0 {
        let x = s.filter(f)[0];
        s.lemma_filter_pred(f, 0);
        assert(s.filter(f).contains(x));
        s.lemma_filter_contains_rev(f, x);
        assert(s.to_multiset().contains(x));
    }
    assert(s.filter(f) =~= Seq::<A>::empty());
}

/// A test that every element passes leaves everything.
pub proof fn lemma_filter_all<A>(s: Seq<A>, f: spec_fn(A) -> bool)
    requires
        forall|a: A| #[trigger] s.to_multiset().contains(a) ==> f(a),
    ensures
        s.filter(f) == s,
    decreases s.len(),
{
    broadcast use vstd::seq_lib::group_to_multiset_ensures;

    reveal(Seq::filter);
    if s.len() > 0 {
        let r = s.drop_last();
        assert(s =~= r.push(s.last()));
        assert(s.to_multiset() =~= r.to_multiset().insert(s.last()));
        assert forall|a: A| #[trigger] r.to_multiset().contains(a) implies f(a) by {
            assert(s.to_multiset().contains(a));
        }
        lemma_filter_all(r, f);
        assert(s.to_multiset().contains(s.last()));
    }
}

/// A filtered collection is no larger.
pub proof fn lemma_filter_len<A>(m: Multiset<A>, f: spec_fn(A) -> bool)
    ensures
        m.filter(f).len() <= m.len(),
{
    broadcast use vstd::multiset::group_multiset_axioms;

    let rest = m.sub(m.filter(f));
    assert(rest.add(m.filter(f)) =~= m);
    assert(rest.add(m.filter(f)).len() == rest.len() + m.filter(f).len());
}

/// Two subtrees hold the same points, deleted and live.
pub open spec fn alike<S>(t: Tree<S>, u: Tree<S>) -> bool {
    &&& stored(t) == stored(u)
    &&& live(t) == live(u)
    &&& listing(t) == listing(u)
    &&& dead(t) == dead(u)
}

/// A node stays well formed and holds the same when its sons are exchanged for
/// sons that hold the same.
pub proof fn lemma_alike<S: Scalar>(n: KdTreeNode<S>, m: KdTreeNode<S>)
    requires
        sons_wf(n),
        node_wf(n),
        !n.need_push_down_to_left,
        !n.need_push_down_to_right,
        alike(n.left_son, m.left_son),
        alike(n.right_son, m.right_son),
        wf(m.left_son),
        wf(m.right_son),
        m == (KdTreeNode { left_son: m.left_son, right_son: m.right_son, ..n }),
    ensures
        wf(Some(Box::new(m))),
        alike(Some(Box::new(n)), Some(Box::new(m))),
{
    let t = Some(Box::new(n));
    let u = Some(Box::new(m));
    assert(stored(u) == stored(t));
    assert(live(u) == live(t));
    assert(listing(u) == listing(t));
    assert forall|p: PointType<S>| #[trigger] live(u).contains(p) implies in_range(m, p) by {
        assert(in_range(n, p));
        assert forall|axis: int| 0 <= axis < 3 implies range_lo(m, axis).key() <= (#[trigger] coord(
            p,
            axis,
        )).key() <= range_hi(m, axis).key() by {
            assert(range_lo(m, axis) == range_lo(n, axis));
            assert(range_hi(m, axis) == range_hi(n, axis));
        }
    }
    assert(node_wf(m));
}

/// The test for the points of a box.
pub open spec fn inside<S: Scalar>(b: BoxPointType<S>) -> spec_fn(PointType<S>) -> bool {
    |p: PointType<S>| in_box(b, p)
}

/// The test for the points that are not in a box.
pub open spec fn outside<S: Scalar>(b: BoxPointType<S>) -> spec_fn(PointType<S>) -> bool {
    |p: PointType<S>| !in_box(b, p)
}

} // verus!
