//! Single nodes of the tree: their upkeep and how subtrees are built.
use crate::ikdtree::model::{
    agree_outside, alike, all_tight, balanced, conserved, coord, deleted_node, highest,
    in_range, lemma_alike, lemma_listing, lemma_live_num, lemma_live_parts,
    lemma_live_stored, lemma_range_contains, lemma_tight, listing, live, lowest, needs_rebuild,
    node_wf, num_point, own_listing, own_live, precedes, pushed, range_contains,
    range_lo, rebuilt, refreshed, renewed, segment, seq_num, sons_wf, split_along, spread, stored,
    tight, wf, widest, KdTreeNode, MINIMAL_UNBALANCED_TREE_SIZE,
};
use crate::scalar::{Scalar, max_of, min_of};
use crate::types::PointType;
use std::cmp::Ordering;
use vstd::multiset::Multiset;
use vstd::prelude::*;

verus! {


/// Deletes a whole subtree below a deleted node, leaving its own sons for later.
pub(crate) fn delete_son<S: Scalar>(son: &mut KdTreeNode<S>, downsample: bool)
    requires
        sons_wf(*old(son)),
        node_wf(*old(son)),
    ensures
        sons_wf(*final(son)),
        node_wf(*final(son)),
        *final(son) == deleted_node(*old(son), downsample),
{
    son.tree_downsample_deleted = son.tree_downsample_deleted || downsample;
    son.point_downsample_deleted = son.point_downsample_deleted || downsample;
    son.tree_deleted = true;
    son.point_deleted = true;
    if downsample {
        son.down_del_num = son.tree_size;
    }
    son.invalid_point_num = son.tree_size;
    son.need_push_down_to_left = true;
    son.need_push_down_to_right = true;
}

/// Hands a pending deletion of the subtree down to the sons.
#[verifier::rlimit(40)]
pub(crate) fn push_down<S: Scalar>(node: &mut KdTreeNode<S>)
    requires
        sons_wf(*old(node)),
        node_wf(*old(node)),
    ensures
        sons_wf(*final(node)),
        node_wf(*final(node)),
        *final(node) == pushed(*old(node)),
        !final(node).need_push_down_to_left,
        !final(node).need_push_down_to_right,
        stored(final(node).left_son) == stored(old(node).left_son),
        stored(final(node).right_son) == stored(old(node).right_son),
        !old(node).tree_deleted ==> *final(node) == *old(node),
        final(node).point == old(node).point,
        final(node).division_axis == old(node).division_axis,
        final(node).point_deleted == old(node).point_deleted,
        final(node).tree_deleted == old(node).tree_deleted,
{
    proof {
        reveal(pushed);
    }
    let downsample = node.tree_downsample_deleted;
    if node.need_push_down_to_left {
        match &mut node.left_son {
            Some(left) => {
                delete_son(left, downsample);
            },
            None => {},
        }
        node.need_push_down_to_left = false;
    }
    if node.need_push_down_to_right {
        match &mut node.right_son {
            Some(right) => {
                delete_son(right, downsample);
            },
            None => {},
        }
        node.need_push_down_to_right = false;
    }
}

/// What a node needs to know of a son: its counters, flags and ranges.
#[derive(Clone, Copy)]
pub(crate) struct ChildInfo<S> {
    pub(crate) tree_size: i32,
    pub(crate) invalid: i32,
    pub(crate) down_del: i32,
    pub(crate) tree_downsample_deleted: bool,
    pub(crate) tree_deleted: bool,
    pub(crate) range_x: [S; 2],
    pub(crate) range_y: [S; 2],
    pub(crate) range_z: [S; 2],
}

/// Reads what a node needs to know of a son; a missing son counts as empty and
/// deleted, with the place of the node itself for a range.
pub(crate) fn child_info<S: Scalar>(son: &Option<Box<KdTreeNode<S>>>, at: &PointType<S>) -> (r: ChildInfo<S>)
    ensures
        match *son {
            Some(n) => {
                &&& r.tree_size == n.tree_size
                &&& r.invalid == n.invalid_point_num
                &&& r.down_del == n.down_del_num
                &&& r.tree_downsample_deleted == n.tree_downsample_deleted
                &&& r.tree_deleted == n.tree_deleted
                &&& r.range_x == n.node_range_x
                &&& r.range_y == n.node_range_y
                &&& r.range_z == n.node_range_z
            },
            None => {
                &&& r.tree_size == 0
                &&& r.invalid == 0
                &&& r.down_del == 0
                &&& r.tree_downsample_deleted
                &&& r.tree_deleted
                &&& r.range_x == [at.x, at.x]
                &&& r.range_y == [at.y, at.y]
                &&& r.range_z == [at.z, at.z]
            },
        },
{
    match son {
        Some(n) => ChildInfo {
            tree_size: n.tree_size,
            invalid: n.invalid_point_num,
            down_del: n.down_del_num,
            tree_downsample_deleted: n.tree_downsample_deleted,
            tree_deleted: n.tree_deleted,
            range_x: n.node_range_x,
            range_y: n.node_range_y,
            range_z: n.node_range_z,
        },
        None => ChildInfo {
            tree_size: 0,
            invalid: 0,
            down_del: 0,
            tree_downsample_deleted: true,
            tree_deleted: true,
            range_x: [at.x, at.x],
            range_y: [at.y, at.y],
            range_z: [at.z, at.z],
        },
    }
}

/// The smallest range around the parts that are taken in; the place of the
/// point when none is.
pub(crate) fn hull<S: Scalar>(
    take_left: bool,
    left: [S; 2],
    take_right: bool,
    right: [S; 2],
    take_point: bool,
    at: S,
) -> (r: [S; 2])
    requires
        take_left ==> left[0].is_num() && left[1].is_num(),
        take_right ==> right[0].is_num() && right[1].is_num(),
        take_point ==> at.is_num(),
    ensures
        take_left ==> r[0].key() <= left[0].key() && left[1].key() <= r[1].key(),
        take_right ==> r[0].key() <= right[0].key() && right[1].key() <= r[1].key(),
        take_point ==> r[0].key() <= at.key() <= r[1].key(),
        (take_left && r[0] == left[0]) || (take_right && r[0] == right[0]) || ((take_point || !(
        take_left || take_right)) && r[0] == at),
        (take_left && r[1] == left[1]) || (take_right && r[1] == right[1]) || ((take_point || !(
        take_left || take_right)) && r[1] == at),
{
    let mut lo: S = at;
    let mut hi: S = at;
    let mut any: bool = take_point;
    if take_left {
        if any {
            lo = min_of(lo, left[0]);
            hi = max_of(hi, left[1]);
        } else {
            lo = left[0];
            hi = left[1];
        }
        any = true;
    }
    if take_right {
        if any {
            lo = min_of(lo, right[0]);
            hi = max_of(hi, right[1]);
        } else {
            lo = right[0];
            hi = right[1];
        }
    }
    [lo, hi]
}

/// The square of half of `hi - lo`.
pub(crate) fn half_square<S: Scalar>(range: &[S; 2]) -> (r: S)
    ensures
        r == range[1].minus_spec(range[0]).times_spec(S::ratio_spec(1, 2)).times_spec(
            range[1].minus_spec(range[0]).times_spec(S::ratio_spec(1, 2)),
        ),
{
    let half: S = range[1].minus(range[0]).times(S::ratio(1, 2));
    half.times(half)
}

/// The invariant's claims about the ends of the range of a subtree, end by end.
pub(crate) proof fn lemma_range_ends<S: Scalar>(t: Option<Box<KdTreeNode<S>>>)
    requires
        wf(t),
    ensures
        t is Some ==> {
            let n = *t->0;
            &&& n.node_range_x[0].is_num() && n.node_range_x[1].is_num()
            &&& n.node_range_y[0].is_num() && n.node_range_y[1].is_num()
            &&& n.node_range_z[0].is_num() && n.node_range_z[1].is_num()
        },
{
    if t is Some {
        let n = *t->0;
        assert(range_lo(n, 0).is_num() && range_lo(n, 1).is_num() && range_lo(n, 2).is_num());
    }
}

/// Recomputes the counters, the flags and the ranges of a node from its sons.
pub(crate) fn update<S: Scalar>(node: &mut KdTreeNode<S>)
    requires
        sons_wf(*old(node)),
        !old(node).need_push_down_to_left,
        !old(node).need_push_down_to_right,
    ensures
        sons_wf(*final(node)),
        node_wf(*final(node)),
        final(node).point == old(node).point,
        final(node).division_axis == old(node).division_axis,
        final(node).left_son == old(node).left_son,
        final(node).right_son == old(node).right_son,
        final(node).alpha_del == old(node).alpha_del,
        final(node).alpha_bal == old(node).alpha_bal,
        final(node).point_deleted == old(node).point_deleted,
        final(node).point_downsample_deleted == old(node).point_downsample_deleted,
        refreshed(*final(node)),
        live(Some(Box::new(*final(node)))) == own_live(*old(node)).add(live(old(node).left_son)).add(
            live(old(node).right_son),
        ),
{
    proof {
        lemma_live_stored(node.left_son);
        lemma_live_stored(node.right_son);
    }
    let l: ChildInfo<S> = child_info(&node.left_son, &node.point);
    let r: ChildInfo<S> = child_info(&node.right_son, &node.point);
    let point_deleted: bool = node.point_deleted;
    let tree_deleted: bool = l.tree_deleted && r.tree_deleted && point_deleted;
    node.tree_size = l.tree_size + r.tree_size + 1;
    node.invalid_point_num = l.invalid + r.invalid + (if point_deleted {
        1
    } else {
        0
    });
    node.down_del_num = l.down_del + r.down_del + (if node.point_downsample_deleted {
        1
    } else {
        0
    });
    node.tree_downsample_deleted = l.tree_downsample_deleted && r.tree_downsample_deleted
        && node.point_downsample_deleted;
    node.tree_deleted = tree_deleted;
    let tl: bool = tree_deleted || !l.tree_deleted;
    let tr: bool = tree_deleted || !r.tree_deleted;
    let tp: bool = tree_deleted || !point_deleted;
    proof {
        lemma_range_ends(node.left_son);
        lemma_range_ends(node.right_son);
    }
    node.node_range_x = hull(tl, l.range_x, tr, r.range_x, tp, node.point.x);
    node.node_range_y = hull(tl, l.range_y, tr, r.range_y, tp, node.point.y);
    node.node_range_z = hull(tl, l.range_z, tr, r.range_z, tp, node.point.z);
    node.radius_sq = half_square(&node.node_range_x).plus(half_square(&node.node_range_y)).plus(
        half_square(&node.node_range_z),
    );
    proof {
        assert(range_contains(*node, node.left_son));
        assert(range_contains(*node, node.right_son));
        assert(!node.point_deleted ==> in_range(*node, node.point));
        lemma_range_contains(*node);
        if tight(node.left_son) && tight(node.right_son) {
            lemma_tight(*node, 0);
            lemma_tight(*node, 1);
            lemma_tight(*node, 2);
        }
    }
}

/// A node without sons.
pub(crate) fn leaf<S: Scalar>(point: PointType<S>, division_axis: usize) -> (r: KdTreeNode<S>)
    ensures
        r.point == point,
        r.division_axis == division_axis,
        r.left_son is None,
        r.right_son is None,
        !r.point_deleted,
        !r.point_downsample_deleted,
        !r.need_push_down_to_left,
        !r.need_push_down_to_right,
{
    let o: S = S::ratio(0, 1);
    KdTreeNode {
        point,
        division_axis,
        tree_size: 0,
        invalid_point_num: 0,
        down_del_num: 0,
        point_deleted: false,
        tree_deleted: false,
        point_downsample_deleted: false,
        tree_downsample_deleted: false,
        need_push_down_to_left: false,
        need_push_down_to_right: false,
        node_range_x: [o, o],
        node_range_y: [o, o],
        node_range_z: [o, o],
        radius_sq: o,
        left_son: None,
        right_son: None,
        alpha_del: o,
        alpha_bal: o,
    }
}

/// The coordinate of a point along an axis.
pub(crate) fn coordinate<S: Scalar>(p: &PointType<S>, axis: usize) -> (r: S)
    ensures
        r == coord(*p, axis as int),
{
    if axis == 0 {
        p.x
    } else if axis == 1 {
        p.y
    } else {
        p.z
    }
}

/// Orders two points by their coordinates along an axis.
pub(crate) fn order_along<S: Scalar>(axis: usize, a: &PointType<S>, b: &PointType<S>) -> (r: Ordering)
    requires
        num_point(*a),
        num_point(*b),
    ensures
        r == (if precedes(axis, *a, *b) {
            Ordering::Less
        } else if precedes(axis, *b, *a) {
            Ordering::Greater
        } else {
            Ordering::Equal
        }),
{
    let u: S = coordinate(a, axis);
    let v: S = coordinate(b, axis);
    if u.less(v) {
        Ordering::Less
    } else if v.less(u) {
        Ordering::Greater
    } else {
        Ordering::Equal
    }
}

/// Calls `slice::select_nth_unstable_by` on `storage[start..end]`: it reorders
/// that part so that the element at `mid` is where sorting along the axis would
/// put it, nothing before it is above it and nothing behind it is below it. How
/// the other elements are ordered is left open.
#[verifier::external_body]
pub(crate) fn select_along<S: Scalar>(
    storage: &mut Vec<PointType<S>>,
    start: usize,
    mid: usize,
    end: usize,
    axis: usize,
)
    requires
        start <= mid < end <= old(storage)@.len(),
        seq_num(segment(old(storage)@, start, end)),
    ensures
        agree_outside(final(storage)@, old(storage)@, start, end),
        segment(final(storage)@, start, end).to_multiset() == segment(
            old(storage)@,
            start,
            end,
        ).to_multiset(),
        split_along(final(storage)@, start, mid, end, axis),
{
    storage[start..end].select_nth_unstable_by(mid - start, |a, b| order_along(axis, a, b));
}

/// The extent of the points along an axis.
pub(crate) fn extent<S: Scalar>(storage: &Vec<PointType<S>>, start: usize, end: usize, axis: usize) -> (r: S)
    requires
        start < end <= storage@.len(),
    ensures
        r == spread(segment(storage@, start, end), axis as int),
{
    let mut lo: S = coordinate(&storage[start], axis);
    let mut hi: S = lo;
    let mut i: usize = start + 1;
    while i < end
        invariant
            start < i <= end <= storage@.len(),
            lo == lowest(segment(storage@, start, i), axis as int),
            hi == highest(segment(storage@, start, i), axis as int),
        decreases end - i,
    {
        let v: S = coordinate(&storage[i], axis);
        lo = min_of(lo, v);
        hi = max_of(hi, v);
        assert(segment(storage@, start, (i + 1) as usize).drop_last() =~= segment(
            storage@,
            start,
            i,
        ));
        i = i + 1;
    }
    hi.minus(lo)
}

/// The axis along which the points extend furthest, the first of equal ones.
pub(crate) fn widest_axis<S: Scalar>(storage: &Vec<PointType<S>>, start: usize, end: usize) -> (r: usize)
    requires
        start < end <= storage@.len(),
    ensures
        r == widest(segment(storage@, start, end)),
        r < 3,
{
    let x: S = extent(storage, start, end, 0);
    let y: S = extent(storage, start, end, 1);
    let z: S = extent(storage, start, end, 2);
    let mut axis: usize = 0;
    let mut longest: S = x;
    if longest.less(y) {
        axis = 1;
        longest = y;
    }
    if longest.less(z) {
        axis = 2;
    }
    axis
}

/// Builds a balanced tree of the points from `start` up to `end`, reordering them.
pub(crate) fn build_tree<S: Scalar>(storage: &mut Vec<PointType<S>>, start: usize, end: usize) -> (r: Option<
    Box<KdTreeNode<S>>,
>)
    requires
        start <= end <= old(storage)@.len(),
        end - start <= i32::MAX,
        seq_num(segment(old(storage)@, start, end)),
    ensures
        wf(r),
        stored(r) == segment(old(storage)@, start, end).to_multiset(),
        live(r) == stored(r),
        balanced(r),
        all_tight(r),
        r is None == (start == end),
        r is Some ==> r->0.division_axis == widest(segment(old(storage)@, start, end)),
        agree_outside(final(storage)@, old(storage)@, start, end),
    decreases end - start,
{
    broadcast use vstd::seq_lib::group_to_multiset_ensures;
    broadcast use vstd::multiset::group_multiset_axioms;

    if start == end {
        assert(segment(storage@, start, end).to_multiset() =~= stored::<S>(None));
        return None;
    }
    let mid: usize = start + (end - start - 1) / 2;
    let axis: usize = widest_axis(storage, start, end);
    let ghost before = segment(storage@, start, end);
    select_along(storage, start, mid, end, axis);
    let ghost s = storage@;
    let ghost a = segment(s, start, mid);
    let ghost b = segment(s, (mid + 1) as usize, end);
    let ghost all = segment(s, start, end);
    proof {
        assert(all =~= a + (seq![s[mid as int]] + b));
        vstd::seq_lib::lemma_multiset_commutative(a, seq![s[mid as int]] + b);
        vstd::seq_lib::lemma_multiset_commutative(seq![s[mid as int]], b);
        assert(seq![s[mid as int]] =~= Seq::empty().push(s[mid as int]));
        assert(seq![s[mid as int]].to_multiset() =~= Multiset::singleton(s[mid as int]));
        lemma_same_multiset_num(before, all);
        assert forall|i: int| 0 <= i < a.len() implies num_point(#[trigger] a[i]) by {
            assert(a[i] == all[i]);
        }
        assert forall|i: int| 0 <= i < b.len() implies num_point(#[trigger] b[i]) by {
            assert(b[i] == all[i + mid + 1 - start]);
        }
        assert(all[mid - start] == s[mid as int]);
    }
    let point: PointType<S> = storage[mid];
    let mut node: KdTreeNode<S> = leaf(point, axis);
    node.left_son = build_tree(storage, start, mid);
    assert(segment(storage@, (mid + 1) as usize, end) =~= b);
    node.right_son = build_tree(storage, mid + 1, end);
    proof {
        assert forall|p: PointType<S>| #[trigger] stored(node.left_son).contains(p) implies coord(
            p,
            axis as int,
        ).key() <= coord(point, axis as int).key() by {
            assert(a.contains(p));
            let i = choose|i: int| 0 <= i < a.len() && a[i] == p;
            assert(!precedes(axis, s[mid as int], s[i + start]));
        }
        assert forall|p: PointType<S>| #[trigger] stored(node.right_son).contains(p) implies coord(
            point,
            axis as int,
        ).key() <= coord(p, axis as int).key() by {
            assert(b.contains(p));
            let i = choose|i: int| 0 <= i < b.len() && b[i] == p;
            assert(!precedes(axis, s[i + mid + 1], s[mid as int]));
        }
    }
    update(&mut node);
    let r = Some(Box::new(node));
    proof {
        assert(stored(r) =~= before.to_multiset());
        assert(live(r) =~= stored(r));
    }
    r
}

/// Rearranging points keeps their coordinates numbers.
pub(crate) proof fn lemma_same_multiset_num<S: Scalar>(s: Seq<PointType<S>>, t: Seq<PointType<S>>)
    requires
        s.to_multiset() == t.to_multiset(),
        seq_num(s),
    ensures
        seq_num(t),
{
    broadcast use vstd::seq_lib::group_to_multiset_ensures;

    assert forall|i: int| 0 <= i < t.len() implies num_point(#[trigger] t[i]) by {
        assert(t.contains(t[i]));
        assert(t.to_multiset().count(t[i]) > 0);
        assert(s.contains(t[i]));
    }
}

/// Appends the live points in the order of [`listing`], handing pending
/// deletions down on the way.
pub(crate) fn flatten<S: Scalar>(root: &mut Option<Box<KdTreeNode<S>>>, storage: &mut Vec<PointType<S>>)
    requires
        wf(*old(root)),
    ensures
        wf(*final(root)),
        alike(*old(root), *final(root)),
        final(storage)@ == old(storage)@ + listing(*old(root)),
    decreases stored(*old(root)).len(),
{
    match root {
        None => {},
        Some(node) => {
            let ghost before = **node;
            push_down(node);
            let ghost pushed = **node;
            proof {
                lemma_live_parts(pushed);
                assert(stored(pushed.left_son) == stored(before.left_son));
            }
            let ghost s0 = storage@;
            if !node.point_deleted {
                storage.push(node.point);
            }
            assert(storage@ =~= s0 + own_listing(pushed));
            flatten(&mut node.left_son, storage);
            flatten(&mut node.right_son, storage);
            proof {
                lemma_alike(pushed, **node);
                assert(storage@ =~= s0 + listing(Some(Box::new(pushed))));
            }
        },
    }
}

/// Decides whether the subtree of a node has to be rebuilt.
pub(crate) fn criterion_check<S: Scalar>(node: &KdTreeNode<S>, delete_limit: S, balance_limit: S) -> (r: bool)
    requires
        sons_wf(*node),
        node_wf(*node),
    ensures
        r == needs_rebuild(*node, delete_limit, balance_limit),
{
    if node.tree_size <= MINIMAL_UNBALANCED_TREE_SIZE {
        return false;
    }
    let son_size: i32 = match &node.left_son {
        Some(left) => left.tree_size,
        None => match &node.right_son {
            Some(right) => right.tree_size,
            None => {
                assert(stored(Some(Box::new(*node))).len() == 1);
                0
            },
        },
    };
    let deleted: S = S::ratio(node.invalid_point_num as i64, node.tree_size as i64);
    let balance: S = S::ratio(son_size as i64, (node.tree_size - 1) as i64);
    delete_limit.less(deleted) || balance_limit.less(balance) || balance.less(
        S::ratio(1, 1).minus(balance_limit),
    )
}

/// Sorts the points of a subtree into those to keep and the deleted ones.
/// `deleted` says that a node above deletes the whole subtree.
pub(crate) fn sift<S: Scalar>(
    root: &Option<Box<KdTreeNode<S>>>,
    deleted: bool,
    keep: &mut Vec<PointType<S>>,
    removed: &mut Vec<PointType<S>>,
)
    requires
        wf(*root),
    ensures
        final(keep)@ == if deleted {
            old(keep)@
        } else {
            old(keep)@ + listing(*root)
        },
        final(removed)@.to_multiset().add(
            if deleted {
                Multiset::empty()
            } else {
                live(*root)
            },
        ) == old(removed)@.to_multiset().add(stored(*root)),
    decreases root,
{
    broadcast use vstd::seq_lib::group_to_multiset_ensures;

    match root {
        None => {
            proof {
                assert(keep@ =~= keep@ + listing(*root));
                assert(removed@.to_multiset().add(live(*root)) =~= removed@.to_multiset().add(
                    stored(*root),
                ));
            }
        },
        Some(node) => {
            let ghost k0 = keep@;
            let ghost r0 = removed@;
            let below: bool = deleted || node.tree_deleted;
            if below || node.point_deleted {
                removed.push(node.point);
            } else {
                keep.push(node.point);
            }
            let ghost r1 = removed@;
            sift(&node.left_son, below, keep, removed);
            let ghost r2 = removed@;
            sift(&node.right_son, below, keep, removed);
            proof {
                if !below {
                    assert(keep@ =~= k0 + listing(*root));
                } else {
                    assert(!deleted ==> keep@ =~= k0 + listing(*root));
                }
                let gone = if deleted {
                    Multiset::empty()
                } else {
                    live(*root)
                };
                assert forall|p: PointType<S>| #[trigger]
                    removed@.to_multiset().add(gone).count(p) == r0.to_multiset().add(
                        stored(*root),
                    ).count(p) by {
                    let gl = if below {
                        Multiset::empty()
                    } else {
                        live(node.left_son)
                    };
                    let gr = if below {
                        Multiset::empty()
                    } else {
                        live(node.right_son)
                    };
                    assert(r2.to_multiset().add(gl).count(p) == r1.to_multiset().add(
                        stored(node.left_son),
                    ).count(p));
                    assert(removed@.to_multiset().add(gr).count(p) == r2.to_multiset().add(
                        stored(node.right_son),
                    ).count(p));
                }
                assert(removed@.to_multiset().add(gone) =~= r0.to_multiset().add(stored(*root)));
            }
        },
    }
}

/// Rebuilds a subtree from its live points and records the deleted ones.
pub(crate) fn rebuild<S: Scalar>(root: &mut Option<Box<KdTreeNode<S>>>, removed: &mut Vec<PointType<S>>)
    requires
        wf(*old(root)),
        stored(*old(root)).len() <= i32::MAX,
    ensures
        wf(*final(root)),
        live(*final(root)) == live(*old(root)),
        stored(*final(root)) == live(*old(root)),
        rebuilt(*final(root)),
        final(removed)@.to_multiset().add(stored(*final(root))) == old(removed)@.to_multiset().add(
            stored(*old(root)),
        ),
{
    broadcast use vstd::seq_lib::group_to_multiset_ensures;

    let mut keep: Vec<PointType<S>> = Vec::new();
    sift(root, false, &mut keep, removed);
    proof {
        lemma_listing(*root);
        lemma_live_stored(*root);
        lemma_live_num(*root);
        assert(keep@ =~= listing(*root));
        assert forall|i: int| 0 <= i < keep@.len() implies num_point(#[trigger] keep@[i]) by {
            assert(keep@.contains(keep@[i]));
            assert(live(*root).contains(keep@[i]));
        }
        assert(segment(keep@, 0, keep@.len() as usize) =~= keep@);
    }
    let n: usize = keep.len();
    *root = build_tree(&mut keep, 0, n);
}

/// The limits beyond which a subtree is rebuilt.
#[derive(Clone, Copy)]
pub(crate) struct Limits<S> {
    pub(crate) delete: S,
    pub(crate) balance: S,
}

/// Rebuilds the subtree if it is allowed and due.
pub(crate) fn maintain<S: Scalar>(
    root: &mut Option<Box<KdTreeNode<S>>>,
    allow_rebuild: bool,
    limits: Limits<S>,
    removed: &mut Vec<PointType<S>>,
)
    requires
        wf(*old(root)),
        stored(*old(root)).len() <= i32::MAX,
    ensures
        wf(*final(root)),
        live(*final(root)) == live(*old(root)),
        conserved(*old(root), old(removed)@, Multiset::empty(), *final(root), final(removed)@),
        match *old(root) {
            None => *final(root) is None,
            Some(n) => renewed(*n, *final(root), allow_rebuild, limits.delete, limits.balance),
        },
{
    let due: bool = match root {
        Some(node) => allow_rebuild && criterion_check(node, limits.delete, limits.balance),
        None => false,
    };
    if due {
        proof {
            lemma_live_stored(*root);
        }
        rebuild(root, removed);
        proof {
            let t0 = stored(*old(root));
            let r0 = old(removed)@.to_multiset();
            let t1 = stored(*root);
            let r1 = removed@.to_multiset();
            assert(t1.add(r1) =~= r1.add(t1));
            assert(t0.add(r0) =~= r0.add(t0));
            assert(t0.add(r0).add(Multiset::empty()) =~= t0.add(r0));
            assert forall|p: PointType<S>| #[trigger] r0.count(p) <= r1.count(p) by {
                assert(r1.add(t1).count(p) == r0.add(t0).count(p));
                assert(live(*old(root)).count(p) <= t0.count(p));
            }
        }
    } else {
        proof {
            let t0 = stored(*old(root));
            let r0 = old(removed)@.to_multiset();
            assert(t0.add(r0).add(Multiset::empty()) =~= t0.add(r0));
        }
    }
}

} // verus!
