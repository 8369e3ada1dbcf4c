//! What holds of the tree across operations.
use crate::ikdtree::model::{
    axis_gap, balanced, box_dist, conserved, coord, cut, dist, exact, finite_point, height, in_box,
    in_range, inside, lemma_filter_none, lemma_listing, listing, live, marked_in, outside, points_of,
    range_apart, range_covered, range_finite, range_hi, range_lo, rebuilt, renewed, stored,
    within, wf, BoxPointType, KdTreeNode, Tree, MINIMAL_UNBALANCED_TREE_SIZE,
};
use crate::ikdtree::{
    add_step, cell_best, cell_box, cell_changes, cell_hits, closest, nearest_result, pairs,
};
use crate::scalar::{
    gap_square, is_amount, law_finite_is_num, law_gap_square, law_no_gap, law_plus_monotone,
    law_plus_zero, lawful, lt, zero, Scalar,
};
use crate::types::{point_at, PointType};
use vstd::arithmetic::power2::{lemma_pow2_unfold, pow2};
use vstd::multiset::Multiset;
use vstd::prelude::*;

verus! {

/// A box search after the points of the box were deleted finds nothing.
pub proof fn law_deleted_not_found<S: Scalar>(before: Tree<S>, after: Tree<S>, b: BoxPointType<S>)
    requires
        live(after) == live(before).filter(outside(b)),
    ensures
        listing(after).filter(inside(b)) == Seq::<PointType<S>>::empty(),
{
    lemma_listing(after);
    assert forall|p: PointType<S>| #[trigger]
        listing(after).to_multiset().contains(p) implies !inside(b)(p) by {
        assert(live(before).filter(outside(b)).count(p) > 0);
    }
    lemma_filter_none(listing(after), inside(b));
}

/// A box search finds a point of the box that was added.
pub proof fn law_added_found<S: Scalar>(
    before: Tree<S>,
    after: Tree<S>,
    p: PointType<S>,
    b: BoxPointType<S>,
)
    requires
        live(after) == live(before).insert(p),
        in_box(b, p),
    ensures
        listing(after).filter(inside(b)).contains(p),
{
    lemma_listing(after);
    vstd::seq_lib::to_multiset_contains(listing(after), p);
    assert(live(after).count(p) > 0);
    let i = choose|i: int| 0 <= i < listing(after).len() && listing(after)[i] == p;
    listing(after).lemma_filter_contains(inside(b), i);
}

/// The point that stands for a cell is the new one or one of those in the cell.
proof fn lemma_closest<S: Scalar>(s: Seq<PointType<S>>, mid: PointType<S>, p: PointType<S>)
    ensures
        closest(s, mid, p) == p || s.contains(closest(s, mid, p)),
    decreases s.len(),
{
    if s.len() > 0 {
        lemma_closest(s.drop_last(), mid, p);
        let best = closest(s.drop_last(), mid, p);
        assert(s[s.len() - 1] == s.last());
        if best != p {
            let i = choose|i: int| 0 <= i < s.drop_last().len() && s.drop_last()[i] == best;
            assert(s[i] == best);
        }
    }
}

/// Adding a point with downsampling that changes its cell leaves one point in
/// the cell, provided that rounding has not put the new point outside of it.
pub proof fn law_one_per_cell<S: Scalar>(
    before: Seq<PointType<S>>,
    after: Seq<PointType<S>>,
    p: PointType<S>,
    size: S,
)
    requires
        add_step(before, after, p, size, true),
        cell_changes(before, p, size),
        in_box(cell_box(p, size), p),
    ensures
        after.to_multiset().filter(inside(cell_box(p, size))) == Multiset::singleton(
            cell_best(before, p, size),
        ),
{
    let b = cell_box(p, size);
    let best = cell_best(before, p, size);
    let hits = cell_hits(before, p, size);
    lemma_closest(hits, crate::ikdtree::box_mid(b), p);
    if best != p {
        let i = choose|i: int| 0 <= i < hits.len() && hits[i] == best;
        before.lemma_filter_pred(inside(b), i);
    }
    assert(in_box(b, best));
    assert(after.to_multiset().filter(inside(b)) =~= Multiset::singleton(best));
}

/// A search that finds fewer points than asked for has found every live point
/// within the distance.
pub proof fn law_nearest_complete<S: Scalar>(
    t: Tree<S>,
    q: PointType<S>,
    k: nat,
    max_dist: S,
    points: Seq<PointType<S>>,
    dists: Seq<S>,
)
    requires
        wf(t),
        exact(t, q),
        nearest_result(t, q, k, max_dist, points, dists),
        points.len() < k,
    ensures
        points.to_multiset() == live(t).filter(
            |p: PointType<S>| within(q, max_dist.times_spec(max_dist), p),
        ),
{
    let limit_sq = max_dist.times_spec(max_dist);
    let f = |p: PointType<S>| within(q, limit_sq, p);
    let found = pairs(points, dists);
    assert(points_of(found) =~= points);
    let m = points.to_multiset();
    assert forall|p: PointType<S>| #[trigger] m.count(p) == live(t).filter(f).count(p) by {
        assert(m.count(p) <= live(t).count(p));
        if m.count(p) > 0 {
            vstd::seq_lib::to_multiset_contains(points, p);
            let i = choose|i: int| 0 <= i < points.len() && points[i] == p;
            assert(found[i].point == p);
        }
    }
    assert(m =~= live(t).filter(f));
}

/// A search finds as many points as asked for, or all live points within the distance
/// if those are fewer; their distances are in order, and no live point that it left out
/// is closer than one that it found.
pub proof fn law_nearest_count<S: Scalar>(
    t: Tree<S>,
    q: PointType<S>,
    k: nat,
    max_dist: S,
    points: Seq<PointType<S>>,
    dists: Seq<S>,
)
    requires
        wf(t),
        exact(t, q),
        nearest_result(t, q, k, max_dist, points, dists),
    ensures
        ({
            let near = live(t).filter(
                |p: PointType<S>| within(q, max_dist.times_spec(max_dist), p),
            );
            &&& points.len() == dists.len()
            &&& points.len() == if near.len() < k {
                near.len()
            } else {
                k
            }
            &&& points.to_multiset().subset_of(near)
            &&& forall|i: int| 0 <= i < points.len() ==> #[trigger] dists[i] == dist(q, points[i])
            &&& forall|i: int, j: int|
                0 <= i < j < points.len() ==> (#[trigger] dists[i]).key() <= (
                #[trigger] dists[j]).key()
            &&& forall|p: PointType<S>, i: int|
                near.count(p) > points.to_multiset().count(p) && 0 <= i < points.len() ==> (
                #[trigger] dists[i]).key() <= (#[trigger] dist(q, p)).key()
        }),
{
    broadcast use vstd::multiset::group_multiset_axioms;

    let limit_sq = max_dist.times_spec(max_dist);
    let f = |p: PointType<S>| within(q, limit_sq, p);
    let near = live(t).filter(f);
    let found = pairs(points, dists);
    let m = points.to_multiset();
    assert(points_of(found) =~= points);
    assert forall|p: PointType<S>| #[trigger] m.count(p) <= near.count(p) by {
        assert(m.count(p) <= live(t).count(p));
        if m.count(p) > 0 {
            vstd::seq_lib::to_multiset_contains(points, p);
            let i = choose|i: int| 0 <= i < points.len() && points[i] == p;
            assert(found[i].point == p);
        }
    }
    assert(m.len() == points.len()) by {
        points.to_multiset_ensures();
    }
    assert(near.sub(m).add(m) =~= near);
    assert(near.sub(m).add(m).len() == near.sub(m).len() + m.len());
    if points.len() < k {
        law_nearest_complete(t, q, k, max_dist, points, dists);
        assert(m =~= near);
    }
    assert forall|i: int| 0 <= i < points.len() implies #[trigger] dists[i] == dist(q, points[i]) by {
        assert(found[i].dist == dists[i]);
    }
    assert forall|i: int, j: int| 0 <= i < j < points.len() implies (#[trigger] dists[i]).key() <= (
    #[trigger] dists[j]).key() by {
        assert(crate::ikdtree::model::ranked(found[i], found[j]));
    }
    assert forall|p: PointType<S>, i: int|
        near.count(p) > m.count(p) && 0 <= i < points.len() implies (#[trigger] dists[i]).key() <= (
    #[trigger] dist(q, p)).key() by {
        assert(live(t).count(p) >= near.count(p));
        assert(found[i].dist == dists[i]);
    }
}

/// A balanced tree of fewer than `2^k` points is at most `k` nodes high.
pub proof fn law_balanced_height<S>(t: Tree<S>, k: nat)
    requires
        balanced(t),
        stored(t).len() < pow2(k),
    ensures
        height(t) <= k,
    decreases t,
{
    broadcast use vstd::multiset::group_multiset_axioms;

    if let Some(n) = t {
        let l = stored(n.left_son).len();
        let r = stored(n.right_son).len();
        assert(stored(t).len() == 1 + l + r);
        if k == 0 {
            vstd::arithmetic::power2::lemma2_to64();
        } else {
            lemma_pow2_unfold(k);
            law_balanced_height(n.left_son, (k - 1) as nat);
            law_balanced_height(n.right_son, (k - 1) as nat);
        }
    }
}

/// A rebuild hands over all points that are no longer live: what is removed after it is
/// what was removed before, and what the tree held that is not live now.
pub proof fn law_rebuild_hands_over<S>(
    before: Tree<S>,
    removed_before: Seq<PointType<S>>,
    after: Tree<S>,
    removed_after: Seq<PointType<S>>,
)
    requires
        conserved(before, removed_before, Multiset::empty(), after, removed_after),
        rebuilt(after),
    ensures
        removed_after.to_multiset() == removed_before.to_multiset().add(
            stored(before).sub(live(after)),
        ),
{
    broadcast use vstd::multiset::group_multiset_axioms;

    let r0 = removed_before.to_multiset();
    let r1 = removed_after.to_multiset();
    assert forall|p: PointType<S>| #[trigger]
        r1.count(p) == r0.add(stored(before).sub(live(after))).count(p) by {
        assert(stored(after).add(r1).count(p) == stored(before).add(r0).add(
            Multiset::empty(),
        ).count(p));
        assert(r0.count(p) <= r1.count(p));
    }
    assert(r1 =~= r0.add(stored(before).sub(live(after))));
}

/// Where nothing may be rebuilt, and in a subtree too small for it, a deletion keeps
/// what is stored.
pub proof fn law_cut_keeps_stored<S: Scalar>(
    before: Tree<S>,
    after: Tree<S>,
    b: BoxPointType<S>,
    downsample: bool,
    allow_rebuild: bool,
    delete_limit: S,
    balance_limit: S,
)
    requires
        cut(before, after, b, downsample, allow_rebuild, delete_limit, balance_limit),
        !allow_rebuild || stored(before).len() <= MINIMAL_UNBALANCED_TREE_SIZE,
    ensures
        stored(after) == stored(before),
    decreases before,
{
    broadcast use vstd::multiset::group_multiset_axioms;

    reveal_with_fuel(cut, 1);
    if let Some(n) = before {
        if n.tree_deleted || range_apart(b, *n) || range_covered(b, *n) {
        } else {
            let m = choose|m: KdTreeNode<S>|
                {
                    &&& #[trigger] marked_in(*n, m, b, downsample)
                    &&& cut(
                        n.left_son,
                        m.left_son,
                        b,
                        downsample,
                        allow_rebuild,
                        delete_limit,
                        balance_limit,
                    )
                    &&& cut(
                        n.right_son,
                        m.right_son,
                        b,
                        downsample,
                        allow_rebuild,
                        delete_limit,
                        balance_limit,
                    )
                    &&& renewed(m, after, allow_rebuild, delete_limit, balance_limit)
                };
            assert(stored(before).len() == 1 + stored(n.left_son).len() + stored(n.right_son).len());
            law_cut_keeps_stored(
                n.left_son,
                m.left_son,
                b,
                downsample,
                allow_rebuild,
                delete_limit,
                balance_limit,
            );
            law_cut_keeps_stored(
                n.right_son,
                m.right_son,
                b,
                downsample,
                allow_rebuild,
                delete_limit,
                balance_limit,
            );
            assert(stored(Some(Box::new(m))) =~= stored(before));
        }
    }
}

/// A tree whose sons are too small to be rebuilt is rebuilt itself, and hands over every
/// point that is not live, once a deletion brings the share of deleted points above the
/// limit.
pub proof fn law_many_deleted_rebuilt<S: Scalar>(
    before: Tree<S>,
    after: Tree<S>,
    b: BoxPointType<S>,
    downsample: bool,
    delete_limit: S,
    balance_limit: S,
    removed_before: Seq<PointType<S>>,
    removed_after: Seq<PointType<S>>,
)
    requires
        before matches Some(n) && !n.tree_deleted && !range_apart(b, *n) && !range_covered(b, *n)
            && stored(n.left_son).len() <= MINIMAL_UNBALANCED_TREE_SIZE && stored(
            n.right_son,
        ).len() <= MINIMAL_UNBALANCED_TREE_SIZE,
        cut(before, after, b, downsample, true, delete_limit, balance_limit),
        conserved(before, removed_before, Multiset::empty(), after, removed_after),
        stored(before).len() > MINIMAL_UNBALANCED_TREE_SIZE,
        lt(
            delete_limit,
            S::ratio_spec(
                stored(before).len() - live(after).len(),
                stored(before).len() as int,
            ),
        ),
    ensures
        rebuilt(after),
        removed_after.to_multiset() == removed_before.to_multiset().add(
            stored(before).sub(live(after)),
        ),
{
    broadcast use vstd::multiset::group_multiset_axioms;

    reveal_with_fuel(cut, 1);
    let n = before->0;
    let m = choose|m: KdTreeNode<S>|
        {
            &&& #[trigger] marked_in(*n, m, b, downsample)
            &&& cut(
                n.left_son,
                m.left_son,
                b,
                downsample,
                true,
                delete_limit,
                balance_limit,
            )
            &&& cut(
                n.right_son,
                m.right_son,
                b,
                downsample,
                true,
                delete_limit,
                balance_limit,
            )
            &&& renewed(m, after, true, delete_limit, balance_limit)
        };
    law_cut_keeps_stored(
        n.left_son,
        m.left_son,
        b,
        downsample,
        true,
        delete_limit,
        balance_limit,
    );
    law_cut_keeps_stored(
        n.right_son,
        m.right_son,
        b,
        downsample,
        true,
        delete_limit,
        balance_limit,
    );
    assert(stored(Some(Box::new(m))) =~= stored(before));
    assert(live(after) == live(Some(Box::new(m))));
    assert(m.tree_size == stored(before).len());
    law_rebuild_hands_over(before, removed_before, after, removed_after);
}

/// Inside of the range of a node, the distance from it is zero.
pub proof fn law_box_dist_inside<S: Scalar>(n: KdTreeNode<S>, p: PointType<S>)
    requires
        in_range(n, p),
    ensures
        box_dist(n, p) == zero::<S>(),
{
    assert(coord(p, 0) == p.x && coord(p, 1) == p.y && coord(p, 2) == p.z);
    assert(range_lo(n, 0) == n.node_range_x[0] && range_hi(n, 0) == n.node_range_x[1]);
}

/// The value between `lo` and `hi` that is nearest to `v`.
pub open spec fn clamped<S: Scalar>(v: S, lo: S, hi: S) -> S {
    if lt(v, lo) {
        lo
    } else if lt(hi, v) {
        hi
    } else {
        v
    }
}

/// The point in the range of a node that is nearest to `p`.
pub open spec fn clamped_point<S: Scalar>(n: KdTreeNode<S>, p: PointType<S>) -> PointType<S> {
    point_at(
        clamped(p.x, n.node_range_x[0], n.node_range_x[1]),
        clamped(p.y, n.node_range_y[0], n.node_range_y[1]),
        clamped(p.z, n.node_range_z[0], n.node_range_z[1]),
    )
}

proof fn lemma_gap_reached<S: Scalar>(acc: S, sum: S, v: S, lo: S, hi: S)
    requires
        lawful::<S>(),
        is_amount(acc),
        is_amount(sum),
        acc.key() == sum.key(),
        v.is_finite(),
        lo.is_finite(),
        hi.is_finite(),
        lo.key() <= hi.key(),
    ensures
        is_amount(axis_gap(acc, v, lo, hi)),
        is_amount(sum.plus_spec(gap_square(v, clamped(v, lo, hi)))),
        axis_gap(acc, v, lo, hi).key() == sum.plus_spec(gap_square(v, clamped(v, lo, hi))).key(),
{
    law_finite_is_num(v);
    law_finite_is_num(lo);
    law_finite_is_num(hi);
    let c = clamped(v, lo, hi);
    let g = gap_square(v, c);
    law_gap_square(v, c);
    law_plus_monotone(acc, g, sum, g);
    law_plus_monotone(sum, g, acc, g);
    if !lt(v, lo) && !lt(hi, v) {
        law_no_gap(v);
        law_plus_zero(acc);
        law_plus_zero(sum);
        law_plus_monotone(sum, g, sum, zero());
        law_plus_monotone(sum, zero(), sum, g);
    }
}

/// The distance of a point from the range of a node is that from the nearest point in
/// the range, which lies in it.
pub proof fn law_box_dist_reached<S: Scalar>(n: KdTreeNode<S>, q: PointType<S>)
    requires
        lawful::<S>(),
        finite_point(q),
        range_finite(n),
        range_lo(n, 0).key() <= range_hi(n, 0).key(),
        range_lo(n, 1).key() <= range_hi(n, 1).key(),
        range_lo(n, 2).key() <= range_hi(n, 2).key(),
    ensures
        in_range(n, clamped_point(n, q)),
        box_dist(n, q).key() == dist(q, clamped_point(n, q)).key(),
{
    assert(range_lo(n, 0).is_finite() && range_lo(n, 1).is_finite() && range_lo(n, 2).is_finite());
    assert(range_hi(n, 0).is_finite() && range_hi(n, 1).is_finite() && range_hi(n, 2).is_finite());
    law_finite_is_num(q.x);
    law_finite_is_num(q.y);
    law_finite_is_num(q.z);
    law_finite_is_num(range_lo(n, 0));
    law_finite_is_num(range_lo(n, 1));
    law_finite_is_num(range_lo(n, 2));
    law_finite_is_num(range_hi(n, 0));
    law_finite_is_num(range_hi(n, 1));
    law_finite_is_num(range_hi(n, 2));
    let c = clamped_point(n, q);
    let x = gap_square(q.x, c.x);
    law_gap_square(q.x, c.x);
    law_plus_zero(x);
    lemma_gap_reached(zero(), zero(), q.x, n.node_range_x[0], n.node_range_x[1]);
    let ax = axis_gap(zero(), q.x, n.node_range_x[0], n.node_range_x[1]);
    lemma_gap_reached(ax, x, q.y, n.node_range_y[0], n.node_range_y[1]);
    let ay = axis_gap(ax, q.y, n.node_range_y[0], n.node_range_y[1]);
    lemma_gap_reached(
        ay,
        x.plus_spec(gap_square(q.y, c.y)),
        q.z,
        n.node_range_z[0],
        n.node_range_z[1],
    );
}

} // verus!
