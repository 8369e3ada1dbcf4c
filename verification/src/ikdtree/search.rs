//! Searching for points.
use crate::ikdtree::model::{
    alike, axis_gap, ball_hits, box_dist, coord, dist, exact, in_ball, in_box, in_range, inside,
    lemma_alike, lemma_filter_all, lemma_filter_none, lemma_filter_own, lemma_finite_sons,
    lemma_listing, lemma_live_num, lemma_live_parts, lemma_skip, listing, live, neighbours,
    none_closer, num_point, own_listing, own_live, points_of, range_apart, range_covered, range_num,
    ranked, stored, wf, within, BoxPointType, KdTreeNode, PointCmp,
};
use crate::scalar::{Scalar, le, lt};
use crate::types::PointType;
use vstd::multiset::Multiset;
use crate::ikdtree::node::{flatten, push_down};
use vstd::prelude::*;

verus! {
/// Tests whether the range of the node lies outside the box along some axis; no
/// point in the range can then lie in the box.
pub(crate) fn apart<S: Scalar>(b: &BoxPointType<S>, node: &KdTreeNode<S>) -> (r: bool)
    requires
        range_num(*node),
    ensures
        r == range_apart(*b, *node),
        r ==> forall|p: PointType<S>| #[trigger] in_range(*node, p) ==> !in_box(*b, p),
{
    let r: bool = b.vertex_max[0].at_most(node.node_range_x[0]) || node.node_range_x[1].less(
        b.vertex_min[0],
    ) || b.vertex_max[1].at_most(node.node_range_y[0]) || node.node_range_y[1].less(b.vertex_min[1])
        || b.vertex_max[2].at_most(node.node_range_z[0]) || node.node_range_z[1].less(b.vertex_min[2]);
    proof {
        if r {
            assert forall|p: PointType<S>| #[trigger] in_range(*node, p) implies !in_box(*b, p) by {
                assert(coord(p, 0) == p.x && coord(p, 1) == p.y && coord(p, 2) == p.z);
            }
        }
    }
    r
}

/// Tests whether the range of the node lies inside the box along every axis; every
/// point in the range then lies in the box.
pub(crate) fn covers<S: Scalar>(b: &BoxPointType<S>, node: &KdTreeNode<S>) -> (r: bool)
    requires
        range_num(*node),
    ensures
        r == range_covered(*b, *node),
        r ==> forall|p: PointType<S>|
            num_point(p) && #[trigger] in_range(*node, p) ==> in_box(*b, p),
{
    let r: bool = b.vertex_min[0].at_most(node.node_range_x[0]) && node.node_range_x[1].less(
        b.vertex_max[0],
    ) && b.vertex_min[1].at_most(node.node_range_y[0]) && node.node_range_y[1].less(b.vertex_max[1])
        && b.vertex_min[2].at_most(node.node_range_z[0]) && node.node_range_z[1].less(b.vertex_max[2]);
    proof {
        if r {
            assert forall|p: PointType<S>|
                num_point(p) && #[trigger] in_range(*node, p) implies in_box(*b, p) by {
                assert(coord(p, 0) == p.x && coord(p, 1) == p.y && coord(p, 2) == p.z);
            }
        }
    }
    r
}

/// Tests whether a point lies in a box.
pub(crate) fn holds<S: Scalar>(b: &BoxPointType<S>, p: &PointType<S>) -> (r: bool)
    ensures
        r == in_box(*b, *p),
{
    b.vertex_min[0].at_most(p.x) && p.x.less(b.vertex_max[0]) && b.vertex_min[1].at_most(p.y)
        && p.y.less(b.vertex_max[1]) && b.vertex_min[2].at_most(p.z) && p.z.less(b.vertex_max[2])
}

/// The squared distance of two points.
pub fn calc_dist<S: Scalar>(a: &PointType<S>, b: &PointType<S>) -> (r: S)
    ensures
        r == dist(*a, *b),
{
    let x: S = a.x.minus(b.x);
    let y: S = a.y.minus(b.y);
    let z: S = a.z.minus(b.z);
    x.times(x).plus(y.times(y)).plus(z.times(z))
}

/// `acc` with the squared gap between `v` and a range added.
pub(crate) fn add_gap<S: Scalar>(acc: S, v: S, range: &[S; 2]) -> (r: S)
    ensures
        r == axis_gap(acc, v, range[0], range[1]),
{
    let mut sum: S = acc;
    if v.less(range[0]) {
        let d: S = v.minus(range[0]);
        sum = sum.plus(d.times(d));
    }
    if range[1].less(v) {
        let d: S = v.minus(range[1]);
        sum = sum.plus(d.times(d));
    }
    sum
}

/// The squared distance between a point and the range of a node.
pub(crate) fn calc_box_dist<S: Scalar>(node: &KdTreeNode<S>, point: &PointType<S>) -> (r: S)
    ensures
        r == box_dist(*node, *point),
{
    let x: S = add_gap(S::ratio(0, 1), point.x, &node.node_range_x);
    let y: S = add_gap(x, point.y, &node.node_range_y);
    add_gap(y, point.z, &node.node_range_z)
}

/// Puts a point that was found into the list of the `k` best, if it belongs there.
pub(crate) fn offer<S: Scalar>(
    q: &mut Vec<PointCmp<S>>,
    k: usize,
    limit_sq: S,
    center: &PointType<S>,
    point: &PointType<S>,
    Ghost(seen): Ghost<Multiset<PointType<S>>>,
)
    requires
        0 < k,
        num_point(*point),
        neighbours(old(q)@, *center, k as nat, limit_sq),
    ensures
        neighbours(final(q)@, *center, k as nat, limit_sq),
        old(q)@.len() <= final(q)@.len(),
        old(q)@.len() == k ==> final(q)@.last().dist.key() <= old(q)@.last().dist.key(),
        points_of(final(q)@).to_multiset().subset_of(
            points_of(old(q)@).to_multiset().insert(*point),
        ),
        none_closer(old(q)@, seen, *center, k as nat, limit_sq) ==> none_closer(
            final(q)@,
            seen.insert(*point),
            *center,
            k as nat,
            limit_sq,
        ),
{
    let d: S = calc_dist(center, point);
    let ghost q0 = q@;
    if !d.at_most(limit_sq) {
        return;
    }
    if q.len() >= k {
        if !d.less(q[q.len() - 1].dist) {
            return;
        }
        q.pop();
    }
    let ghost q1 = q@;
    let c: PointCmp<S> = PointCmp { point: *point, dist: d };
    let mut i: usize = q.len();
    while i > 0 && (d.less(q[i - 1].dist) || (!q[i - 1].dist.less(d) && point.x.less(
        q[i - 1].point.x,
    )))
        invariant
            i <= q@.len(),
            q@ == q1,
            q1.len() < k,
            neighbours(q1, *center, k as nat, limit_sq),
            d == dist(*center, *point),
            c == (PointCmp { point: *point, dist: d }),
            le(d, limit_sq),
            num_point(*point),
            forall|j: int| i <= j < q1.len() ==> ranked(c, #[trigger] q1[j]),
        decreases i,
    {
        i = i - 1;
    }
    q.insert(i, c);
    proof {
        broadcast use vstd::seq_lib::group_to_multiset_ensures;

        let m0 = points_of(q0).to_multiset();
        let m1 = points_of(q1).to_multiset();
        let m2 = points_of(q@).to_multiset();
        assert(points_of(q@) =~= points_of(q1).insert(i as int, *point));
        assert(m2 =~= m1.insert(*point));
        if q0.len() >= k {
            let last = q0.last();
            assert(points_of(q0) =~= points_of(q1).push(last.point));
            assert(m0 =~= m1.insert(last.point));
        }
        assert(m2.subset_of(m0.insert(*point)));
        if none_closer(q0, seen, *center, k as nat, limit_sq) {
            let m = seen.insert(*point);
            assert forall|p: PointType<S>|
                #![trigger m.count(p)]
                m.count(p) > m2.count(p) && within(*center, limit_sq, p) implies q@.len() == k
                && forall|i: int|
                0 <= i < q@.len() ==> (#[trigger] q@[i]).dist.key() <= dist(*center, p).key() by {
                assert(seen.count(p) > m1.count(p));
                if q0.len() >= k {
                    let last = q0.last();
                    assert forall|j: int| 0 <= j < q@.len() implies (#[trigger] q@[j]).dist.key()
                        <= last.dist.key() by {
                        if j < i {
                            assert(q@[j] == q0[j]);
                            assert(ranked(q0[j], q0[q0.len() - 1]));
                        } else if j > i {
                            assert(q@[j] == q0[j - 1]);
                            assert(ranked(q0[j - 1], q0[q0.len() - 1]) || j - 1 == q0.len() - 1);
                        }
                    }
                    if p == last.point {
                        assert(last.dist == dist(*center, p));
                    } else {
                        assert(m0.count(p) == m1.count(p));
                        assert(seen.count(p) > m0.count(p));
                        assert(q0[q0.len() - 1].dist.key() <= dist(*center, p).key());
                    }
                } else {
                    assert(seen.count(p) > m0.count(p));
                }
            }
        }
    }
}

/// The squared distance between a point and the range of a subtree, if there is one.
pub(crate) fn son_dist<S: Scalar>(son: &Option<Box<KdTreeNode<S>>>, center: &PointType<S>) -> (r: Option<S>)
    ensures
        son is None ==> r is None,
        son is Some ==> r == Some(box_dist(*son->0, *center)),
{
    match son {
        Some(n) => Some(calc_box_dist(n, center)),
        None => None,
    }
}

/// A subtree at a distance has to be searched: the list is not full, or the
/// subtree is closer than the last of the list.
pub(crate) fn promising<S: Scalar>(d: &Option<S>, q: &Vec<PointCmp<S>>, k: usize) -> (r: bool)
    requires
        0 < k,
    ensures
        r == (q@.len() < k || (d is Some && lt(d->0, q@.last().dist))),
{
    if q.len() < k {
        true
    } else {
        match d {
            Some(v) => v.less(q[q.len() - 1].dist),
            None => false,
        }
    }
}

/// The first of two subtrees is the one to search first: there is one, and the
/// other is missing or no nearer.
pub(crate) fn nearer<S: Scalar>(a: &Option<S>, b: &Option<S>) -> (r: bool)
    ensures
        r == (a is Some && (b is None || le(a->0, b->0))),
{
    match (a, b) {
        (Some(u), Some(v)) => u.at_most(*v),
        (Some(_), None) => true,
        (None, _) => false,
    }
}

/// Searches a subtree if it has to be searched.
pub(crate) fn search_if<S: Scalar>(
    go: bool,
    son: &Option<Box<KdTreeNode<S>>>,
    k: usize,
    center: &PointType<S>,
    limit_sq: S,
    q: &mut Vec<PointCmp<S>>,
    Ghost(seen): Ghost<Multiset<PointType<S>>>,
)
    requires
        wf(*son),
        0 < k,
        neighbours(old(q)@, *center, k as nat, limit_sq),
        go || son is None || (old(q)@.len() == k && !lt(
            box_dist(*son->0, *center),
            old(q)@.last().dist,
        )),
    ensures
        neighbours(final(q)@, *center, k as nat, limit_sq),
        old(q)@.len() <= final(q)@.len(),
        old(q)@.len() == k ==> final(q)@.last().dist.key() <= old(q)@.last().dist.key(),
        points_of(final(q)@).to_multiset().subset_of(
            points_of(old(q)@).to_multiset().add(live(*son)),
        ),
        exact(*son, *center) && none_closer(old(q)@, seen, *center, k as nat, limit_sq)
            ==> none_closer(final(q)@, seen.add(live(*son)), *center, k as nat, limit_sq),
    decreases son, 1int,
{
    if go {
        search(son, k, center, limit_sq, q, Ghost(seen));
    } else {
        proof {
            if exact(*son, *center) && none_closer(q@, seen, *center, k as nat, limit_sq) {
                lemma_skip(*son, q@, seen, *center, k as nat, limit_sq);
            }
        }
    }
}

/// Collects the `k` live points of a subtree nearest to `center`.
pub(crate) fn search<S: Scalar>(
    root: &Option<Box<KdTreeNode<S>>>,
    k: usize,
    center: &PointType<S>,
    limit_sq: S,
    q: &mut Vec<PointCmp<S>>,
    Ghost(seen): Ghost<Multiset<PointType<S>>>,
)
    requires
        wf(*root),
        0 < k,
        neighbours(old(q)@, *center, k as nat, limit_sq),
    ensures
        neighbours(final(q)@, *center, k as nat, limit_sq),
        old(q)@.len() <= final(q)@.len(),
        old(q)@.len() == k ==> final(q)@.last().dist.key() <= old(q)@.last().dist.key(),
        points_of(final(q)@).to_multiset().subset_of(
            points_of(old(q)@).to_multiset().add(live(*root)),
        ),
        exact(*root, *center) && none_closer(old(q)@, seen, *center, k as nat, limit_sq)
            ==> none_closer(final(q)@, seen.add(live(*root)), *center, k as nat, limit_sq),
    decreases root, 0int,
{
    let node: &KdTreeNode<S> = match root {
        None => {
            assert(seen.add(live(*root)) =~= seen);
            return;
        },
        Some(node) => node,
    };
    if node.tree_deleted || limit_sq.less(calc_box_dist(node, center)) {
        proof {
            if exact(*root, *center) && none_closer(q@, seen, *center, k as nat, limit_sq) {
                lemma_skip(*root, q@, seen, *center, k as nat, limit_sq);
            }
        }
        return;
    }
    let ghost q0 = q@;
    let ghost seen1 = seen.add(own_live(*node));
    if !node.point_deleted {
        offer(q, k, limit_sq, center, &node.point, Ghost(seen));
        assert(seen1 =~= seen.insert(node.point));
    } else {
        assert(seen1 =~= seen);
    }
    let ghost q1 = q@;
    let dl: Option<S> = son_dist(&node.left_son, center);
    let dr: Option<S> = son_dist(&node.right_son, center);
    proof {
        if exact(*root, *center) {
            lemma_finite_sons(*node);
        }
    }
    if q.len() < k || (promising(&dl, q, k) && promising(&dr, q, k)) {
        if nearer(&dl, &dr) {
            search(&node.left_son, k, center, limit_sq, q, Ghost(seen1));
            let go: bool = promising(&dr, q, k);
            search_if(
                go,
                &node.right_son,
                k,
                center,
                limit_sq,
                q,
                Ghost(seen1.add(live(node.left_son))),
            );
            assert(seen1.add(live(node.left_son)).add(live(node.right_son)) =~= seen.add(live(*root)));
        } else {
            search(&node.right_son, k, center, limit_sq, q, Ghost(seen1));
            let go: bool = promising(&dl, q, k);
            search_if(
                go,
                &node.left_son,
                k,
                center,
                limit_sq,
                q,
                Ghost(seen1.add(live(node.right_son))),
            );
            assert(seen1.add(live(node.right_son)).add(live(node.left_son)) =~= seen.add(live(*root)));
        }
    } else {
        let go_left: bool = promising(&dl, q, k);
        let go_right: bool = promising(&dr, q, k);
        search_if(go_left, &node.left_son, k, center, limit_sq, q, Ghost(seen1));
        search_if(
            go_right,
            &node.right_son,
            k,
            center,
            limit_sq,
            q,
            Ghost(seen1.add(live(node.left_son))),
        );
        assert(seen1.add(live(node.left_son)).add(live(node.right_son)) =~= seen.add(live(*root)));
    }
}

/// Appends the live points of a subtree that lie in a box, in the order of
/// [`listing`].
#[verifier::spinoff_prover]
#[verifier::rlimit(60)]
pub(crate) fn search_by_range<S: Scalar>(
    root: &mut Option<Box<KdTreeNode<S>>>,
    b: &BoxPointType<S>,
    storage: &mut Vec<PointType<S>>,
)
    requires
        wf(*old(root)),
    ensures
        wf(*final(root)),
        alike(*old(root), *final(root)),
        final(storage)@ == old(storage)@ + listing(*old(root)).filter(inside(*b)),
    decreases stored(*old(root)).len(),
{
    let ghost f = inside(*b);
    let ghost s0 = storage@;
    match root {
        None => {
            assert(listing(*root).filter(f) =~= Seq::empty()) by {
                reveal(Seq::filter);
            }
            assert(s0 =~= s0 + listing(*root).filter(f));
        },
        Some(node) => {
            let ghost before = **node;
            push_down(node);
            let ghost pushed = **node;
            let ghost t0 = Some(Box::new(pushed));
            proof {
                lemma_live_parts(pushed);
                lemma_live_num(t0);
                lemma_listing(t0);
                assert(stored(t0) =~= stored(Some(Box::new(before))));
            }
            if apart(b, node) {
                assert(listing(t0).filter(f) == Seq::<PointType<S>>::empty()) by {
                    assert forall|p: PointType<S>| #[trigger]
                        listing(t0).to_multiset().contains(p) implies !f(p) by {
                        assert(live(t0).contains(p));
                        assert(in_range(pushed, p));
                    }
                    lemma_filter_none(listing(t0), f);
                }
                assert(s0 =~= s0 + listing(t0).filter(f));
                return;
            }
            if covers(b, node) {
                assert(listing(t0).filter(f) == listing(t0)) by {
                    assert forall|p: PointType<S>| #[trigger]
                        listing(t0).to_multiset().contains(p) implies f(p) by {
                        assert(live(t0).contains(p));
                        assert(in_range(pushed, p));
                    }
                    lemma_filter_all(listing(t0), f);
                }
                flatten(root, storage);
                return;
            }
            if holds(b, &node.point) && !node.point_deleted {
                storage.push(node.point);
            }
            proof {
                lemma_filter_own(pushed, f);
                assert(storage@ =~= s0 + own_listing(pushed).filter(f));
            }
            search_by_range(&mut node.left_son, b, storage);
            search_by_range(&mut node.right_son, b, storage);
            proof {
                lemma_alike(pushed, **node);
                Seq::filter_distributes_over_add(
                    own_listing(pushed) + listing(pushed.left_son),
                    listing(pushed.right_son),
                    f,
                );
                Seq::filter_distributes_over_add(own_listing(pushed), listing(pushed.left_son), f);
                assert(storage@ =~= s0 + listing(t0).filter(f));
            }
        },
    }
}

/// Appends the live points of a subtree in a ball.
pub(crate) fn search_by_radius<S: Scalar>(
    root: &mut Option<Box<KdTreeNode<S>>>,
    center: &PointType<S>,
    radius: S,
    storage: &mut Vec<PointType<S>>,
)
    requires
        wf(*old(root)),
    ensures
        wf(*final(root)),
        alike(*old(root), *final(root)),
        final(storage)@ == old(storage)@ + ball_hits(*old(root), *center, radius),
    decreases stored(*old(root)).len(),
{
    let ghost f = in_ball(*center, radius);
    let ghost s0 = storage@;
    match root {
        None => {
            assert(s0 =~= s0 + ball_hits(*root, *center, radius));
        },
        Some(node) => {
            let ghost before = **node;
            push_down(node);
            let ghost pushed = **node;
            let ghost t0 = Some(Box::new(pushed));
            proof {
                lemma_live_parts(pushed);
                assert(stored(t0) =~= stored(Some(Box::new(before))));
                assert(ball_hits(t0, *center, radius) == ball_hits(
                    Some(Box::new(before)),
                    *center,
                    radius,
                ));
            }
            let half: S = S::ratio(1, 2);
            let middle: PointType<S> = PointType::new(
                node.node_range_x[0].plus(node.node_range_x[1]).times(half),
                node.node_range_y[0].plus(node.node_range_y[1]).times(half),
                node.node_range_z[0].plus(node.node_range_z[1]).times(half),
            );
            let d: S = calc_dist(&middle, center).root();
            let reach: S = node.radius_sq.root();
            if radius.plus(reach).less(d) {
                assert(s0 =~= s0 + ball_hits(t0, *center, radius));
                return;
            }
            if d.at_most(radius.minus(reach)) {
                flatten(root, storage);
                return;
            }
            if !node.point_deleted && calc_dist(&node.point, center).at_most(radius.times(radius)) {
                storage.push(node.point);
            }
            proof {
                lemma_filter_own(pushed, f);
                assert(storage@ =~= s0 + own_listing(pushed).filter(f));
            }
            search_by_radius(&mut node.left_son, center, radius, storage);
            search_by_radius(&mut node.right_son, center, radius, storage);
            proof {
                lemma_alike(pushed, **node);
                assert(storage@ =~= s0 + ball_hits(t0, *center, radius));
            }
        },
    }
}

} // verus!
