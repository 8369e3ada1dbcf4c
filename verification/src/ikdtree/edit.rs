//! Adding and deleting points.
use crate::ikdtree::model::{
    conserved, coord, cut, goes_left, grown, in_range, lemma_conserved,
    lemma_conserved_chain, lemma_conserved_sons, lemma_filter_len, lemma_live_num, lemma_live_parts,
    lemma_live_stored, lemma_point_hit, live, marked_in, near_equal, node_wf, num_point, outside, own_live,
    point_hit, range_hi, range_lo, same_place, stored, struck, wf, without, BoxPointType, KdTreeNode,
};
use crate::ikdtree::node::{Limits, coordinate, leaf, maintain, push_down, update};
use crate::ikdtree::search::{apart, covers, holds};
use crate::scalar::Scalar;
use crate::types::PointType;
use vstd::multiset::Multiset;
use vstd::prelude::*;

verus! {
/// Adds a point to a subtree.
pub(crate) fn add_by_point<S: Scalar>(
    root: &mut Option<Box<KdTreeNode<S>>>,
    point: &PointType<S>,
    allow_rebuild: bool,
    father_axis: usize,
    limits: Limits<S>,
    removed: &mut Vec<PointType<S>>,
)
    requires
        wf(*old(root)),
        stored(*old(root)).len() < i32::MAX,
        num_point(*point),
        father_axis < 3,
    ensures
        wf(*final(root)),
        live(*final(root)) == live(*old(root)).insert(*point),
        conserved(
            *old(root),
            old(removed)@,
            Multiset::singleton(*point),
            *final(root),
            final(removed)@,
        ),
        grown(
            *old(root),
            *final(root),
            *point,
            father_axis,
            allow_rebuild,
            limits.delete,
            limits.balance,
        ),
    decreases stored(*old(root)).len(),
{
    let ghost r0 = removed@;
    let ghost one = Multiset::singleton(*point);
    proof {
        reveal_with_fuel(grown, 1);
    }
    match root {
        None => {
            let mut node: KdTreeNode<S> = leaf(*point, (father_axis + 1) % 3);
            update(&mut node);
            *root = Some(Box::new(node));
            proof {
                assert(live(*root) =~= Multiset::empty().insert(*point));
                assert(stored(*root).len() == 1);
                assert(stored(*root).add(r0.to_multiset()) =~= Multiset::empty().add(
                    r0.to_multiset(),
                ).add(one));
            }
        },
        Some(node) => {
            let ghost before = **node;
            push_down(node);
            let ghost pushed = **node;
            let axis: usize = node.division_axis;
            let go_left: bool = coordinate(point, axis).less(coordinate(&node.point, axis));
            proof {
                lemma_live_parts(pushed);
                assert(live(Some(Box::new(pushed))) =~= live(Some(Box::new(before))));
                assert(stored(Some(Box::new(pushed))) =~= stored(Some(Box::new(before))));
            }
            if go_left {
                add_by_point(&mut node.left_son, point, allow_rebuild, axis, limits, removed);
                proof {
                    let after = **node;
                    lemma_conserved(pushed.left_son, r0, one, after.left_son, removed@);
                    assert forall|p: PointType<S>| #[trigger]
                        stored(after.left_son).contains(p) implies coord(p, axis as int).key()
                        <= coord(after.point, axis as int).key() by {
                        assert(stored(after.left_son).count(p) <= stored(pushed.left_son).add(
                            one,
                        ).count(p));
                        assert(p == *point || stored(pushed.left_son).contains(p));
                    }
                    let none = Multiset::<PointType<S>>::empty();
                    assert(stored(pushed.right_son).add(removed@.to_multiset()).add(none)
                        =~= stored(pushed.right_son).add(removed@.to_multiset()));
                    lemma_conserved_sons(pushed, r0, one, removed@, none, after, removed@);
                    assert(one.add(none) =~= one);
                }
            } else {
                add_by_point(&mut node.right_son, point, allow_rebuild, axis, limits, removed);
                proof {
                    let after = **node;
                    lemma_conserved(pushed.right_son, r0, one, after.right_son, removed@);
                    assert forall|p: PointType<S>| #[trigger]
                        stored(after.right_son).contains(p) implies coord(
                        after.point,
                        axis as int,
                    ).key() <= coord(p, axis as int).key() by {
                        assert(stored(after.right_son).count(p) <= stored(pushed.right_son).add(
                            one,
                        ).count(p));
                        assert(p == *point || stored(pushed.right_son).contains(p));
                    }
                    let none = Multiset::<PointType<S>>::empty();
                    assert(stored(pushed.left_son).add(r0.to_multiset()).add(none) =~= stored(
                        pushed.left_son,
                    ).add(r0.to_multiset()));
                    lemma_conserved_sons(pushed, r0, none, r0, one, after, removed@);
                    assert(none.add(one) =~= one);
                }
            }
            let ghost grown = **node;
            update(node);
            proof {
                assert(stored(Some(Box::new(**node))) == stored(Some(Box::new(grown))));
                assert(live(Some(Box::new(**node))) =~= live(Some(Box::new(before))).insert(*point));
                assert(go_left == goes_left(pushed, *point));
                assert(same_place(
                    pushed,
                    **node,
                    pushed.point_deleted,
                    pushed.point_downsample_deleted,
                ));
            }
        },
    }
    let ghost t1 = *root;
    let ghost r1 = removed@;
    proof {
        assert(conserved(*old(root), r0, one, t1, r1));
        lemma_conserved(*old(root), r0, one, t1, r1);
    }
    maintain(root, allow_rebuild, limits, removed);
    proof {
        lemma_conserved_chain(*old(root), r0, one, t1, r1, Multiset::empty(), *root, removed@);
        assert(one.add(Multiset::empty()) =~= one);
    }
}

/// Deletes the live points of a subtree that lie in a box and counts them.
#[verifier::rlimit(60)]
pub(crate) fn delete_by_range<S: Scalar>(
    root: &mut Option<Box<KdTreeNode<S>>>,
    b: &BoxPointType<S>,
    allow_rebuild: bool,
    is_downsample: bool,
    limits: Limits<S>,
    removed: &mut Vec<PointType<S>>,
) -> (r: i32)
    requires
        wf(*old(root)),
        stored(*old(root)).len() <= i32::MAX,
    ensures
        wf(*final(root)),
        live(*final(root)) == live(*old(root)).filter(outside(*b)),
        r == live(*old(root)).len() - live(*final(root)).len(),
        conserved(*old(root), old(removed)@, Multiset::empty(), *final(root), final(removed)@),
        cut(
            *old(root),
            *final(root),
            *b,
            is_downsample,
            allow_rebuild,
            limits.delete,
            limits.balance,
        ),
    decreases stored(*old(root)).len(),
{
    let ghost none = Multiset::<PointType<S>>::empty();
    let ghost r0 = removed@;
    proof {
        assert(stored(*root).add(r0.to_multiset()).add(none) =~= stored(*root).add(r0.to_multiset()));
        lemma_live_num(*root);
        lemma_live_stored(*root);
        reveal_with_fuel(cut, 1);
    }
    let mut count: i32 = 0;
    match root {
        None => {
            assert(live(*root).filter(outside(*b)) =~= live(*root));
            return 0;
        },
        Some(node) => {
            let ghost before = **node;
            let ghost t0 = Some(Box::new(before));
            if node.tree_deleted {
                assert(live(t0).filter(outside(*b)) =~= live(t0));
                return 0;
            }
            push_down(node);
            proof {
                lemma_live_parts(before);
            }
            if apart(b, node) {
                proof {
                    assert forall|p: PointType<S>| #[trigger]
                        live(t0).filter(outside(*b)).count(p) == live(t0).count(p) by {
                        if live(t0).contains(p) {
                            assert(in_range(before, p));
                        }
                    }
                    assert(live(t0).filter(outside(*b)) =~= live(t0));
                }
                return 0;
            }
            if covers(b, node) {
                node.tree_deleted = true;
                node.point_deleted = true;
                node.need_push_down_to_left = true;
                node.need_push_down_to_right = true;
                let deleted: i32 = node.tree_size - node.invalid_point_num;
                node.invalid_point_num = node.tree_size;
                if is_downsample {
                    node.tree_downsample_deleted = true;
                    node.point_downsample_deleted = true;
                    node.down_del_num = node.tree_size;
                }
                proof {
                    assert forall|p: PointType<S>| #[trigger]
                        live(t0).filter(outside(*b)).count(p) == 0 by {
                        if live(t0).contains(p) {
                            assert(in_range(before, p));
                        }
                    }
                    assert(live(t0).filter(outside(*b)) =~= none);
                    assert(stored(Some(Box::new(**node))) == stored(t0));
                }
                return deleted;
            }
            if !node.point_deleted && holds(b, &node.point) {
                node.point_deleted = true;
                count = 1;
                if is_downsample {
                    node.point_downsample_deleted = true;
                }
            }
            let ghost marked = **node;
            let left: i32 = delete_by_range(
                &mut node.left_son,
                b,
                allow_rebuild,
                is_downsample,
                limits,
                removed,
            );
            let ghost r1 = removed@;
            let right: i32 = delete_by_range(
                &mut node.right_son,
                b,
                allow_rebuild,
                is_downsample,
                limits,
                removed,
            );
            let ghost cut = **node;
            proof {
                lemma_live_stored(before.left_son);
                lemma_live_stored(before.right_son);
                lemma_conserved(marked.left_son, r0, none, cut.left_son, r1);
                lemma_conserved(marked.right_son, r1, none, cut.right_son, removed@);
                lemma_conserved_sons(marked, r0, none, r1, none, cut, removed@);
                assert(none.add(none) =~= none);
                assert forall|p: PointType<S>| #[trigger]
                    stored(cut.left_son).contains(p) implies coord(
                    p,
                    cut.division_axis as int,
                ).key() <= coord(cut.point, cut.division_axis as int).key() by {
                    assert(stored(cut.left_son).count(p) <= stored(marked.left_son).add(
                        none,
                    ).count(p));
                    assert(stored(marked.left_son).contains(p));
                }
                assert forall|p: PointType<S>| #[trigger]
                    stored(cut.right_son).contains(p) implies coord(
                    cut.point,
                    cut.division_axis as int,
                ).key() <= coord(p, cut.division_axis as int).key() by {
                    assert(stored(cut.right_son).count(p) <= stored(marked.right_son).add(
                        none,
                    ).count(p));
                    assert(stored(marked.right_son).contains(p));
                }
            }
            proof {
                lemma_filter_len(live(marked.left_son), outside(*b));
                lemma_filter_len(live(marked.right_son), outside(*b));
            }
            assert(own_live(before).len() - own_live(marked).len() == count);
            assert(live(t0).len() == own_live(before).len() + live(before.left_son).len() + live(
                before.right_son,
            ).len());
            count = count + left + right;
            update(node);
            proof {
                assert(live(Some(Box::new(**node))) =~= live(t0).filter(outside(*b)));
                assert(marked_in(before, **node, *b, is_downsample));
                assert(stored(Some(Box::new(**node))) == stored(Some(Box::new(cut))));
            }
        },
    }
    let ghost t1 = *root;
    let ghost r1 = removed@;
    proof {
        assert(conserved(*old(root), r0, none, t1, r1));
        lemma_conserved(*old(root), r0, none, t1, r1);
    }
    maintain(root, allow_rebuild, limits, removed);
    proof {
        lemma_conserved_chain(*old(root), r0, none, t1, r1, none, *root, removed@);
        assert(none.add(none) =~= none);
    }
    count
}

/// Tests whether every coordinate of a point is a number.
pub(crate) fn is_number<S: Scalar>(p: &PointType<S>) -> (r: bool)
    ensures
        r == num_point(*p),
{
    p.x.at_most(p.x) && p.y.at_most(p.y) && p.z.at_most(p.z)
}

/// Tests whether two points are the same but for rounding.
pub(crate) fn same_point<S: Scalar>(a: &PointType<S>, b: &PointType<S>) -> (r: bool)
    ensures
        r == near_equal(*a, *b),
{
    let eps: S = S::ratio(1, 1000000);
    a.x.minus(b.x).magnitude().less(eps) && a.y.minus(b.y).magnitude().less(eps) && a.z.minus(
        b.z,
    ).magnitude().less(eps)
}

/// Deletes the live point that is the same as `point`, if it is met on the way
/// to where `point` belongs.
pub(crate) fn delete_by_point<S: Scalar>(
    root: &mut Option<Box<KdTreeNode<S>>>,
    point: &PointType<S>,
    allow_rebuild: bool,
    limits: Limits<S>,
    removed: &mut Vec<PointType<S>>,
)
    requires
        wf(*old(root)),
        stored(*old(root)).len() <= i32::MAX,
    ensures
        wf(*final(root)),
        live(*final(root)) == without(live(*old(root)), point_hit(*old(root), *point)),
        conserved(*old(root), old(removed)@, Multiset::empty(), *final(root), final(removed)@),
        struck(
            *old(root),
            *final(root),
            *point,
            allow_rebuild,
            limits.delete,
            limits.balance,
        ),
    decreases stored(*old(root)).len(),
{
    let ghost none = Multiset::<PointType<S>>::empty();
    let ghost r0 = removed@;
    proof {
        assert(stored(*root).add(r0.to_multiset()).add(none) =~= stored(*root).add(r0.to_multiset()));
        lemma_live_stored(*root);
        reveal_with_fuel(struck, 1);
    }
    match root {
        None => {
            return;
        },
        Some(node) => {
            let ghost before = **node;
            let ghost t0 = Some(Box::new(before));
            if node.tree_deleted {
                return;
            }
            push_down(node);
            proof {
                lemma_live_parts(before);
            }
            if same_point(&node.point, point) && !node.point_deleted {
                node.point_deleted = true;
                node.invalid_point_num = node.invalid_point_num + 1;
                if node.invalid_point_num == node.tree_size {
                    node.tree_deleted = true;
                }
                proof {
                    let rest = live(before.left_son).add(live(before.right_son));
                    assert(live(t0) =~= rest.insert(before.point));
                    assert(live(t0).remove(before.point) =~= rest);
                    assert(rest.len() == live(before.left_son).len() + live(before.right_son).len());
                    if node.tree_deleted {
                        assert(rest =~= none);
                    }
                    assert(live(Some(Box::new(**node))) =~= rest);
                    assert(stored(Some(Box::new(**node))) == stored(t0));
                    assert forall|p: PointType<S>| #[trigger]
                        live(Some(Box::new(**node))).contains(p) implies in_range(**node, p) by {
                        assert(live(t0).contains(p));
                        assert(in_range(before, p));
                        assert forall|axis: int| 0 <= axis < 3 implies range_lo(
                            **node,
                            axis,
                        ).key() <= (#[trigger] coord(p, axis)).key() <= range_hi(
                            **node,
                            axis,
                        ).key() by {
                            assert(range_lo(**node, axis) == range_lo(before, axis));
                            assert(range_hi(**node, axis) == range_hi(before, axis));
                        }
                    }
                    assert(node_wf(**node));
                }
                return;
            }
            let axis: usize = node.division_axis;
            let go_left: bool = coordinate(point, axis).less(coordinate(&node.point, axis));
            if go_left {
                proof {
                    lemma_point_hit(before.left_son, *point);
                }
                delete_by_point(&mut node.left_son, point, allow_rebuild, limits, removed);
                proof {
                    let after = **node;
                    lemma_conserved(before.left_son, r0, none, after.left_son, removed@);
                    assert forall|p: PointType<S>| #[trigger]
                        stored(after.left_son).contains(p) implies coord(p, axis as int).key()
                        <= coord(after.point, axis as int).key() by {
                        assert(stored(after.left_son).count(p) <= stored(before.left_son).add(
                            none,
                        ).count(p));
                        assert(stored(before.left_son).contains(p));
                    }
                    assert(stored(before.right_son).add(removed@.to_multiset()).add(none)
                        =~= stored(before.right_son).add(removed@.to_multiset()));
                    lemma_conserved_sons(before, r0, none, removed@, none, after, removed@);
                    assert(none.add(none) =~= none);
                }
            } else {
                proof {
                    lemma_point_hit(before.right_son, *point);
                }
                delete_by_point(&mut node.right_son, point, allow_rebuild, limits, removed);
                proof {
                    let after = **node;
                    lemma_conserved(before.right_son, r0, none, after.right_son, removed@);
                    assert forall|p: PointType<S>| #[trigger]
                        stored(after.right_son).contains(p) implies coord(
                        after.point,
                        axis as int,
                    ).key() <= coord(p, axis as int).key() by {
                        assert(stored(after.right_son).count(p) <= stored(before.right_son).add(
                            none,
                        ).count(p));
                        assert(stored(before.right_son).contains(p));
                    }
                    assert(stored(before.left_son).add(r0.to_multiset()).add(none) =~= stored(
                        before.left_son,
                    ).add(r0.to_multiset()));
                    lemma_conserved_sons(before, r0, none, r0, none, after, removed@);
                    assert(none.add(none) =~= none);
                }
            }
            let ghost cut = **node;
            update(node);
            proof {
                assert(stored(Some(Box::new(**node))) == stored(Some(Box::new(cut))));
                assert(live(Some(Box::new(**node))) =~= without(live(t0), point_hit(t0, *point)));
                assert(same_place(
                    before,
                    **node,
                    before.point_deleted,
                    before.point_downsample_deleted,
                ));
            }
        },
    }
    let ghost t1 = *root;
    let ghost r1 = removed@;
    proof {
        lemma_conserved(*old(root), r0, none, t1, r1);
    }
    maintain(root, allow_rebuild, limits, removed);
    proof {
        lemma_conserved_chain(*old(root), r0, none, t1, r1, none, *root, removed@);
        assert(none.add(none) =~= none);
    }
}

} // verus!
