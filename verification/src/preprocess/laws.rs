//! What holds of every preprocessed scan.
use crate::preprocess::features::{
    descending, lemma_descending_len, lemma_lifted_len, lifted, output_from, plain_point, Line,
    Types,
};
use crate::preprocess::{
    accepted, avia_point, avia_thinned, counted, kept, ouster_thinned, range_sq, velodyne_thinned,
    Preprocess,
};
use crate::scalar::{lt, Scalar, Widen};
use crate::types::{AviaPointMsg, Feature, StdPointMsg};
use vstd::prelude::*;

verus! {

/// Every point of the cloud is further away than the blind distance.
pub open spec fn beyond_blind<N: Widen<W>, W: Scalar>(pp: Preprocess<N, W>, s: Line<N>) -> bool {
    forall|k: int|
        0 <= k < s.len() ==> lt(
            pp.blind.times_spec(pp.blind),
            #[trigger] range_sq::<N, W>(s[k].x, s[k].y, s[k].z),
        )
}

/// No point of the cloud is closer than the blind distance.
pub open spec fn not_blind<N: Widen<W>, W: Scalar>(pp: Preprocess<N, W>, s: Line<N>) -> bool {
    forall|k: int|
        0 <= k < s.len() ==> !lt(
            #[trigger] range_sq::<N, W>(s[k].x, s[k].y, s[k].z),
            pp.blind.times_spec(pp.blind),
        )
}

/// A thinned Livox cloud holds no point within the blind distance.
pub proof fn law_avia_beyond_blind<N: Widen<W>, W: Scalar>(
    pp: Preprocess<N, W>,
    pts: Seq<AviaPointMsg<N>>,
    i: int,
)
    ensures
        beyond_blind(pp, avia_thinned(pp, pts, i).2),
    decreases i,
{
    if i > 0 {
        law_avia_beyond_blind(pp, pts, i - 1);
    }
}

/// A thinned Ouster cloud holds no point within the blind distance.
pub proof fn law_ouster_not_blind<N: Widen<W>, W: Scalar>(
    pp: Preprocess<N, W>,
    pts: Seq<StdPointMsg<N>>,
    n: int,
)
    ensures
        not_blind(pp, ouster_thinned(pp, pts, n)),
    decreases n,
{
    if n > 0 {
        law_ouster_not_blind(pp, pts, n - 1);
    }
}

/// A thinned Velodyne cloud holds no point within the blind distance.
pub proof fn law_velodyne_beyond_blind<N: Widen<W>, W: Scalar>(
    pp: Preprocess<N, W>,
    pts: Seq<StdPointMsg<N>>,
    given: bool,
    n: int,
)
    ensures
        beyond_blind(pp, velodyne_thinned(pp, pts, given, n)),
    decreases n,
{
    if n > 0 {
        law_velodyne_beyond_blind(pp, pts, given, n - 1);
    }
}

/// Thinning by `m` keeps no more than every `m`-th point.
pub proof fn law_thinning<N: Widen<W>, W: Scalar>(
    pp: Preprocess<N, W>,
    pts: Seq<StdPointMsg<N>>,
    n: int,
)
    requires
        pp.point_filter_num > 0,
        n >= 0,
    ensures
        ouster_thinned(pp, pts, n).len() <= (n + pp.point_filter_num - 1) / (
        pp.point_filter_num as int),
    decreases n,
{
    let m = pp.point_filter_num as int;
    if n > 0 {
        law_thinning(pp, pts, n - 1);
        let q = (n - 2 + m) / m;
        assert((n - 1 + m) / m >= (n - 2 + m) / m) by (nonlinear_arith)
            requires
                m > 0,
        ;
        if kept(pp.point_filter_num, n - 1) {
            assert((n - 1 + m) / m == (n - 2 + m) / m + 1) by (nonlinear_arith)
                requires
                    m > 0,
                    (n - 1) % m == 0,
                    n > 0,
            ;
        }
    } else {
        assert((m - 1) / m == 0) by (nonlinear_arith)
            requires
                m > 0,
        ;
    }
}

/// The number of accepted points of a Livox message up to place `i`, the first left
/// out.
pub open spec fn accepted_up_to<N: Scalar, W: Scalar>(
    pp: Preprocess<N, W>,
    pts: Seq<AviaPointMsg<N>>,
    i: int,
) -> nat
    decreases i,
{
    if i <= 0 {
        0
    } else if accepted(pp, pts[i]) {
        accepted_up_to(pp, pts, i - 1) + 1
    } else {
        accepted_up_to(pp, pts, i - 1)
    }
}

/// Thinning a Livox message by `m` keeps no more than every `m`-th accepted point.
pub proof fn law_avia_thinning<N: Widen<W>, W: Scalar>(
    pp: Preprocess<N, W>,
    pts: Seq<AviaPointMsg<N>>,
    i: int,
)
    requires
        pp.point_filter_num > 0,
    ensures
        avia_thinned(pp, pts, i).0 == accepted_up_to(pp, pts, i),
        avia_thinned(pp, pts, i).2.len() <= accepted_up_to(pp, pts, i) / (
        pp.point_filter_num as nat),
    decreases i,
{
    let m = pp.point_filter_num as int;
    if i > 0 {
        law_avia_thinning(pp, pts, i - 1);
        let n = accepted_up_to(pp, pts, i - 1) as int;
        assert(n / m <= (n + 1) / m) by (nonlinear_arith)
            requires
                m > 0,
        ;
        if counted(pp.point_filter_num, n + 1) {
            assert((n + 1) / m == n / m + 1) by (nonlinear_arith)
                requires
                    m > 0,
                    n >= 0,
                    (n + 1) % m == 0,
            ;
        }
    } else {
        assert(0int / m == 0) by (nonlinear_arith)
            requires
                m > 0,
        ;
    }
}

/// The cloud holds the accepted points at the places `at` of a Livox message, which
/// go up.
pub open spec fn picked_at<N: Scalar, W: Scalar>(
    pp: Preprocess<N, W>,
    pts: Seq<AviaPointMsg<N>>,
    at: Seq<int>,
    end: int,
    cloud: Line<N>,
) -> bool {
    &&& at.len() == cloud.len()
    &&& forall|k: int|
        0 <= k < at.len() ==> 0 < #[trigger] at[k] <= end && accepted(pp, pts[at[k]]) && cloud[k]
            == avia_point(pts[at[k]])
    &&& forall|k: int, l: int| 0 <= k < l < at.len() ==> #[trigger] at[k] < #[trigger] at[l]
}

/// A thinned Livox cloud holds accepted points of the message in their order.
pub proof fn law_avia_in_order<N: Widen<W>, W: Scalar>(
    pp: Preprocess<N, W>,
    pts: Seq<AviaPointMsg<N>>,
    i: int,
)
    ensures
        exists|at: Seq<int>| #[trigger] picked_at(pp, pts, at, i, avia_thinned(pp, pts, i).2),
    decreases i,
{
    let cloud = avia_thinned(pp, pts, i).2;
    if i <= 0 {
        assert(picked_at(pp, pts, Seq::empty(), i, cloud));
    } else {
        law_avia_in_order(pp, pts, i - 1);
        let before = avia_thinned(pp, pts, i - 1).2;
        let at = choose|at: Seq<int>| #[trigger] picked_at(pp, pts, at, i - 1, before);
        if cloud.len() == before.len() {
            assert(picked_at(pp, pts, at, i, cloud));
        } else {
            assert(picked_at(pp, pts, at.push(i), i, cloud));
        }
    }
}

/// The class is one of a surface.
pub open spec fn on_surface(f: Feature) -> bool {
    f == Feature::PossPlane || f == Feature::RealPlane
}

/// The class is one of a corner.
pub open spec fn on_corner(f: Feature) -> bool {
    f == Feature::EdgeJump || f == Feature::EdgePlane
}

/// The points of a line from `j` on whose class is one of a surface.
pub open spec fn surface_points<N: Scalar, W>(pl: Line<N>, types: Types<W>, j: int) -> Line<N>
    decreases pl.len() - j,
{
    if j >= pl.len() {
        Seq::empty()
    } else if on_surface(types[j].ftype) {
        seq![plain_point(pl[j])] + surface_points(pl, types, j + 1)
    } else {
        surface_points(pl, types, j + 1)
    }
}

/// The points of a line from `j` on whose class is one of a corner.
pub open spec fn corner_points<N: Scalar, W>(pl: Line<N>, types: Types<W>, j: int) -> Line<N>
    decreases pl.len() - j,
{
    if j >= pl.len() {
        Seq::empty()
    } else if on_corner(types[j].ftype) {
        seq![pl[j]] + corner_points(pl, types, j + 1)
    } else {
        corner_points(pl, types, j + 1)
    }
}

/// Without thinning, a line adds just its surface points to the one cloud and its
/// corner points to the other, in their order.
pub proof fn law_unthinned_features<N: Scalar, W: Scalar>(
    pp: Preprocess<N, W>,
    pl: Line<N>,
    types: Types<W>,
    j: int,
    surf: Line<N>,
    corn: Line<N>,
)
    requires
        pp.point_filter_num == 1,
    ensures
        output_from(pp, pl, types, j, None, surf, corn) == (
            surf + surface_points(pl, types, j),
            corn + corner_points(pl, types, j),
        ),
    decreases pl.len() - j,
{
    let s = surface_points(pl, types, j);
    let c = corner_points(pl, types, j);
    if j < pl.len() {
        let f = types[j].ftype;
        let surf2 = if on_surface(f) {
            surf.push(plain_point(pl[j]))
        } else {
            surf
        };
        let corn2 = if !on_surface(f) && on_corner(f) {
            corn.push(pl[j])
        } else {
            corn
        };
        law_unthinned_features(pp, pl, types, j + 1, surf2, corn2);
        assert(surf2 + surface_points(pl, types, j + 1) =~= surf + s);
        assert(corn2 + corner_points(pl, types, j + 1) =~= corn + c);
    } else {
        assert(surf + s =~= surf);
        assert(corn + c =~= corn);
    }
}

/// Every value of the list is a number.
pub open spec fn numbers<W: Scalar>(s: Seq<W>) -> bool {
    forall|i: int| 0 <= i < s.len() ==> (#[trigger] s[i]).is_num()
}

proof fn lemma_lifted<W: Scalar>(s: Seq<W>, j: int, k: int)
    requires
        0 <= j < k,
        numbers(s),
        forall|i: int| j < i < k && i < s.len() ==> s[i].key() <= s[j].key(),
    ensures
        lifted(s, j, k).len() == s.len(),
        lifted(s, j, k).to_multiset() == s.to_multiset(),
        numbers(lifted(s, j, k)),
        forall|i: int| 0 <= i < j && i < s.len() ==> #[trigger] lifted(s, j, k)[i] == s[i],
        forall|i: int|
            j < i < s.len() ==> (#[trigger] lifted(s, j, k)[i]).key() <= lifted(s, j, k)[j].key(),
    decreases s.len() - k,
{
    broadcast use vstd::seq_lib::group_to_multiset_ensures;

    if k < s.len() {
        if lt(s[j], s[k]) {
            let t = s.update(j, s[k]);
            let u = t.update(k, s[j]);
            assert(s.contains(s[j]));
            assert(t.to_multiset() =~= s.to_multiset().insert(s[k]).remove(s[j]));
            assert(u.to_multiset() =~= t.to_multiset().insert(s[j]).remove(t[k]));
            assert(u.to_multiset() =~= s.to_multiset());
            lemma_lifted(u, j, k + 1);
            assert forall|i: int| 0 <= i < j && i < s.len() implies #[trigger] lifted(s, j, k)[i]
                == s[i] by {
                assert(lifted(u, j, k + 1)[i] == u[i]);
            }
        } else {
            lemma_lifted(s, j, k + 1);
        }
    }
}

/// Sorting numbers rearranges them with no smaller one before a larger one.
pub proof fn law_descending<W: Scalar>(s: Seq<W>, j: int)
    requires
        0 <= j,
        numbers(s),
        forall|a: int, b: int|
            0 <= a < j && a < b < s.len() ==> (#[trigger] s[b]).key() <= (#[trigger] s[a]).key(),
    ensures
        descending(s, j).to_multiset() == s.to_multiset(),
        forall|a: int, b: int|
            0 <= a < b < s.len() ==> (#[trigger] descending(s, j)[b]).key() <= (
            #[trigger] descending(s, j)[a]).key(),
    decreases s.len() - j,
{
    broadcast use vstd::seq_lib::group_to_multiset_ensures;

    lemma_descending_len(s, j);
    if j + 1 < s.len() {
        lemma_lifted_len(s, j, j + 1);
        lemma_lifted(s, j, j + 1);
        let t = lifted(s, j, j + 1);
        assert forall|a: int, b: int| 0 <= a < j + 1 && a < b < t.len() implies (
        #[trigger] t[b]).key() <= (#[trigger] t[a]).key() by {
            if a < j {
                // what stands behind `a` in the new list stood behind it in the old one
                assert(t[a] == s[a]);
                if b >= j {
                    lemma_suffix_elements(s, t, j, b);
                } else {
                    assert(t[b] == s[b]);
                }
            }
        }
        law_descending(t, j + 1);
    }
}

/// An element behind `j` stays behind `j` when the elements before `j` stay put.
proof fn lemma_suffix_elements<W: Scalar>(s: Seq<W>, t: Seq<W>, j: int, b: int)
    requires
        s.len() == t.len(),
        0 <= j <= b < s.len(),
        s.to_multiset() == t.to_multiset(),
        forall|i: int| 0 <= i < j ==> s[i] == t[i],
    ensures
        exists|c: int| j <= c < s.len() && s[c] == t[b],
{
    broadcast use vstd::seq_lib::group_to_multiset_ensures;

    let pre = s.take(j);
    assert(pre =~= t.take(j));
    let x = s.skip(j);
    let y = t.skip(j);
    assert(s =~= pre + x);
    assert(t =~= pre + y);
    vstd::seq_lib::lemma_multiset_commutative(pre, x);
    vstd::seq_lib::lemma_multiset_commutative(pre, y);
    assert(s.to_multiset() == pre.to_multiset().add(x.to_multiset()));
    assert(t.to_multiset() == pre.to_multiset().add(y.to_multiset()));
    assert(x.to_multiset() =~= y.to_multiset()) by {
        assert forall|v: W| #[trigger] x.to_multiset().count(v) == y.to_multiset().count(v) by {
            assert(pre.to_multiset().add(x.to_multiset()).count(v) == pre.to_multiset().add(
                y.to_multiset(),
            ).count(v));
        }
    }
    assert(y[b - j] == t[b]);
    assert(y.contains(t[b]));
    assert(y.to_multiset().count(t[b]) > 0);
    assert(x.contains(t[b]));
    let i = choose|i: int| 0 <= i < x.len() && x[i] == t[b];
    assert(s[i + j] == t[b]);
}

} // verus!
