//! Laws of the classification of scan lines.
use crate::carry::lemma_two_products;
use crate::exact::{exact_angles, has_angles, lemma_commutes};
use crate::fixed::Fixed;
use crate::frames::{lemma_two_times};
use crate::preprocess::features::{
    area_sq, direction, dot, edge_class, edges_found, even_side, extent_from, group_limit,
    joined_from, judged, labelled, long_step, sorted_steps, uneven,
    mean_point, narrow_gap, plane_marked, side, summed, too_close, wide_point, widest, Extent, Line,
    Types, Vec3,
};
use crate::preprocess::{
    avia_point, initial_types, recovered_time, timed_point, turn_rate, velodyne_line, yaw_degrees,
    Layer, Preprocess,
};
use crate::scalar::{
    exact_arithmetic, is_less, is_reading, le, lt, whole, zero, Scalar, Widen,
};
use crate::sphere::{lemma_part_positive, lemma_square_amount};
use crate::types::{AviaPointMsg, Ejump, Feature, PointType, StdPointMsg};
use vstd::prelude::*;

verus! {

/// The vector between two points of a line in the wide type.
pub open spec fn step_between<N: Widen<W>, W: Scalar>(pl: Line<N>, a: int, b: int) -> Vec3<W> {
    (
        pl[b].x.minus_spec(pl[a].x).widen_spec(),
        pl[b].y.minus_spec(pl[a].y).widen_spec(),
        pl[b].z.minus_spec(pl[a].z).widen_spec(),
    )
}

/// In exact arithmetic the square of an area and that of the scalar product of its sides
/// make the product of the squares of the sides: points on a straight line span no area.
pub proof fn law_area_of_sides<N: Widen<W>, W: Scalar>(pl: Line<N>, cur: int, j: int, next: int)
    requires
        exact_arithmetic::<W>(),
    ensures
        ({
            let a = step_between::<N, W>(pl, cur, j);
            let v = step_between::<N, W>(pl, cur, next);
            area_sq::<N, W>(pl, cur, j, next).plus_spec(dot(a, v).times_spec(dot(a, v))) == dot(
                a,
                a,
            ).times_spec(dot(v, v))
        }),
{
    reveal(exact_arithmetic);
    let value = choose|value: spec_fn(W) -> real| #[trigger] is_reading(value);
    let a = step_between::<N, W>(pl, cur, j);
    let v = step_between::<N, W>(pl, cur, next);
    let g = (value(a.0), value(a.1), value(a.2));
    let p = (value(v.0), value(v.1), value(v.2));
    lemma_two_products(g, p, p);
    lemma_commutes(p.1, g.2);
    lemma_commutes(p.0, g.1);
    let area = area_sq::<N, W>(pl, cur, j, next);
    let (c0, c1, c2) = (
        a.1.times_spec(v.2).minus_spec(v.1.times_spec(a.2)),
        a.2.times_spec(v.0).minus_spec(a.0.times_spec(v.2)),
        a.0.times_spec(v.1).minus_spec(v.0.times_spec(a.1)),
    );
    reveal(is_reading);
    assert(value(c0) == g.1 * p.2 - g.2 * p.1);
    assert(value(c1) == g.2 * p.0 - g.0 * p.2);
    assert(value(c2) == g.0 * p.1 - g.1 * p.0);
    assert(area == c0.times_spec(c0).plus_spec(c1.times_spec(c1)).plus_spec(c2.times_spec(c2)));
    let left = area.plus_spec(dot(a, v).times_spec(dot(a, v)));
    let right = dot(a, a).times_spec(dot(v, v));
    assert(value(left) == value(right));
}

/// In fixed point, the largest area is at least that of every point before the last, and
/// that of one of them, or nothing.
pub proof fn law_widest_is_largest(pl: Line<Fixed>, cur: int, j: int, next: int)
    ensures
        ({
            let w = widest::<Fixed, Fixed>(pl, cur, j, next);
            &&& w.raw >= 0
            &&& forall|k: int|
                cur < k < j ==> (#[trigger] area_sq::<Fixed, Fixed>(pl, cur, k, next)).raw <= w.raw
            &&& w == zero::<Fixed>() || exists|k: int|
                cur < k < j && #[trigger] area_sq::<Fixed, Fixed>(pl, cur, k, next) == w
        }),
    decreases j - cur,
{
    if j > cur + 1 {
        law_widest_is_largest(pl, cur, j - 1, next);
        let w = widest::<Fixed, Fixed>(pl, cur, j - 1, next);
        let a = area_sq::<Fixed, Fixed>(pl, cur, j - 1, next);
        if !lt(w, a) && w != zero::<Fixed>() {
            let k = choose|k: int|
                cur < k < j - 1 && #[trigger] area_sq::<Fixed, Fixed>(pl, cur, k, next) == w;
            assert(cur < k < j && area_sq::<Fixed, Fixed>(pl, cur, k, next) == w);
        }
    }
}

/// A group extends as far as its points are near its first one: the point that ends it is
/// the first that is not, and none up to there is too close to the sensor.
pub proof fn law_group_extends<N: Widen<W>, W: Scalar>(
    pp: Preprocess<N, W>,
    pl: Line<N>,
    types: Types<W>,
    cur: int,
    group_dis: W,
    idx: int,
)
    ensures
        match extent_from(pp, pl, types, cur, group_dis, idx) {
            Extent::Ends(e) => {
                &&& idx <= e < pl.len()
                &&& le(group_dis, narrow_gap(pl, e, cur).widen_spec())
                &&& forall|k: int| idx <= k <= e ==> !#[trigger] too_close(pp, types, k)
                &&& forall|k: int|
                    idx <= k < e ==> !le(
                        group_dis,
                        (#[trigger] narrow_gap(pl, k, cur)).widen_spec(),
                    )
            },
            Extent::Blocked(e) => {
                &&& idx <= e < pl.len()
                &&& too_close(pp, types, e)
                &&& forall|k: int| idx <= k < e ==> !#[trigger] too_close(pp, types, k)
            },
            Extent::Open => forall|k: int|
                idx <= k < pl.len() ==> !#[trigger] too_close(pp, types, k),
        },
    decreases pl.len() - idx,
{
    if idx < pl.len() && !too_close(pp, types, idx) && !le(
        group_dis,
        N::widen_spec(narrow_gap(pl, idx, cur)),
    ) {
        law_group_extends(pp, pl, types, cur, group_dis, idx + 1);
    }
}

/// A plane makes the points inside it plane points and its ends plane points or edges, and
/// changes nothing else of the line.
pub proof fn law_plane_marks_its_points<W: Scalar>(
    types: Types<W>,
    i: int,
    next: int,
    after_plane: bool,
    last: Vec3<W>,
    cur: Vec3<W>,
    k: int,
)
    requires
        0 <= k < types.len(),
        i < next,
    ensures
        ({
            let t = plane_marked(types, i, next, after_plane, last, cur)[k];
            &&& t == labelled(types[k], t.ftype)
            &&& k < i || k > next ==> t.ftype == types[k].ftype
            &&& i < k < next ==> t.ftype == Feature::RealPlane
            &&& k == next ==> t.ftype == Feature::PossPlane
            &&& k == i && !after_plane ==> t.ftype == Feature::PossPlane
            &&& k == i && t.ftype == Feature::EdgePlane ==> lt(
                dot(last, cur),
                W::ratio_spec(707, 1000),
            ) && lt(W::ratio_spec(-707, 1000), dot(last, cur))
        }),
{
}

/// The search for edges leaves the ends of a line and the points whose class is settled, and
/// makes of the others jumps and wires only.
pub proof fn law_edges_among_unsettled<N: Widen<W>, W: Scalar>(
    pp: Preprocess<N, W>,
    pl: Line<N>,
    types: Types<W>,
    head: int,
    end: int,
    k: int,
)
    requires
        0 <= k < types.len(),
    ensures
        ({
            let t = edges_found(pp, pl, types, head, end)[k];
            &&& t.range == types[k].range
            &&& t.dista == types[k].dista
            &&& k < head + 3 || k >= end || types[k].ftype.is_settled() ==> t == types[k]
            &&& t.ftype == types[k].ftype || t.ftype == Feature::EdgeJump || t.ftype
                == Feature::Wire
            &&& t.ftype == Feature::Wire && types[k].ftype != Feature::Wire ==> types[k].ftype
                == Feature::Nor && t.edj[0] != Ejump::NrNor && t.edj[1] != Ejump::NrNor
        }),
{
}

/// Joining small planes turns ordinary points into plane points and changes nothing else.
pub proof fn law_joining_changes_ordinary<N: Scalar, W: Scalar>(
    pp: Preprocess<N, W>,
    types: Types<W>,
    i: int,
)
    ensures
        joined_from(pp, types, i).len() == types.len(),
        forall|k: int|
            0 <= k < types.len() ==> {
                let t = #[trigger] joined_from(pp, types, i)[k];
                &&& t == labelled(types[k], t.ftype)
                &&& t.ftype == types[k].ftype || types[k].ftype == Feature::Nor && t.ftype
                    == Feature::RealPlane
            },
    decreases types.len() - i,
{
    if i >= 1 && i + 1 < types.len() {
        let to = if super::features::small_plane(pp, types, i) {
            types.update(i - 1, super::features::planed(types[i - 1])).update(
                i,
                super::features::planed(types[i]),
            ).update(i + 1, super::features::planed(types[i + 1]))
        } else {
            types
        };
        law_joining_changes_ordinary(pp, to, i + 1);
        assert forall|k: int| 0 <= k < types.len() implies {
            let t = #[trigger] joined_from(pp, types, i)[k];
            &&& t == labelled(types[k], t.ftype)
            &&& t.ftype == types[k].ftype || types[k].ftype == Feature::Nor && t.ftype
                == Feature::RealPlane
        } by {
            assert(joined_from(pp, types, i)[k] == joined_from(pp, to, i + 1)[k]);
        }
    }
}

/// In exact arithmetic the mean of a run of points, times their number, is their sum: one
/// point more adds itself.
pub proof fn law_run_averages<N: Scalar>(pl: Line<N>, i: int, j: int)
    requires
        exact_angles::<N>(),
        i < j,
    ensures
        ({
            let m = mean_point(pl, i, j);
            let n = whole::<N>(j - i);
            let s = summed(pl, i, j - 1);
            let p = pl[j - 1];
            &&& m.x.times_spec(n) == s.x.plus_spec(p.x)
            &&& m.y.times_spec(n) == s.y.plus_spec(p.y)
            &&& m.z.times_spec(n) == s.z.plus_spec(p.z)
            &&& m.intensity.times_spec(n) == s.intensity.plus_spec(p.intensity)
            &&& m.curvature.times_spec(n) == s.curvature.plus_spec(p.curvature)
            &&& summed(pl, i, i).x == zero::<N>()
        }),
{
    reveal(exact_angles);
    let value = choose|value: spec_fn(N) -> real| #[trigger] is_reading(value) && has_angles(value);
    let s = summed(pl, i, j);
    lemma_shared_back(value, s.x, j - i);
    lemma_shared_back(value, s.y, j - i);
    lemma_shared_back(value, s.z, j - i);
    lemma_shared_back(value, s.intensity, j - i);
    lemma_shared_back(value, s.curvature, j - i);
}

pub(crate) proof fn lemma_shared_back<S: Scalar>(value: spec_fn(S) -> real, a: S, n: int)
    requires
        is_reading(value),
        has_angles(value),
        n > 0,
    ensures
        a.over_spec(whole(n)).times_spec(whole(n)) == a,
{
    let all = whole::<S>(n);
    assert(value(all) == n as real) by {
        reveal(is_reading);
    }
    assert(value(a.over_spec(all)) * value(all) == value(a)) by {
        reveal(has_angles);
    }
    reveal(is_reading);
    assert(value(a.over_spec(all).times_spec(all)) == value(a));
}

/// In exact arithmetic a point of a Livox message keeps its place, and a million times its
/// time is the time that the message tells.
pub proof fn law_livox_point<N: Scalar>(p: AviaPointMsg<N>)
    requires
        exact_angles::<N>(),
    ensures
        avia_point(p).x == p.x,
        avia_point(p).y == p.y,
        avia_point(p).z == p.z,
        avia_point(p).curvature.times_spec(whole(1000000)) == whole::<N>(p.offset_time as int),
{
    reveal(exact_angles);
    let value = choose|value: spec_fn(N) -> real| #[trigger] is_reading(value) && has_angles(value);
    lemma_shared_back(value, whole::<N>(p.offset_time as int), 1000000);
}

/// In exact arithmetic the bookkeeping of a line holds distances: the square of the range is
/// that of the place in the plane, and the step to the next point, or its square, is that of
/// the vector between them. Widening is taken to keep what is computed.
pub proof fn law_steps_are_distances<W: Scalar>(pl: Line<W>, rooted: bool, i: int) where
    W: Widen<W>,

    requires
        exact_angles::<W>(),
        forall|v: W| #[trigger] v.widen_spec() == v,
        0 <= i < pl.len() - 1,
    ensures
        ({
            let t = initial_types::<W, W>(pl, rooted)[i];
            let v = step_between::<W, W>(pl, i, i + 1);
            &&& t.range.times_spec(t.range) == pl[i].x.times_spec(pl[i].x).plus_spec(
                pl[i].y.times_spec(pl[i].y),
            )
            &&& if rooted {
                t.dista.times_spec(t.dista) == dot(v, v)
            } else {
                t.dista == dot(v, v)
            }
        }),
{
    reveal(exact_angles);
    let value = choose|value: spec_fn(W) -> real| #[trigger] is_reading(value) && has_angles(value);
    let t = initial_types::<W, W>(pl, rooted)[i];
    let (p, q) = (pl[i], pl[i + 1]);
    let flat = p.x.times_spec(p.x).plus_spec(p.y.times_spec(p.y));
    let gap = narrow_gap(pl, i, i + 1);
    let v = step_between::<W, W>(pl, i, i + 1);
    lemma_square_amount(value(p.x));
    lemma_square_amount(value(p.y));
    assert(value(flat) >= 0int as real) by {
        reveal(is_reading);
    }
    lemma_rooted(value, flat);
    let (a, b, c) = (value(v.0), value(v.1), value(v.2));
    lemma_square_amount(a);
    lemma_square_amount(b);
    lemma_square_amount(c);
    crate::sphere::lemma_signs(a, a);
    crate::sphere::lemma_signs(b, b);
    crate::sphere::lemma_signs(c, c);
    assert(value(gap) == value(dot(v, v)) && value(gap) >= 0int as real) by {
        reveal(is_reading);
        assert(value(p.x.minus_spec(q.x)) == -a);
        assert(value(p.y.minus_spec(q.y)) == -b);
        assert(value(p.z.minus_spec(q.z)) == -c);
    }
    assert(gap == dot(v, v)) by {
        reveal(is_reading);
    }
    lemma_rooted(value, gap);
    assert(t.range == flat.widen_spec().root_spec());
}

proof fn lemma_rooted<S: Scalar>(value: spec_fn(S) -> real, a: S)
    requires
        is_reading(value),
        has_angles(value),
        value(a) >= 0int as real,
    ensures
        a.root_spec().times_spec(a.root_spec()) == a,
{
    assert(value(a.root_spec()) * value(a.root_spec()) == value(a)) by {
        reveal(has_angles);
    }
    reveal(is_reading);
    assert(value(a.root_spec().times_spec(a.root_spec())) == value(a));
}

/// A vector that is long enough has a length other than nothing.
proof fn lemma_long<W: Scalar>(value: spec_fn(W) -> real, n: W)
    requires
        is_reading(value),
        has_angles(value),
        is_less(W::ratio_spec(1, 10000000), n),
    ensures
        value(n) > 0int as real,
{
    let small = W::ratio_spec(1, 10000000);
    assert(value(small) * (10000000int as real) == 1int as real && value(small) < value(n)) by {
        reveal(has_angles);
        assert(lt(small, n));
    }
    lemma_part_positive(value(small), 10000000int as real);
}

/// In exact arithmetic the number found for a side is the cosine of the angle between the
/// line of sight and the step to the neighbour: times the two lengths it is their scalar
/// product.
pub proof fn law_side_has_cosine<N: Widen<W>, W: Scalar>(
    pp: Preprocess<N, W>,
    pl: Line<N>,
    types: Types<W>,
    i: int,
    idx: int,
    j: int,
)
    requires
        exact_angles::<W>(),
        !too_close(pp, types, idx),
        ({
            let a = wide_point::<N, W>(pl[i]);
            let b = wide_point::<N, W>(pl[idx]);
            let v = (b.0.minus_spec(a.0), b.1.minus_spec(a.1), b.2.minus_spec(a.2));
            &&& is_less(W::ratio_spec(1, 10000000), dot(a, a).root_spec())
            &&& is_less(W::ratio_spec(1, 10000000), dot(v, v).root_spec())
        }),
    ensures
        ({
            let a = wide_point::<N, W>(pl[i]);
            let b = wide_point::<N, W>(pl[idx]);
            let (v, cosine, jump) = side(pp, pl, types, i, idx, j);
            &&& v.0.plus_spec(a.0) == b.0 && v.1.plus_spec(a.1) == b.1 && v.2.plus_spec(a.2) == b.2
            &&& cosine.times_spec(dot(v, v).root_spec()).times_spec(dot(a, a).root_spec()) == dot(
                a,
                v,
            )
            &&& jump == Ejump::Nr180 ==> lt(cosine, pp.jump_up_limit) || types[i].edj[j]
                == Ejump::Nr180
            &&& lt(cosine, pp.jump_up_limit) ==> jump == Ejump::Nr180
            &&& !lt(cosine, pp.jump_up_limit) && lt(pp.jump_down_limit, cosine) ==> jump
                == Ejump::NrZero
        }),
{
    reveal(exact_angles);
    let value = choose|value: spec_fn(W) -> real| #[trigger] is_reading(value) && has_angles(value);
    let a = wide_point::<N, W>(pl[i]);
    let b = wide_point::<N, W>(pl[idx]);
    let v = (b.0.minus_spec(a.0), b.1.minus_spec(a.1), b.2.minus_spec(a.2));
    let (p, q) = (dot(a, a).root_spec(), dot(v, v).root_spec());
    lemma_long(value, p);
    lemma_long(value, q);
    let d = dot(a, v);
    let once = d.over_spec(p);
    let cosine = once.over_spec(q);
    assert(value(once) * value(p) == value(d) && value(cosine) * value(q) == value(once)) by {
        reveal(has_angles);
    }
    reveal(is_reading);
    assert(value(cosine.times_spec(q).times_spec(p)) == value(d));
    assert(value(v.0.plus_spec(a.0)) == value(b.0));
    assert(value(v.1.plus_spec(a.1)) == value(b.1));
    assert(value(v.2.plus_spec(a.2)) == value(b.2));
}

/// In exact arithmetic the direction of a group has length one and leads from its first
/// point to its last: times their distance it is the vector between them.
pub proof fn law_direction_leads<W: Scalar>(pl: Line<W>, cur: int, next: int) where W: Widen<W>,
    requires
        exact_angles::<W>(),
        forall|v: W| #[trigger] v.widen_spec() == v,
        is_less(W::ratio_spec(1, 10000000), narrow_gap(pl, next, cur).root_spec()),
    ensures
        ({
            let d = direction::<W, W>(pl, cur, next);
            let v = step_between::<W, W>(pl, cur, next);
            let n = narrow_gap(pl, next, cur).root_spec();
            &&& d.0.times_spec(n) == v.0 && d.1.times_spec(n) == v.1 && d.2.times_spec(n) == v.2
            &&& dot(d, d) == W::ratio_spec(1, 1)
        }),
{
    reveal(exact_angles);
    let value = choose|value: spec_fn(W) -> real| #[trigger] is_reading(value) && has_angles(value);
    let d = direction::<W, W>(pl, cur, next);
    let v = step_between::<W, W>(pl, cur, next);
    let gap = narrow_gap(pl, next, cur);
    let n = gap.root_spec();
    lemma_long(value, n);
    let l = value(n);
    assert(value(d.0) * l == value(v.0) && value(d.1) * l == value(v.1) && value(d.2) * l == value(
        v.2,
    )) by {
        reveal(has_angles);
    }
    let (a, b, c) = (value(v.0), value(v.1), value(v.2));
    lemma_square_amount(a);
    lemma_square_amount(b);
    lemma_square_amount(c);
    assert(value(gap) == a * a + b * b + c * c) by {
        reveal(is_reading);
    }
    lemma_rooted(value, gap);
    assert(l * l == a * a + b * b + c * c) by {
        reveal(is_reading);
        assert(value(n.times_spec(n)) == l * l);
    }
    crate::exact::lemma_unit_axis(a, b, c, l, value(d.0), value(d.1), value(d.2));
    reveal(is_reading);
    assert(value(d.0.times_spec(n)) == a);
    assert(value(d.1.times_spec(n)) == b);
    assert(value(d.2.times_spec(n)) == c);
    assert(value(dot(d, d)) == value(W::ratio_spec(1, 1)));
}

/// In exact arithmetic a time recovered from angles is how long the scanner takes from the
/// first angle of the layer down to the angle of the point, up to full turns: times the rate
/// of turn it is the angle between them, plus so many turns as it takes.
pub proof fn law_time_from_angle<W: Scalar>(
    pp: Preprocess<W, W>,
    l: Layer<W, W>,
    p: StdPointMsg<W>,
) where W: Widen<W>,
    requires
        exact_angles::<W>(),
        forall|v: W| #[trigger] W::narrow_spec(v) == v,
        pp.scan_rate != 0,
    ensures
        ({
            let turned = recovered_time(pp, l, p).times_spec(turn_rate::<W>(pp.scan_rate));
            let angle = l.yaw.minus_spec(yaw_degrees::<W, W>(p));
            ||| turned == angle
            ||| turned == angle.plus_spec(whole(360))
            ||| turned == angle.plus_spec(whole(360)).plus_spec(whole(360))
        }),
{
    reveal(exact_angles);
    let value = choose|value: spec_fn(W) -> real| #[trigger] is_reading(value) && has_angles(value);
    let omega = turn_rate::<W>(pp.scan_rate);
    let share = W::ratio_spec(361, 1000);
    let k = value(share);
    let n = (pp.scan_rate as int) as real;
    assert(value(omega) == k * n) by {
        reveal(is_reading);
    }
    assert(k * (1000int as real) == 361int as real) by {
        reveal(has_angles);
    }
    let w = value(omega);
    assert(w != 0int as real) by (nonlinear_arith)
        requires
            w == k * n,
            k * (1000int as real) == 361int as real,
            n != 0int as real,
    ;
    let angle = l.yaw.minus_spec(yaw_degrees::<W, W>(p));
    let full = whole::<W>(360);
    let more = angle.plus_spec(full);
    let (a, b, c) = (angle.over_spec(omega), more.over_spec(omega), full.over_spec(omega));
    assert(value(a) * w == value(angle) && value(b) * w == value(more) && value(c) * w == value(
        full,
    )) by {
        reveal(has_angles);
    }
    lemma_two_times(value(a), value(c), w);
    lemma_two_times(value(b), value(c), w);
    reveal(is_reading);
    assert(value(a.times_spec(omega)) == value(angle));
    assert(value(b.times_spec(omega)) == value(more));
    assert(value(a.plus_spec(c).times_spec(omega)) == value(more));
    assert(value(b.plus_spec(c).times_spec(omega)) == value(more.plus_spec(full)));
}

/// A group is a plane only where it is long for its width and its steps are even, it is
/// whole, and none of its points is too close to the sensor.
pub proof fn law_plane_is_flat<N: Widen<W>, W: Scalar>(
    pp: Preprocess<N, W>,
    pl: Line<N>,
    types: Types<W>,
    cur: int,
)
    requires
        0 <= cur < pl.len() - pp.group_size,
        judged(pp, pl, types, cur) is Some,
        judged(pp, pl, types, cur)->0.kind == 1,
    ensures
        ({
            let next = judged(pp, pl, types, cur)->0.next;
            let far: W = narrow_gap(pl, next, cur).widen_spec();
            let d = sorted_steps(types, cur, next);
            &&& cur + pp.group_size <= next < pl.len()
            &&& !lt(
                far.times_spec(far).over_spec(widest::<N, W>(pl, cur, next, next)),
                pp.p2l_ratio,
            )
            &&& !uneven(pp, d)
            &&& le(group_limit(pp, types, cur), far)
            &&& forall|k: int|
                cur + pp.group_size <= k <= next ==> !#[trigger] too_close(pp, types, k)
            &&& judged(pp, pl, types, cur)->0.direct == direction(pl, cur, next)
        }),
{
    let limit = group_limit(pp, types, cur);
    law_group_extends(pp, pl, types, cur, limit, cur + pp.group_size);
}

/// A jump is an edge only where the surface continues evenly on the side that it belongs to.
pub proof fn law_jump_has_even_side<N: Scalar, W: Scalar>(
    pp: Preprocess<N, W>,
    types: Types<W>,
    i: int,
    prev: Ejump,
    next: Ejump,
    intersect: W,
)
    requires
        types[i].ftype != Feature::EdgeJump,
        edge_class(pp, types, i, prev, next, intersect) == Feature::EdgeJump,
    ensures
        prev == Ejump::NrNor && even_side(pp, types, i, false) || next == Ejump::NrNor && even_side(
            pp,
            types,
            i,
            true,
        ),
        prev == Ejump::NrNor ==> next == Ejump::NrZero || next == Ejump::NrInf,
        next == Ejump::NrNor ==> prev == Ejump::NrZero || prev == Ejump::NrInf,
        next == Ejump::NrZero ==> long_step(types[i].dista, types[i - 1].dista),
        prev == Ejump::NrZero ==> long_step(types[i - 1].dista, types[i].dista),
{
}

/// A point is at the place of one of the first `n` points of a ring.
pub open spec fn is_of_ring<N: Scalar>(
    pts: Seq<StdPointMsg<N>>,
    ring: int,
    n: int,
    p: PointType<N>,
) -> bool {
    exists|i: int|
        0 <= i < n && (#[trigger] pts[i]).ring == ring && pts[i].x == p.x && pts[i].y == p.y
            && pts[i].z == p.z
}

/// The layer of a spinning scanner holds the points of its ring: each of them is one of the
/// ring, and each of the ring is among them.
pub proof fn law_layer_holds_its_ring<N: Widen<W>, W: Scalar>(
    pp: Preprocess<N, W>,
    pts: Seq<StdPointMsg<N>>,
    given: bool,
    ring: int,
    n: int,
)
    requires
        0 <= n <= pts.len(),
    ensures
        forall|k: int|
            0 <= k < velodyne_line(pp, pts, given, ring, n).len() ==> is_of_ring(
                pts,
                ring,
                n,
                #[trigger] velodyne_line(pp, pts, given, ring, n)[k],
            ),
        forall|i: int|
            0 <= i < n && (#[trigger] pts[i]).ring == ring ==> velodyne_line(
                pp,
                pts,
                given,
                ring,
                n,
            ).contains(timed_point(pp, pts, given, i)),
    decreases n,
{
    if n > 0 {
        law_layer_holds_its_ring(pp, pts, given, ring, n - 1);
        let (was, is) = (
            velodyne_line(pp, pts, given, ring, n - 1),
            velodyne_line(pp, pts, given, ring, n),
        );
        assert forall|k: int| 0 <= k < is.len() implies is_of_ring(
            pts,
            ring,
            n,
            #[trigger] is[k],
        ) by {
            if k < was.len() {
                assert(is[k] == was[k]);
                assert(is_of_ring(pts, ring, n - 1, was[k]));
                let p = was[k];
                let i = choose|i: int|
                    0 <= i < n - 1 && (#[trigger] pts[i]).ring == ring && pts[i].x == p.x
                        && pts[i].y == p.y && pts[i].z == p.z;
                assert(0 <= i < n && pts[i].ring == ring);
            } else {
                assert(pts[n - 1].ring == ring);
            }
        }
        assert forall|i: int| 0 <= i < n && (#[trigger] pts[i]).ring == ring implies is.contains(
            timed_point(pp, pts, given, i),
        ) by {
            if i == n - 1 {
                assert(is[is.len() - 1] == timed_point(pp, pts, given, i));
            } else {
                let k = choose|k: int| 0 <= k < was.len() && was[k] == timed_point(pp, pts, given, i);
                assert(is[k] == was[k]);
            }
        }
    }
}

} // verus!
