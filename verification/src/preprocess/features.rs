//! Classification of the points of one scan line into planes and edges.
use crate::preprocess::Preprocess;
use crate::scalar::{le, lt, whole, zero, Scalar, Widen};
use crate::types::{zero_point, Ejump, Feature, LidarType, OrgType, PointType};
use vstd::prelude::*;

verus! {

/// A vector of three wide numbers.
pub type Vec3<W> = (W, W, W);

/// The bookkeeping of a line.
pub type Types<W> = Seq<OrgType<W>>;

/// The points of a line.
pub type Line<N> = Seq<PointType<N>>;

/// The point at `i` is too close to the sensor.
pub open spec fn too_close<N: Scalar, W: Scalar>(
    pp: Preprocess<N, W>,
    types: Types<W>,
    i: int,
) -> bool {
    lt(types[i].range, pp.blind)
}

/// The first point from `i` on that is not too close.
pub open spec fn head_from<N: Scalar, W: Scalar>(
    pp: Preprocess<N, W>,
    types: Types<W>,
    i: int,
) -> int
    decreases types.len() - i,
{
    if i < types.len() && too_close(pp, types, i) {
        head_from(pp, types, i + 1)
    } else {
        i
    }
}

/// The squared distance of two points of a line, computed in the narrow type.
pub open spec fn narrow_gap<N: Scalar>(pl: Line<N>, a: int, b: int) -> N {
    let x = pl[a].x.minus_spec(pl[b].x);
    let y = pl[a].y.minus_spec(pl[b].y);
    let z = pl[a].z.minus_spec(pl[b].z);
    x.times_spec(x).plus_spec(y.times_spec(y)).plus_spec(z.times_spec(z))
}

/// How far a group of points extends.
pub enum Extent {
    /// Up to a point that is too close to the sensor.
    Blocked(int),
    /// Up to the first point that is far enough away.
    Ends(int),
    /// Beyond the end of the line.
    Open,
}

/// The first point in a range that is too close.
pub open spec fn blocked_at<N: Scalar, W: Scalar>(
    pp: Preprocess<N, W>,
    types: Types<W>,
    i: int,
    end: int,
) -> Option<int>
    decreases end - i,
{
    if i >= end {
        None
    } else if too_close(pp, types, i) {
        Some(i)
    } else {
        blocked_at(pp, types, i + 1, end)
    }
}

/// How far the group of `cur` extends from `idx` on.
pub open spec fn extent_from<N: Widen<W>, W: Scalar>(
    pp: Preprocess<N, W>,
    pl: Line<N>,
    types: Types<W>,
    cur: int,
    group_dis: W,
    idx: int,
) -> Extent
    decreases pl.len() - idx,
{
    if idx >= pl.len() {
        Extent::Open
    } else if too_close(pp, types, idx) {
        Extent::Blocked(idx)
    } else if le(group_dis, narrow_gap(pl, idx, cur).widen_spec()) {
        Extent::Ends(idx)
    } else {
        extent_from(pp, pl, types, cur, group_dis, idx + 1)
    }
}

/// The squared distance that ends the group of `cur`.
pub open spec fn group_limit<N: Scalar, W: Scalar>(
    pp: Preprocess<N, W>,
    types: Types<W>,
    cur: int,
) -> W {
    let d = pp.dis_a.times_spec(types[cur].range).plus_spec(pp.dis_b);
    d.times_spec(d)
}

/// The squared area of the parallelogram of `cur`, `j` and `next`.
pub open spec fn area_sq<N: Widen<W>, W: Scalar>(pl: Line<N>, cur: int, j: int, next: int) -> W {
    let ax = pl[j].x.minus_spec(pl[cur].x).widen_spec();
    let ay = pl[j].y.minus_spec(pl[cur].y).widen_spec();
    let az = pl[j].z.minus_spec(pl[cur].z).widen_spec();
    let vx = pl[next].x.minus_spec(pl[cur].x).widen_spec();
    let vy = pl[next].y.minus_spec(pl[cur].y).widen_spec();
    let vz = pl[next].z.minus_spec(pl[cur].z).widen_spec();
    let c0 = ay.times_spec(vz).minus_spec(vy.times_spec(az));
    let c1 = az.times_spec(vx).minus_spec(ax.times_spec(vz));
    let c2 = ax.times_spec(vy).minus_spec(vx.times_spec(ay));
    c0.times_spec(c0).plus_spec(c1.times_spec(c1)).plus_spec(c2.times_spec(c2))
}

/// The largest such area up to `j`, zero if none is larger.
pub open spec fn widest<N: Widen<W>, W: Scalar>(pl: Line<N>, cur: int, j: int, next: int) -> W
    decreases j - cur,
{
    if j <= cur + 1 {
        zero()
    } else {
        let w = widest::<N, W>(pl, cur, j - 1, next);
        let a = area_sq(pl, cur, j - 1, next);
        if lt(w, a) {
            a
        } else {
            w
        }
    }
}

/// The list after its element at `j` was exchanged with each larger one from `k` on.
pub open spec fn lifted<W: Scalar>(s: Seq<W>, j: int, k: int) -> Seq<W>
    decreases s.len() - k,
{
    if j < 0 || k <= j || k >= s.len() {
        s
    } else if lt(s[j], s[k]) {
        lifted(s.update(j, s[k]).update(k, s[j]), j, k + 1)
    } else {
        lifted(s, j, k + 1)
    }
}

/// The list after the places from `j` on were filled with the largest of the rest.
pub open spec fn descending<W: Scalar>(s: Seq<W>, j: int) -> Seq<W>
    decreases s.len() - j,
{
    if j + 1 >= s.len() {
        s
    } else {
        proof {
            lemma_lifted_len(s, j, j + 1);
        }
        descending(lifted(s, j, j + 1), j + 1)
    }
}

/// Exchanging elements keeps the length.
pub proof fn lemma_lifted_len<W: Scalar>(s: Seq<W>, j: int, k: int)
    ensures
        lifted(s, j, k).len() == s.len(),
    decreases s.len() - k,
{
    if 0 <= j < k < s.len() {
        if lt(s[j], s[k]) {
            lemma_lifted_len(s.update(j, s[k]).update(k, s[j]), j, k + 1);
        } else {
            lemma_lifted_len(s, j, k + 1);
        }
    }
}

/// The steps along the line from `i` up to `end`, the longest first.
pub open spec fn sorted_steps<W: Scalar>(types: Types<W>, i: int, end: int) -> Seq<W> {
    descending(Seq::new((end - i) as nat, |k: int| types[i + k].dista), 0)
}

/// The steps of a group are too uneven for a plane.
pub open spec fn uneven<N: Scalar, W: Scalar>(pp: Preprocess<N, W>, d: Seq<W>) -> bool {
    let n = d.len() as int;
    if pp.lidar_type == LidarType::Avia {
        le(pp.limit_maxmid, d[0].over_spec(d[n / 2])) || le(
            pp.limit_midmin,
            d[n / 2].over_spec(d[n - 2]),
        )
    } else {
        le(pp.limit_maxmin, d[0].over_spec(d[n - 2]))
    }
}

/// What [`plane_judge`] finds: the verdict, where the group ends and its direction.
pub struct Judged<W> {
    pub kind: i32,
    pub next: int,
    pub direct: Vec3<W>,
}

pub open spec fn no_direction<W: Scalar>() -> Vec3<W> {
    (zero(), zero(), zero())
}

/// The direction from `cur` to `next`.
pub open spec fn direction<N: Widen<W>, W: Scalar>(pl: Line<N>, cur: int, next: int) -> Vec3<W> {
    let n = N::widen_spec(narrow_gap(pl, next, cur)).root_spec();
    (
        pl[next].x.minus_spec(pl[cur].x).widen_spec().over_spec(n),
        pl[next].y.minus_spec(pl[cur].y).widen_spec().over_spec(n),
        pl[next].z.minus_spec(pl[cur].z).widen_spec().over_spec(n),
    )
}

/// The verdict on the group of `cur`: 1 for a plane, 0 for none, 2 when a point too
/// close cuts it short. `None` when the group runs beyond the end of the line.
pub open spec fn judged<N: Widen<W>, W: Scalar>(
    pp: Preprocess<N, W>,
    pl: Line<N>,
    types: Types<W>,
    cur: int,
) -> Option<Judged<W>> {
    match blocked_at(pp, types, cur, cur + pp.group_size) {
        Some(i) => Some(Judged { kind: 2, next: i, direct: no_direction() }),
        None => match extent_from(
            pp,
            pl,
            types,
            cur,
            group_limit(pp, types, cur),
            cur + pp.group_size,
        ) {
            Extent::Open => None,
            Extent::Blocked(i) => Some(Judged { kind: 2, next: i, direct: no_direction() }),
            Extent::Ends(next) => {
                let two_dis: W = narrow_gap(pl, next, cur).widen_spec();
                let wide = widest::<N, W>(pl, cur, next, next);
                let d = sorted_steps(types, cur, next);
                let n = d.len() as int;
                if lt(two_dis.times_spec(two_dis).over_spec(wide), pp.p2l_ratio) || lt(
                    d[n - 2],
                    W::ratio_spec(1, 10000000000000000),
                ) || uneven(pp, d) {
                    Some(Judged { kind: 0, next, direct: no_direction() })
                } else {
                    Some(Judged { kind: 1, next, direct: direction(pl, cur, next) })
                }
            },
        },
    }
}

/// The bookkeeping with one class changed.
pub open spec fn labelled<W>(t: OrgType<W>, ftype: Feature) -> OrgType<W> {
    OrgType { ftype, ..t }
}

/// The line after a plane from `i` to `next` was found.
pub open spec fn plane_marked<W: Scalar>(
    types: Types<W>,
    i: int,
    next: int,
    after_plane: bool,
    last: Vec3<W>,
    cur: Vec3<W>,
) -> Types<W> {
    Seq::new(
        types.len(),
        |k: int|
            if k == i && after_plane && lt(W::ratio_spec(1, 100), dot(last, last)) {
                let m = dot(last, cur);
                labelled(
                    types[k],
                    if lt(W::ratio_spec(-707, 1000), m) && lt(m, W::ratio_spec(707, 1000)) {
                        Feature::EdgePlane
                    } else {
                        Feature::RealPlane
                    },
                )
            } else if k == i || k == next {
                labelled(types[k], Feature::PossPlane)
            } else if i < k < next {
                labelled(types[k], Feature::RealPlane)
            } else {
                types[k]
            },
    )
}

/// The scalar product.
pub open spec fn dot<W: Scalar>(a: Vec3<W>, b: Vec3<W>) -> W {
    a.0.times_spec(b.0).plus_spec(a.1.times_spec(b.1)).plus_spec(a.2.times_spec(b.2))
}

/// The line after the search for planes from `i` on; `None` when a group runs
/// beyond the end of the line.
pub open spec fn planes_from<N: Widen<W>, W: Scalar>(
    pp: Preprocess<N, W>,
    pl: Line<N>,
    types: Types<W>,
    i: int,
    after_plane: bool,
    last: Vec3<W>,
) -> Option<Types<W>>
    decreases pl.len() - i,
{
    if i < 0 || pp.group_size == 0 || i >= pl.len() - pp.group_size {
        Some(types)
    } else if too_close(pp, types, i) {
        planes_from(pp, pl, types, i + 1, after_plane, last)
    } else {
        proof {
            lemma_judged_next(pp, pl, types, i);
        }
        match judged(pp, pl, types, i) {
            None => None,
            Some(j) => if j.kind == 1 {
                planes_from(
                    pp,
                    pl,
                    plane_marked(types, i, j.next, after_plane, last, j.direct),
                    j.next,
                    true,
                    j.direct,
                )
            } else {
                planes_from(pp, pl, types, j.next + 1, false, j.direct)
            },
        }
    }
}

proof fn lemma_blocked_at<N: Scalar, W: Scalar>(
    pp: Preprocess<N, W>,
    types: Types<W>,
    i: int,
    end: int,
)
    ensures
        blocked_at(pp, types, i, end) matches Some(k) ==> i <= k < end,
    decreases end - i,
{
    if i < end && !too_close(pp, types, i) {
        lemma_blocked_at(pp, types, i + 1, end);
    }
}

proof fn lemma_extent_from<N: Widen<W>, W: Scalar>(
    pp: Preprocess<N, W>,
    pl: Line<N>,
    types: Types<W>,
    cur: int,
    group_dis: W,
    idx: int,
)
    ensures
        match extent_from(pp, pl, types, cur, group_dis, idx) {
            Extent::Blocked(k) => idx <= k < pl.len(),
            Extent::Ends(k) => idx <= k < pl.len(),
            Extent::Open => true,
        },
    decreases pl.len() - idx,
{
    if idx < pl.len() && !too_close(pp, types, idx) && !le(
        group_dis,
        N::widen_spec(narrow_gap(pl, idx, cur)),
    ) {
        lemma_extent_from(pp, pl, types, cur, group_dis, idx + 1);
    }
}

/// A group does not end before it starts, and a plane spans a whole group.
pub proof fn lemma_judged_next<N: Widen<W>, W: Scalar>(
    pp: Preprocess<N, W>,
    pl: Line<N>,
    types: Types<W>,
    cur: int,
)
    requires
        0 <= cur < pl.len() - pp.group_size,
    ensures
        judged(pp, pl, types, cur) matches Some(j) ==> cur <= j.next < pl.len() && (j.kind == 1
            ==> cur + pp.group_size <= j.next),
{
    lemma_blocked_at(pp, types, cur, cur + pp.group_size);
    lemma_extent_from(
        pp,
        pl,
        types,
        cur,
        group_limit(pp, types, cur),
        cur + pp.group_size,
    );
}

/// The vector to a neighbour, the cosine between it and the line of sight, and how
/// the surface continues on that side.
pub open spec fn side<N: Widen<W>, W: Scalar>(
    pp: Preprocess<N, W>,
    pl: Line<N>,
    types: Types<W>,
    i: int,
    idx: int,
    j: int,
) -> (Vec3<W>, W, Ejump) {
    let t = types[i];
    if too_close(pp, types, idx) {
        (
            no_direction(),
            t.angle[j],
            if lt(pp.inf_bound, t.range) {
                Ejump::NrInf
            } else {
                Ejump::NrBlind
            },
        )
    } else {
        let a = wide_point::<N, W>(pl[i]);
        let b = wide_point::<N, W>(pl[idx]);
        let v = (b.0.minus_spec(a.0), b.1.minus_spec(a.1), b.2.minus_spec(a.2));
        let angle = dot(a, v).over_spec(dot(a, a).root_spec()).over_spec(dot(v, v).root_spec());
        (
            v,
            angle,
            if lt(angle, pp.jump_up_limit) {
                Ejump::Nr180
            } else if lt(pp.jump_down_limit, angle) {
                Ejump::NrZero
            } else {
                t.edj[j]
            },
        )
    }
}

/// The place of a point in the wide type.
pub open spec fn wide_point<N: Widen<W>, W: Scalar>(p: PointType<N>) -> Vec3<W> {
    (p.x.widen_spec(), p.y.widen_spec(), p.z.widen_spec())
}

/// The surface continues evenly next to an edge: towards the previous points when
/// `next` is false, towards the next ones otherwise.
pub open spec fn even_side<N: Scalar, W: Scalar>(
    pp: Preprocess<N, W>,
    types: Types<W>,
    i: int,
    next: bool,
) -> bool {
    let a = if next {
        i + 1
    } else {
        i - 1
    };
    let b = if next {
        i + 2
    } else {
        i - 2
    };
    let p = if next {
        types[i].dista
    } else {
        types[i - 1].dista
    };
    let q = if next {
        types[i + 1].dista
    } else {
        types[i - 2].dista
    };
    let d1 = if lt(p, q) {
        q.root_spec()
    } else {
        p.root_spec()
    };
    let d2 = if lt(p, q) {
        p.root_spec()
    } else {
        q.root_spec()
    };
    &&& 0 <= a < types.len() && 0 <= b < types.len()
    &&& !too_close(pp, types, a) && !too_close(pp, types, b)
    &&& !(lt(pp.edgea.times_spec(d2), d1) || lt(pp.edgeb, d1.minus_spec(d2)))
}

/// A step to one side is long and much longer than the step to the other.
pub open spec fn long_step<W: Scalar>(far: W, near: W) -> bool {
    lt(W::ratio_spec(9, 400), far) && lt(W::ratio_spec(4, 1).times_spec(near), far)
}

/// The point is looked at when edges are searched.
pub open spec fn edge_candidate<N: Scalar, W: Scalar>(
    pp: Preprocess<N, W>,
    types: Types<W>,
    i: int,
) -> bool {
    let eps = W::ratio_spec(1, 10000000000000000);
    !too_close(pp, types, i) && !types[i].ftype.is_settled() && !lt(types[i - 1].dista, eps) && !lt(
        types[i].dista,
        eps,
    )
}

/// The class of a point whose surroundings are known.
pub open spec fn edge_class<N: Scalar, W: Scalar>(
    pp: Preprocess<N, W>,
    types: Types<W>,
    i: int,
    prev: Ejump,
    next: Ejump,
    intersect: W,
) -> Feature {
    let t = types[i];
    let before = types[i - 1].dista;
    if prev == Ejump::NrNor && next == Ejump::NrZero && long_step(t.dista, before) {
        if lt(pp.cos160, intersect) && even_side(pp, types, i, false) {
            Feature::EdgeJump
        } else {
            t.ftype
        }
    } else if prev == Ejump::NrZero && next == Ejump::NrNor && long_step(before, t.dista) {
        if lt(pp.cos160, intersect) && even_side(pp, types, i, true) {
            Feature::EdgeJump
        } else {
            t.ftype
        }
    } else if prev == Ejump::NrNor && next == Ejump::NrInf {
        if even_side(pp, types, i, false) {
            Feature::EdgeJump
        } else {
            t.ftype
        }
    } else if prev == Ejump::NrInf && next == Ejump::NrNor {
        if even_side(pp, types, i, true) {
            Feature::EdgeJump
        } else {
            t.ftype
        }
    } else if prev != Ejump::NrNor && next != Ejump::NrNor && t.ftype == Feature::Nor {
        Feature::Wire
    } else {
        t.ftype
    }
}

/// The bookkeeping of a point after the search for edges.
pub open spec fn edge_judged<N: Widen<W>, W: Scalar>(
    pp: Preprocess<N, W>,
    pl: Line<N>,
    types: Types<W>,
    i: int,
) -> OrgType<W> {
    let t = types[i];
    if edge_candidate(pp, types, i) {
        let p = side(pp, pl, types, i, i - 1, 0);
        let n = side(pp, pl, types, i, i + 1, 1);
        let intersect = dot(p.0, n.0).over_spec(
            dot(p.0, p.0).root_spec().times_spec(dot(n.0, n.0).root_spec()),
        );
        OrgType {
            range: t.range,
            dista: t.dista,
            angle: [p.1, n.1],
            intersect,
            edj: [p.2, n.2],
            ftype: edge_class(pp, types, i, p.2, n.2, intersect),
        }
    } else {
        t
    }
}

/// The line after the search for edges: each point away from the ends by itself.
pub open spec fn edges_found<N: Widen<W>, W: Scalar>(
    pp: Preprocess<N, W>,
    pl: Line<N>,
    types: Types<W>,
    head: int,
    end: int,
) -> Types<W> {
    Seq::new(
        types.len(),
        |k: int|
            if head + 3 <= k < end {
                edge_judged(pp, pl, types, k)
            } else {
                types[k]
            },
    )
}

/// The point at `i` is the middle of a small plane.
pub open spec fn small_plane<N: Scalar, W: Scalar>(
    pp: Preprocess<N, W>,
    types: Types<W>,
    i: int,
) -> bool {
    let eps = W::ratio_spec(1, 100000000);
    let before = types[i - 1].dista;
    let t = types[i];
    let ratio = if lt(t.dista, before) {
        before.over_spec(t.dista)
    } else {
        t.dista.over_spec(before)
    };
    &&& !too_close(pp, types, i) && !too_close(pp, types, i - 1) && !too_close(pp, types, i + 1)
    &&& !lt(before, eps) && !lt(t.dista, eps)
    &&& t.ftype == Feature::Nor
    &&& lt(t.intersect, pp.smallp_intersect) && lt(ratio, pp.smallp_ratio)
}

/// The bookkeeping with an ordinary point turned into one of a plane.
pub open spec fn planed<W>(t: OrgType<W>) -> OrgType<W> {
    if t.ftype == Feature::Nor {
        labelled(t, Feature::RealPlane)
    } else {
        t
    }
}

/// The line after small planes were joined from `i` on.
pub open spec fn joined_from<N: Scalar, W: Scalar>(
    pp: Preprocess<N, W>,
    types: Types<W>,
    i: int,
) -> Types<W>
    decreases types.len() - i,
{
    if i < 1 || i + 1 >= types.len() {
        types
    } else if small_plane(pp, types, i) {
        joined_from(
            pp,
            types.update(i - 1, planed(types[i - 1])).update(i, planed(types[i])).update(
                i + 1,
                planed(types[i + 1]),
            ),
            i + 1,
        )
    } else {
        joined_from(pp, types, i + 1)
    }
}

/// A point of the surface cloud that stands for itself.
pub open spec fn plain_point<N: Scalar>(p: PointType<N>) -> PointType<N> {
    PointType {
        x: p.x,
        y: p.y,
        z: p.z,
        intensity: p.intensity,
        curvature: p.curvature,
        ..zero_point::<N>()
    }
}

/// The sums of places and attributes from `i` up to `j`.
pub open spec fn summed<N: Scalar>(pl: Line<N>, i: int, j: int) -> PointType<N>
    decreases j - i,
{
    if j <= i {
        zero_point()
    } else {
        let s = summed(pl, i, j - 1);
        let p = pl[j - 1];
        PointType {
            x: s.x.plus_spec(p.x),
            y: s.y.plus_spec(p.y),
            z: s.z.plus_spec(p.z),
            intensity: s.intensity.plus_spec(p.intensity),
            curvature: s.curvature.plus_spec(p.curvature),
            ..s
        }
    }
}

/// The mean of the points from `i` up to `j`.
pub open spec fn mean_point<N: Scalar>(pl: Line<N>, i: int, j: int) -> PointType<N> {
    let s = summed(pl, i, j);
    let n = whole::<N>(j - i);
    PointType {
        x: s.x.over_spec(n),
        y: s.y.over_spec(n),
        z: s.z.over_spec(n),
        intensity: s.intensity.over_spec(n),
        curvature: s.curvature.over_spec(n),
        ..s
    }
}

/// The surface and corner clouds after the points from `j` on; `first` is where
/// the current run of surface points starts.
pub open spec fn output_from<N: Scalar, W: Scalar>(
    pp: Preprocess<N, W>,
    pl: Line<N>,
    types: Types<W>,
    j: int,
    first: Option<int>,
    surf: Line<N>,
    corn: Line<N>,
) -> (Line<N>, Line<N>)
    decreases pl.len() - j,
{
    if j >= pl.len() {
        (surf, corn)
    } else if types[j].ftype == Feature::PossPlane || types[j].ftype == Feature::RealPlane {
        let start = match first {
            Some(f) => f,
            None => j,
        };
        if j == start + pp.point_filter_num - 1 {
            output_from(pp, pl, types, j + 1, None, surf.push(plain_point(pl[j])), corn)
        } else {
            output_from(pp, pl, types, j + 1, Some(start), surf, corn)
        }
    } else {
        let corn2 = if types[j].ftype == Feature::EdgeJump || types[j].ftype == Feature::EdgePlane {
            corn.push(pl[j])
        } else {
            corn
        };
        let surf2 = match first {
            Some(f) => surf.push(mean_point(pl, f, j)),
            None => surf,
        };
        output_from(pp, pl, types, j + 1, None, surf2, corn2)
    }
}

/// The line after its points were classified: planes, then edges, then small planes;
/// `None` when a group of its points runs beyond its end.
pub open spec fn classified<N: Widen<W>, W: Scalar>(
    pp: Preprocess<N, W>,
    pl: Line<N>,
    types: Types<W>,
) -> Option<Types<W>> {
    let head = head_from(pp, types, 0);
    match planes_from(pp, pl, types, head, false, no_direction()) {
        None => None,
        Some(t) => Some(joined_from(pp, edges_found(pp, pl, t, head, pl.len() - 3), head + 1)),
    }
}

/// The ranges and the distances to the next point are the same in two lines.
pub open spec fn same_measures<W>(s: Types<W>, t: Types<W>) -> bool {
    &&& s.len() == t.len()
    &&& forall|k: int|
        0 <= k < s.len() ==> (#[trigger] t[k]).range == s[k].range && t[k].dista == s[k].dista
}

/// The surface and corner clouds after a line was classified and added to them;
/// `None` when a group of its points runs beyond its end.
pub open spec fn features<N: Widen<W>, W: Scalar>(
    pp: Preprocess<N, W>,
    pl: Line<N>,
    types: Types<W>,
    surf: Line<N>,
    corn: Line<N>,
) -> Option<(Line<N>, Line<N>)> {
    match classified(pp, pl, types) {
        None => None,
        Some(t) => Some(output_from(pp, pl, t, head_from(pp, types, 0), None, surf, corn)),
    }
}

/// What is fixed of the parameters: a group has at least two points.
pub open spec fn params_ok<N, W>(pp: Preprocess<N, W>) -> bool {
    2 <= pp.group_size <= 1000000
}

fn narrow_gap_of<N: Scalar>(pl: &Vec<PointType<N>>, a: usize, b: usize) -> (r: N)
    requires
        a < pl@.len(),
        b < pl@.len(),
    ensures
        r == narrow_gap(pl@, a as int, b as int),
{
    let x: N = pl[a].x.minus(pl[b].x);
    let y: N = pl[a].y.minus(pl[b].y);
    let z: N = pl[a].z.minus(pl[b].z);
    x.times(x).plus(y.times(y)).plus(z.times(z))
}

fn area_sq_of<N: Widen<W>, W: Scalar>(
    pl: &Vec<PointType<N>>,
    cur: usize,
    j: usize,
    next: usize,
) -> (r: W)
    requires
        cur < pl@.len(),
        j < pl@.len(),
        next < pl@.len(),
    ensures
        r == area_sq::<N, W>(pl@, cur as int, j as int, next as int),
{
    let ax: W = pl[j].x.minus(pl[cur].x).widen();
    let ay: W = pl[j].y.minus(pl[cur].y).widen();
    let az: W = pl[j].z.minus(pl[cur].z).widen();
    let vx: W = pl[next].x.minus(pl[cur].x).widen();
    let vy: W = pl[next].y.minus(pl[cur].y).widen();
    let vz: W = pl[next].z.minus(pl[cur].z).widen();
    let c0: W = ay.times(vz).minus(vy.times(az));
    let c1: W = az.times(vx).minus(ax.times(vz));
    let c2: W = ax.times(vy).minus(vx.times(ay));
    c0.times(c0).plus(c1.times(c1)).plus(c2.times(c2))
}

/// Sorts a list so that the largest comes first.
fn sort_descending<W: Scalar>(d: &mut Vec<W>)
    ensures
        final(d)@ == descending(old(d)@, 0),
{
    let n: usize = d.len();
    let mut j: usize = 0;
    while j < n && 1 < n - j
        invariant
            n == d@.len(),
            j <= n,
            descending(d@, j as int) == descending(old(d)@, 0),
        decreases n - j,
    {
        let ghost start = d@;
        let mut k: usize = j + 1;
        while k < n
            invariant
                n == d@.len(),
                j < k <= n,
                lifted(d@, j as int, k as int) == lifted(start, j as int, j + 1),
            decreases n - k,
        {
            if d[j].less(d[k]) {
                let a: W = d[j];
                let b: W = d[k];
                d.set(j, b);
                d.set(k, a);
            }
            k = k + 1;
        }
        j = j + 1;
    }
}

/// Decides whether the group of points that starts at `i_cur` is a plane: the
/// verdict, the end of the group and its direction. `None` when the group runs
/// beyond the end of the line.
fn plane_judge<N: Widen<W>, W: Scalar>(
    pp: &Preprocess<N, W>,
    pl: &Vec<PointType<N>>,
    types: &Vec<OrgType<W>>,
    i_cur: usize,
) -> (r: Option<(i32, usize, Vec3<W>)>)
    requires
        params_ok(*pp),
        pl@.len() == types@.len(),
        i_cur + pp.group_size < pl@.len(),
    ensures
        match judged(*pp, pl@, types@, i_cur as int) {
            None => r is None,
            Some(j) => r matches Some((kind, next, direct)) && kind == j.kind && next == j.next
                && direct == j.direct,
        },
{
    let o: W = W::ratio(0, 1);
    let nowhere: Vec3<W> = (o, o, o);
    let reach: W = pp.dis_a.times(types[i_cur].range).plus(pp.dis_b);
    let group_dis: W = reach.times(reach);
    let mut steps: Vec<W> = Vec::new();
    let mut next: usize = i_cur;
    assert(i_cur + pp.group_size < pl.len());
    let full: usize = i_cur + pp.group_size;
    while next < full
        invariant
            full == i_cur + pp.group_size,
            i_cur <= next <= i_cur + pp.group_size,
            i_cur + pp.group_size < pl@.len(),
            pl@.len() == types@.len(),
            nowhere == no_direction::<W>(),
            steps@ == Seq::new((next - i_cur) as nat, |k: int| types@[i_cur + k].dista),
            blocked_at(*pp, types@, i_cur as int, i_cur + pp.group_size) == blocked_at(
                *pp,
                types@,
                next as int,
                i_cur + pp.group_size,
            ),
        decreases i_cur + pp.group_size - next,
    {
        if types[next].range.less(pp.blind) {
            return Some((2, next, nowhere));
        }
        steps.push(types[next].dista);
        next = next + 1;
        assert(steps@ =~= Seq::new((next - i_cur) as nat, |k: int| types@[i_cur + k].dista));
    }
    let mut two_dis: W = o;
    let mut found: bool = false;
    while !found
        invariant
            i_cur + pp.group_size <= next <= pl@.len(),
            i_cur < pl@.len(),
            pl@.len() == types@.len(),
            group_dis == group_limit(*pp, types@, i_cur as int),
            nowhere == no_direction::<W>(),
            blocked_at(*pp, types@, i_cur as int, i_cur + pp.group_size) is None,
            steps@ == Seq::new((next - i_cur) as nat, |k: int| types@[i_cur + k].dista),
            !found ==> extent_from(
                *pp,
                pl@,
                types@,
                i_cur as int,
                group_dis,
                i_cur + pp.group_size,
            ) == extent_from(*pp, pl@, types@, i_cur as int, group_dis, next as int),
            found ==> extent_from(
                *pp,
                pl@,
                types@,
                i_cur as int,
                group_dis,
                i_cur + pp.group_size,
            ) == Extent::Ends(next as int) && next < pl@.len() && two_dis == N::widen_spec(
                narrow_gap(pl@, next as int, i_cur as int),
            ),
        decreases
            pl@.len() - next,
            if found {
                0int
            } else {
                1
            },
    {
        if next >= pl.len() {
            return None;
        }
        if types[next].range.less(pp.blind) {
            return Some((2, next, nowhere));
        }
        two_dis = narrow_gap_of(pl, next, i_cur).widen();
        if group_dis.at_most(two_dis) {
            found = true;
        } else {
            steps.push(types[next].dista);
            next = next + 1;
            assert(steps@ =~= Seq::new((next - i_cur) as nat, |k: int| types@[i_cur + k].dista));
        }
    }
    let mut wide: W = o;
    let mut j: usize = i_cur + 1;
    while j < next
        invariant
            i_cur + 1 <= j <= next,
            next < pl@.len(),
            wide == widest::<N, W>(pl@, i_cur as int, j as int, next as int),
        decreases next - j,
    {
        let a: W = area_sq_of(pl, i_cur, j, next);
        if wide.less(a) {
            wide = a;
        }
        j = j + 1;
    }
    if two_dis.times(two_dis).over(wide).less(pp.p2l_ratio) {
        return Some((0, next, nowhere));
    }
    sort_descending(&mut steps);
    let n: usize = steps.len();
    proof {
        lemma_descending_len(
            Seq::new((next - i_cur) as nat, |k: int| types@[i_cur + k].dista),
            0,
        );
    }
    if steps[n - 2].less(W::ratio(1, 10000000000000000)) {
        return Some((0, next, nowhere));
    }
    match pp.lidar_type {
        LidarType::Avia => {
            let max_mid: W = steps[0].over(steps[n / 2]);
            let mid_min: W = steps[n / 2].over(steps[n - 2]);
            if pp.limit_maxmid.at_most(max_mid) || pp.limit_midmin.at_most(mid_min) {
                return Some((0, next, nowhere));
            }
        },
        _ => {
            let max_min: W = steps[0].over(steps[n - 2]);
            if pp.limit_maxmin.at_most(max_min) {
                return Some((0, next, nowhere));
            }
        },
    }
    let length: W = narrow_gap_of(pl, next, i_cur).widen().root();
    let direct: Vec3<W> = (
        pl[next].x.minus(pl[i_cur].x).widen().over(length),
        pl[next].y.minus(pl[i_cur].y).widen().over(length),
        pl[next].z.minus(pl[i_cur].z).widen().over(length),
    );
    Some((1, next, direct))
}

/// Sorting keeps the length.
pub proof fn lemma_descending_len<W: Scalar>(s: Seq<W>, j: int)
    ensures
        descending(s, j).len() == s.len(),
    decreases s.len() - j,
{
    if j + 1 < s.len() {
        lemma_lifted_len(s, j, j + 1);
        lemma_descending_len(lifted(s, j, j + 1), j + 1);
    }
}

fn dot_of<W: Scalar>(a: Vec3<W>, b: Vec3<W>) -> (r: W)
    ensures
        r == dot(a, b),
{
    a.0.times(b.0).plus(a.1.times(b.1)).plus(a.2.times(b.2))
}

fn relabel<W: Scalar>(types: &mut Vec<OrgType<W>>, i: usize, ftype: Feature)
    requires
        i < old(types)@.len(),
    ensures
        final(types)@ == old(types)@.update(i as int, labelled(old(types)@[i as int], ftype)),
{
    let t: OrgType<W> = types[i];
    types.set(
        i,
        OrgType {
            range: t.range,
            dista: t.dista,
            angle: t.angle,
            intersect: t.intersect,
            edj: t.edj,
            ftype,
        },
    );
}

/// Marks the points of a plane.
fn mark_plane<W: Scalar>(
    types: &mut Vec<OrgType<W>>,
    i: usize,
    next: usize,
    after_plane: bool,
    last: Vec3<W>,
    cur: Vec3<W>,
)
    requires
        i < next < old(types)@.len(),
    ensures
        final(types)@ == plane_marked(
            old(types)@,
            i as int,
            next as int,
            after_plane,
            last,
            cur,
        ),
{
    let ghost t0 = types@;
    let n: usize = types.len();
    let mut j: usize = i;
    while j <= next
        invariant
            n == types@.len(),
            i <= j <= next + 1,
            i < next < types@.len(),
            types@.len() == t0.len(),
            forall|k: int|
                0 <= k < t0.len() ==> #[trigger] types@[k] == if i <= k < j {
                    labelled(
                        t0[k],
                        if k != i && k != next {
                            Feature::RealPlane
                        } else {
                            Feature::PossPlane
                        },
                    )
                } else {
                    t0[k]
                },
        decreases next + 1 - j,
    {
        if j != i && j != next {
            relabel(types, j, Feature::RealPlane);
        } else {
            relabel(types, j, Feature::PossPlane);
        }
        j = j + 1;
    }
    if after_plane && W::ratio(1, 100).less(dot_of(last, last)) {
        let m: W = dot_of(last, cur);
        if W::ratio(-707, 1000).less(m) && m.less(W::ratio(707, 1000)) {
            relabel(types, i, Feature::EdgePlane);
        } else {
            relabel(types, i, Feature::RealPlane);
        }
    }
    assert(types@ =~= plane_marked(t0, i as int, next as int, after_plane, last, cur));
}

/// Searches for planes from `head` on; false when a group runs beyond the end of
/// the line.
fn find_planes<N: Widen<W>, W: Scalar>(
    pp: &Preprocess<N, W>,
    pl: &Vec<PointType<N>>,
    types: &mut Vec<OrgType<W>>,
    head: usize,
) -> (r: bool)
    requires
        params_ok(*pp),
        pl@.len() == old(types)@.len(),
    ensures
        match planes_from(*pp, pl@, old(types)@, head as int, false, no_direction()) {
            None => !r,
            Some(t) => r && final(types)@ == t,
        },
        same_measures(old(types)@, final(types)@),
{
    let o: W = W::ratio(0, 1);
    let mut last: Vec3<W> = (o, o, o);
    let mut after_plane: bool = false;
    let ghost want = planes_from(*pp, pl@, types@, head as int, false, no_direction());
    let n: usize = pl.len();
    let end: usize = if n < pp.group_size {
        0
    } else {
        n - pp.group_size
    };
    let mut i: usize = head;
    while i < end
        invariant
            n == pl@.len(),
            params_ok(*pp),
            pl@.len() == types@.len(),
            same_measures(old(types)@, types@),
            end == if pl@.len() < pp.group_size {
                0
            } else {
                pl@.len() - pp.group_size
            },
            planes_from(*pp, pl@, types@, i as int, after_plane, last) == want,
            want == planes_from(*pp, pl@, old(types)@, head as int, false, no_direction()),
        decreases pl@.len() - i,
    {
        proof {
            lemma_judged_next(*pp, pl@, types@, i as int);
        }
        if types[i].range.less(pp.blind) {
            i = i + 1;
        } else {
            match plane_judge(pp, pl, types, i) {
                None => {
                    return false;
                },
                Some((kind, next, direct)) => {
                    if kind == 1 {
                        mark_plane(types, i, next, after_plane, last, direct);
                        i = next;
                        after_plane = true;
                    } else {
                        i = next + 1;
                        after_plane = false;
                    }
                    last = direct;
                },
            }
        }
    }
    true
}

fn wide_point_of<N: Widen<W>, W: Scalar>(p: &PointType<N>) -> (r: Vec3<W>)
    ensures
        r == wide_point::<N, W>(*p),
{
    (p.x.widen(), p.y.widen(), p.z.widen())
}

fn look_aside<N: Widen<W>, W: Scalar>(
    pp: &Preprocess<N, W>,
    pl: &Vec<PointType<N>>,
    types: &Vec<OrgType<W>>,
    i: usize,
    idx: usize,
    angle: W,
    edj: Ejump,
    Ghost(j): Ghost<int>,
) -> (r: (Vec3<W>, W, Ejump))
    requires
        pl@.len() == types@.len(),
        i < pl@.len(),
        idx < pl@.len(),
        angle == types@[i as int].angle[j],
        edj == types@[i as int].edj[j],
    ensures
        r == side(*pp, pl@, types@, i as int, idx as int, j),
{
    if types[idx].range.less(pp.blind) {
        let o: W = W::ratio(0, 1);
        let jump: Ejump = if pp.inf_bound.less(types[i].range) {
            Ejump::NrInf
        } else {
            Ejump::NrBlind
        };
        ((o, o, o), angle, jump)
    } else {
        let a: Vec3<W> = wide_point_of(&pl[i]);
        let b: Vec3<W> = wide_point_of(&pl[idx]);
        let v: Vec3<W> = (b.0.minus(a.0), b.1.minus(a.1), b.2.minus(a.2));
        let cosine: W = dot_of(a, v).over(dot_of(a, a).root()).over(dot_of(v, v).root());
        let jump: Ejump = if cosine.less(pp.jump_up_limit) {
            Ejump::Nr180
        } else if pp.jump_down_limit.less(cosine) {
            Ejump::NrZero
        } else {
            edj
        };
        (v, cosine, jump)
    }
}

/// Decides whether the surface continues evenly next to an edge.
fn edge_jump_judge<N: Widen<W>, W: Scalar>(
    pp: &Preprocess<N, W>,
    types: &Vec<OrgType<W>>,
    i: usize,
    next: bool,
) -> (r: bool)
    requires
        1 <= i < types@.len(),
    ensures
        r == even_side(*pp, types@, i as int, next),
{
    if next {
        if types.len() - i <= 2 {
            return false;
        }
        if types[i + 1].range.less(pp.blind) || types[i + 2].range.less(pp.blind) {
            return false;
        }
    } else {
        if i < 2 {
            return false;
        }
        if types[i - 1].range.less(pp.blind) || types[i - 2].range.less(pp.blind) {
            return false;
        }
    }
    let p: W = if next {
        types[i].dista
    } else {
        types[i - 1].dista
    };
    let q: W = if next {
        types[i + 1].dista
    } else {
        types[i - 2].dista
    };
    let swap: bool = p.less(q);
    let d1: W = if swap {
        q.root()
    } else {
        p.root()
    };
    let d2: W = if swap {
        p.root()
    } else {
        q.root()
    };
    !(pp.edgea.times(d2).less(d1) || pp.edgeb.less(d1.minus(d2)))
}

fn is_long_step<W: Scalar>(far: W, near: W) -> (r: bool)
    ensures
        r == long_step(far, near),
{
    W::ratio(9, 400).less(far) && W::ratio(4, 1).times(near).less(far)
}

fn classify_edge<N: Widen<W>, W: Scalar>(
    pp: &Preprocess<N, W>,
    types: &Vec<OrgType<W>>,
    i: usize,
    prev: Ejump,
    next: Ejump,
    intersect: W,
) -> (r: Feature)
    requires
        1 <= i < types@.len(),
    ensures
        r == edge_class(*pp, types@, i as int, prev, next, intersect),
{
    let t: OrgType<W> = types[i];
    let before: W = types[i - 1].dista;
    if prev == Ejump::NrNor && next == Ejump::NrZero && is_long_step(t.dista, before) {
        if pp.cos160.less(intersect) && edge_jump_judge(pp, types, i, false) {
            Feature::EdgeJump
        } else {
            t.ftype
        }
    } else if prev == Ejump::NrZero && next == Ejump::NrNor && is_long_step(before, t.dista) {
        if pp.cos160.less(intersect) && edge_jump_judge(pp, types, i, true) {
            Feature::EdgeJump
        } else {
            t.ftype
        }
    } else if prev == Ejump::NrNor && next == Ejump::NrInf {
        if edge_jump_judge(pp, types, i, false) {
            Feature::EdgeJump
        } else {
            t.ftype
        }
    } else if prev == Ejump::NrInf && next == Ejump::NrNor {
        if edge_jump_judge(pp, types, i, true) {
            Feature::EdgeJump
        } else {
            t.ftype
        }
    } else if prev != Ejump::NrNor && next != Ejump::NrNor && t.ftype == Feature::Nor {
        Feature::Wire
    } else {
        t.ftype
    }
}

/// The bookkeeping of one point after the search for edges.
fn judge_edge<N: Widen<W>, W: Scalar>(
    pp: &Preprocess<N, W>,
    pl: &Vec<PointType<N>>,
    types: &Vec<OrgType<W>>,
    i: usize,
) -> (r: OrgType<W>)
    requires
        pl@.len() == types@.len(),
        1 <= i < pl@.len() - 1,
    ensures
        r == edge_judged(*pp, pl@, types@, i as int),
{
    let t: OrgType<W> = types[i];
    assert(i < pl.len() - 1);
    let eps: W = W::ratio(1, 10000000000000000);
    if t.range.less(pp.blind) || t.ftype.settled() {
        return t;
    }
    if types[i - 1].dista.less(eps) || t.dista.less(eps) {
        return t;
    }
    let p: (Vec3<W>, W, Ejump) = look_aside(
        pp,
        pl,
        types,
        i,
        i - 1,
        t.angle[0],
        t.edj[0],
        Ghost(0),
    );
    let n: (Vec3<W>, W, Ejump) = look_aside(
        pp,
        pl,
        types,
        i,
        i + 1,
        t.angle[1],
        t.edj[1],
        Ghost(1),
    );
    let intersect: W = dot_of(p.0, n.0).over(dot_of(p.0, p.0).root().times(dot_of(n.0, n.0).root()));
    let ftype: Feature = classify_edge(pp, types, i, p.2, n.2, intersect);
    OrgType {
        range: t.range,
        dista: t.dista,
        angle: [p.1, n.1],
        intersect,
        edj: [p.2, n.2],
        ftype,
    }
}

/// Neighbours matter by their range and step only.
proof fn lemma_edge_judged<N: Widen<W>, W: Scalar>(
    pp: Preprocess<N, W>,
    pl: Line<N>,
    s: Types<W>,
    t: Types<W>,
    i: int,
)
    requires
        s.len() == t.len(),
        0 <= i < s.len(),
        s[i] == t[i],
        forall|k: int|
            0 <= k < s.len() ==> (#[trigger] s[k]).range == t[k].range && s[k].dista == t[k].dista,
        1 <= i < s.len() - 1,
    ensures
        edge_judged(pp, pl, s, i) == edge_judged(pp, pl, t, i),
{
    assert(s[i - 1].dista == t[i - 1].dista);
    assert(s[i + 1].dista == t[i + 1].dista);
    if 0 <= i - 2 {
        assert(s[i - 2].dista == t[i - 2].dista);
    }
    if i + 2 < s.len() {
        assert(s[i + 2].dista == t[i + 2].dista);
    }
    assert(even_side(pp, s, i, true) == even_side(pp, t, i, true));
    assert(even_side(pp, s, i, false) == even_side(pp, t, i, false));
}

/// Searches for edges.
fn find_edges<N: Widen<W>, W: Scalar>(
    pp: &Preprocess<N, W>,
    pl: &Vec<PointType<N>>,
    types: &mut Vec<OrgType<W>>,
    head: usize,
)
    requires
        pl@.len() == old(types)@.len(),
        head <= pl@.len(),
    ensures
        final(types)@ == edges_found(*pp, pl@, old(types)@, head as int, pl@.len() - 3),
        same_measures(old(types)@, final(types)@),
{
    let ghost t0 = types@;
    let n: usize = pl.len();
    if n >= 3 && head < n - 3 {
        let end: usize = n - 3;
        let mut i: usize = head + 3;
        while i < end
            invariant
                head + 3 <= i,
                end == n - 3,
                n == pl@.len(),
                pl@.len() == types@.len(),
                t0.len() == types@.len(),
                forall|k: int|
                    0 <= k < t0.len() ==> #[trigger] types@[k] == if head + 3 <= k < i && k < end {
                        edge_judged(*pp, pl@, t0, k)
                    } else {
                        t0[k]
                    },
            decreases n - i,
        {
            proof {
                lemma_edge_judged(*pp, pl@, types@, t0, i as int);
            }
            let t: OrgType<W> = judge_edge(pp, pl, types, i);
            types.set(i, t);
            i = i + 1;
        }
    }
    assert(types@ =~= edges_found(*pp, pl@, t0, head as int, pl@.len() - 3));
}

/// Joins small planes from `head + 1` on.
fn join_planes<N: Widen<W>, W: Scalar>(
    pp: &Preprocess<N, W>,
    types: &mut Vec<OrgType<W>>,
    head: usize,
)
    requires
        head <= old(types)@.len(),
    ensures
        final(types)@ == joined_from(*pp, old(types)@, head + 1),
        same_measures(old(types)@, final(types)@),
{
    let n: usize = types.len();
    if n < 2 || head >= n - 1 {
        return;
    }
    let eps: W = W::ratio(1, 100000000);
    let mut i: usize = head + 1;
    while i < n - 1
        invariant
            1 <= i <= n - 1,
            n == types@.len(),
            same_measures(old(types)@, types@),
            eps == W::ratio_spec(1, 100000000),
            joined_from(*pp, types@, i as int) == joined_from(*pp, old(types)@, head + 1),
        decreases n - i,
    {
        let t: OrgType<W> = types[i];
        let before: W = types[i - 1].dista;
        let blind: bool = t.range.less(pp.blind) || types[i - 1].range.less(pp.blind) || types[i
            + 1].range.less(pp.blind);
        if !blind && !(before.less(eps) || t.dista.less(eps)) && t.ftype == Feature::Nor {
            let ratio: W = if t.dista.less(before) {
                before.over(t.dista)
            } else {
                t.dista.over(before)
            };
            if t.intersect.less(pp.smallp_intersect) && ratio.less(pp.smallp_ratio) {
                let ghost s = types@;
                if types[i - 1].ftype == Feature::Nor {
                    relabel(types, i - 1, Feature::RealPlane);
                }
                if types[i + 1].ftype == Feature::Nor {
                    relabel(types, i + 1, Feature::RealPlane);
                }
                relabel(types, i, Feature::RealPlane);
                proof {
                    let u = s.update(i - 1, planed(s[i - 1])).update(
                        i as int,
                        planed(s[i as int]),
                    ).update(i + 1, planed(s[i + 1]));
                    assert(types@ =~= u);
                }
            }
        }
        i = i + 1;
    }
}

/// The mean of the points from `i` up to `j`.
fn mean_of<N: Scalar>(pl: &Vec<PointType<N>>, i: usize, j: usize) -> (r: PointType<N>)
    requires
        i < j <= pl@.len(),
        j - i <= i64::MAX,
    ensures
        r == mean_point(pl@, i as int, j as int),
{
    let mut s: PointType<N> = PointType::default();
    let mut k: usize = i;
    while k < j
        invariant
            i <= k <= j <= pl@.len(),
            s == summed(pl@, i as int, k as int),
        decreases j - k,
    {
        let p: PointType<N> = pl[k];
        s = PointType {
            x: s.x.plus(p.x),
            y: s.y.plus(p.y),
            z: s.z.plus(p.z),
            intensity: s.intensity.plus(p.intensity),
            curvature: s.curvature.plus(p.curvature),
            normal_x: s.normal_x,
            normal_y: s.normal_y,
            normal_z: s.normal_z,
        };
        k = k + 1;
    }
    let n: N = N::ratio((j - i) as i64, 1);
    PointType {
        x: s.x.over(n),
        y: s.y.over(n),
        z: s.z.over(n),
        intensity: s.intensity.over(n),
        curvature: s.curvature.over(n),
        normal_x: s.normal_x,
        normal_y: s.normal_y,
        normal_z: s.normal_z,
    }
}

/// Writes the surface and corner points of a line.
fn write_clouds<N: Widen<W>, W: Scalar>(
    pp: &Preprocess<N, W>,
    pl: &Vec<PointType<N>>,
    types: &Vec<OrgType<W>>,
    head: usize,
    surf: &mut Vec<PointType<N>>,
    corn: &mut Vec<PointType<N>>,
)
    requires
        pl@.len() == types@.len(),
        pl@.len() <= i64::MAX,
        head <= pl@.len(),
    ensures
        (final(surf)@, final(corn)@) == output_from(
            *pp,
            pl@,
            types@,
            head as int,
            None,
            old(surf)@,
            old(corn)@,
        ),
{
    let ghost want = output_from(*pp, pl@, types@, head as int, None, surf@, corn@);
    let mut first: Option<usize> = None;
    let mut j: usize = head;
    while j < pl.len()
        invariant
            j <= pl@.len(),
            pl@.len() == types@.len(),
            pl@.len() <= i64::MAX,
            first is Some ==> first->0 < j,
            output_from(
                *pp,
                pl@,
                types@,
                j as int,
                match first {
                    Some(f) => Some(f as int),
                    None => None,
                },
                surf@,
                corn@,
            ) == want,
        decreases pl@.len() - j,
    {
        let ftype: Feature = types[j].ftype;
        if ftype == Feature::PossPlane || ftype == Feature::RealPlane {
            let start: usize = match first {
                Some(f) => f,
                None => j,
            };
            if j as i128 == start as i128 + pp.point_filter_num as i128 - 1 {
                let p: PointType<N> = pl[j];
                let o: N = N::ratio(0, 1);
                surf.push(
                    PointType {
                        x: p.x,
                        y: p.y,
                        z: p.z,
                        intensity: p.intensity,
                        curvature: p.curvature,
                        normal_x: o,
                        normal_y: o,
                        normal_z: o,
                    },
                );
                first = None;
            } else {
                first = Some(start);
            }
        } else {
            if ftype == Feature::EdgeJump || ftype == Feature::EdgePlane {
                corn.push(pl[j]);
            }
            match first {
                Some(f) => {
                    surf.push(mean_of(pl, f, j));
                },
                None => {},
            }
            first = None;
        }
        j = j + 1;
    }
}

/// Classifies the points of a line and adds its surface and corner points to the
/// clouds. Returns false when a group of points runs beyond the end of the line: the
/// clouds are then as they were, and the classes are of no use.
pub fn give_feature<N: Widen<W>, W: Scalar>(
    pp: &Preprocess<N, W>,
    pl: &Vec<PointType<N>>,
    types: &mut Vec<OrgType<W>>,
    surf: &mut Vec<PointType<N>>,
    corn: &mut Vec<PointType<N>>,
) -> (r: bool)
    requires
        params_ok(*pp),
        pl@.len() == old(types)@.len(),
        pl@.len() <= i64::MAX,
    ensures
        match classified(*pp, pl@, old(types)@) {
            None => !r && final(surf)@ == old(surf)@ && final(corn)@ == old(corn)@,
            Some(t) => r && final(types)@ == t && (final(surf)@, final(corn)@) == output_from(
                *pp,
                pl@,
                t,
                head_from(*pp, old(types)@, 0),
                None,
                old(surf)@,
                old(corn)@,
            ),
        },
        same_measures(old(types)@, final(types)@),
{
    let mut head: usize = 0;
    while head < pl.len() && types[head].range.less(pp.blind)
        invariant
            head <= pl@.len(),
            pl@.len() == types@.len(),
            types@ == old(types)@,
            head_from(*pp, types@, head as int) == head_from(*pp, types@, 0),
        decreases pl@.len() - head,
    {
        head = head + 1;
    }
    if !find_planes(pp, pl, types, head) {
        return false;
    }
    find_edges(pp, pl, types, head);
    join_planes(pp, types, head);
    write_clouds(pp, pl, types, head, surf, corn);
    true
}

} // verus!
