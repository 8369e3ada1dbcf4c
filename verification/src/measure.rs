//! The point-to-plane measurement: which points of a scan lie near a plane of
//! the map, how far off they are, and how that depends on the state.
//!
//! A measurement runs in two halves. [`Scan::look_up`] places the points in the
//! world and finds their neighbours on the map. The caller then fits a plane to
//! the neighbours of each selected point: it gives the vector `n` that is nearest
//! to solving `n · p = -1` for the five neighbours `p`. [`Scan::weigh`] keeps the
//! points whose plane fits well.
use crate::esekf::DynShareData;
use crate::ikdtree::{nearest_result, KdTree};
use crate::ikdtree::model::Tree;
use crate::linear::V3;
use crate::manifold::StateIkfom;
use crate::matrix::{has_shape, Mat, Rows};
use crate::scalar::{greater_of, greater_spec, le, lt, zero, Scalar, Widen};
use crate::so3::skew;
use crate::types::{zero_point, PointType, NUM_MATCH_POINTS};
use vstd::prelude::*;

verus! {

/// The position of a point in wide numbers.
#[verifier::allow_in_spec]
pub fn position_of<N: Widen<W>, W: Scalar>(p: PointType<N>) -> V3<W>
    returns
        (V3 { x: p.x.widen_spec(), y: p.y.widen_spec(), z: p.z.widen_spec() }),
{
    V3 { x: p.x.widen(), y: p.y.widen(), z: p.z.widen() }
}

/// Where a point of the sensor frame lies in the world.
pub open spec fn world_of<N: Widen<W>, W: Scalar>(p: PointType<N>, s: StateIkfom<W>) -> PointType<N> {
    let at = s.rot.rotate(
        s.offset_r_l_i.rotate(position_of(p)).sum(s.offset_t_l_i),
    ).sum(s.pos);
    PointType {
        x: N::narrow_spec(at.x),
        y: N::narrow_spec(at.y),
        z: N::narrow_spec(at.z),
        intensity: p.intensity,
        ..zero_point()
    }
}

/// Places a point of the sensor frame in the world.
pub fn point_body_to_world<N: Widen<W>, W: Scalar>(p: &PointType<N>, s: &StateIkfom<W>) -> (r: PointType<N>)
    ensures
        r == world_of(*p, *s),
{
    let at: V3<W> = s.rot.rotate(
        s.offset_r_l_i.rotate(position_of(*p)).sum(s.offset_t_l_i),
    ).sum(s.pos);
    let o: N = N::ratio(0, 1);
    PointType {
        x: N::narrow(at.x),
        y: N::narrow(at.y),
        z: N::narrow(at.z),
        intensity: p.intensity,
        curvature: o,
        normal_x: o,
        normal_y: o,
        normal_z: o,
    }
}

/// A plane: the points `p` with `n · p + d = 0`, where `n` has length one.
#[derive(Clone, Copy, Debug)]
pub struct Plane<N> {
    pub n: V3<N>,
    pub d: N,
}

/// The signed distance of a point from a plane.
#[verifier::allow_in_spec]
pub fn off_plane<N: Scalar>(f: Plane<N>, p: PointType<N>) -> N
    returns
        f.n.x.times_spec(p.x).plus_spec(f.n.y.times_spec(p.y)).plus_spec(f.n.z.times_spec(p.z)).plus_spec(f.d),
{
    f.n.x.times(p.x).plus(f.n.y.times(p.y)).plus(f.n.z.times(p.z)).plus(f.d)
}

/// The plane of the vector that solves `n · p = -1`.
#[verifier::allow_in_spec]
pub fn plane_along<N: Scalar>(sol: V3<N>) -> Plane<N>
    returns
        (Plane { n: sol.shared(sol.norm()), d: N::ratio_spec(1, 1).over_spec(sol.norm()) }),
{
    Plane { n: sol.shared(sol.norm()), d: N::ratio(1, 1).over(sol.norm()) }
}

/// The vector belongs to a plane that no point is further from than `threshold`.
pub open spec fn fits<N: Scalar>(sol: V3<N>, points: Seq<PointType<N>>, threshold: N) -> bool {
    &&& !lt(sol.norm(), N::ratio_spec(1, 1000000000))
    &&& forall|i: int|
        0 <= i < points.len() ==> !lt(
            threshold,
            off_plane(plane_along(sol), #[trigger] points[i]).magnitude_spec(),
        )
}

/// The plane of a solution, if it fits the points.
pub fn esti_plane<N: Scalar>(sol: V3<N>, points: &Vec<PointType<N>>, threshold: N) -> (r: Option<
    Plane<N>,
>)
    ensures
        r == if fits(sol, points@, threshold) {
            Some(plane_along(sol))
        } else {
            None
        },
{
    if sol.norm().less(N::ratio(1, 1000000000)) {
        return None;
    }
    let f: Plane<N> = plane_along(sol);
    let mut i: usize = 0;
    while i < points.len()
        invariant
            i <= points@.len(),
            f == plane_along(sol),
            forall|k: int|
                0 <= k < i ==> !lt(
                    threshold,
                    off_plane(f, #[trigger] points@[k]).magnitude_spec(),
                ),
        decreases points@.len() - i,
    {
        if threshold.less(off_plane(f, points[i]).magnitude()) {
            assert(lt(threshold, off_plane(f, points@[i as int]).magnitude_spec()));
            return None;
        }
        i = i + 1;
    }
    Some(f)
}

/// How well a point that is `off` from its plane counts: the further from the
/// sensor, the more it may be off.
pub open spec fn score_of<N: Widen<W>, W: Scalar>(body: PointType<N>, off: N) -> N {
    let reach = greater_spec(
        N::narrow_spec(position_of::<N, W>(body).norm().root_spec()),
        N::ratio_spec(1, 1000000),
    );
    N::ratio_spec(1, 1).minus_spec(
        N::ratio_spec(9, 10).times_spec(off.magnitude_spec()).over_spec(reach),
    )
}

/// A point near a plane: the plane's normal, with the distance as intensity.
pub open spec fn normal_of<N: Scalar>(f: Plane<N>, off: N, keep: PointType<N>) -> PointType<N> {
    PointType { x: f.n.x, y: f.n.y, z: f.n.z, intensity: off, ..keep }
}

/// The contents of a [`Scan`].
pub struct ScanView<N> {
    pub body: Seq<PointType<N>>,
    pub world: Seq<PointType<N>>,
    pub near: Seq<Seq<PointType<N>>>,
    pub selected: Seq<bool>,
    pub normvec: Seq<PointType<N>>,
    pub res: Seq<N>,
}

/// A scan on its way through the measurement.
#[derive(Debug)]
pub struct Scan<N> {
    /// The points in the sensor frame.
    pub body: Vec<PointType<N>>,
    /// The points in the world.
    pub world: Vec<PointType<N>>,
    /// The neighbours of each point on the map.
    pub near: Vec<Vec<PointType<N>>>,
    /// Which points take part.
    pub selected: Vec<bool>,
    /// The plane of each point that takes part.
    pub normvec: Vec<PointType<N>>,
    /// The distance of each point that takes part from its plane.
    pub res: Vec<N>,
}

impl<N> View for Scan<N> {
    type V = ScanView<N>;

    open spec fn view(&self) -> ScanView<N> {
        ScanView {
            body: self.body@,
            world: self.world@,
            near: Seq::new(self.near@.len(), |i: int| self.near@[i]@),
            selected: self.selected@,
            normvec: self.normvec@,
            res: self.res@,
        }
    }
}

/// Everything is there once for each point.
pub open spec fn aligned<N>(v: ScanView<N>) -> bool {
    let n = v.body.len();
    v.world.len() == n && v.near.len() == n && v.selected.len() == n && v.normvec.len() == n
        && v.res.len() == n
}

/// `near` are the nearest points of the map to `p`, and whether there are enough of
/// them close by.
pub open spec fn found_near<N: Scalar>(
    t: Tree<N>,
    p: PointType<N>,
    near: Seq<PointType<N>>,
    enough: bool,
) -> bool {
    exists|dists: Seq<N>|
        #[trigger] nearest_result(
            t,
            p,
            NUM_MATCH_POINTS as nat,
            N::ratio_spec(1, 0),
            near,
            dists,
        ) && enough == (near.len() >= NUM_MATCH_POINTS && le(
            dists[NUM_MATCH_POINTS - 1],
            N::ratio_spec(5, 1),
        ))
}

/// The points are placed by state `s`; with `search` their neighbours are found
/// anew, else those from before stay.
pub open spec fn looked_up<N: Widen<W>, W: Scalar>(
    t: Tree<N>,
    s: StateIkfom<W>,
    search: bool,
    a: ScanView<N>,
    b: ScanView<N>,
) -> bool {
    &&& aligned(b)
    &&& b.body == a.body
    &&& b.normvec == a.normvec
    &&& b.res == a.res
    &&& forall|i: int| 0 <= i < a.body.len() ==> #[trigger] b.world[i] == world_of(a.body[i], s)
    &&& !search ==> b.near == a.near && b.selected == a.selected
    &&& search ==> forall|i: int|
        0 <= i < a.body.len() ==> found_near(
            t,
            b.world[i],
            #[trigger] b.near[i],
            b.selected[i],
        )
}

/// The plane of a point that takes part, with the distance of the point.
pub open spec fn match_of<N: Widen<W>, W: Scalar>(a: ScanView<N>, sol: V3<N>, i: int) -> Option<
    (Plane<N>, N),
> {
    let f = plane_along(sol);
    let off = off_plane(f, a.world[i]);
    if a.selected[i] && fits(sol, a.near[i], N::ratio_spec(1, 10)) && lt(
        N::ratio_spec(9, 10),
        score_of::<N, W>(a.body[i], off),
    ) {
        Some((f, off))
    } else {
        None
    }
}

/// The scan with the points that do not fit their planes dropped.
pub open spec fn weighed<N: Widen<W>, W: Scalar>(a: ScanView<N>, sols: Seq<V3<N>>) -> ScanView<N> {
    ScanView {
        selected: Seq::new(
            a.selected.len(),
            |i: int| match_of::<N, W>(a, sols[i], i) is Some,
        ),
        normvec: Seq::new(
            a.normvec.len(),
            |i: int|
                match match_of::<N, W>(a, sols[i], i) {
                    Some(m) => normal_of(m.0, m.1, a.normvec[i]),
                    None => a.normvec[i],
                },
        ),
        res: Seq::new(
            a.res.len(),
            |i: int|
                match match_of::<N, W>(a, sols[i], i) {
                    Some(m) => m.1.magnitude_spec(),
                    None => a.res[i],
                },
        ),
        ..a
    }
}

/// The numbers of the points that take part, among the first `n`.
pub open spec fn chosen(selected: Seq<bool>, n: nat) -> Seq<int>
    decreases n,
{
    if n == 0 {
        Seq::empty()
    } else if selected[n - 1] {
        chosen(selected, (n - 1) as nat).push(n - 1)
    } else {
        chosen(selected, (n - 1) as nat)
    }
}

/// The sum of the distances of the points that take part, among the first `n`.
pub open spec fn residual_sum<N: Widen<W>, W: Scalar>(b: ScanView<N>, n: nat) -> W
    decreases n,
{
    if n == 0 {
        zero()
    } else if b.selected[n - 1] {
        residual_sum::<N, W>(b, (n - 1) as nat).plus_spec(b.res[n - 1].widen_spec())
    } else {
        residual_sum(b, (n - 1) as nat)
    }
}

/// The normal of a matched point.
#[verifier::allow_in_spec]
pub fn normal_vec<N: Widen<W>, W: Scalar>(norm: PointType<N>) -> V3<W>
    returns
        V3::new(norm.x.widen_spec(), norm.y.widen_spec(), norm.z.widen_spec()),
{
    V3::new(norm.x.widen(), norm.y.widen(), norm.z.widen())
}

/// The derivative of a distance by position, rotation and, with `ext`, the
/// extrinsics.
pub open spec fn slope_of<N: Widen<W>, W: Scalar>(
    s: StateIkfom<W>,
    body: PointType<N>,
    norm: PointType<N>,
    ext: bool,
) -> Seq<W> {
    let at = position_of::<N, W>(body);
    let n = normal_vec::<N, W>(norm);
    let on_imu = s.offset_r_l_i.rotate(at).sum(s.offset_t_l_i);
    let c = s.rot.conjugate().rotate(n);
    let a = skew(on_imu).apply(c);
    let b = skew(at).apply(s.offset_r_l_i.conjugate().rotate(c));
    let o = zero::<W>();
    if ext {
        seq![n.x, n.y, n.z, a.x, a.y, a.z, b.x, b.y, b.z, c.x, c.y, c.z]
    } else {
        seq![n.x, n.y, n.z, a.x, a.y, a.z, o, o, o, o, o, o]
    }
}

/// The residuals of a scan.
pub open spec fn residuals<N: Widen<W>, W: Scalar>(b: ScanView<N>) -> Seq<W> {
    let c = chosen(b.selected, b.selected.len());
    Seq::new(c.len(), |k: int| b.normvec[c[k]].intensity.negate_spec().widen_spec())
}

/// The derivatives of the residuals of a scan.
pub open spec fn slopes<N: Widen<W>, W: Scalar>(
    s: StateIkfom<W>,
    b: ScanView<N>,
    ext: bool,
) -> Rows<W> {
    let c = chosen(b.selected, b.selected.len());
    Seq::new(c.len(), |k: int| slope_of(s, b.body[c[k]], b.normvec[c[k]], ext))
}

/// What a measurement tells about the points that take part.
#[derive(Debug)]
pub struct Effect<W> {
    /// The data for the filter.
    pub share: DynShareData<W>,
    /// The number of the points.
    pub count: usize,
    /// The sum of their distances.
    pub total: W,
}

proof fn lemma_chosen(selected: Seq<bool>, n: nat)
    requires
        n <= selected.len(),
    ensures
        chosen(selected, n).len() <= n,
        forall|k: int|
            0 <= k < chosen(selected, n).len() ==> 0 <= #[trigger] chosen(selected, n)[k] < n
                && selected[chosen(selected, n)[k]],
    decreases n,
{
    if n > 0 {
        lemma_chosen(selected, (n - 1) as nat);
    }
}

fn slope_row<N: Widen<W>, W: Scalar>(
    s: &StateIkfom<W>,
    body: PointType<N>,
    norm: PointType<N>,
    ext: bool,
) -> (r: Vec<W>)
    ensures
        r@ == slope_of(*s, body, norm, ext),
{
    let at: V3<W> = position_of(body);
    let n: V3<W> = normal_vec(norm);
    let on_imu: V3<W> = s.offset_r_l_i.rotate(at).sum(s.offset_t_l_i);
    let c: V3<W> = s.rot.conjugate().rotate(n);
    let a: V3<W> = skew(on_imu).apply(c);
    let r: Vec<W> = if ext {
        let b: V3<W> = skew(at).apply(s.offset_r_l_i.conjugate().rotate(c));
        vec![n.x, n.y, n.z, a.x, a.y, a.z, b.x, b.y, b.z, c.x, c.y, c.z]
    } else {
        let o: W = W::ratio(0, 1);
        vec![n.x, n.y, n.z, a.x, a.y, a.z, o, o, o, o, o, o]
    };
    assert(r@ =~= slope_of(*s, body, norm, ext));
    r
}

impl<N: Scalar> Scan<N> {
    /// A scan of which nothing is known yet.
    pub fn new(body: Vec<PointType<N>>) -> (r: Self)
        ensures
            aligned(r@),
            r@.body == body@,
            forall|i: int| 0 <= i < body@.len() ==> #[trigger] r@.near[i] == Seq::<PointType<N>>::empty(),
            forall|i: int| 0 <= i < body@.len() ==> !(#[trigger] r@.selected[i]),
    {
        let n: usize = body.len();
        let mut r: Scan<N> = Scan {
            body,
            world: Vec::new(),
            near: Vec::new(),
            selected: Vec::new(),
            normvec: Vec::new(),
            res: Vec::new(),
        };
        let mut i: usize = 0;
        while i < n
            invariant
                i <= n == body@.len(),
                r.body@ == body@,
                r.world@.len() == i,
                r.near@.len() == i,
                r.selected@.len() == i,
                r.normvec@.len() == i,
                r.res@.len() == i,
                forall|k: int| 0 <= k < i ==> (#[trigger] r.near@[k])@ == Seq::<PointType<N>>::empty(),
                forall|k: int| 0 <= k < i ==> !(#[trigger] r.selected@[k]),
            decreases n - i,
        {
            let none: Vec<PointType<N>> = Vec::new();
            assert(none@ =~= Seq::<PointType<N>>::empty());
            r.world.push(PointType::default());
            r.near.push(none);
            r.selected.push(false);
            r.normvec.push(PointType::default());
            r.res.push(N::ratio(0, 1));
            i = i + 1;
        }
        r
    }
}

impl<N: Scalar> Scan<N> {
    /// Places the points and, with `search`, finds their neighbours.
    pub fn look_up<W: Scalar>(&mut self, tree: &mut KdTree<N>, s: &StateIkfom<W>, search: bool) where
        N: Widen<W>,

        requires
            aligned(old(self)@),
            old(tree).wf(),
        ensures
            *final(tree) == *old(tree),
            looked_up(old(tree).root, *s, search, old(self)@, final(self)@),
    {
        let n: usize = self.body.len();
        let ghost a = self@;
        let mut i: usize = 0;
        while i < n
            invariant
                i <= n == a.body.len(),
                aligned(a),
                aligned(self@),
                *tree == *old(tree),
                tree.wf(),
                self@.body == a.body,
                self@.normvec == a.normvec,
                self@.res == a.res,
                forall|k: int|
                    0 <= k < i ==> #[trigger] self@.world[k] == world_of(a.body[k], *s),
                !search ==> self.near == old(self).near && self@.selected == a.selected,
                search ==> forall|k: int|
                    0 <= k < i ==> found_near(
                        tree.root,
                        self@.world[k],
                        (#[trigger] self.near@[k])@,
                        self@.selected[k],
                    ),
            decreases n - i,
        {
            let w: PointType<N> = point_body_to_world(&self.body[i], s);
            self.world.set(i, w);
            if search {
                let mut near: Vec<PointType<N>> = Vec::new();
                let mut dists: Vec<N> = Vec::new();
                tree.nearest_search(
                    &w,
                    5,
                    &mut near,
                    &mut dists,
                    N::ratio(1, 0),
                );
                let enough: bool = near.len() >= NUM_MATCH_POINTS
                    && dists[NUM_MATCH_POINTS - 1].at_most(N::ratio(5, 1));
                assert(found_near(tree.root, w, near@, enough)) by {
                    assert(nearest_result(
                        tree.root,
                        w,
                        NUM_MATCH_POINTS as nat,
                        N::ratio_spec(1, 0),
                        near@,
                        dists@,
                    ));
                }
                self.near.set(i, near);
                self.selected.set(i, enough);
            }
            i = i + 1;
        }
        assert(!search ==> self@.near =~= a.near);
    }

    /// Takes the plane solutions of the points and keeps the points that fit.
    pub fn weigh<W: Scalar>(&mut self, sols: &Vec<V3<N>>) where N: Widen<W>,
        requires
            aligned(old(self)@),
            sols@.len() == old(self)@.body.len(),
        ensures
            aligned(final(self)@),
            final(self)@ == weighed::<N, W>(old(self)@, sols@),
    {
        let n: usize = self.body.len();
        let ghost a = self@;
        let ghost b = weighed::<N, W>(a, sols@);
        let mut i: usize = 0;
        while i < n
            invariant
                i <= n == a.body.len(),
                n == sols@.len(),
                aligned(a),
                aligned(self@),
                b == weighed::<N, W>(a, sols@),
                self@.body == a.body,
                self@.world == a.world,
                self.near == old(self).near,
                a == old(self)@,
                self@.near == a.near,
                forall|k: int| 0 <= k < i ==> #[trigger] self@.selected[k] == b.selected[k],
                forall|k: int| 0 <= k < i ==> #[trigger] self@.normvec[k] == b.normvec[k],
                forall|k: int| 0 <= k < i ==> #[trigger] self@.res[k] == b.res[k],
                forall|k: int| i <= k < n ==> #[trigger] self@.selected[k] == a.selected[k],
                forall|k: int| i <= k < n ==> #[trigger] self@.normvec[k] == a.normvec[k],
                forall|k: int| i <= k < n ==> #[trigger] self@.res[k] == a.res[k],
            decreases n - i,
        {
            if self.selected[i] {
                self.selected.set(i, false);
                assert(self.near@[i as int]@ == a.near[i as int]);
                match esti_plane(sols[i], &self.near[i], N::ratio(1, 10)) {
                    Some(f) => {
                        let off: N = off_plane(f, self.world[i]);
                        let far: W = position_of::<N, W>(self.body[i]).norm().root();
                        let reach: N = greater_of(N::narrow(far), N::ratio(1, 1000000));
                        let score: N = N::ratio(1, 1).minus(
                            N::ratio(9, 10).times(off.magnitude()).over(reach),
                        );
                        if N::ratio(9, 10).less(score) {
                            let mut m: PointType<N> = self.normvec[i];
                            m.x = f.n.x;
                            m.y = f.n.y;
                            m.z = f.n.z;
                            m.intensity = off;
                            self.selected.set(i, true);
                            self.normvec.set(i, m);
                            self.res.set(i, off.magnitude());
                        }
                    },
                    None => {},
                }
            }
            i = i + 1;
            assert(self@.near =~= a.near);
        }
        assert(self@.selected =~= b.selected);
        assert(self@.normvec =~= b.normvec);
        assert(self@.res =~= b.res);
    }

    /// The residuals of the points that take part and their derivatives at a
    /// state. Without such a point the measurement is not valid.
    pub fn effect<W: Scalar>(&self, s: &StateIkfom<W>, ext: bool) -> (r: Effect<W>) where N: Widen<W>,
        requires
            aligned(self@),
        ensures
            r.count == chosen(self@.selected, self@.selected.len()).len(),
            r.total == residual_sum::<N, W>(self@, self@.selected.len()),
            r.share.valid == (r.count > 0),
            r.share.h@ == residuals::<N, W>(self@),
            r.share.h_x@ == slopes(*s, self@, ext),
            has_shape(r.share.h_x@, r.share.h@.len(), 12),
    {
        let n: usize = self.body.len();
        let ghost v = self@;
        let mut h: Vec<W> = Vec::new();
        let mut cells: Vec<Vec<W>> = Vec::new();
        let mut total: W = W::ratio(0, 1);
        let mut i: usize = 0;
        while i < n
            invariant
                i <= n == v.body.len(),
                v == self@,
                aligned(v),
                total == residual_sum::<N, W>(v, i as nat),
                h@.len() == chosen(v.selected, i as nat).len(),
                cells@.len() == h@.len(),
                h@.len() <= i,
                forall|k: int|
                    0 <= k < h@.len() ==> #[trigger] h@[k] == v.normvec[chosen(
                        v.selected,
                        i as nat,
                    )[k]].intensity.negate_spec().widen_spec(),
                forall|k: int|
                    0 <= k < h@.len() ==> (#[trigger] cells@[k])@ == slope_of(
                        *s,
                        v.body[chosen(v.selected, i as nat)[k]],
                        v.normvec[chosen(v.selected, i as nat)[k]],
                        ext,
                    ),
            decreases n - i,
        {
            if self.selected[i] {
                total = total.plus(self.res[i].widen());
                h.push(self.normvec[i].intensity.negate().widen());
                cells.push(slope_row(s, self.body[i], self.normvec[i], ext));
            }
            i = i + 1;
        }
        let h_x: Mat<W> = Mat { cells };
        assert(h@ =~= residuals::<N, W>(v));
        assert(h_x@ =~= slopes(*s, v, ext));
        let count: usize = h.len();
        Effect { share: DynShareData { valid: count > 0, h, h_x }, count, total }
    }
}

/// After a search, a point takes part in a measurement only if the map has enough
/// points near it, and the plane through them fits them and lies close to it.
pub proof fn law_only_good_matches<N: Widen<W>, W: Scalar>(
    t: Tree<N>,
    s: StateIkfom<W>,
    a: ScanView<N>,
    b: ScanView<N>,
    sols: Seq<V3<N>>,
    i: int,
)
    requires
        aligned(a),
        looked_up(t, s, true, a, b),
        0 <= i < a.body.len(),
        weighed::<N, W>(b, sols).selected[i],
    ensures
        b.near[i].len() == NUM_MATCH_POINTS,
        fits(sols[i], b.near[i], N::ratio_spec(1, 10)),
        weighed::<N, W>(b, sols).res[i] == off_plane(
            plane_along(sols[i]),
            world_of(a.body[i], s),
        ).magnitude_spec(),
{
    assert(match_of::<N, W>(b, sols[i], i) is Some);
    assert(b.world[i] == world_of(a.body[i], s));
    assert(found_near(t, b.world[i], b.near[i], b.selected[i]));
}

} // verus!
