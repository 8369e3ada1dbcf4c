//! The iterated update of the filter.
//!
//! An update runs in rounds. Each round asks for a measurement at the current
//! state, then for the inverse of one or two matrices, and corrects the state.
//! Once two rounds have changed the state by less than the limits, or after the
//! last round, the covariance is corrected and the update is finished.
use crate::esekf::{DynShareData, EseKf};
use crate::linear::{M2, M3, V2, V3};
use crate::manifold::{StateIkfom, StateVec};
use crate::matrix::{
    columns_bent, columns_turned, corner_of, corner_raised, difference_of, has_shape, identity_of,
    image, padded, product, rows_bent, rows_turned, share_of, sum_of, transposed, Mat, Rows,
};
use crate::scalar::{lt, Scalar};
use crate::so3::a_matrix;
use vstd::prelude::*;

verus! {

/// What an update is waiting for, with what it has found in the current round.
#[derive(Debug)]
pub enum Stage<W> {
    /// A measurement at the current state.
    Measure,
    /// The inverse of the innovation covariance, for few residuals.
    Innovation { h: Vec<W>, h_x: Mat<W>, dx: StateVec<W>, todo: Mat<W> },
    /// The inverse of the scaled covariance, for many residuals.
    Spread { h: Vec<W>, h_x: Mat<W>, dx: StateVec<W>, todo: Mat<W> },
    /// The inverse of the information matrix, for many residuals.
    Information { h: Vec<W>, h_x: Mat<W>, dx: StateVec<W>, todo: Mat<W> },
    /// Nothing: the update is finished.
    Finished,
}

/// The contents of a [`Stage`].
pub enum StageView<W> {
    Measure,
    Innovation { h: Seq<W>, h_x: Rows<W>, dx: StateVec<W>, todo: Rows<W> },
    Spread { h: Seq<W>, h_x: Rows<W>, dx: StateVec<W>, todo: Rows<W> },
    Information { h: Seq<W>, h_x: Rows<W>, dx: StateVec<W>, todo: Rows<W> },
    Finished,
}

impl<W> View for Stage<W> {
    type V = StageView<W>;

    open spec fn view(&self) -> StageView<W> {
        match self {
            Stage::Measure => StageView::Measure,
            Stage::Innovation { h, h_x, dx, todo } => StageView::Innovation {
                h: h@,
                h_x: h_x@,
                dx: *dx,
                todo: todo@,
            },
            Stage::Spread { h, h_x, dx, todo } => StageView::Spread {
                h: h@,
                h_x: h_x@,
                dx: *dx,
                todo: todo@,
            },
            Stage::Information { h, h_x, dx, todo } => StageView::Information {
                h: h@,
                h_x: h_x@,
                dx: *dx,
                todo: todo@,
            },
            Stage::Finished => StageView::Finished,
        }
    }
}

/// An update in progress.
#[derive(Debug)]
pub struct IteratedUpdate<W> {
    /// The current state.
    pub x: StateIkfom<W>,
    /// The current covariance.
    pub p: Mat<W>,
    /// The state before the update.
    pub base_x: StateIkfom<W>,
    /// The covariance before the update.
    pub base_p: Mat<W>,
    /// The variance of a residual.
    pub r: W,
    /// The largest changes of a state that has converged.
    pub limit: [W; 23],
    /// The number of the last round.
    pub last: usize,
    /// The number of the current round.
    pub round: usize,
    /// How many rounds have converged.
    pub t: usize,
    /// Whether the measurement should look for new neighbours.
    pub converge: bool,
    pub stage: Stage<W>,
}

/// The contents of an [`IteratedUpdate`].
pub struct UpdateView<W> {
    pub x: StateIkfom<W>,
    pub p: Rows<W>,
    pub base_x: StateIkfom<W>,
    pub base_p: Rows<W>,
    pub r: W,
    pub limit: [W; 23],
    pub last: nat,
    pub round: nat,
    pub t: nat,
    pub converge: bool,
    pub stage: StageView<W>,
}

impl<W> View for IteratedUpdate<W> {
    type V = UpdateView<W>;

    open spec fn view(&self) -> UpdateView<W> {
        UpdateView {
            x: self.x,
            p: self.p@,
            base_x: self.base_x,
            base_p: self.base_p@,
            r: self.r,
            limit: self.limit,
            last: self.last as nat,
            round: self.round as nat,
            t: self.t as nat,
            converge: self.converge,
            stage: self.stage@,
        }
    }
}

/// The correction of a turn of the state under a perturbation on the right.
#[verifier::allow_in_spec]
pub fn turn_of<W: Scalar>(x: W, y: W, z: W) -> M3<W>
    returns
        a_matrix(V3::new(x, y, z)).transpose(),
{
    a_matrix(V3::new(x, y, z)).transpose()
}

/// The correction of gravity between two states.
#[verifier::allow_in_spec]
pub fn bend_of<W: Scalar>(x: StateIkfom<W>, base: StateIkfom<W>, a: W, b: W) -> M2<W>
    returns
        x.grav.s2_nx_yy().meet(base.grav.s2_mx(V2::new(a, b))),
{
    x.grav.s2_nx_yy().meet(base.grav.s2_mx(V2::new(a, b)))
}

/// An error state seen from the current state.
#[verifier::allow_in_spec]
pub fn shifted_error<W: Scalar>(dx: StateVec<W>, x: StateIkfom<W>, base: StateIkfom<W>) -> StateVec<W>
    returns
        ({
            let r: V3<W> = turn_of(dx[3], dx[4], dx[5]).apply(V3::new(dx[3], dx[4], dx[5]));
            let o: V3<W> = turn_of(dx[6], dx[7], dx[8]).apply(V3::new(dx[6], dx[7], dx[8]));
            let g: V2<W> = bend_of(x, base, dx[21], dx[22]).apply(V2::new(dx[21], dx[22]));
            [
                dx[0], dx[1], dx[2], r.x, r.y, r.z, o.x, o.y, o.z, dx[9], dx[10], dx[11], dx[12], dx[13],
                dx[14], dx[15], dx[16], dx[17], dx[18], dx[19], dx[20], g.x, g.y,
            ]
        }),
{
    let r: V3<W> = turn_of(dx[3], dx[4], dx[5]).apply(V3::new(dx[3], dx[4], dx[5]));
    let o: V3<W> = turn_of(dx[6], dx[7], dx[8]).apply(V3::new(dx[6], dx[7], dx[8]));
    let g: V2<W> = bend_of(x, base, dx[21], dx[22]).apply(V2::new(dx[21], dx[22]));
    [
        dx[0], dx[1], dx[2], r.x, r.y, r.z, o.x, o.y, o.z, dx[9], dx[10], dx[11], dx[12], dx[13],
        dx[14], dx[15], dx[16], dx[17], dx[18], dx[19], dx[20], g.x, g.y,
    ]
}

/// A square matrix whose rows and columns from `s` on are turned.
pub open spec fn both_turned<W: Scalar>(p: Rows<W>, s: int, m: M3<W>) -> Rows<W> {
    columns_turned(rows_turned(p, p, s, m, 23, 23), s, m, 23)
}

/// A square matrix whose rows and columns from `s` on are bent.
pub open spec fn both_bent<W: Scalar>(p: Rows<W>, s: int, m: M2<W>) -> Rows<W> {
    columns_bent(rows_bent(p, p, s, m, 23, 23), s, m, 23)
}

/// A covariance seen from the current state.
pub open spec fn shifted_cov<W: Scalar>(
    p: Rows<W>,
    dx: StateVec<W>,
    x: StateIkfom<W>,
    base: StateIkfom<W>,
) -> Rows<W> {
    both_bent(
        both_turned(
            both_turned(p, 3, turn_of(dx[3], dx[4], dx[5])),
            6,
            turn_of(dx[6], dx[7], dx[8]),
        ),
        21,
        bend_of(x, base, dx[21], dx[22]),
    )
}

/// The innovation covariance in units of the variance of a residual.
pub open spec fn innovation<W: Scalar>(p: Rows<W>, h_x: Rows<W>, r: W) -> Rows<W> {
    let m = h_x.len();
    let h = padded(h_x, 12, 23);
    let hph = product(product(h, p, 23), transposed(h, 23), m);
    sum_of(share_of(hph, r, m), identity_of(m), m)
}

/// The gain for few residuals.
pub open spec fn small_gain<W: Scalar>(p: Rows<W>, h_x: Rows<W>, inv: Rows<W>, r: W) -> Rows<W> {
    let m = h_x.len();
    let h = padded(h_x, 12, 23);
    share_of(product(product(p, transposed(h, 23), m), inv, m), r, m)
}

/// The gain times the derivatives for few residuals.
pub open spec fn small_feedback<W: Scalar>(gain: Rows<W>, h_x: Rows<W>) -> Rows<W> {
    product(gain, padded(h_x, 12, 23), 23)
}

/// The squared derivatives.
pub open spec fn squared_slope<W: Scalar>(h_x: Rows<W>) -> Rows<W> {
    product(transposed(h_x, 12), h_x, 12)
}

/// The gain for many residuals.
pub open spec fn large_gain<W: Scalar>(h_x: Rows<W>, inv: Rows<W>) -> Rows<W> {
    product(corner_of(inv, 23, 12), transposed(h_x, 12), h_x.len())
}

/// The gain times the derivatives for many residuals.
pub open spec fn large_feedback<W: Scalar>(h_x: Rows<W>, inv: Rows<W>) -> Rows<W> {
    padded(product(corner_of(inv, 23, 12), squared_slope(h_x), 12), 12, 23)
}

/// The entries of an error state.
pub open spec fn listed<W>(dx: StateVec<W>) -> Seq<W> {
    dx@
}

/// The correction of the state.
pub open spec fn correction<W: Scalar>(k_h: Seq<W>, k_x: Rows<W>, dx: StateVec<W>) -> Seq<W> {
    let back = image(difference_of(k_x, identity_of(23), 23), listed(dx));
    Seq::new(23, |i: int| k_h[i].plus_spec(back[i]))
}

/// The error state with the given entries.
pub open spec fn state_vec<W>(s: Seq<W>) -> StateVec<W> {
    [
        s[0], s[1], s[2], s[3], s[4], s[5], s[6], s[7], s[8], s[9], s[10], s[11], s[12], s[13], s[14],
        s[15], s[16], s[17], s[18], s[19], s[20], s[21], s[22],
    ]
}

/// No entry of a correction is above its limit.
pub open spec fn settled<W: Scalar>(dx: Seq<W>, limit: [W; 23]) -> bool {
    forall|k: int| 0 <= k < 23 ==> !lt(limit[k], (#[trigger] dx[k]).magnitude_spec())
}

/// The matrices of the final correction: the new covariance before the gain, the
/// old one, and the gain times the derivatives.
pub struct Triple<W> {
    pub l: Rows<W>,
    pub p: Rows<W>,
    pub k: Rows<W>,
}

/// The matrices with a rotation corrected.
pub open spec fn triple_turned<W: Scalar>(a: Triple<W>, s: int, m: M3<W>) -> Triple<W> {
    Triple {
        l: columns_turned(rows_turned(a.l, a.p, s, m, 23, 23), s, m, 23),
        p: columns_turned(a.p, s, m, 23),
        k: rows_turned(a.k, a.k, s, m, 12, 23),
    }
}

/// The matrices with gravity corrected.
pub open spec fn triple_bent<W: Scalar>(a: Triple<W>, s: int, m: M2<W>) -> Triple<W> {
    Triple {
        l: columns_bent(rows_bent(a.l, a.p, s, m, 23, 23), s, m, 23),
        p: columns_bent(a.p, s, m, 23),
        k: rows_bent(a.k, a.k, s, m, 12, 23),
    }
}

/// The matrices with every part corrected.
pub open spec fn triple_of<W: Scalar>(
    p: Rows<W>,
    k_x: Rows<W>,
    dx: StateVec<W>,
    x: StateIkfom<W>,
    base: StateIkfom<W>,
) -> Triple<W> {
    triple_bent(
        triple_turned(
            triple_turned(Triple { l: p, p, k: k_x }, 3, turn_of(dx[3], dx[4], dx[5])),
            6,
            turn_of(dx[6], dx[7], dx[8]),
        ),
        21,
        bend_of(x, base, dx[21], dx[22]),
    )
}

/// The covariance after the update.
pub open spec fn final_cov<W: Scalar>(a: Triple<W>) -> Rows<W> {
    difference_of(a.l, product(corner_of(a.k, 23, 12), corner_of(a.p, 12, 23), 23), 23)
}

/// On to the next round, or to the end after the last.
pub open spec fn next_round<W>(u: UpdateView<W>) -> UpdateView<W> {
    UpdateView {
        round: u.round + 1,
        stage: if u.round < u.last {
            StageView::Measure
        } else {
            StageView::Finished
        },
        ..u
    }
}

/// After a measurement: without one the round is over and nothing has changed.
pub open spec fn measured<W: Scalar>(
    u: UpdateView<W>,
    valid: bool,
    h: Seq<W>,
    h_x: Rows<W>,
) -> UpdateView<W> {
    if !valid {
        next_round(u)
    } else {
        let err = u.x.boxminus(u.base_x);
        let dx = shifted_error(err, u.x, u.base_x);
        let p = shifted_cov(u.base_p, err, u.x, u.base_x);
        UpdateView {
            p,
            stage: if h_x.len() < 23 {
                StageView::Innovation { h, h_x, dx, todo: innovation(p, h_x, u.r) }
            } else {
                StageView::Spread { h, h_x, dx, todo: share_of(p, u.r, 23) }
            },
            ..u
        }
    }
}

/// After the gain is known: the state is corrected, and the covariance too once
/// two rounds have converged or in the last round. If none has converged by the
/// round before the last, the last one looks for neighbours anew.
pub open spec fn rounded<W: Scalar>(
    u: UpdateView<W>,
    k_h: Seq<W>,
    k_x: Rows<W>,
    dx: StateVec<W>,
) -> UpdateView<W> {
    let step = correction(k_h, k_x, dx);
    let x = u.x.corrected(state_vec(step));
    let calm = settled(step, u.limit);
    let t = if calm {
        u.t + 1
    } else {
        u.t
    };
    let v = UpdateView { x, t, converge: calm || (t == 0 && u.round + 1 == u.last), ..u };
    if t > 1 || u.round == u.last {
        UpdateView {
            p: final_cov(triple_of(u.p, k_x, state_vec(step), x, u.base_x)),
            stage: StageView::Finished,
            ..v
        }
    } else {
        next_round(v)
    }
}

/// After an inverse.
pub open spec fn inverted<W: Scalar>(u: UpdateView<W>, inv: Rows<W>) -> UpdateView<W> {
    match u.stage {
        StageView::Innovation { h, h_x, dx, .. } => {
            let gain = small_gain(u.p, h_x, inv, u.r);
            rounded(u, image(gain, h), small_feedback(gain, h_x), dx)
        },
        StageView::Spread { h, h_x, dx, .. } => {
            let todo = corner_raised(inv, squared_slope(h_x), 12, 23);
            UpdateView { stage: StageView::Information { h, h_x, dx, todo }, ..u }
        },
        StageView::Information { h, h_x, dx, .. } => rounded(
            u,
            image(large_gain(h_x, inv), h),
            large_feedback(h_x, inv),
            dx,
        ),
        _ => u,
    }
}

/// The size of the matrix that an update wants inverted.
pub open spec fn wanted<W>(s: StageView<W>) -> nat {
    match s {
        StageView::Innovation { h_x, .. } => h_x.len(),
        _ => 23,
    }
}

/// What a stage holds has the right size.
pub open spec fn stage_wf<W>(s: StageView<W>) -> bool {
    match s {
        StageView::Innovation { h, h_x, todo, .. } => has_shape(h_x, h.len(), 12) && h.len() < 23
            && has_shape(todo, h.len(), h.len()),
        StageView::Spread { h, h_x, todo, .. } => has_shape(h_x, h.len(), 12) && has_shape(
            todo,
            23,
            23,
        ),
        StageView::Information { h, h_x, todo, .. } => has_shape(h_x, h.len(), 12) && has_shape(
            todo,
            23,
            23,
        ),
        _ => true,
    }
}

fn to_state_vec<W: Scalar>(s: &Vec<W>) -> (r: StateVec<W>)
    requires
        s@.len() == 23,
    ensures
        r == state_vec(s@),
{
    [
        s[0], s[1], s[2], s[3], s[4], s[5], s[6], s[7], s[8], s[9], s[10], s[11], s[12], s[13], s[14],
        s[15], s[16], s[17], s[18], s[19], s[20], s[21], s[22],
    ]
}

/// What the gain for few residuals makes of them and of their derivatives.
fn small_step<W: Scalar>(
    p: &Mat<W>,
    h: &Vec<W>,
    h_x: &Mat<W>,
    inv: &Mat<W>,
    r: W,
) -> (k: (Vec<W>, Mat<W>))
    requires
        has_shape(p@, 23, 23),
        has_shape(h_x@, h@.len(), 12),
        has_shape(inv@, h@.len(), h@.len()),
    ensures
        k.0@ == image(small_gain(p@, h_x@, inv@, r), h@),
        k.0@.len() == 23,
        k.1@ == small_feedback(small_gain(p@, h_x@, inv@, r), h_x@),
        has_shape(k.1@, 23, 23),
{
    let m: usize = h_x.height();
    let wide: Mat<W> = h_x.padded(12, 23);
    let gain: Mat<W> = p.times(&wide.transpose(23), m).times(inv, m).shared(r, m);
    let k_h: Vec<W> = gain.apply(h.as_slice());
    let k_x: Mat<W> = gain.times(&wide, 23);
    (k_h, k_x)
}

/// What the gain for many residuals makes of them and of their derivatives.
fn large_step<W: Scalar>(h: &Vec<W>, h_x: &Mat<W>, inv: &Mat<W>) -> (k: (Vec<W>, Mat<W>))
    requires
        has_shape(h_x@, h@.len(), 12),
        has_shape(inv@, 23, 23),
    ensures
        k.0@ == image(large_gain(h_x@, inv@), h@),
        k.0@.len() == 23,
        k.1@ == large_feedback(h_x@, inv@),
        has_shape(k.1@, 23, 23),
{
    let m: usize = h_x.height();
    let slope: Mat<W> = h_x.transpose(12).times(h_x, 12);
    let side: Mat<W> = inv.corner(23, 12, 23);
    let k_h: Vec<W> = side.times(&h_x.transpose(12), m).apply(h.as_slice());
    let k_x: Mat<W> = side.times(&slope, 12).padded(12, 23);
    (k_h, k_x)
}

/// What a round makes of an update does not depend on its stage.
proof fn lemma_rounded_from<W: Scalar>(
    u: UpdateView<W>,
    stage: StageView<W>,
    k_h: Seq<W>,
    k_x: Rows<W>,
    dx: StateVec<W>,
)
    ensures
        rounded(UpdateView { stage, ..u }, k_h, k_x, dx) == rounded(u, k_h, k_x, dx),
{
}

fn shift_cov<W: Scalar>(
    p: &Mat<W>,
    dx: &StateVec<W>,
    x: StateIkfom<W>,
    base: StateIkfom<W>,
) -> (r: Mat<W>)
    requires
        has_shape(p@, 23, 23),
    ensures
        r@ == shifted_cov(p@, *dx, x, base),
        has_shape(r@, 23, 23),
{
    let a: M3<W> = turn_of(dx[3], dx[4], dx[5]);
    let b: M3<W> = turn_of(dx[6], dx[7], dx[8]);
    let c: M2<W> = bend_of(x, base, dx[21], dx[22]);
    let p1: Mat<W> = p.rows_turned(p, 3, a, 23, 23).columns_turned(3, a, 23);
    let p2: Mat<W> = p1.rows_turned(&p1, 6, b, 23, 23).columns_turned(6, b, 23);
    p2.rows_bent(&p2, 21, c, 23, 23).columns_bent(21, c, 23)
}

fn finish_cov<W: Scalar>(
    p: &Mat<W>,
    k_x: &Mat<W>,
    dx: &StateVec<W>,
    x: StateIkfom<W>,
    base: StateIkfom<W>,
) -> (r: Mat<W>)
    requires
        has_shape(p@, 23, 23),
        has_shape(k_x@, 23, 23),
    ensures
        r@ == final_cov(triple_of(p@, k_x@, *dx, x, base)),
        has_shape(r@, 23, 23),
{
    let a: M3<W> = turn_of(dx[3], dx[4], dx[5]);
    let b: M3<W> = turn_of(dx[6], dx[7], dx[8]);
    let c: M2<W> = bend_of(x, base, dx[21], dx[22]);
    let l1: Mat<W> = p.rows_turned(p, 3, a, 23, 23).columns_turned(3, a, 23);
    let p1: Mat<W> = p.columns_turned(3, a, 23);
    let k1: Mat<W> = k_x.rows_turned(k_x, 3, a, 12, 23);
    let l2: Mat<W> = l1.rows_turned(&p1, 6, b, 23, 23).columns_turned(6, b, 23);
    let p2: Mat<W> = p1.columns_turned(6, b, 23);
    let k2: Mat<W> = k1.rows_turned(&k1, 6, b, 12, 23);
    let l3: Mat<W> = l2.rows_bent(&p2, 21, c, 23, 23).columns_bent(21, c, 23);
    let p3: Mat<W> = p2.columns_bent(21, c, 23);
    let k3: Mat<W> = k2.rows_bent(&k2, 21, c, 12, 23);
    l3.minus(&k3.corner(23, 12, 23).times(&p3.corner(12, 23, 23), 23), 23)
}

fn is_settled<W: Scalar>(dx: &Vec<W>, limit: &[W; 23]) -> (r: bool)
    requires
        dx@.len() == 23,
    ensures
        r == settled(dx@, *limit),
{
    let mut k: usize = 0;
    while k < 23
        invariant
            k <= 23,
            dx@.len() == 23,
            forall|i: int| 0 <= i < k ==> !lt(limit[i], (#[trigger] dx@[i]).magnitude_spec()),
        decreases 23 - k,
    {
        if limit[k].less(dx[k].magnitude()) {
            assert(lt(limit[k as int], dx@[k as int].magnitude_spec()));
            return false;
        }
        k = k + 1;
    }
    true
}

impl<W: Scalar> IteratedUpdate<W> {
    /// The matrices have the right sizes, and the rounds have not run over.
    pub open spec fn wf(self) -> bool {
        &&& self.sized()
        &&& stage_wf(self.stage@)
        &&& self.stage !is Finished ==> self.t <= self.round <= self.last
    }

    /// The covariances have the size of the state.
    pub open spec fn sized(self) -> bool {
        &&& has_shape(self.p@, 23, 23)
        &&& has_shape(self.base_p@, 23, 23)
        &&& self.last < usize::MAX
    }

    /// The matrix to invert, if the update waits for an inverse.
    pub fn pending(&self) -> (r: Option<&Mat<W>>)
        ensures
            r matches Some(m) ==> match self.stage@ {
                StageView::Innovation { todo, .. } => m@ == todo,
                StageView::Spread { todo, .. } => m@ == todo,
                StageView::Information { todo, .. } => m@ == todo,
                _ => false,
            },
            r is None <==> self.stage is Measure || self.stage is Finished,
    {
        match &self.stage {
            Stage::Innovation { todo, .. } => Some(todo),
            Stage::Spread { todo, .. } => Some(todo),
            Stage::Information { todo, .. } => Some(todo),
            _ => None,
        }
    }

    /// The update is finished.
    pub fn is_finished(&self) -> (r: bool)
        ensures
            r == (self.stage is Finished),
    {
        match &self.stage {
            Stage::Finished => true,
            _ => false,
        }
    }

    fn go_on(&mut self)
        requires
            old(self).sized(),
            old(self).round <= old(self).last,
            old(self).t <= old(self).round + 1,
        ensures
            final(self).wf(),
            final(self)@ == next_round(old(self)@),
    {
        self.stage =
        if self.round < self.last {
            Stage::Measure
        } else {
            Stage::Finished
        };
        self.round = self.round + 1;
    }

    /// Takes the measurement at the current state.
    pub fn measured(&mut self, share: DynShareData<W>)
        requires
            old(self).wf(),
            old(self).stage is Measure,
            share.valid ==> has_shape(share.h_x@, share.h@.len(), 12),
        ensures
            final(self).wf(),
            final(self)@ == measured(old(self)@, share.valid, share.h@, share.h_x@),
    {
        if !share.valid {
            self.go_on();
            return ;
        }
        let err: StateVec<W> = self.x.boxminus(self.base_x);
        let dx: StateVec<W> = shifted_error(err, self.x, self.base_x);
        let p: Mat<W> = shift_cov(&self.base_p, &err, self.x, self.base_x);
        let h: Vec<W> = share.h;
        let h_x: Mat<W> = share.h_x;
        let m: usize = h_x.height();
        if m < 23 {
            let wide: Mat<W> = h_x.padded(12, 23);
            let hph: Mat<W> = wide.times(&p, 23).times(&wide.transpose(23), m);
            let todo: Mat<W> = hph.shared(self.r, m).plus(&Mat::identity(m), m);
            self.p = p;
            self.stage = Stage::Innovation { h, h_x, dx, todo };
        } else {
            let todo: Mat<W> = p.shared(self.r, 23);
            self.p = p;
            self.stage = Stage::Spread { h, h_x, dx, todo };
        }
    }

    fn round_off(&mut self, k_h: &Vec<W>, k_x: &Mat<W>, dx: &StateVec<W>)
        requires
            old(self).wf(),
            old(self).stage !is Finished,
            k_h@.len() == 23,
            has_shape(k_x@, 23, 23),
        ensures
            final(self).wf(),
            final(self)@ == rounded(old(self)@, k_h@, k_x@, *dx),
    {
        let back: Vec<W> = k_x.minus(&Mat::identity(23), 23).apply(dx.as_slice());
        let mut step: Vec<W> = Vec::new();
        let mut i: usize = 0;
        let ghost want = correction(k_h@, k_x@, *dx);
        while i < 23
            invariant
                i <= 23,
                k_h@.len() == 23,
                back@.len() == 23,
                want.len() == 23,
                forall|k: int| 0 <= k < 23 ==> #[trigger] want[k] == k_h@[k].plus_spec(back@[k]),
                step@ == want.take(i as int),
            decreases 23 - i,
        {
            step.push(k_h[i].plus(back[i]));
            i = i + 1;
            assert(step@ =~= want.take(i as int));
        }
        assert(step@ =~= want);
        let move_by: StateVec<W> = to_state_vec(&step);
        self.x = self.x.corrected(move_by);
        let calm: bool = is_settled(&step, &self.limit);
        if calm {
            self.t = self.t + 1;
        }
        self.converge = calm || (self.t == 0 && self.round + 1 == self.last);
        if self.t > 1 || self.round == self.last {
            self.p = finish_cov(&self.p, k_x, &move_by, self.x, self.base_x);
            self.stage = Stage::Finished;
        } else {
            self.go_on();
        }
    }

    /// Takes the inverse of the matrix that [`IteratedUpdate::pending`] gave.
    pub fn inverted(&mut self, inv: Mat<W>)
        requires
            old(self).wf(),
            old(self).stage !is Measure,
            old(self).stage !is Finished,
            has_shape(inv@, wanted(old(self).stage@), wanted(old(self).stage@)),
        ensures
            final(self).wf(),
            final(self)@ == inverted(old(self)@, inv@),
    {
        let ghost before = self@;
        let mut stage: Stage<W> = Stage::Measure;
        std::mem::swap(&mut stage, &mut self.stage);
        match stage {
            Stage::Innovation { h, h_x, dx, todo } => {
                let (k_h, k_x) = small_step(&self.p, &h, &h_x, &inv, self.r);
                self.round_off(&k_h, &k_x, &dx);
                proof {
                    lemma_rounded_from(before, StageView::Measure, k_h@, k_x@, dx);
                }
            },
            Stage::Spread { h, h_x, dx, todo } => {
                let slope: Mat<W> = h_x.transpose(12).times(&h_x, 12);
                let next: Mat<W> = inv.corner_raised(&slope, 12, 23);
                self.stage = Stage::Information { h, h_x, dx, todo: next };
            },
            Stage::Information { h, h_x, dx, todo } => {
                let (k_h, k_x) = large_step(&h, &h_x, &inv);
                self.round_off(&k_h, &k_x, &dx);
                proof {
                    lemma_rounded_from(before, StageView::Measure, k_h@, k_x@, dx);
                }
            },
            _ => {},
        }
    }
}

impl<W: Scalar> EseKf<W> {
    /// Starts an update with residuals of variance `r`.
    pub fn update_iterated_dyn_share_modified(&self, r: W) -> (u: IteratedUpdate<W>)
        requires
            self.wf(),
            self.maximum_iter < usize::MAX,
        ensures
            u.wf(),
            u@ == (UpdateView {
                x: self.x,
                p: self.p@,
                base_x: self.x,
                base_p: self.p@,
                r,
                limit: self.limit,
                last: self.maximum_iter as nat,
                round: 0,
                t: 0,
                converge: true,
                stage: StageView::Measure,
            }),
    {
        IteratedUpdate {
            x: self.x,
            p: self.p.clone(),
            base_x: self.x,
            base_p: self.p.clone(),
            r,
            limit: self.limit,
            last: self.maximum_iter,
            round: 0,
            t: 0,
            converge: true,
            stage: Stage::Measure,
        }
    }

    /// Takes over the state and the covariance of an update.
    pub fn accept(&mut self, u: IteratedUpdate<W>)
        requires
            u.wf(),
        ensures
            final(self).wf(),
            final(self).x == u.x,
            final(self).p@ == u.p@,
            final(self).maximum_iter == old(self).maximum_iter,
            final(self).limit == old(self).limit,
    {
        self.x = u.x;
        self.p = u.p;
    }
}

/// A round without a measurement changes neither the state nor the covariance.
pub proof fn law_invalid_changes_nothing<W: Scalar>(u: UpdateView<W>, h: Seq<W>, h_x: Rows<W>)
    ensures
        measured(u, false, h, h_x).x == u.x,
        measured(u, false, h, h_x).p == u.p,
        measured(u, false, h, h_x).t == u.t,
        measured(u, false, h, h_x).converge == u.converge,
{
}

/// The update after `n` rounds without a measurement.
pub open spec fn unmeasured<W: Scalar>(u: UpdateView<W>, n: nat) -> UpdateView<W>
    decreases n,
{
    if n == 0 {
        u
    } else {
        measured(unmeasured(u, (n - 1) as nat), false, Seq::empty(), Seq::empty())
    }
}

/// An update that never gets a measurement asks for one in every round, one more
/// than the maximum number of iterations, and leaves everything as it was.
pub proof fn law_rounds_without_measurement<W: Scalar>(u: UpdateView<W>, n: nat)
    requires
        u.stage is Measure,
        u.round == 0,
        n <= u.last + 1,
    ensures
        unmeasured(u, n).x == u.x,
        unmeasured(u, n).p == u.p,
        unmeasured(u, n).round == n,
        n <= u.last ==> unmeasured(u, n).stage is Measure,
        n == u.last + 1 ==> unmeasured(u, n).stage is Finished,
        unmeasured(u, n).last == u.last,
    decreases n,
{
    if n > 0 {
        law_rounds_without_measurement(u, (n - 1) as nat);
    }
}

/// An update comes to its end: each inverse either asks for the second inverse of
/// its round or ends the round.
pub proof fn law_update_ends<W: Scalar>(u: UpdateView<W>, inv: Rows<W>)
    requires
        u.stage is Innovation || u.stage is Spread || u.stage is Information,
        u.round <= u.last,
    ensures
        u.stage is Spread ==> inverted(u, inv).stage is Information && inverted(u, inv).round
            == u.round,
        u.stage !is Spread ==> inverted(u, inv).stage is Finished || (inverted(u, inv).stage
            is Measure && inverted(u, inv).round == u.round + 1 && u.round < u.last),
{
}

} // verus!
