//! The iterated error-state Kalman filter.
//!
//! [`EseKf::predict`] carries the state and its covariance forward in time. An
//! update with measurements runs in rounds, each of which asks its caller for a
//! measurement at the current state and for the inverse of a matrix; see
//! [`IteratedUpdate`].
use crate::forms::{
    is_semidefinite, is_symmetric, law_carried_semidefinite, law_carried_symmetric,
    law_sum_semidefinite, law_sum_symmetric,
};
use crate::linear::{M2, M23, M3, V2, V3};
use crate::manifold::{quat_exp, StateIkfom};
use crate::matrix::{
    column3, has_shape, identity_of, multiple_of, pick3, product, row3, sum_of, table, tabulate,
    transposed, Mat, Rows,
};
use crate::model::{df_dw, df_dx, dw_rows, dx_rows, entry_of, get_f, pick_entry, InputIkfom};
use crate::scalar::{exact_arithmetic, lawful, zero, Scalar};
use crate::so3::{a_matrix, exp};
use vstd::prelude::*;

verus! {

/// Number of degrees of freedom of the state.
pub const STATE_N: usize = 23;

/// Number of degrees of freedom of the process noise.
pub const PROC_N: usize = 12;

/// What a measurement of the current state gives.
#[derive(Debug)]
pub struct DynShareData<W> {
    /// There is a measurement.
    pub valid: bool,
    /// The residuals.
    pub h: Vec<W>,
    /// Their derivatives by pose and extrinsics, one row of twelve for each.
    pub h_x: Mat<W>,
}

/// The filter.
#[derive(Debug)]
pub struct EseKf<W> {
    pub x: StateIkfom<W>,
    pub p: Mat<W>,
    pub maximum_iter: usize,
    pub limit: [W; 23],
}

/// The state carried forward by a rate of change over a time.
#[verifier::allow_in_spec]
pub fn carried<W: Scalar>(x: StateIkfom<W>, f: [W; 24], dt: W) -> StateIkfom<W>
    returns
        (StateIkfom {
            pos: x.pos.sum(V3::new(f[0], f[1], f[2]).scaled(dt)),
            rot: x.rot.compose(quat_exp(V3::new(f[3], f[4], f[5]).scaled(dt))),
            offset_r_l_i: x.offset_r_l_i.compose(quat_exp(V3::new(f[6], f[7], f[8]).scaled(dt))),
            offset_t_l_i: x.offset_t_l_i.sum(V3::new(f[9], f[10], f[11]).scaled(dt)),
            vel: x.vel.sum(V3::new(f[12], f[13], f[14]).scaled(dt)),
            bg: x.bg.sum(V3::new(f[15], f[16], f[17]).scaled(dt)),
            ba: x.ba.sum(V3::new(f[18], f[19], f[20]).scaled(dt)),
            grav: x.grav.turned(V3::new(f[21], f[22], f[23]), dt),
        }),
{
    StateIkfom {
        pos: x.pos.sum(V3::new(f[0], f[1], f[2]).scaled(dt)),
        rot: x.rot.compose(quat_exp(V3::new(f[3], f[4], f[5]).scaled(dt))),
        offset_r_l_i: x.offset_r_l_i.compose(quat_exp(V3::new(f[6], f[7], f[8]).scaled(dt))),
        offset_t_l_i: x.offset_t_l_i.sum(V3::new(f[9], f[10], f[11]).scaled(dt)),
        vel: x.vel.sum(V3::new(f[12], f[13], f[14]).scaled(dt)),
        bg: x.bg.sum(V3::new(f[15], f[16], f[17]).scaled(dt)),
        ba: x.ba.sum(V3::new(f[18], f[19], f[20]).scaled(dt)),
        grav: x.grav.turned(V3::new(f[21], f[22], f[23]), dt),
    }
}

/// The turn over a time that a part of the rate undoes.
#[verifier::allow_in_spec]
pub fn unturn<W: Scalar>(x: W, y: W, z: W, dt: W) -> V3<W>
    returns
        V3::new(x, y, z).opposite().scaled(dt),
{
    V3::new(x, y, z).opposite().scaled(dt)
}

/// How a change of gravity shows after the step, per change of its rate.
#[verifier::allow_in_spec]
pub fn gravity_lift<W: Scalar>(before: StateIkfom<W>, after: StateIkfom<W>, f: [W; 24], dt: W) -> M23<W>
    returns
        ({
            let seg: V3<W> = V3::new(f[21], f[22], f[23]).scaled(dt);
            after.grav.s2_nx_yy().opposite().compose(exp(seg)).compose(before.grav.s2_hat()).compose(
                a_matrix(seg).transpose(),
            )
        }),
{
    let seg: V3<W> = V3::new(f[21], f[22], f[23]).scaled(dt);
    after.grav.s2_nx_yy().opposite().compose(exp(seg)).compose(before.grav.s2_hat()).compose(
        a_matrix(seg).transpose(),
    )
}

/// How a change of gravity before the step shows after it.
#[verifier::allow_in_spec]
pub fn gravity_step<W: Scalar>(before: StateIkfom<W>, after: StateIkfom<W>, f: [W; 24], dt: W) -> M2<W>
    returns
        ({
            let seg: V3<W> = V3::new(f[21], f[22], f[23]).scaled(dt);
            after.grav.s2_nx_yy().compose(exp(seg)).meet(before.grav.s2_mx(V2::zeros()))
        }),
{
    let seg: V3<W> = V3::new(f[21], f[22], f[23]).scaled(dt);
    after.grav.s2_nx_yy().compose(exp(seg)).meet(before.grav.s2_mx(V2::zeros()))
}

/// Row `k` of a matrix of two rows of three.
pub open spec fn row23<W>(m: M23<W>, k: int) -> V3<W> {
    if k == 0 {
        m.a
    } else {
        m.b
    }
}

/// Entry `k` of row `i` of a matrix of size two.
pub open spec fn entry2<W>(m: M2<W>, i: int, k: int) -> W {
    let r = if i == 0 {
        m.a
    } else {
        m.b
    };
    if k == 0 {
        r.x
    } else {
        r.y
    }
}

/// A derivative of the rate brought from the embedding space to error states.
pub open spec fn lifted<W: Scalar>(
    f: Rows<W>,
    rot: M3<W>,
    off: M3<W>,
    grav: M23<W>,
    c: nat,
) -> Rows<W> {
    table(
        23,
        c,
        |i: int, j: int|
            if 3 <= i < 6 {
                row3(rot, i - 3).dot(column3(f, 3, j))
            } else if 6 <= i < 9 {
                row3(off, i - 6).dot(column3(f, 6, j))
            } else if 21 <= i < 23 {
                row23(grav, i - 21).dot(column3(f, 21, j))
            } else {
                f[i][j]
            },
    )
}

/// How an error before the step shows after it when nothing moves: the identity
/// but for the rotations and gravity.
pub open spec fn frame_turn<W: Scalar>(rot: M3<W>, off: M3<W>, grav: M2<W>) -> Rows<W> {
    table(23, 23, |i: int, j: int| frame_entry(rot, off, grav, i, j))
}

/// The derivative of the step by the error before it.
pub open spec fn step_slope<W: Scalar>(
    x: StateIkfom<W>,
    input: InputIkfom<W>,
    dt: W,
) -> Rows<W> {
    let f = get_f(x, input);
    let after = carried(x, f, dt);
    let rot = unturn(f[3], f[4], f[5], dt);
    let off = unturn(f[6], f[7], f[8], dt);
    let lift = lifted(
        dx_rows(x, input),
        a_matrix(rot),
        a_matrix(off),
        gravity_lift(x, after, f, dt),
        23,
    );
    sum_of(
        frame_turn(exp(rot), exp(off), gravity_step(x, after, f, dt)),
        multiple_of(lift, dt, 23),
        23,
    )
}

/// The derivative of the step by the process noise.
pub open spec fn step_noise<W: Scalar>(
    x: StateIkfom<W>,
    input: InputIkfom<W>,
    dt: W,
) -> Rows<W> {
    let f = get_f(x, input);
    let after = carried(x, f, dt);
    let rot = unturn(f[3], f[4], f[5], dt);
    let off = unturn(f[6], f[7], f[8], dt);
    let lift = lifted(
        dw_rows(x),
        a_matrix(rot),
        a_matrix(off),
        gravity_lift(x, after, f, dt),
        12,
    );
    multiple_of(lift, dt, 12)
}

/// The covariance `f p fᵀ` of a linear image, with `f` of `c` columns.
pub open spec fn carried_cov<W: Scalar>(f: Rows<W>, p: Rows<W>, c: nat) -> Rows<W> {
    product(product(f, p, c), transposed(f, c), f.len())
}

/// The covariance after a step by `dt` from a state with covariance `p`, with the
/// covariance `q` of the process noise.
pub open spec fn predicted_cov<W: Scalar>(
    x: StateIkfom<W>,
    p: Rows<W>,
    q: Rows<W>,
    input: InputIkfom<W>,
    dt: W,
) -> Rows<W> {
    sum_of(
        carried_cov(step_slope(x, input, dt), p, 23),
        carried_cov(step_noise(x, input, dt), q, 12),
        23,
    )
}

/// In exact arithmetic a step keeps the covariance symmetric.
pub proof fn law_predict_symmetric<W: Scalar>(
    x: StateIkfom<W>,
    p: Rows<W>,
    q: Rows<W>,
    input: InputIkfom<W>,
    dt: W,
)
    requires
        exact_arithmetic::<W>(),
        has_shape(p, 23, 23),
        has_shape(q, 12, 12),
        is_symmetric(p),
        is_symmetric(q),
    ensures
        is_symmetric(predicted_cov(x, p, q, input, dt)),
{
    let slope = step_slope(x, input, dt);
    let noise = step_noise(x, input, dt);
    law_carried_symmetric(slope, p, 23);
    law_carried_symmetric(noise, q, 12);
    law_sum_symmetric(carried_cov(slope, p, 23), carried_cov(noise, q, 12));
}

/// In exact arithmetic a step keeps the covariance positive semidefinite.
pub proof fn law_predict_semidefinite<W: Scalar>(
    x: StateIkfom<W>,
    p: Rows<W>,
    q: Rows<W>,
    input: InputIkfom<W>,
    dt: W,
)
    requires
        exact_arithmetic::<W>(),
        lawful::<W>(),
        has_shape(p, 23, 23),
        has_shape(q, 12, 12),
        is_semidefinite(p),
        is_semidefinite(q),
    ensures
        is_semidefinite(predicted_cov(x, p, q, input, dt)),
{
    let slope = step_slope(x, input, dt);
    let noise = step_noise(x, input, dt);
    law_carried_semidefinite(slope, p, 23);
    law_carried_semidefinite(noise, q, 12);
    law_sum_semidefinite(carried_cov(slope, p, 23), carried_cov(noise, q, 12));
}

fn lift<W: Scalar>(f: &Mat<W>, rot: M3<W>, off: M3<W>, grav: M23<W>, c: usize) -> (r: Mat<W>)
    requires
        has_shape(f@, 24, c as nat),
    ensures
        r@ == lifted(f@, rot, off, grav, c as nat),
        has_shape(r@, 23, c as nat),
{
    let g = |i: usize, j: usize| -> (v: W)
        requires
            i < 23,
            j < c,
        ensures
            v == if 3 <= i < 6 {
                row3(rot, i - 3).dot(column3(f@, 3, j as int))
            } else if 6 <= i < 9 {
                row3(off, i - 6).dot(column3(f@, 6, j as int))
            } else if 21 <= i < 23 {
                row23(grav, i - 21).dot(column3(f@, 21, j as int))
            } else {
                f@[i as int][j as int]
            },
        {
            if 3 <= i && i < 6 {
                pick3(rot, i - 3).dot(V3::new(f.at(3, j), f.at(4, j), f.at(5, j)))
            } else if 6 <= i && i < 9 {
                pick3(off, i - 6).dot(V3::new(f.at(6, j), f.at(7, j), f.at(8, j)))
            } else if 21 <= i {
                let row: V3<W> = if i == 21 {
                    grav.a
                } else {
                    grav.b
                };
                row.dot(V3::new(f.at(21, j), f.at(22, j), f.at(23, j)))
            } else {
                f.at(i, j)
            }
        };
    tabulate(
        23,
        c,
        g,
        Ghost(
            |i: int, j: int|
                if 3 <= i < 6 {
                    row3(rot, i - 3).dot(column3(f@, 3, j))
                } else if 6 <= i < 9 {
                    row3(off, i - 6).dot(column3(f@, 6, j))
                } else if 21 <= i < 23 {
                    row23(grav, i - 21).dot(column3(f@, 21, j))
                } else {
                    f@[i][j]
                },
        ),
    )
}

fn pick_entry2<W: Scalar>(m: M2<W>, i: usize, k: usize) -> (r: W)
    ensures
        r == entry2(m, i as int, k as int),
{
    let row: V2<W> = if i == 0 {
        m.a
    } else {
        m.b
    };
    if k == 0 {
        row.x
    } else {
        row.y
    }
}

/// The entry of [`frame_turn`].
pub open spec fn frame_entry<W: Scalar>(rot: M3<W>, off: M3<W>, grav: M2<W>, i: int, j: int) -> W {
    if 3 <= i < 6 && 3 <= j < 6 {
        entry_of(row3(rot, i - 3), j - 3)
    } else if 6 <= i < 9 && 6 <= j < 9 {
        entry_of(row3(off, i - 6), j - 6)
    } else if 21 <= i < 23 && 21 <= j < 23 {
        entry2(grav, i - 21, j - 21)
    } else if i == j {
        W::ratio_spec(1, 1)
    } else {
        zero::<W>()
    }
}

fn turn_frame<W: Scalar>(rot: M3<W>, off: M3<W>, grav: M2<W>) -> (r: Mat<W>)
    ensures
        r@ == frame_turn(rot, off, grav),
        has_shape(r@, 23, 23),
{
    let g = |i: usize, j: usize| -> (v: W)
        requires
            i < 23,
            j < 23,
        ensures
            v == frame_entry(rot, off, grav, i as int, j as int),
        {
            if 3 <= i && i < 6 && 3 <= j && j < 6 {
                pick_entry(pick3(rot, i - 3), j - 3)
            } else if 6 <= i && i < 9 && 6 <= j && j < 9 {
                pick_entry(pick3(off, i - 6), j - 6)
            } else if 21 <= i && 21 <= j {
                pick_entry2(grav, i - 21, j - 21)
            } else if i == j {
                W::ratio(1, 1)
            } else {
                W::ratio(0, 1)
            }
        };
    tabulate(23, 23, g, Ghost(|i: int, j: int| frame_entry(rot, off, grav, i, j)))
}

fn carry_cov<W: Scalar>(f: &Mat<W>, p: &Mat<W>, c: usize) -> (r: Mat<W>)
    requires
        has_shape(f@, 23, c as nat),
        has_shape(p@, c as nat, c as nat),
    ensures
        r@ == carried_cov(f@, p@, c as nat),
        has_shape(r@, 23, 23),
{
    f.times(p, c).times(&f.transpose(c), 23)
}

impl<W: Scalar> EseKf<W> {
    /// The covariance has the size of the state.
    pub open spec fn wf(self) -> bool {
        has_shape(self.p@, 23, 23)
    }

    /// A filter at a state.
    pub fn new(x: StateIkfom<W>, p: Mat<W>) -> (r: Self)
        requires
            has_shape(p@, 23, 23),
        ensures
            r.wf(),
            r.x == x,
            r.p@ == p@,
            r.maximum_iter == 4,
            forall|i: int| 0 <= i < 23 ==> #[trigger] r.limit[i] == W::ratio_spec(1, 1000),
    {
        let l: W = W::ratio(1, 1000);
        EseKf {
            x,
            p,
            maximum_iter: 4,
            limit: [l, l, l, l, l, l, l, l, l, l, l, l, l, l, l, l, l, l, l, l, l, l, l],
        }
    }

    /// The state.
    pub fn get_x(&self) -> (r: &StateIkfom<W>)
        ensures
            *r == self.x,
    {
        &self.x
    }

    /// The covariance.
    pub fn get_p(&self) -> (r: &Mat<W>)
        ensures
            *r == self.p,
    {
        &self.p
    }

    /// Sets the state.
    pub fn change_x(&mut self, x: StateIkfom<W>)
        ensures
            final(self).x == x,
            final(self).p == old(self).p,
            final(self).maximum_iter == old(self).maximum_iter,
            final(self).limit == old(self).limit,
    {
        self.x = x;
    }

    /// Sets the covariance.
    pub fn change_p(&mut self, p: Mat<W>)
        ensures
            final(self).p == p,
            final(self).x == old(self).x,
            final(self).maximum_iter == old(self).maximum_iter,
            final(self).limit == old(self).limit,
    {
        self.p = p;
    }

    /// Carries the state and its covariance forward by `dt`, with the covariance
    /// `q` of the process noise.
    pub fn predict(&mut self, dt: W, q: &Mat<W>, input: InputIkfom<W>)
        requires
            old(self).wf(),
            has_shape(q@, 12, 12),
        ensures
            final(self).wf(),
            final(self).maximum_iter == old(self).maximum_iter,
            final(self).limit == old(self).limit,
            final(self).x == carried(old(self).x, get_f(old(self).x, input), dt),
            final(self).p@ == predicted_cov(old(self).x, old(self).p@, q@, input, dt),
    {
        let before: StateIkfom<W> = self.x;
        let f: [W; 24] = get_f(before, input);
        let after: StateIkfom<W> = carried(before, f, dt);
        let rot: V3<W> = unturn(f[3], f[4], f[5], dt);
        let off: V3<W> = unturn(f[6], f[7], f[8], dt);
        let grav: M23<W> = gravity_lift(before, after, f, dt);
        let lift_x: Mat<W> = lift(&df_dx(before, input), a_matrix(rot), a_matrix(off), grav, 23);
        let lift_w: Mat<W> = lift(&df_dw(before), a_matrix(rot), a_matrix(off), grav, 12);
        let turn: Mat<W> = turn_frame(exp(rot), exp(off), gravity_step(before, after, f, dt));
        let fx: Mat<W> = turn.plus(&lift_x.scaled(dt, 23), 23);
        let fw: Mat<W> = lift_w.scaled(dt, 12);
        self.x = after;
        self.p = carry_cov(&fx, &self.p, 23).plus(&carry_cov(&fw, q, 12), 23);
    }
}

impl<W: Scalar> Default for EseKf<W> {
    fn default() -> (r: Self)
        ensures
            r.wf(),
            r.x == StateIkfom::<W>::origin(),
            r.p@ == identity_of::<W>(23),
            r.maximum_iter == 4,
            forall|i: int| 0 <= i < 23 ==> #[trigger] r.limit[i] == W::ratio_spec(1, 1000),
    {
        EseKf::new(StateIkfom::origin(), Mat::identity(23))
    }
}

} // verus!
