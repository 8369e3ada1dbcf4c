//! The state of the filter and its error states.
use crate::fixed::Fixed;
use crate::linear::{M3, Quat, V2, V3};
use crate::s2::S2;
use crate::scalar::{exact_arithmetic, is_less, law_exact_undone, Scalar};
use crate::so3::exp;
use vstd::prelude::*;

verus! {

/// Number of degrees of freedom of the state.
pub const STATE_DOF: usize = 23;

/// Dimension of the state with gravity as a vector in space.
pub const STATE_DIM: usize = 24;

/// Position in an error state.
pub const IDX_POS: usize = 0;

/// Rotation in an error state.
pub const IDX_ROT: usize = 3;

/// Rotation of the lidar in an error state.
pub const IDX_OFFSET_R: usize = 6;

/// Translation of the lidar in an error state.
pub const IDX_OFFSET_T: usize = 9;

/// Velocity in an error state.
pub const IDX_VEL: usize = 12;

/// Bias of the gyroscope in an error state.
pub const IDX_BG: usize = 15;

/// Bias of the accelerometer in an error state.
pub const IDX_BA: usize = 18;

/// Gravity in an error state, two degrees of freedom.
pub const IDX_GRAV: usize = 21;

/// Axis of the gravity direction.
pub const S2_GRAV_TYP: i32 = 1;

/// Length of the gravity vector.
#[verifier::allow_in_spec]
pub fn grav_length<W: Scalar>() -> W
    returns
        W::ratio_spec(9809, 1000),
{
    W::ratio(9809, 1000)
}

/// An error state.
pub type StateVec<W> = [W; 23];

/// The state of the filter.
#[derive(Clone, Copy, Debug)]
pub struct StateIkfom<W> {
    pub pos: V3<W>,
    pub rot: Quat<W>,
    pub offset_r_l_i: Quat<W>,
    pub offset_t_l_i: V3<W>,
    pub vel: V3<W>,
    pub bg: V3<W>,
    pub ba: V3<W>,
    pub grav: S2<W>,
}

impl<W: Scalar> Default for StateIkfom<W> {
    fn default() -> (r: Self)
        ensures
            r == Self::origin(),
    {
        Self::origin()
    }
}

/// The rotation about `v` by its length.
#[verifier::allow_in_spec]
pub fn quat_exp<W: Scalar>(v: V3<W>) -> Quat<W>
    returns
        (if is_less(W::ratio_spec(1, 1000000000), v.norm()) {
            Quat::about(v.shared(v.norm()), v.norm())
        } else {
            Quat::identity()
        }),
{
    if is_less(W::ratio(1, 1000000000), v.norm()) {
        Quat::about(v.shared(v.norm()), v.norm())
    } else {
        Quat::identity()
    }
}

/// The vector that [`quat_exp`] makes the rotation of, up to full turns.
#[verifier::allow_in_spec]
pub fn quat_log<W: Scalar>(q: Quat<W>) -> V3<W>
    returns
        ({
            let length: W = q.vector().norm();
            let tiny: W = W::ratio_spec(1, 100000000000);
            let n: W = if is_less(length, tiny) {
                tiny
            } else {
                length
            };
            q.vector().scaled(W::ratio_spec(2, 1).over_spec(n).times_spec(n.over_spec(q.w).atan2_spec(W::ratio_spec(1, 1))))
        }),
{
    let length: W = q.vector().norm();
    let tiny: W = W::ratio(1, 100000000000);
    let n: W = if is_less(length, tiny) {
        tiny
    } else {
        length
    };
    q.vector().scaled(W::ratio(2, 1).over(n).times(n.over(q.w).atan2(W::ratio(1, 1))))
}

impl<W: Scalar> StateIkfom<W> {
    /// A state at rest at the origin.
    #[verifier::allow_in_spec]
    pub fn origin() -> Self
        returns
            (StateIkfom {
                pos: V3::<W>::zeros(),
                rot: Quat::<W>::identity(),
                offset_r_l_i: Quat::<W>::identity(),
                offset_t_l_i: V3::<W>::zeros(),
                vel: V3::<W>::zeros(),
                bg: V3::<W>::zeros(),
                ba: V3::<W>::zeros(),
                grav: S2::new_with_type(grav_length::<W>(), S2_GRAV_TYP),
            }),
    {
        StateIkfom {
            pos: V3::<W>::zeros(),
            rot: Quat::<W>::identity(),
            offset_r_l_i: Quat::<W>::identity(),
            offset_t_l_i: V3::<W>::zeros(),
            vel: V3::<W>::zeros(),
            bg: V3::<W>::zeros(),
            ba: V3::<W>::zeros(),
            grav: S2::new_with_type(grav_length::<W>(), S2_GRAV_TYP),
        }
    }

    /// The state with an error state added.
    #[verifier::allow_in_spec]
    pub fn corrected(self, dx: StateVec<W>) -> Self
        returns
            (StateIkfom {
                pos: self.pos.sum(V3::new(dx[0], dx[1], dx[2])),
                rot: self.rot.compose(quat_exp(V3::new(dx[3], dx[4], dx[5]))),
                offset_r_l_i: self.offset_r_l_i.compose(quat_exp(V3::new(dx[6], dx[7], dx[8]))),
                offset_t_l_i: self.offset_t_l_i.sum(V3::new(dx[9], dx[10], dx[11])),
                vel: self.vel.sum(V3::new(dx[12], dx[13], dx[14])),
                bg: self.bg.sum(V3::new(dx[15], dx[16], dx[17])),
                ba: self.ba.sum(V3::new(dx[18], dx[19], dx[20])),
                grav: self.grav.stepped(V2::new(dx[21], dx[22])),
            }),
    {
        StateIkfom {
            pos: self.pos.sum(V3::new(dx[0], dx[1], dx[2])),
            rot: self.rot.compose(quat_exp(V3::new(dx[3], dx[4], dx[5]))),
            offset_r_l_i: self.offset_r_l_i.compose(quat_exp(V3::new(dx[6], dx[7], dx[8]))),
            offset_t_l_i: self.offset_t_l_i.sum(V3::new(dx[9], dx[10], dx[11])),
            vel: self.vel.sum(V3::new(dx[12], dx[13], dx[14])),
            bg: self.bg.sum(V3::new(dx[15], dx[16], dx[17])),
            ba: self.ba.sum(V3::new(dx[18], dx[19], dx[20])),
            grav: self.grav.stepped(V2::new(dx[21], dx[22])),
        }
    }

    /// Adds an error state.
    pub fn boxplus(&mut self, dx: StateVec<W>)
        ensures
            *final(self) == old(self).corrected(dx),
    {
        *self = self.corrected(dx);
    }

    /// The error state that leads from `other` to this state.
    #[verifier::allow_in_spec]
    pub fn boxminus(self, other: Self) -> StateVec<W>
        returns
            ({
                let p: V3<W> = self.pos.diff(other.pos);
                let r: V3<W> = quat_log(other.rot.conjugate().compose(self.rot));
                let o: V3<W> = quat_log(other.offset_r_l_i.conjugate().compose(self.offset_r_l_i));
                let t: V3<W> = self.offset_t_l_i.diff(other.offset_t_l_i);
                let v: V3<W> = self.vel.diff(other.vel);
                let g: V3<W> = self.bg.diff(other.bg);
                let a: V3<W> = self.ba.diff(other.ba);
                let d: V2<W> = self.grav.boxminus(other.grav);
                [
                    p.x, p.y, p.z, r.x, r.y, r.z, o.x, o.y, o.z, t.x, t.y, t.z, v.x, v.y, v.z, g.x, g.y, g.z,
                    a.x, a.y, a.z, d.x, d.y,
                ]
            }),
    {
        let p: V3<W> = self.pos.diff(other.pos);
        let r: V3<W> = quat_log(other.rot.conjugate().compose(self.rot));
        let o: V3<W> = quat_log(other.offset_r_l_i.conjugate().compose(self.offset_r_l_i));
        let t: V3<W> = self.offset_t_l_i.diff(other.offset_t_l_i);
        let v: V3<W> = self.vel.diff(other.vel);
        let g: V3<W> = self.bg.diff(other.bg);
        let a: V3<W> = self.ba.diff(other.ba);
        let d: V2<W> = self.grav.boxminus(other.grav);
        [
            p.x, p.y, p.z, r.x, r.y, r.z, o.x, o.y, o.z, t.x, t.y, t.z, v.x, v.y, v.z, g.x, g.y, g.z,
            a.x, a.y, a.z, d.x, d.y,
        ]
    }

    /// The state as a vector, with rotations by their logarithms.
    #[verifier::allow_in_spec]
    pub fn to_dim24(self) -> [W; 24]
        returns
            ({
                let r: V3<W> = quat_log(self.rot);
                let o: V3<W> = quat_log(self.offset_r_l_i);
                [
                    self.pos.x, self.pos.y, self.pos.z, r.x, r.y, r.z, o.x, o.y, o.z, self.offset_t_l_i.x,
                    self.offset_t_l_i.y, self.offset_t_l_i.z, self.vel.x, self.vel.y, self.vel.z, self.bg.x,
                    self.bg.y, self.bg.z, self.ba.x, self.ba.y, self.ba.z, self.grav.vec.x, self.grav.vec.y,
                    self.grav.vec.z,
                ]
            }),
    {
        let r: V3<W> = quat_log(self.rot);
        let o: V3<W> = quat_log(self.offset_r_l_i);
        [
            self.pos.x, self.pos.y, self.pos.z, r.x, r.y, r.z, o.x, o.y, o.z, self.offset_t_l_i.x,
            self.offset_t_l_i.y, self.offset_t_l_i.z, self.vel.x, self.vel.y, self.vel.z, self.bg.x,
            self.bg.y, self.bg.z, self.ba.x, self.ba.y, self.ba.z, self.grav.vec.x, self.grav.vec.y,
            self.grav.vec.z,
        ]
    }

    /// Rotates by the exponential of a vector.
    pub fn oplus_rot(&mut self, rot_vec: V3<W>)
        ensures
            *final(self) == (StateIkfom {
                rot: old(self).rot.compose(quat_exp(rot_vec)),
                ..*old(self)
            }),
    {
        self.rot = self.rot.compose(quat_exp(rot_vec));
    }

    /// The rotation matrix of a vector.
    #[verifier::allow_in_spec]
    pub fn rot_exp(v: V3<W>) -> M3<W>
        returns
            exp(v),
    {
        exp(v)
    }
}

/// The entry of an error state belongs to a vector: position, translation of the lidar,
/// velocity or a bias.
pub open spec fn is_vector_entry(i: int) -> bool {
    0 <= i < 3 || 9 <= i < 21
}

/// The entry of a state to which an entry of an error state is added.
pub open spec fn vector_entry<W: Scalar>(x: StateIkfom<W>, i: int) -> W {
    let v = if i < 3 {
        x.pos
    } else if i < 12 {
        x.offset_t_l_i
    } else if i < 15 {
        x.vel
    } else if i < 18 {
        x.bg
    } else {
        x.ba
    };
    if i % 3 == 0 {
        v.x
    } else if i % 3 == 1 {
        v.y
    } else {
        v.z
    }
}

pub(crate) proof fn lemma_vector_entry<W: Scalar>(x: StateIkfom<W>, y: StateIkfom<W>, dx: StateVec<W>, i: int)
    requires
        is_vector_entry(i),
    ensures
        vector_entry(x.corrected(dx), i) == vector_entry(x, i).plus_spec(dx[i]),
        y.boxminus(x)[i] == vector_entry(y, i).minus_spec(vector_entry(x, i)),
{
    let d = y.boxminus(x);
    if i < 3 {
        assert(i == 0 || i == 1 || i == 2);
    } else if i < 12 {
        assert(i == 9 || i == 10 || i == 11);
    } else if i < 15 {
        assert(i == 12 || i == 13 || i == 14);
    } else if i < 18 {
        assert(i == 15 || i == 16 || i == 17);
    } else {
        assert(i == 18 || i == 19 || i == 20);
    }
}

/// In exact arithmetic the difference of states takes back an error state that was
/// added, in its vectors.
pub proof fn law_boxminus_undoes_vectors<W: Scalar>(x: StateIkfom<W>, dx: StateVec<W>, i: int)
    requires
        exact_arithmetic::<W>(),
        is_vector_entry(i),
    ensures
        x.corrected(dx).boxminus(x)[i] == dx[i],
{
    lemma_vector_entry(x, x.corrected(dx), dx, i);
    law_exact_undone(vector_entry(x, i), dx[i]);
}

/// In fixed point the difference of states takes back an error state that was added, in
/// its vectors, unless a sum leaves the range of numbers.
pub proof fn law_fixed_boxminus_undoes_vectors(
    x: StateIkfom<Fixed>,
    dx: StateVec<Fixed>,
    i: int,
)
    requires
        is_vector_entry(i),
        i64::MIN <= vector_entry(x, i).raw + dx[i].raw <= i64::MAX,
    ensures
        x.corrected(dx).boxminus(x)[i] == dx[i],
{
    lemma_vector_entry(x, x.corrected(dx), dx, i);
}

} // verus!
