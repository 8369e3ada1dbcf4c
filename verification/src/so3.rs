//! Rotations of space and their logarithms.
//!
//! Each function may be used in specifications too, where it stands for the
//! value that it returns.
use crate::linear::{M3, V3};
use crate::scalar::{is_less, Scalar};
use vstd::prelude::*;

verus! {

/// The skew-symmetric matrix of a vector: its product with `x` is the vector
/// product of `v` and `x`.
#[verifier::allow_in_spec]
pub fn skew<W: Scalar>(v: V3<W>) -> M3<W>
    returns
        (M3 {
            a: V3::new(W::ratio_spec(0, 1), v.z.negate_spec(), v.y),
            b: V3::new(v.z, W::ratio_spec(0, 1), v.x.negate_spec()),
            c: V3::new(v.y.negate_spec(), v.x, W::ratio_spec(0, 1)),
        }),
{
    M3 {
        a: V3::new(W::ratio(0, 1), v.z.negate(), v.y),
        b: V3::new(v.z, W::ratio(0, 1), v.x.negate()),
        c: V3::new(v.y.negate(), v.x, W::ratio(0, 1)),
    }
}

/// The rotation by `angle` about an axis of length one, by Rodrigues' formula.
#[verifier::allow_in_spec]
pub fn rodrigues<W: Scalar>(axis: V3<W>, angle: W) -> M3<W>
    returns
        ({
            let k: M3<W> = skew(axis);
            M3::identity().sum(k.scaled(angle.sin_spec())).sum(
                k.compose(k).scaled(W::ratio_spec(1, 1).minus_spec(angle.cos_spec())),
            )
        }),
{
    let k: M3<W> = skew(axis);
    M3::identity().sum(k.scaled(angle.sin())).sum(
        k.compose(k).scaled(W::ratio(1, 1).minus(angle.cos())),
    )
}

/// The exponential map: the rotation about `ang` by its length.
#[verifier::allow_in_spec]
pub fn exp<W: Scalar>(ang: V3<W>) -> M3<W>
    returns
        (if is_less(W::ratio_spec(1, 10000000), ang.norm()) {
            rodrigues(ang.shared(ang.norm()), ang.norm())
        } else {
            M3::identity()
        }),
{
    if is_less(W::ratio(1, 10000000), ang.norm()) {
        rodrigues(ang.shared(ang.norm()), ang.norm())
    } else {
        M3::identity()
    }
}

/// The rotation that an angular velocity makes in a time.
#[verifier::allow_in_spec]
pub fn exp_scaled<W: Scalar>(ang_vel: V3<W>, dt: W) -> M3<W>
    returns
        (if is_less(W::ratio_spec(1, 10000000), ang_vel.norm()) {
            rodrigues(ang_vel.shared(ang_vel.norm()), ang_vel.norm().times_spec(dt))
        } else {
            M3::identity()
        }),
{
    if is_less(W::ratio(1, 10000000), ang_vel.norm()) {
        rodrigues(ang_vel.shared(ang_vel.norm()), ang_vel.norm().times(dt))
    } else {
        M3::identity()
    }
}

/// The angle of a rotation, zero near the identity.
#[verifier::allow_in_spec]
pub fn angle_of<W: Scalar>(r: M3<W>) -> W
    returns
        (if is_less(W::ratio_spec(3, 1).minus_spec(W::ratio_spec(1, 1000000)), r.trace()) {
            W::ratio_spec(0, 1)
        } else {
            W::ratio_spec(1, 2).times_spec(r.trace().minus_spec(W::ratio_spec(1, 1))).acos_spec()
        }),
{
    if is_less(W::ratio(3, 1).minus(W::ratio(1, 1000000)), r.trace()) {
        W::ratio(0, 1)
    } else {
        W::ratio(1, 2).times(r.trace().minus(W::ratio(1, 1))).acos()
    }
}

/// The logarithm of a rotation.
#[verifier::allow_in_spec]
pub fn log<W: Scalar>(r: M3<W>) -> V3<W>
    returns
        ({
            let theta: W = angle_of(r);
            let k: V3<W> = V3::new(r.c.y.minus_spec(r.b.z), r.a.z.minus_spec(r.c.x), r.b.x.minus_spec(r.a.y));
            if is_less(theta.magnitude_spec(), W::ratio_spec(1, 1000)) {
                k.scaled(W::ratio_spec(1, 2))
            } else {
                k.scaled(W::ratio_spec(1, 2).times_spec(theta).over_spec(theta.sin_spec()))
            }
        }),
{
    let theta: W = angle_of(r);
    let k: V3<W> = V3::new(r.c.y.minus(r.b.z), r.a.z.minus(r.c.x), r.b.x.minus(r.a.y));
    if is_less(theta.magnitude(), W::ratio(1, 1000)) {
        k.scaled(W::ratio(1, 2))
    } else {
        k.scaled(W::ratio(1, 2).times(theta).over(theta.sin()))
    }
}

/// The matrix that corrects a covariance for a rotation on the right.
#[verifier::allow_in_spec]
pub fn a_matrix<W: Scalar>(v: V3<W>) -> M3<W>
    returns
        ({
            let squared: W = v.x.times_spec(v.x).plus_spec(v.y.times_spec(v.y)).plus_spec(v.z.times_spec(v.z));
            let norm: W = squared.root_spec();
            let one: W = W::ratio_spec(1, 1);
            if is_less(norm, W::ratio_spec(1, 100000000000)) {
                M3::identity()
            } else {
                M3::identity().sum(skew(v).scaled(one.minus_spec(norm.cos_spec()).over_spec(squared))).sum(
                    skew(v).compose(skew(v)).scaled(one.minus_spec(norm.sin_spec().over_spec(norm)).over_spec(squared)),
                )
            }
        }),
{
    let squared: W = v.x.times(v.x).plus(v.y.times(v.y)).plus(v.z.times(v.z));
    let norm: W = squared.root();
    let one: W = W::ratio(1, 1);
    if is_less(norm, W::ratio(1, 100000000000)) {
        M3::identity()
    } else {
        M3::identity().sum(skew(v).scaled(one.minus(norm.cos()).over(squared))).sum(
            skew(v).compose(skew(v)).scaled(one.minus(norm.sin().over(norm)).over(squared)),
        )
    }
}

/// Roll, pitch and yaw of a rotation in radians.
#[verifier::allow_in_spec]
pub fn rot_m_to_euler<W: Scalar>(rot: M3<W>) -> V3<W>
    returns
        ({
            let sy: W = rot.a.x.times_spec(rot.a.x).plus_spec(rot.b.x.times_spec(rot.b.x)).root_spec();
            if is_less(sy, W::ratio_spec(1, 1000000)) {
                V3::new(rot.b.z.negate_spec().atan2_spec(rot.b.y), rot.c.x.negate_spec().atan2_spec(sy), W::ratio_spec(0, 1))
            } else {
                V3::new(rot.c.y.atan2_spec(rot.c.z), rot.c.x.negate_spec().atan2_spec(sy), rot.b.x.atan2_spec(rot.a.x))
            }
        }),
{
    let sy: W = rot.a.x.times(rot.a.x).plus(rot.b.x.times(rot.b.x)).root();
    if is_less(sy, W::ratio(1, 1000000)) {
        V3::new(rot.b.z.negate().atan2(rot.b.y), rot.c.x.negate().atan2(sy), W::ratio(0, 1))
    } else {
        V3::new(rot.c.y.atan2(rot.c.z), rot.c.x.negate().atan2(sy), rot.b.x.atan2(rot.a.x))
    }
}

} // verus!
