//! Directions: vectors of a fixed length, such as gravity.
use crate::fixed::{Fixed, ONE};
use crate::linear::{M23, M3, M32, V2, V3};
use crate::scalar::{is_less, Scalar};
use crate::so3::{a_matrix, exp, skew};
use vstd::prelude::*;

verus! {

/// A vector of fixed length with the axis that its tangent basis is built on.
#[derive(Clone, Copy, Debug)]
pub struct S2<W> {
    pub vec: V3<W>,
    pub length: W,
    /// The axis: 2 for y, 3 for z, else x.
    pub typ: i32,
}

/// The bound below which an angle counts as zero.
#[verifier::allow_in_spec]
pub fn tolerance<W: Scalar>() -> W
    returns
        W::ratio_spec(1, 100000000000),
{
    W::ratio(1, 100000000000)
}

impl<W: Scalar> S2<W> {
    /// The vector along its axis.
    #[verifier::allow_in_spec]
    pub fn new_with_type(length: W, typ: i32) -> Self
        returns
            ({
                let base: V3<W> = if typ == 3 {
                    V3::new(W::ratio_spec(0, 1), W::ratio_spec(0, 1), W::ratio_spec(1, 1))
                } else if typ == 2 {
                    V3::new(W::ratio_spec(0, 1), W::ratio_spec(1, 1), W::ratio_spec(0, 1))
                } else {
                    V3::new(W::ratio_spec(1, 1), W::ratio_spec(0, 1), W::ratio_spec(0, 1))
                };
                S2 { vec: base.scaled(length), length, typ }
            }),
    {
        let base: V3<W> = if typ == 3 {
            V3::new(W::ratio(0, 1), W::ratio(0, 1), W::ratio(1, 1))
        } else if typ == 2 {
            V3::new(W::ratio(0, 1), W::ratio(1, 1), W::ratio(0, 1))
        } else {
            V3::new(W::ratio(1, 1), W::ratio(0, 1), W::ratio(0, 1))
        };
        S2 { vec: base.scaled(length), length, typ }
    }

    /// The vector of the given length in the direction of `vec`, along x when `vec`
    /// is zero.
    #[verifier::allow_in_spec]
    pub fn from_vec(vec: V3<W>, length: W, typ: i32) -> Self
        returns
            ({
                let unit: V3<W> = if is_less(W::ratio_spec(0, 1), vec.norm()) {
                    vec.shared(vec.norm())
                } else {
                    V3::new(W::ratio_spec(1, 1), W::ratio_spec(0, 1), W::ratio_spec(0, 1))
                };
                S2 { vec: unit.scaled(length), length, typ }
            }),
    {
        let unit: V3<W> = if is_less(W::ratio(0, 1), vec.norm()) {
            vec.shared(vec.norm())
        } else {
            V3::new(W::ratio(1, 1), W::ratio(0, 1), W::ratio(0, 1))
        };
        S2 { vec: unit.scaled(length), length, typ }
    }

    /// The basis of the tangent plane opposite to the axis of type `typ`.
    #[verifier::allow_in_spec]
    pub fn far_basis(typ: i32) -> M32<W>
        returns
            (if typ == 3 {
                M32 {
                    p: V3::new(W::ratio_spec(1, 1), W::ratio_spec(0, 1), W::ratio_spec(0, 1)),
                    q: V3::new(W::ratio_spec(0, 1), W::ratio_spec(1, 1).negate_spec(), W::ratio_spec(0, 1)),
                }
            } else if typ == 2 {
                M32 {
                    p: V3::new(W::ratio_spec(0, 1), W::ratio_spec(0, 1), W::ratio_spec(1, 1)),
                    q: V3::new(W::ratio_spec(1, 1).negate_spec(), W::ratio_spec(0, 1), W::ratio_spec(0, 1)),
                }
            } else {
                M32 {
                    p: V3::new(W::ratio_spec(0, 1), W::ratio_spec(0, 1), W::ratio_spec(1, 1)),
                    q: V3::new(W::ratio_spec(0, 1), W::ratio_spec(1, 1).negate_spec(), W::ratio_spec(0, 1)),
                }
            }),
    {
        if typ == 3 {
            M32 {
                p: V3::new(W::ratio(1, 1), W::ratio(0, 1), W::ratio(0, 1)),
                q: V3::new(W::ratio(0, 1), W::ratio(1, 1).negate(), W::ratio(0, 1)),
            }
        } else if typ == 2 {
            M32 {
                p: V3::new(W::ratio(0, 1), W::ratio(0, 1), W::ratio(1, 1)),
                q: V3::new(W::ratio(1, 1).negate(), W::ratio(0, 1), W::ratio(0, 1)),
            }
        } else {
            M32 {
                p: V3::new(W::ratio(0, 1), W::ratio(0, 1), W::ratio(1, 1)),
                q: V3::new(W::ratio(0, 1), W::ratio(1, 1).negate(), W::ratio(0, 1)),
            }
        }
    }

    /// An orthonormal basis of the tangent plane.
    #[verifier::allow_in_spec]
    pub fn s2_bx(self) -> M32<W>
        returns
            ({
                let l: W = self.length;
                let v: V3<W> = self.vec;
                if self.typ == 3 {
                    let s: W = l.plus_spec(v.z);
                    if is_less(tolerance(), v.z.plus_spec(l)) {
                        M32 {
                            p: V3::new(
                                l.minus_spec(v.x.times_spec(v.x).over_spec(s)),
                                v.x.negate_spec().times_spec(v.y).over_spec(s),
                                v.x.negate_spec(),
                            ),
                            q: V3::new(
                                v.x.negate_spec().times_spec(v.y).over_spec(s),
                                l.minus_spec(v.y.times_spec(v.y).over_spec(s)),
                                v.y.negate_spec(),
                            ),
                        }.shared(l)
                    } else {
                        Self::far_basis(self.typ)
                    }
                } else if self.typ == 2 {
                    let s: W = l.plus_spec(v.y);
                    if is_less(tolerance(), v.y.plus_spec(l)) {
                        M32 {
                            p: V3::new(
                                l.minus_spec(v.x.times_spec(v.x).over_spec(s)),
                                v.x.negate_spec(),
                                v.x.negate_spec().times_spec(v.z).over_spec(s),
                            ),
                            q: V3::new(
                                v.x.negate_spec().times_spec(v.z).over_spec(s),
                                v.z.negate_spec(),
                                l.minus_spec(v.z.times_spec(v.z).over_spec(s)),
                            ),
                        }.shared(l)
                    } else {
                        Self::far_basis(self.typ)
                    }
                } else {
                    let s: W = l.plus_spec(v.x);
                    if is_less(tolerance(), v.x.plus_spec(l)) {
                        M32 {
                            p: V3::new(
                                v.y.negate_spec(),
                                l.minus_spec(v.y.times_spec(v.y).over_spec(s)),
                                v.z.negate_spec().times_spec(v.y).over_spec(s),
                            ),
                            q: V3::new(
                                v.z.negate_spec(),
                                v.z.negate_spec().times_spec(v.y).over_spec(s),
                                l.minus_spec(v.z.times_spec(v.z).over_spec(s)),
                            ),
                        }.shared(l)
                    } else {
                        Self::far_basis(self.typ)
                    }
                }
            }),
    {
        let l: W = self.length;
        let v: V3<W> = self.vec;
        if self.typ == 3 {
            let s: W = l.plus(v.z);
            if is_less(tolerance(), v.z.plus(l)) {
                M32 {
                    p: V3::new(
                        l.minus(v.x.times(v.x).over(s)),
                        v.x.negate().times(v.y).over(s),
                        v.x.negate(),
                    ),
                    q: V3::new(
                        v.x.negate().times(v.y).over(s),
                        l.minus(v.y.times(v.y).over(s)),
                        v.y.negate(),
                    ),
                }.shared(l)
            } else {
                Self::far_basis(self.typ)
            }
        } else if self.typ == 2 {
            let s: W = l.plus(v.y);
            if is_less(tolerance(), v.y.plus(l)) {
                M32 {
                    p: V3::new(
                        l.minus(v.x.times(v.x).over(s)),
                        v.x.negate(),
                        v.x.negate().times(v.z).over(s),
                    ),
                    q: V3::new(
                        v.x.negate().times(v.z).over(s),
                        v.z.negate(),
                        l.minus(v.z.times(v.z).over(s)),
                    ),
                }.shared(l)
            } else {
                Self::far_basis(self.typ)
            }
        } else {
            let s: W = l.plus(v.x);
            if is_less(tolerance(), v.x.plus(l)) {
                M32 {
                    p: V3::new(
                        v.y.negate(),
                        l.minus(v.y.times(v.y).over(s)),
                        v.z.negate().times(v.y).over(s),
                    ),
                    q: V3::new(
                        v.z.negate(),
                        v.z.negate().times(v.y).over(s),
                        l.minus(v.z.times(v.z).over(s)),
                    ),
                }.shared(l)
            } else {
                Self::far_basis(self.typ)
            }
        }
    }

    /// The skew-symmetric matrix of the vector.
    #[verifier::allow_in_spec]
    pub fn s2_hat(self) -> M3<W>
        returns
            skew(self.vec),
    {
        skew(self.vec)
    }

    /// The differential of the projection to the tangent plane.
    #[verifier::allow_in_spec]
    pub fn s2_nx_yy(self) -> M23<W>
        returns
            ({
                let b: M32<W> = self.s2_bx();
                M23 { a: b.p, b: b.q }.compose(self.s2_hat()).shared(self.length.times_spec(self.length))
            }),
    {
        let b: M32<W> = self.s2_bx();
        M23 { a: b.p, b: b.q }.compose(self.s2_hat()).shared(self.length.times(self.length))
    }

    /// The differential of [`S2::boxplus`] in the tangent step.
    #[verifier::allow_in_spec]
    pub fn s2_mx(self, delta: V2<W>) -> M32<W>
        returns
            ({
                let b: M32<W> = self.s2_bx();
                let u: V3<W> = b.apply(delta);
                if is_less(delta.norm(), tolerance()) {
                    b.after(self.s2_hat().opposite())
                } else {
                    b.after(
                        exp(u).opposite().compose(self.s2_hat()).compose(a_matrix(u).transpose()),
                    )
                }
            }),
    {
        let b: M32<W> = self.s2_bx();
        let u: V3<W> = b.apply(delta);
        if is_less(delta.norm(), tolerance()) {
            b.after(self.s2_hat().opposite())
        } else {
            b.after(
                exp(u).opposite().compose(self.s2_hat()).compose(a_matrix(u).transpose()),
            )
        }
    }

    /// The direction after a step in the tangent plane.
    #[verifier::allow_in_spec]
    pub fn stepped(self, delta: V2<W>) -> Self
        returns
            (S2 { vec: exp(self.s2_bx().apply(delta)).apply(self.vec), length: self.length, typ: self.typ }),
    {
        S2 { vec: exp(self.s2_bx().apply(delta)).apply(self.vec), length: self.length, typ: self.typ }
    }

    /// The direction after a rotation by `delta` times `scale`.
    #[verifier::allow_in_spec]
    pub fn turned(self, delta: V3<W>, scale: W) -> Self
        returns
            (S2 { vec: exp(delta.scaled(scale)).apply(self.vec), length: self.length, typ: self.typ }),
    {
        S2 { vec: exp(delta.scaled(scale)).apply(self.vec), length: self.length, typ: self.typ }
    }

    /// Takes a step in the tangent plane.
    pub fn boxplus(&mut self, delta: V2<W>)
        ensures
            *final(self) == old(self).stepped(delta),
    {
        self.vec = exp(self.s2_bx().apply(delta)).apply(self.vec);
    }

    /// Rotates by `delta` times `scale`.
    pub fn oplus(&mut self, delta: V3<W>, scale: W)
        ensures
            *final(self) == old(self).turned(delta, scale),
    {
        self.vec = exp(delta.scaled(scale)).apply(self.vec);
    }

    /// The step in the tangent plane of `other` that leads to this direction.
    #[verifier::allow_in_spec]
    pub fn boxminus(self, other: S2<W>) -> V2<W>
        returns
            ({
                let v_sin: W = self.s2_hat().apply(other.vec).norm();
                let theta: W = v_sin.atan2_spec(self.vec.dot(other.vec));
                if is_less(v_sin, tolerance()) {
                    if is_less(tolerance(), theta.magnitude_spec()) {
                        V2::new(W::ratio_spec(31415926, 10000000), W::ratio_spec(0, 1))
                    } else {
                        V2::zeros()
                    }
                } else {
                    other.s2_bx().pull(other.s2_hat().apply(self.vec)).scaled(theta.over_spec(v_sin))
                }
            }),
    {
        let v_sin: W = self.s2_hat().apply(other.vec).norm();
        let theta: W = v_sin.atan2(self.vec.dot(other.vec));
        if is_less(v_sin, tolerance()) {
            if is_less(tolerance(), theta.magnitude()) {
                V2::new(W::ratio(31415926, 10000000), W::ratio(0, 1))
            } else {
                V2::zeros()
            }
        } else {
            other.s2_bx().pull(other.s2_hat().apply(self.vec)).scaled(theta.over(v_sin))
        }
    }
}

/// Steps and rotations keep the length and the axis.
pub proof fn law_s2_frame_kept<W: Scalar>(s: S2<W>, delta: V2<W>, turn: V3<W>, scale: W)
    ensures
        s.stepped(delta).length == s.length,
        s.stepped(delta).typ == s.typ,
        s.turned(turn, scale).length == s.length,
        s.turned(turn, scale).typ == s.typ,
{
}

/// In fixed point, the basis opposite to an axis is orthonormal, and orthogonal to
/// the axis.
pub proof fn law_far_basis_is_tangent(length: Fixed, typ: i32)
    ensures
        ({
            let axis = S2::new_with_type(length, typ).vec;
            let b = S2::<Fixed>::far_basis(typ);
            &&& b.p.dot(axis).raw == 0
            &&& b.q.dot(axis).raw == 0
            &&& b.p.dot(b.q).raw == 0
            &&& b.p.dot(b.p).raw == ONE
            &&& b.q.dot(b.q).raw == ONE
        }),
{
    let o = Fixed::ratio_spec(0, 1);
    let e = Fixed::ratio_spec(1, 1);
    let n = e.negate_spec();
    assert(o.raw == 0 && e.raw == 65536 && n.raw == -65536);
    assert forall|v: Fixed| #[trigger] o.times_spec(v) == o by {
        assert(0 * v.raw == 0) by (nonlinear_arith);
    }
    assert forall|v: Fixed| #[trigger] v.times_spec(o) == o by {
        assert(v.raw * 0 == 0) by (nonlinear_arith);
    }
    assert(e.times_spec(e) == e);
    assert(n.times_spec(n) == e);
    assert(o.plus_spec(o) == o);
    assert(o.plus_spec(e) == e);
    assert(e.plus_spec(o) == e);
    let axis = S2::new_with_type(length, typ).vec;
    let b = S2::<Fixed>::far_basis(typ);
    assert(b.p.dot(axis) == o);
    assert(b.q.dot(axis) == o);
    assert(b.p.dot(b.q) == o);
    assert(b.p.dot(b.p) == e);
    assert(b.q.dot(b.q) == e);
}

} // verus!
