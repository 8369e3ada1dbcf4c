//! Vectors, matrices and quaternions of space.
//!
//! Each operation may be used in specifications too, where it stands for the
//! value that it returns.
use crate::scalar::{is_less, Scalar};
use vstd::prelude::*;

verus! {

/// A vector in the plane.
#[derive(Clone, Copy, Debug)]
pub struct V2<W> {
    pub x: W,
    pub y: W,
}

impl<W: Scalar> V2<W> {
    /// The vector with the given coordinates.
    #[verifier::allow_in_spec]
    pub fn new(x: W, y: W) -> Self
        returns
            (V2 { x, y }),
    {
        V2 { x, y }
    }

    /// The zero vector.
    #[verifier::allow_in_spec]
    pub fn zeros() -> Self
        returns
            (V2 { x: W::ratio_spec(0, 1), y: W::ratio_spec(0, 1) }),
    {
        V2 { x: W::ratio(0, 1), y: W::ratio(0, 1) }
    }

    /// The vector times a number.
    #[verifier::allow_in_spec]
    pub fn scaled(self, k: W) -> Self
        returns
            (V2 { x: self.x.times_spec(k), y: self.y.times_spec(k) }),
    {
        V2 { x: self.x.times(k), y: self.y.times(k) }
    }

    /// The scalar product.
    #[verifier::allow_in_spec]
    pub fn dot(self, o: Self) -> W
        returns
            self.x.times_spec(o.x).plus_spec(self.y.times_spec(o.y)),
    {
        self.x.times(o.x).plus(self.y.times(o.y))
    }

    /// The length.
    #[verifier::allow_in_spec]
    pub fn norm(self) -> W
        returns
            self.dot(self).root_spec(),
    {
        self.dot(self).root()
    }
}

/// A vector in space.
#[derive(Clone, Copy, Debug)]
pub struct V3<W> {
    pub x: W,
    pub y: W,
    pub z: W,
}

impl<W: Scalar> V3<W> {
    /// The vector with the given coordinates.
    #[verifier::allow_in_spec]
    pub fn new(x: W, y: W, z: W) -> Self
        returns
            (V3 { x, y, z }),
    {
        V3 { x, y, z }
    }

    /// The zero vector.
    #[verifier::allow_in_spec]
    pub fn zeros() -> Self
        returns
            (V3 { x: W::ratio_spec(0, 1), y: W::ratio_spec(0, 1), z: W::ratio_spec(0, 1) }),
    {
        V3 { x: W::ratio(0, 1), y: W::ratio(0, 1), z: W::ratio(0, 1) }
    }

    /// The sum of two vectors.
    #[verifier::allow_in_spec]
    pub fn sum(self, o: Self) -> Self
        returns
            (V3 { x: self.x.plus_spec(o.x), y: self.y.plus_spec(o.y), z: self.z.plus_spec(o.z) }),
    {
        V3 { x: self.x.plus(o.x), y: self.y.plus(o.y), z: self.z.plus(o.z) }
    }

    /// The difference of two vectors.
    #[verifier::allow_in_spec]
    pub fn diff(self, o: Self) -> Self
        returns
            (V3 { x: self.x.minus_spec(o.x), y: self.y.minus_spec(o.y), z: self.z.minus_spec(o.z) }),
    {
        V3 { x: self.x.minus(o.x), y: self.y.minus(o.y), z: self.z.minus(o.z) }
    }

    /// The vector times a number.
    #[verifier::allow_in_spec]
    pub fn scaled(self, k: W) -> Self
        returns
            (V3 { x: self.x.times_spec(k), y: self.y.times_spec(k), z: self.z.times_spec(k) }),
    {
        V3 { x: self.x.times(k), y: self.y.times(k), z: self.z.times(k) }
    }

    /// The vector divided by a number.
    #[verifier::allow_in_spec]
    pub fn shared(self, k: W) -> Self
        returns
            (V3 { x: self.x.over_spec(k), y: self.y.over_spec(k), z: self.z.over_spec(k) }),
    {
        V3 { x: self.x.over(k), y: self.y.over(k), z: self.z.over(k) }
    }

    /// The vector with the opposite direction.
    #[verifier::allow_in_spec]
    pub fn opposite(self) -> Self
        returns
            (V3 { x: self.x.negate_spec(), y: self.y.negate_spec(), z: self.z.negate_spec() }),
    {
        V3 { x: self.x.negate(), y: self.y.negate(), z: self.z.negate() }
    }

    /// The vector of the squares.
    #[verifier::allow_in_spec]
    pub fn squares(self) -> Self
        returns
            (V3 { x: self.x.times_spec(self.x), y: self.y.times_spec(self.y), z: self.z.times_spec(self.z) }),
    {
        V3 { x: self.x.times(self.x), y: self.y.times(self.y), z: self.z.times(self.z) }
    }

    /// The scalar product.
    #[verifier::allow_in_spec]
    pub fn dot(self, o: Self) -> W
        returns
            self.x.times_spec(o.x).plus_spec(self.y.times_spec(o.y)).plus_spec(self.z.times_spec(o.z)),
    {
        self.x.times(o.x).plus(self.y.times(o.y)).plus(self.z.times(o.z))
    }

    /// The vector product.
    #[verifier::allow_in_spec]
    pub fn cross(self, o: Self) -> Self
        returns
            (V3 {
                x: self.y.times_spec(o.z).minus_spec(self.z.times_spec(o.y)),
                y: self.z.times_spec(o.x).minus_spec(self.x.times_spec(o.z)),
                z: self.x.times_spec(o.y).minus_spec(self.y.times_spec(o.x)),
            }),
    {
        V3 {
            x: self.y.times(o.z).minus(self.z.times(o.y)),
            y: self.z.times(o.x).minus(self.x.times(o.z)),
            z: self.x.times(o.y).minus(self.y.times(o.x)),
        }
    }

    /// The length.
    #[verifier::allow_in_spec]
    pub fn norm(self) -> W
        returns
            self.dot(self).root_spec(),
    {
        self.dot(self).root()
    }
}

/// A matrix of three rows and three columns.
#[derive(Clone, Copy, Debug)]
pub struct M3<W> {
    /// The first row.
    pub a: V3<W>,
    /// The second row.
    pub b: V3<W>,
    /// The third row.
    pub c: V3<W>,
}

impl<W: Scalar> M3<W> {
    /// The identity.
    #[verifier::allow_in_spec]
    pub fn identity() -> Self
        returns
            (M3 {
                a: V3::new(W::ratio_spec(1, 1), W::ratio_spec(0, 1), W::ratio_spec(0, 1)),
                b: V3::new(W::ratio_spec(0, 1), W::ratio_spec(1, 1), W::ratio_spec(0, 1)),
                c: V3::new(W::ratio_spec(0, 1), W::ratio_spec(0, 1), W::ratio_spec(1, 1)),
            }),
    {
        M3 {
            a: V3::new(W::ratio(1, 1), W::ratio(0, 1), W::ratio(0, 1)),
            b: V3::new(W::ratio(0, 1), W::ratio(1, 1), W::ratio(0, 1)),
            c: V3::new(W::ratio(0, 1), W::ratio(0, 1), W::ratio(1, 1)),
        }
    }

    /// The sum of two matrices.
    #[verifier::allow_in_spec]
    pub fn sum(self, o: Self) -> Self
        returns
            (M3 { a: self.a.sum(o.a), b: self.b.sum(o.b), c: self.c.sum(o.c) }),
    {
        M3 { a: self.a.sum(o.a), b: self.b.sum(o.b), c: self.c.sum(o.c) }
    }

    /// The matrix times a number.
    #[verifier::allow_in_spec]
    pub fn scaled(self, k: W) -> Self
        returns
            (M3 { a: self.a.scaled(k), b: self.b.scaled(k), c: self.c.scaled(k) }),
    {
        M3 { a: self.a.scaled(k), b: self.b.scaled(k), c: self.c.scaled(k) }
    }

    /// The matrix with the opposite entries.
    #[verifier::allow_in_spec]
    pub fn opposite(self) -> Self
        returns
            (M3 { a: self.a.opposite(), b: self.b.opposite(), c: self.c.opposite() }),
    {
        M3 { a: self.a.opposite(), b: self.b.opposite(), c: self.c.opposite() }
    }

    /// The matrix with rows and columns exchanged.
    #[verifier::allow_in_spec]
    pub fn transpose(self) -> Self
        returns
            (M3 {
                a: V3::new(self.a.x, self.b.x, self.c.x),
                b: V3::new(self.a.y, self.b.y, self.c.y),
                c: V3::new(self.a.z, self.b.z, self.c.z),
            }),
    {
        M3 {
            a: V3::new(self.a.x, self.b.x, self.c.x),
            b: V3::new(self.a.y, self.b.y, self.c.y),
            c: V3::new(self.a.z, self.b.z, self.c.z),
        }
    }

    /// The image of a vector.
    #[verifier::allow_in_spec]
    pub fn apply(self, v: V3<W>) -> V3<W>
        returns
            V3::new(self.a.dot(v), self.b.dot(v), self.c.dot(v)),
    {
        V3::new(self.a.dot(v), self.b.dot(v), self.c.dot(v))
    }

    /// The product of two matrices.
    #[verifier::allow_in_spec]
    pub fn compose(self, o: Self) -> Self
        returns
            (M3 {
                a: V3::new(
                    self.a.dot(o.transpose().a),
                    self.a.dot(o.transpose().b),
                    self.a.dot(o.transpose().c),
                ),
                b: V3::new(
                    self.b.dot(o.transpose().a),
                    self.b.dot(o.transpose().b),
                    self.b.dot(o.transpose().c),
                ),
                c: V3::new(
                    self.c.dot(o.transpose().a),
                    self.c.dot(o.transpose().b),
                    self.c.dot(o.transpose().c),
                ),
            }),
    {
        M3 {
            a: V3::new(
                self.a.dot(o.transpose().a),
                self.a.dot(o.transpose().b),
                self.a.dot(o.transpose().c),
            ),
            b: V3::new(
                self.b.dot(o.transpose().a),
                self.b.dot(o.transpose().b),
                self.b.dot(o.transpose().c),
            ),
            c: V3::new(
                self.c.dot(o.transpose().a),
                self.c.dot(o.transpose().b),
                self.c.dot(o.transpose().c),
            ),
        }
    }

    /// The sum of the diagonal.
    #[verifier::allow_in_spec]
    pub fn trace(self) -> W
        returns
            self.a.x.plus_spec(self.b.y).plus_spec(self.c.z),
    {
        self.a.x.plus(self.b.y).plus(self.c.z)
    }
}

/// A matrix of three rows and two columns.
#[derive(Clone, Copy, Debug)]
pub struct M32<W> {
    /// The first column.
    pub p: V3<W>,
    /// The second column.
    pub q: V3<W>,
}

impl<W: Scalar> M32<W> {
    /// The matrix divided by a number.
    #[verifier::allow_in_spec]
    pub fn shared(self, k: W) -> Self
        returns
            (M32 { p: self.p.shared(k), q: self.q.shared(k) }),
    {
        M32 { p: self.p.shared(k), q: self.q.shared(k) }
    }

    /// The image of a vector in the plane.
    #[verifier::allow_in_spec]
    pub fn apply(self, v: V2<W>) -> V3<W>
        returns
            self.p.scaled(v.x).sum(self.q.scaled(v.y)),
    {
        self.p.scaled(v.x).sum(self.q.scaled(v.y))
    }

    /// The product `m` times this matrix.
    #[verifier::allow_in_spec]
    pub fn after(self, m: M3<W>) -> Self
        returns
            (M32 { p: m.apply(self.p), q: m.apply(self.q) }),
    {
        M32 { p: m.apply(self.p), q: m.apply(self.q) }
    }

    /// The image of a vector in space under the transposed matrix.
    #[verifier::allow_in_spec]
    pub fn pull(self, v: V3<W>) -> V2<W>
        returns
            V2::new(self.p.dot(v), self.q.dot(v)),
    {
        V2::new(self.p.dot(v), self.q.dot(v))
    }
}

/// A matrix of two rows and three columns.
#[derive(Clone, Copy, Debug)]
pub struct M23<W> {
    /// The first row.
    pub a: V3<W>,
    /// The second row.
    pub b: V3<W>,
}

impl<W: Scalar> M23<W> {
    /// The matrix divided by a number.
    #[verifier::allow_in_spec]
    pub fn shared(self, k: W) -> Self
        returns
            (M23 { a: self.a.shared(k), b: self.b.shared(k) }),
    {
        M23 { a: self.a.shared(k), b: self.b.shared(k) }
    }

    /// The matrix with the opposite entries.
    #[verifier::allow_in_spec]
    pub fn opposite(self) -> Self
        returns
            (M23 { a: self.a.opposite(), b: self.b.opposite() }),
    {
        M23 { a: self.a.opposite(), b: self.b.opposite() }
    }

    /// The image of a vector in space.
    #[verifier::allow_in_spec]
    pub fn apply(self, v: V3<W>) -> V2<W>
        returns
            V2::new(self.a.dot(v), self.b.dot(v)),
    {
        V2::new(self.a.dot(v), self.b.dot(v))
    }

    /// The product with a square matrix.
    #[verifier::allow_in_spec]
    pub fn compose(self, m: M3<W>) -> Self
        returns
            (M23 {
                a: m.transpose().apply(self.a),
                b: m.transpose().apply(self.b),
            }),
    {
        M23 {
            a: m.transpose().apply(self.a),
            b: m.transpose().apply(self.b),
        }
    }

    /// The product with a matrix of two columns.
    #[verifier::allow_in_spec]
    pub fn meet(self, m: M32<W>) -> M2<W>
        returns
            (M2 {
                a: V2::new(self.a.dot(m.p), self.a.dot(m.q)),
                b: V2::new(self.b.dot(m.p), self.b.dot(m.q)),
            }),
    {
        M2 {
            a: V2::new(self.a.dot(m.p), self.a.dot(m.q)),
            b: V2::new(self.b.dot(m.p), self.b.dot(m.q)),
        }
    }
}

/// A matrix of two rows and two columns.
#[derive(Clone, Copy, Debug)]
pub struct M2<W> {
    /// The first row.
    pub a: V2<W>,
    /// The second row.
    pub b: V2<W>,
}

impl<W: Scalar> M2<W> {
    /// The image of a vector.
    #[verifier::allow_in_spec]
    pub fn apply(self, v: V2<W>) -> V2<W>
        returns
            V2::new(self.a.dot(v), self.b.dot(v)),
    {
        V2::new(self.a.dot(v), self.b.dot(v))
    }
}

/// A quaternion with its scalar part first; a rotation when its length is one.
#[derive(Clone, Copy, Debug)]
pub struct Quat<W> {
    pub w: W,
    pub i: W,
    pub j: W,
    pub k: W,
}

impl<W: Scalar> Quat<W> {
    /// The rotation by no angle.
    #[verifier::allow_in_spec]
    pub fn identity() -> Self
        returns
            (Quat { w: W::ratio_spec(1, 1), i: W::ratio_spec(0, 1), j: W::ratio_spec(0, 1), k: W::ratio_spec(0, 1) }),
    {
        Quat { w: W::ratio(1, 1), i: W::ratio(0, 1), j: W::ratio(0, 1), k: W::ratio(0, 1) }
    }

    /// The vector part.
    #[verifier::allow_in_spec]
    pub fn vector(self) -> V3<W>
        returns
            V3::new(self.i, self.j, self.k),
    {
        V3::new(self.i, self.j, self.k)
    }

    /// The opposite rotation.
    #[verifier::allow_in_spec]
    pub fn conjugate(self) -> Self
        returns
            (Quat { w: self.w, i: self.i.negate_spec(), j: self.j.negate_spec(), k: self.k.negate_spec() }),
    {
        Quat { w: self.w, i: self.i.negate(), j: self.j.negate(), k: self.k.negate() }
    }

    /// The product: first `o`, then this rotation.
    #[verifier::allow_in_spec]
    pub fn compose(self, o: Self) -> Self
        returns
            (Quat {
                w: self.w.times_spec(o.w).minus_spec(self.i.times_spec(o.i)).minus_spec(self.j.times_spec(o.j)).minus_spec(self.k.times_spec(o.k)),
                i: self.w.times_spec(o.i).plus_spec(self.i.times_spec(o.w)).plus_spec(self.j.times_spec(o.k)).minus_spec(self.k.times_spec(o.j)),
                j: self.w.times_spec(o.j).minus_spec(self.i.times_spec(o.k)).plus_spec(self.j.times_spec(o.w)).plus_spec(self.k.times_spec(o.i)),
                k: self.w.times_spec(o.k).plus_spec(self.i.times_spec(o.j)).minus_spec(self.j.times_spec(o.i)).plus_spec(self.k.times_spec(o.w)),
            }),
    {
        Quat {
            w: self.w.times(o.w).minus(self.i.times(o.i)).minus(self.j.times(o.j)).minus(self.k.times(o.k)),
            i: self.w.times(o.i).plus(self.i.times(o.w)).plus(self.j.times(o.k)).minus(self.k.times(o.j)),
            j: self.w.times(o.j).minus(self.i.times(o.k)).plus(self.j.times(o.w)).plus(self.k.times(o.i)),
            k: self.w.times(o.k).plus(self.i.times(o.j)).minus(self.j.times(o.i)).plus(self.k.times(o.w)),
        }
    }

    /// The image of a vector under the rotation.
    #[verifier::allow_in_spec]
    pub fn rotate(self, v: V3<W>) -> V3<W>
        returns
            ({
                let t: V3<W> = self.vector().cross(v).scaled(W::ratio_spec(2, 1));
                t.scaled(self.w).sum(self.vector().cross(t)).sum(v)
            }),
    {
        let t: V3<W> = self.vector().cross(v).scaled(W::ratio(2, 1));
        t.scaled(self.w).sum(self.vector().cross(t)).sum(v)
    }

    /// The rotation by an angle about an axis of length one.
    #[verifier::allow_in_spec]
    pub fn about(axis: V3<W>, angle: W) -> Self
        returns
            ({
                let half: W = angle.over_spec(W::ratio_spec(2, 1));
                Quat {
                    w: half.cos_spec(),
                    i: axis.x.times_spec(half.sin_spec()),
                    j: axis.y.times_spec(half.sin_spec()),
                    k: axis.z.times_spec(half.sin_spec()),
                }
            }),
    {
        let half: W = angle.over(W::ratio(2, 1));
        Quat {
            w: half.cos(),
            i: axis.x.times(half.sin()),
            j: axis.y.times(half.sin()),
            k: axis.z.times(half.sin()),
        }
    }

    /// The matrix of the rotation.
    #[verifier::allow_in_spec]
    pub fn matrix(self) -> M3<W>
        returns
            ({
                let ww: W = self.w.times_spec(self.w);
                let ii: W = self.i.times_spec(self.i);
                let jj: W = self.j.times_spec(self.j);
                let kk: W = self.k.times_spec(self.k);
                let ij: W = self.i.times_spec(self.j).times_spec(W::ratio_spec(2, 1));
                let wk: W = self.w.times_spec(self.k).times_spec(W::ratio_spec(2, 1));
                let wj: W = self.w.times_spec(self.j).times_spec(W::ratio_spec(2, 1));
                let ik: W = self.i.times_spec(self.k).times_spec(W::ratio_spec(2, 1));
                let jk: W = self.j.times_spec(self.k).times_spec(W::ratio_spec(2, 1));
                let wi: W = self.w.times_spec(self.i).times_spec(W::ratio_spec(2, 1));
                M3 {
                    a: V3::new(ww.plus_spec(ii).minus_spec(jj).minus_spec(kk), ij.minus_spec(wk), wj.plus_spec(ik)),
                    b: V3::new(wk.plus_spec(ij), ww.minus_spec(ii).plus_spec(jj).minus_spec(kk), jk.minus_spec(wi)),
                    c: V3::new(ik.minus_spec(wj), wi.plus_spec(jk), ww.minus_spec(ii).minus_spec(jj).plus_spec(kk)),
                }
            }),
    {
        let ww: W = self.w.times(self.w);
        let ii: W = self.i.times(self.i);
        let jj: W = self.j.times(self.j);
        let kk: W = self.k.times(self.k);
        let ij: W = self.i.times(self.j).times(W::ratio(2, 1));
        let wk: W = self.w.times(self.k).times(W::ratio(2, 1));
        let wj: W = self.w.times(self.j).times(W::ratio(2, 1));
        let ik: W = self.i.times(self.k).times(W::ratio(2, 1));
        let jk: W = self.j.times(self.k).times(W::ratio(2, 1));
        let wi: W = self.w.times(self.i).times(W::ratio(2, 1));
        M3 {
            a: V3::new(ww.plus(ii).minus(jj).minus(kk), ij.minus(wk), wj.plus(ik)),
            b: V3::new(wk.plus(ij), ww.minus(ii).plus(jj).minus(kk), jk.minus(wi)),
            c: V3::new(ik.minus(wj), wi.plus(jk), ww.minus(ii).minus(jj).plus(kk)),
        }
    }

    /// The rotation of a matrix, by the largest of its four parts.
    #[verifier::allow_in_spec]
    pub fn from_matrix(m: M3<W>) -> Self
        returns
            ({
                let tr: W = m.trace();
                let quarter: W = W::ratio_spec(1, 4);
                if is_less(W::ratio_spec(0, 1), tr) {
                    let d: W = tr.plus_spec(W::ratio_spec(1, 1)).root_spec().times_spec(W::ratio_spec(2, 1));
                    Quat {
                        w: quarter.times_spec(d),
                        i: m.c.y.minus_spec(m.b.z).over_spec(d),
                        j: m.a.z.minus_spec(m.c.x).over_spec(d),
                        k: m.b.x.minus_spec(m.a.y).over_spec(d),
                    }
                } else if is_less(m.b.y, m.a.x) && is_less(m.c.z, m.a.x) {
                    let d: W = W::ratio_spec(1, 1).plus_spec(m.a.x).minus_spec(m.b.y).minus_spec(m.c.z).root_spec().times_spec(W::ratio_spec(2, 1));
                    Quat {
                        w: m.c.y.minus_spec(m.b.z).over_spec(d),
                        i: quarter.times_spec(d),
                        j: m.a.y.plus_spec(m.b.x).over_spec(d),
                        k: m.a.z.plus_spec(m.c.x).over_spec(d),
                    }
                } else if is_less(m.c.z, m.b.y) {
                    let d: W = W::ratio_spec(1, 1).plus_spec(m.b.y).minus_spec(m.a.x).minus_spec(m.c.z).root_spec().times_spec(W::ratio_spec(2, 1));
                    Quat {
                        w: m.a.z.minus_spec(m.c.x).over_spec(d),
                        i: m.a.y.plus_spec(m.b.x).over_spec(d),
                        j: quarter.times_spec(d),
                        k: m.b.z.plus_spec(m.c.y).over_spec(d),
                    }
                } else {
                    let d: W = W::ratio_spec(1, 1).plus_spec(m.c.z).minus_spec(m.a.x).minus_spec(m.b.y).root_spec().times_spec(W::ratio_spec(2, 1));
                    Quat {
                        w: m.b.x.minus_spec(m.a.y).over_spec(d),
                        i: m.a.z.plus_spec(m.c.x).over_spec(d),
                        j: m.b.z.plus_spec(m.c.y).over_spec(d),
                        k: quarter.times_spec(d),
                    }
                }
            }),
    {
        let tr: W = m.trace();
        let quarter: W = W::ratio(1, 4);
        if is_less(W::ratio(0, 1), tr) {
            let d: W = tr.plus(W::ratio(1, 1)).root().times(W::ratio(2, 1));
            Quat {
                w: quarter.times(d),
                i: m.c.y.minus(m.b.z).over(d),
                j: m.a.z.minus(m.c.x).over(d),
                k: m.b.x.minus(m.a.y).over(d),
            }
        } else if is_less(m.b.y, m.a.x) && is_less(m.c.z, m.a.x) {
            let d: W = W::ratio(1, 1).plus(m.a.x).minus(m.b.y).minus(m.c.z).root().times(W::ratio(2, 1));
            Quat {
                w: m.c.y.minus(m.b.z).over(d),
                i: quarter.times(d),
                j: m.a.y.plus(m.b.x).over(d),
                k: m.a.z.plus(m.c.x).over(d),
            }
        } else if is_less(m.c.z, m.b.y) {
            let d: W = W::ratio(1, 1).plus(m.b.y).minus(m.a.x).minus(m.c.z).root().times(W::ratio(2, 1));
            Quat {
                w: m.a.z.minus(m.c.x).over(d),
                i: m.a.y.plus(m.b.x).over(d),
                j: quarter.times(d),
                k: m.b.z.plus(m.c.y).over(d),
            }
        } else {
            let d: W = W::ratio(1, 1).plus(m.c.z).minus(m.a.x).minus(m.b.y).root().times(W::ratio(2, 1));
            Quat {
                w: m.b.x.minus(m.a.y).over(d),
                i: m.a.z.plus(m.c.x).over(d),
                j: m.b.z.plus(m.c.y).over(d),
                k: quarter.times(d),
            }
        }
    }
}

} // verus!
