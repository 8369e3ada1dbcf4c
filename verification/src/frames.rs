//! How turns show in the frame of the body, in exact arithmetic.
use crate::exact::{
    exact_angles, has_angles, is_unit, law_exact_angles, lemma_commutes, lemma_spread_two, lemma_trade,
};
use crate::kalman::lemma_by_units;
use crate::linear::{M3, Quat, V2, V3};
use crate::manifold::quat_exp;
use crate::places::{law_matrices_compose, law_vector_turns, lemma_axis_of};
use crate::scalar::{exact_arithmetic, is_less, is_reading, law_exact_is_ring, lt, Scalar};
use crate::so3::{a_matrix, exp, skew};
use crate::sphere::{lemma_dot_value, lemma_norm_value, lemma_nothing, lemma_signs, lemma_skew_value};
use crate::update::turn_of;
use vstd::prelude::*;

verus! {

/// A matrix that is a sum takes a vector to the sum of the images.
proof fn lemma_sum_applied<W: Scalar>(value: spec_fn(W) -> real, m: M3<W>, n: M3<W>, v: V3<W>)
    requires
        is_reading(value),
    ensures
        m.sum(n).apply(v) == m.apply(v).sum(n.apply(v)),
{
    lemma_sum_dot(value, m.a, n.a, v);
    lemma_sum_dot(value, m.b, n.b, v);
    lemma_sum_dot(value, m.c, n.c, v);
}

proof fn lemma_sum_dot<W: Scalar>(value: spec_fn(W) -> real, a: V3<W>, b: V3<W>, v: V3<W>)
    requires
        is_reading(value),
    ensures
        a.sum(b).dot(v) == a.dot(v).plus_spec(b.dot(v)),
{
    lemma_two_times(value(a.x), value(b.x), value(v.x));
    lemma_two_times(value(a.y), value(b.y), value(v.y));
    lemma_two_times(value(a.z), value(b.z), value(v.z));
    reveal(is_reading);
    assert(value(a.sum(b).dot(v)) == value(a.dot(v).plus_spec(b.dot(v))));
}

pub(crate) proof fn lemma_two_times(a: real, b: real, s: real)
    ensures
        (a + b) * s == a * s + b * s,
{
    lemma_commutes(a + b, s);
    lemma_spread_two(s, a, b);
    lemma_commutes(a, s);
    lemma_commutes(b, s);
}

/// A multiple of a matrix takes a vector to the multiple of the image.
proof fn lemma_multiple_applied<W: Scalar>(value: spec_fn(W) -> real, m: M3<W>, k: W, v: V3<W>)
    requires
        is_reading(value),
    ensures
        m.scaled(k).apply(v) == m.apply(v).scaled(k),
{
    lemma_multiple_dot(value, m.a, k, v);
    lemma_multiple_dot(value, m.b, k, v);
    lemma_multiple_dot(value, m.c, k, v);
}

pub(crate) proof fn lemma_multiple_dot<W: Scalar>(value: spec_fn(W) -> real, a: V3<W>, k: W, v: V3<W>)
    requires
        is_reading(value),
    ensures
        a.scaled(k).dot(v) == a.dot(v).times_spec(k),
{
    let n = value(k);
    lemma_pulled(value(a.x), n, value(v.x));
    lemma_pulled(value(a.y), n, value(v.y));
    lemma_pulled(value(a.z), n, value(v.z));
    let (p, q, r) = (value(a.x) * value(v.x), value(a.y) * value(v.y), value(a.z) * value(v.z));
    lemma_two_times(p, q, n);
    lemma_two_times(p + q, r, n);
    reveal(is_reading);
    assert(value(a.scaled(k).dot(v)) == value(a.dot(v).times_spec(k)));
}

pub(crate) proof fn lemma_pulled(a: real, n: real, v: real)
    ensures
        (a * n) * v == (a * v) * n,
{
    assert((a * n) * v == (a * v) * n) by (nonlinear_arith);
}

/// A component of a vector product with the vector product.
pub(crate) proof fn lemma_twice(a: real, b: real, c: real, x: real, y: real, z: real)
    ensures
        b * (a * y - b * x) - c * (c * x - a * z) == a * (a * x + b * y + c * z) - (a * a + b * b
            + c * c) * x,
{
    lemma_spread_two(b, a * y, b * x);
    lemma_spread_two(c, c * x, a * z);
    lemma_spread_two(a, a * x, b * y);
    lemma_spread_two(a, a * x + b * y, c * z);
    lemma_two_times(a * a, b * b, x);
    lemma_two_times(a * a + b * b, c * c, x);
    lemma_trade(a, a, x);
    lemma_trade(b, b, x);
    lemma_trade(c, c, x);
    assert(b * (a * y) == a * (b * y)) by (nonlinear_arith);
    assert(c * (a * z) == a * (c * z)) by (nonlinear_arith);
}

/// A component of a vector product with what lies across and along.
proof fn lemma_thrice(b: real, c: real, d: real, n: real, y: real, z: real)
    ensures
        b * (c * d - n * z) - c * (b * d - n * y) == -(n * (b * z - c * y)),
{
    lemma_spread_two(b, c * d, n * z);
    lemma_spread_two(c, b * d, n * y);
    lemma_spread_two(n, b * z, c * y);
    assert(b * (c * d) == c * (b * d)) by (nonlinear_arith);
    assert(b * (n * z) == n * (b * z)) by (nonlinear_arith);
    assert(c * (n * y) == n * (c * y)) by (nonlinear_arith);
}

/// A component of the product of a matrix of correction and a vector product.
proof fn lemma_across(
    b: real,
    c: real,
    y: real,
    z: real,
    py: real,
    pz: real,
    qy: real,
    qz: real,
    s: real,
    t: real,
)
    ensures
        b * (z + pz * s + qz * t) - c * (y + py * s + qy * t) == (b * z - c * y) + (b * pz - c * py)
            * s + (b * qz - c * qy) * t,
{
    lemma_spread_two(b, z + pz * s, qz * t);
    lemma_spread_two(b, z, pz * s);
    lemma_spread_two(c, y + py * s, qy * t);
    lemma_spread_two(c, y, py * s);
    lemma_trade(b, pz, s);
    lemma_trade(b, qz, t);
    lemma_trade(c, py, s);
    lemma_trade(c, qy, t);
    lemma_less_times(b * pz, c * py, s);
    lemma_less_times(b * qz, c * qy, t);
}

pub(crate) proof fn lemma_less_times(a: real, b: real, s: real)
    ensures
        (a - b) * s == a * s - b * s,
{
    lemma_commutes(a - b, s);
    lemma_spread_two(s, a, b);
    lemma_commutes(a, s);
    lemma_commutes(b, s);
}

/// A component of a turn by a vector, from what the matrix of correction makes of it.
///
/// `s` and `t` are the factors of the matrix, `g` the sine of the angle by the angle; `m`,
/// `k` and `h` are the component of the vector product with the axis, that of the axis, and
/// the scalar product with the axis.
proof fn lemma_turn_component(
    u: real,
    d: real,
    l: real,
    x: real,
    p: real,
    s: real,
    t: real,
    g: real,
    sin: real,
    cos: real,
    m: real,
    k: real,
    h: real,
)
    requires
        s * (l * l) == (1int as real) - cos,
        t * (l * l) == (1int as real) - g,
        g * l == sin,
        m * l == p,
        k * l == u,
        h * l == d,
    ensures
        p + (u * d - (l * l) * x) * s + (-((l * l) * p)) * t + x == x * cos + m * sin + k * (h * ((
        1int as real) - cos)),
{
    let one = 1int as real;
    let n = l * l;
    lemma_less_times(u * d, n * x, s);
    assert((n * x) * s == x * (s * n)) by (nonlinear_arith);
    lemma_spread_two(x, one, cos);
    lemma_nothing(x);
    lemma_signs(n * p, t);
    assert((n * p) * t == p * (t * n)) by (nonlinear_arith);
    lemma_spread_two(p, one, g);
    lemma_nothing(p);
    assert((m * l) * g == m * (g * l)) by (nonlinear_arith);
    assert(((k * l) * (h * l)) * s == k * (h * (s * (l * l)))) by (nonlinear_arith);
}

/// What is known of the factors of the matrix of correction.
proof fn lemma_factors<W: Scalar>(value: spec_fn(W) -> real, u: V3<W>)
    requires
        is_reading(value),
        has_angles(value),
        is_less(W::ratio_spec(1, 10000000), u.norm()),
    ensures
        ({
            let l = value(u.norm());
            let one = W::ratio_spec(1, 1);
            let squared = u.dot(u);
            let s = value(one.minus_spec(u.norm().cos_spec()).over_spec(squared));
            let g = value(u.norm().sin_spec().over_spec(u.norm()));
            let t = value(one.minus_spec(u.norm().sin_spec().over_spec(u.norm())).over_spec(squared));
            &&& l > 0int as real
            &&& value(squared) == l * l
            &&& s * (l * l) == (1int as real) - value(u.norm().cos_spec())
            &&& t * (l * l) == (1int as real) - g
            &&& g * l == value(u.norm().sin_spec())
            &&& !is_less(u.norm(), W::ratio_spec(1, 100000000000))
        }),
{
    let l = value(u.norm());
    let one = W::ratio_spec(1, 1);
    let squared = u.dot(u);
    lemma_axis_of(value, u);
    lemma_norm_value(value, u);
    lemma_dot_value(value, u, u);
    assert(l * l > 0int as real) by (nonlinear_arith)
        requires
            l > 0int as real,
    ;
    let (tiny, small) = (W::ratio_spec(1, 100000000000), W::ratio_spec(1, 10000000));
    assert(value(tiny) * (100000000000int as real) == 1int as real && value(small) * (
    10000000int as real) == 1int as real && value(small) < l) by {
        reveal(has_angles);
        assert(lt(small, u.norm()));
    }
    assert(!lt(u.norm(), tiny)) by {
        if lt(u.norm(), tiny) {
            assert(l < value(tiny)) by {
                reveal(has_angles);
            }
        }
    }
    assert(value(one) == 1int as real) by {
        reveal(is_reading);
    }
    let c = one.minus_spec(u.norm().cos_spec());
    let g = u.norm().sin_spec().over_spec(u.norm());
    assert(value(c.over_spec(squared)) * value(squared) == value(c) && value(g) * l == value(
        u.norm().sin_spec(),
    ) && value(one.minus_spec(g).over_spec(squared)) * value(squared) == value(
        one.minus_spec(g),
    )) by {
        reveal(has_angles);
    }
    reveal(is_reading);
}

/// In exact arithmetic the matrix of correction makes turns of small errors: what it makes
/// of a vector has the part along the turn that the vector has, and its vector product with
/// the turn is what the turn adds to the vector.
pub proof fn law_correction_of_turn<W: Scalar>(u: V3<W>, w: V3<W>)
    requires
        exact_angles::<W>(),
        is_less(W::ratio_spec(1, 10000000), u.norm()),
    ensures
        u.cross(a_matrix(u).apply(w)).sum(w) == exp(u).apply(w),
        u.dot(a_matrix(u).apply(w)) == u.dot(w),
{
    law_exact_angles::<W>();
    law_vector_turns(u, w);
    reveal(exact_angles);
    let value = choose|value: spec_fn(W) -> real| #[trigger] is_reading(value) && has_angles(value);
    lemma_factors(value, u);
    lemma_axis_of(value, u);
    lemma_norm_value(value, u);
    let n = u.norm();
    let l = value(n);
    let one = W::ratio_spec(1, 1);
    let squared = u.dot(u);
    let fs = one.minus_spec(n.cos_spec()).over_spec(squared);
    let ft = one.minus_spec(n.sin_spec().over_spec(n)).over_spec(squared);
    let k = skew(u);
    let p = k.apply(w);
    let q = k.apply(p);
    let m = a_matrix(u);
    let id = M3::<W>::identity();
    assert(m == id.sum(k.scaled(fs)).sum(k.compose(k).scaled(ft)));
    lemma_sum_applied(value, id.sum(k.scaled(fs)), k.compose(k).scaled(ft), w);
    lemma_sum_applied(value, id, k.scaled(fs), w);
    lemma_multiple_applied(value, k, fs, w);
    lemma_multiple_applied(value, k.compose(k), ft, w);
    law_matrices_compose(k, k, w);
    lemma_same(value, w);
    let r = m.apply(w);
    assert(r == w.sum(p.scaled(fs)).sum(q.scaled(ft)));
    let (a, b, c) = (value(u.x), value(u.y), value(u.z));
    let (x, y, z) = (value(w.x), value(w.y), value(w.z));
    let (s, t) = (value(fs), value(ft));
    let d = a * x + b * y + c * z;
    lemma_skew_value(value, u, w);
    lemma_skew_value(value, u, p);
    let (px, py, pz) = (value(p.x), value(p.y), value(p.z));
    let (qx, qy, qz) = (value(q.x), value(q.y), value(q.z));
    lemma_twice(a, b, c, x, y, z);
    lemma_twice(b, c, a, y, z, x);
    lemma_twice(c, a, b, z, x, y);
    assert(qx == a * d - (l * l) * x);
    assert(qy == b * d - (l * l) * y);
    assert(qz == c * d - (l * l) * z);
    lemma_thrice(b, c, d, l * l, y, z);
    lemma_thrice(c, a, d, l * l, z, x);
    lemma_thrice(a, b, d, l * l, x, y);
    lemma_across(b, c, y, z, py, pz, qy, qz, s, t);
    lemma_across(c, a, z, x, pz, px, qz, qx, s, t);
    lemma_across(a, b, x, y, px, py, qx, qy, s, t);
    assert(value(r.x) == x + px * s + qx * t && value(r.y) == y + py * s + qy * t && value(r.z) == z
        + pz * s + qz * t) by {
        reveal(is_reading);
    }
    let axis = u.shared(n);
    let (e, f, g) = (value(axis.x), value(axis.y), value(axis.z));
    let h = e * x + f * y + g * z;
    lemma_two_times(e * x, f * y, l);
    lemma_two_times(e * x + f * y, g * z, l);
    lemma_pulled(e, l, x);
    lemma_pulled(f, l, y);
    lemma_pulled(g, l, z);
    assert(h * l == d);
    lemma_less_times(f * z, g * y, l);
    lemma_less_times(g * x, e * z, l);
    lemma_less_times(e * y, f * x, l);
    lemma_pulled(f, l, z);
    lemma_pulled(g, l, y);
    lemma_pulled(g, l, x);
    lemma_pulled(e, l, z);
    lemma_pulled(e, l, y);
    lemma_pulled(f, l, x);
    let (sin, cos) = (value(n.sin_spec()), value(n.cos_spec()));
    let part = value(n.sin_spec().over_spec(n));
    lemma_turn_component(a, d, l, x, px, s, t, part, sin, cos, f * z - g * y, e, h);
    lemma_turn_component(b, d, l, y, py, s, t, part, sin, cos, g * x - e * z, f, h);
    lemma_turn_component(c, d, l, z, pz, s, t, part, sin, cos, e * y - f * x, g, h);
    let rest = one.minus_spec(n.cos_spec());
    let right = w.scaled(n.cos_spec()).sum(axis.cross(w).scaled(n.sin_spec())).sum(
        axis.scaled(axis.dot(w).times_spec(rest)),
    );
    let left = u.cross(r).sum(w);
    lemma_dot_value(value, axis, w);
    assert(value(left.x) == value(right.x) && value(left.y) == value(right.y) && value(left.z)
        == value(right.z)) by {
        reveal(is_reading);
        assert(value(axis.dot(w).times_spec(rest)) == h * ((1int as real) - cos));
        assert(value(right.x) == x * cos + (f * z - g * y) * sin + e * (h * ((1int as real) - cos)));
        assert(value(right.y) == y * cos + (g * x - e * z) * sin + f * (h * ((1int as real) - cos)));
        assert(value(right.z) == z * cos + (e * y - f * x) * sin + g * (h * ((1int as real) - cos)));
        assert(value(left.x) == b * value(r.z) - c * value(r.y) + x);
        assert(value(left.y) == c * value(r.x) - a * value(r.z) + y);
        assert(value(left.z) == a * value(r.y) - b * value(r.x) + z);
    }
    assert(left == right) by {
        reveal(is_reading);
    }
    lemma_along(a, b, c, x, y, z, px, py, pz, qx, qy, qz, s, t, l * l);
    lemma_dot_value(value, u, r);
    lemma_dot_value(value, u, w);
    reveal(is_reading);
}

proof fn lemma_same<W: Scalar>(value: spec_fn(W) -> real, w: V3<W>)
    requires
        is_reading(value),
    ensures
        M3::<W>::identity().apply(w) == w,
{
    let i = M3::<W>::identity();
    lemma_nothing(value(w.x));
    lemma_nothing(value(w.y));
    lemma_nothing(value(w.z));
    lemma_commutes(1int as real, value(w.x));
    lemma_commutes(1int as real, value(w.y));
    lemma_commutes(1int as real, value(w.z));
    reveal(is_reading);
    let r = i.apply(w);
    assert(value(r.x) == value(w.x));
    assert(value(r.y) == value(w.y));
    assert(value(r.z) == value(w.z));
}

/// What lies across adds nothing along.
proof fn lemma_along(
    a: real,
    b: real,
    c: real,
    x: real,
    y: real,
    z: real,
    px: real,
    py: real,
    pz: real,
    qx: real,
    qy: real,
    qz: real,
    s: real,
    t: real,
    n: real,
)
    requires
        px == b * z - c * y,
        py == c * x - a * z,
        pz == a * y - b * x,
        qx == b * pz - c * py,
        qy == c * px - a * pz,
        qz == a * py - b * px,
    ensures
        a * (x + px * s + qx * t) + b * (y + py * s + qy * t) + c * (z + pz * s + qz * t) == a * x
            + b * y + c * z,
{
    lemma_spread_two(a, x + px * s, qx * t);
    lemma_spread_two(a, x, px * s);
    lemma_spread_two(b, y + py * s, qy * t);
    lemma_spread_two(b, y, py * s);
    lemma_spread_two(c, z + pz * s, qz * t);
    lemma_spread_two(c, z, pz * s);
    lemma_trade(a, px, s);
    lemma_trade(b, py, s);
    lemma_trade(c, pz, s);
    lemma_trade(a, qx, t);
    lemma_trade(b, qy, t);
    lemma_trade(c, qz, t);
    lemma_straight(a, b, c, x, y, z);
    lemma_straight(a, b, c, px, py, pz);
    let none = 0int as real;
    lemma_two_times(a * px, b * py, s);
    lemma_two_times(a * px + b * py, c * pz, s);
    lemma_two_times(a * qx, b * qy, t);
    lemma_two_times(a * qx + b * qy, c * qz, t);
    lemma_nothing(s);
    lemma_nothing(t);
}

proof fn lemma_straight(a: real, b: real, c: real, x: real, y: real, z: real)
    ensures
        a * (b * z - c * y) + b * (c * x - a * z) + c * (a * y - b * x) == 0int as real,
{
    lemma_spread_two(a, b * z, c * y);
    lemma_spread_two(b, c * x, a * z);
    lemma_spread_two(c, a * y, b * x);
    assert(a * (b * z) == b * (a * z)) by (nonlinear_arith);
    assert(a * (c * y) == c * (a * y)) by (nonlinear_arith);
    assert(b * (c * x) == c * (b * x)) by (nonlinear_arith);
}

/// Under `value` the sine and the cosine of an angle are made of those of its half.
#[verifier::opaque]
pub open spec fn has_halves<S: Scalar>(value: spec_fn(S) -> real) -> bool {
    forall|a: S|
        {
            let h = #[trigger] a.over_spec(S::ratio_spec(2, 1));
            let (s, c) = (value(h.sin_spec()), value(h.cos_spec()));
            &&& value(a.sin_spec()) == (s * c) * (2int as real)
            &&& value(a.cos_spec()) == (1int as real) - (s * s) * (2int as real)
            &&& s * s + c * c == 1int as real
        }
}

/// The arithmetic of `S` is exact, halves of angles included.
#[verifier::opaque]
pub open spec fn exact_halves<S: Scalar>() -> bool {
    exists|value: spec_fn(S) -> real| #[trigger]
        is_reading(value) && has_angles(value) && has_halves(value)
}

/// Exact arithmetic with halves of angles is exact arithmetic with angles.
pub proof fn law_exact_halves<S: Scalar>()
    requires
        exact_halves::<S>(),
    ensures
        exact_angles::<S>(),
        exact_arithmetic::<S>(),
{
    reveal(exact_halves);
    reveal(exact_angles);
    law_exact_angles::<S>();
}

/// A component of a vector turned by a quaternion about the axis `a`, `b`, `c` of length
/// one, with the sine `s` and the cosine `t` of half the angle.
proof fn lemma_half_turned(a: real, b: real, c: real, s: real, t: real, x: real, y: real, z: real)
    requires
        a * a + b * b + c * c == 1int as real,
    ensures
        ({
            let (i, j, k) = (a * s, b * s, c * s);
            let two = 2int as real;
            let cos = (1int as real) - (s * s) * two;
            let d = a * x + b * y + c * z;
            ((j * z - k * y) * two) * t + (j * ((i * y - j * x) * two) - k * ((k * x - i * z) * two))
                + x == x * cos + (b * z - c * y) * ((s * t) * two) + a * (d * ((1int as real) - cos))
        }),
{
    let (i, j, k) = (a * s, b * s, c * s);
    let two = 2int as real;
    let n = (s * s) * two;
    let d = a * x + b * y + c * z;
    lemma_pulled(b, s, z);
    lemma_pulled(c, s, y);
    lemma_less_times(b * z, c * y, s);
    let m = b * z - c * y;
    assert(((m * s) * two) * t == m * ((s * t) * two)) by (nonlinear_arith);
    lemma_pulled(a, s, y);
    lemma_pulled(b, s, x);
    lemma_less_times(a * y, b * x, s);
    lemma_pulled(c, s, x);
    lemma_pulled(a, s, z);
    lemma_less_times(c * x, a * z, s);
    let (f, g) = (a * y - b * x, c * x - a * z);
    assert((b * s) * ((f * s) * two) == (b * f) * n) by (nonlinear_arith)
        requires
            n == (s * s) * two,
    ;
    assert((c * s) * ((g * s) * two) == (c * g) * n) by (nonlinear_arith)
        requires
            n == (s * s) * two,
    ;
    lemma_less_times(b * f, c * g, n);
    lemma_twice(a, b, c, x, y, z);
    let one = 1int as real;
    lemma_nothing(x);
    lemma_commutes(one, x);
    lemma_less_times(a * d, x, n);
    lemma_trade(a, d, n);
    lemma_spread_two(x, one, n);
}

/// In exact arithmetic the quaternion of a rotation vector turns as its matrix does.
pub proof fn law_exponentials_agree<W: Scalar>(v: V3<W>, w: V3<W>)
    requires
        exact_halves::<W>(),
        is_less(W::ratio_spec(1, 10000000), v.norm()),
        is_less(W::ratio_spec(1, 1000000000), v.norm()),
    ensures
        quat_exp(v).rotate(w) == exp(v).apply(w),
        is_unit(quat_exp(v)),
{
    law_exact_halves::<W>();
    law_vector_turns(v, w);
    reveal(exact_halves);
    let value = choose|value: spec_fn(W) -> real| #[trigger]
        is_reading(value) && has_angles(value) && has_halves(value);
    let n = v.norm();
    let axis = v.shared(n);
    lemma_axis_of(value, v);
    let two = W::ratio_spec(2, 1);
    let half = n.over_spec(two);
    let q = quat_exp(v);
    assert(q == Quat::about(axis, n));
    let (s, t) = (value(half.sin_spec()), value(half.cos_spec()));
    assert({
        &&& value(n.sin_spec()) == (s * t) * (2int as real)
        &&& value(n.cos_spec()) == (1int as real) - (s * s) * (2int as real)
        &&& s * s + t * t == 1int as real
    }) by {
        reveal(has_halves);
    }
    let (a, b, c) = (value(axis.x), value(axis.y), value(axis.z));
    let (x, y, z) = (value(w.x), value(w.y), value(w.z));
    lemma_half_turned(a, b, c, s, t, x, y, z);
    lemma_half_turned(b, c, a, s, t, y, z, x);
    lemma_half_turned(c, a, b, s, t, z, x, y);
    let one = W::ratio_spec(1, 1);
    let rest = one.minus_spec(n.cos_spec());
    let left = q.rotate(w);
    let right = w.scaled(n.cos_spec()).sum(axis.cross(w).scaled(n.sin_spec())).sum(
        axis.scaled(axis.dot(w).times_spec(rest)),
    );
    lemma_dot_value(value, axis, w);
    let (i, j, k) = (a * s, b * s, c * s);
    lemma_quarter_length(a, b, c, s, t);
    reveal(is_reading);
    assert(value(q.w) == t && value(q.i) == i && value(q.j) == j && value(q.k) == k);
    let cos = value(n.cos_spec());
    let sin = value(n.sin_spec());
    let h = a * x + b * y + c * z;
    let r = 2int as real;
    assert(value(left.x) == ((j * z - k * y) * r) * t + (j * ((i * y - j * x) * r) - k * ((k * x - i
        * z) * r)) + x);
    assert(value(left.y) == ((k * x - i * z) * r) * t + (k * ((j * z - k * y) * r) - i * ((i * y - j
        * x) * r)) + y);
    assert(value(left.z) == ((i * y - j * x) * r) * t + (i * ((k * x - i * z) * r) - j * ((j * z - k
        * y) * r)) + z);
    assert(value(axis.dot(w).times_spec(rest)) == h * ((1int as real) - cos));
    assert(value(right.x) == x * cos + (b * z - c * y) * sin + a * (h * ((1int as real) - cos)));
    assert(value(right.y) == y * cos + (c * x - a * z) * sin + b * (h * ((1int as real) - cos)));
    assert(value(right.z) == z * cos + (a * y - b * x) * sin + c * (h * ((1int as real) - cos)));
    assert(value(left.x) == value(right.x));
    assert(value(left.y) == value(right.y));
    assert(value(left.z) == value(right.z));
    let length = q.w.times_spec(q.w).plus_spec(q.i.times_spec(q.i)).plus_spec(
        q.j.times_spec(q.j),
    ).plus_spec(q.k.times_spec(q.k));
    assert(value(length) == value(one));
}

/// The length of a quaternion about an axis of length one.
proof fn lemma_quarter_length(a: real, b: real, c: real, s: real, t: real)
    requires
        a * a + b * b + c * c == 1int as real,
        s * s + t * t == 1int as real,
    ensures
        t * t + (a * s) * (a * s) + (b * s) * (b * s) + (c * s) * (c * s) == 1int as real,
{
    lemma_square_times(a, s);
    lemma_square_times(b, s);
    lemma_square_times(c, s);
    let n = s * s;
    lemma_two_times(a * a, b * b, n);
    lemma_two_times(a * a + b * b, c * c, n);
    lemma_nothing(n);
    lemma_commutes(1int as real, n);
}

proof fn lemma_square_times(a: real, s: real)
    ensures
        (a * s) * (a * s) == (a * a) * (s * s),
{
    assert((a * s) * (a * s) == (a * a) * (s * s)) by (nonlinear_arith);
}

/// In exact arithmetic the matrix that corrects an error for a turn by it leaves the error.
pub proof fn law_correction_keeps_turn<W: Scalar>(u: V3<W>)
    requires
        exact_angles::<W>(),
        is_less(W::ratio_spec(1, 10000000), u.norm()),
    ensures
        turn_of(u.x, u.y, u.z).apply(u) == u,
{
    law_exact_angles::<W>();
    let id = M3::<W>::identity();
    let m = a_matrix(u);
    let t = m.transpose();
    law_correction_of_turn(u, id.a);
    law_correction_of_turn(u, id.b);
    law_correction_of_turn(u, id.c);
    lemma_by_units(u, V2::zeros());
    lemma_by_units(m.a, V2::zeros());
    lemma_by_units(m.b, V2::zeros());
    lemma_by_units(m.c, V2::zeros());
    assert(m.apply(id.a) == t.a && m.apply(id.b) == t.b && m.apply(id.c) == t.c);
    lemma_dot_swapped(u, t.a);
    lemma_dot_swapped(u, t.b);
    lemma_dot_swapped(u, t.c);
}

pub(crate) proof fn lemma_dot_swapped<W: Scalar>(a: V3<W>, b: V3<W>)
    requires
        exact_arithmetic::<W>(),
    ensures
        a.dot(b) == b.dot(a),
{
    law_exact_is_ring(a.x, b.x, b.x);
    law_exact_is_ring(a.y, b.y, b.y);
    law_exact_is_ring(a.z, b.z, b.z);
}

/// The square of a skew-symmetric matrix is symmetric, and that of the opposite vector.
proof fn lemma_skew_squares<W: Scalar>(value: spec_fn(W) -> real, u: V3<W>)
    requires
        is_reading(value),
    ensures
        skew(u.opposite()) == skew(u).transpose(),
        skew(u.opposite()).compose(skew(u.opposite())) == skew(u).compose(skew(u)).transpose(),
{
    let (k, o) = (skew(u), skew(u.opposite()));
    assert(o == k.transpose()) by {
        reveal(is_reading);
        let t = k.transpose();
        assert(value(o.a.x) == value(t.a.x) && value(o.a.y) == value(t.a.y) && value(o.a.z) == value(
            t.a.z,
        ));
        assert(value(o.b.x) == value(t.b.x) && value(o.b.y) == value(t.b.y) && value(o.b.z) == value(
            t.b.z,
        ));
        assert(value(o.c.x) == value(t.c.x) && value(o.c.y) == value(t.c.y) && value(o.c.z) == value(
            t.c.z,
        ));
    }
    lemma_products_turned(value, k);
}

proof fn lemma_products_turned<W: Scalar>(value: spec_fn(W) -> real, k: M3<W>)
    requires
        is_reading(value),
    ensures
        k.transpose().compose(k.transpose()) == k.compose(k).transpose(),
{
    let t = k.transpose();
    lemma_value_swapped(value, k.a, t.a);
    lemma_value_swapped(value, k.a, t.b);
    lemma_value_swapped(value, k.a, t.c);
    lemma_value_swapped(value, k.b, t.a);
    lemma_value_swapped(value, k.b, t.b);
    lemma_value_swapped(value, k.b, t.c);
    lemma_value_swapped(value, k.c, t.a);
    lemma_value_swapped(value, k.c, t.b);
    lemma_value_swapped(value, k.c, t.c);
    assert(t.transpose() == k);
}

proof fn lemma_value_swapped<W: Scalar>(value: spec_fn(W) -> real, a: V3<W>, b: V3<W>)
    requires
        is_reading(value),
    ensures
        a.dot(b) == b.dot(a),
{
    reveal(exact_arithmetic);
    lemma_dot_swapped(a, b);
}

/// In exact arithmetic the matrix of correction of the opposite turn is the transposed one.
pub proof fn law_correction_of_opposite<W: Scalar>(u: V3<W>)
    requires
        exact_arithmetic::<W>(),
    ensures
        a_matrix(u.opposite()) == a_matrix(u).transpose(),
{
    reveal(exact_arithmetic);
    let value = choose|value: spec_fn(W) -> real| #[trigger] is_reading(value);
    let o = u.opposite();
    lemma_signs(value(u.x), value(u.x));
    lemma_signs(value(u.y), value(u.y));
    lemma_signs(value(u.z), value(u.z));
    assert(o.dot(o) == u.dot(u)) by {
        reveal(is_reading);
        assert(value(o.dot(o)) == value(u.dot(u)));
    }
    lemma_skew_squares(value, u);
    let id = M3::<W>::identity();
    assert(id.transpose() == id);
}

/// In exact arithmetic an error seen from the turned state is corrected for the turn back:
/// the vector product of the turn back with what the correction makes of a vector is what
/// the turn back adds to the vector.
pub proof fn law_correction_turns_back<W: Scalar>(u: V3<W>, w: V3<W>)
    requires
        exact_angles::<W>(),
        is_less(W::ratio_spec(1, 10000000), u.opposite().norm()),
    ensures
        u.opposite().cross(turn_of(u.x, u.y, u.z).apply(w)).sum(w) == exp(u.opposite()).apply(w),
        u.dot(turn_of(u.x, u.y, u.z).apply(w)) == u.dot(w),
{
    law_exact_angles::<W>();
    law_correction_of_opposite(u);
    law_correction_of_turn(u.opposite(), w);
    reveal(exact_arithmetic);
    let value = choose|value: spec_fn(W) -> real| #[trigger] is_reading(value);
    let t = turn_of(u.x, u.y, u.z).apply(w);
    let o = u.opposite();
    lemma_dot_value(value, o, t);
    lemma_dot_value(value, o, w);
    lemma_dot_value(value, u, t);
    lemma_dot_value(value, u, w);
    assert(value(o.x) == -value(u.x) && value(o.y) == -value(u.y) && value(o.z) == -value(u.z)) by {
        reveal(is_reading);
    }
    lemma_signs(value(u.x), value(t.x));
    lemma_signs(value(u.y), value(t.y));
    lemma_signs(value(u.z), value(t.z));
    lemma_signs(value(u.x), value(w.x));
    lemma_signs(value(u.y), value(w.y));
    lemma_signs(value(u.z), value(w.z));
    assert(value(u.dot(t)) == value(u.dot(w)));
    reveal(is_reading);
}

} // verus!
