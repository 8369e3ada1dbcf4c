//! Steps on the sphere in exact arithmetic.
use crate::exact::{
    exact_angles, has_angles, is_polar, lemma_commutes, lemma_length, lemma_spread_two,
    lemma_trade, lemma_unit_axis,
};
use crate::linear::{V2, V3};
use crate::manifold::{StateIkfom, StateVec};
use crate::s2::{tolerance, S2};
use crate::scalar::{is_less, is_reading, lt, zero, Scalar};
use crate::so3::{rodrigues, skew};
use vstd::prelude::*;

verus! {

/// The basis of the tangent plane is orthonormal, and orthogonal to the direction.
pub open spec fn is_framed<W: Scalar>(s: S2<W>) -> bool {
    let b = s.s2_bx();
    &&& b.p.dot(b.p) == W::ratio_spec(1, 1)
    &&& b.q.dot(b.q) == W::ratio_spec(1, 1)
    &&& b.p.dot(b.q) == zero::<W>()
    &&& b.p.dot(s.vec) == zero::<W>()
    &&& b.q.dot(s.vec) == zero::<W>()
}

pub(crate) proof fn lemma_nothing(x: real)
    ensures
        (0int as real) * x == 0int as real,
        x * (0int as real) == 0int as real,
        x * (1int as real) == x,
{
    let none = 0int as real;
    let one = 1int as real;
    assert(none * x == none && x * none == none) by (nonlinear_arith)
        requires
            none == 0int as real,
    ;
    assert(x * one == x) by (nonlinear_arith)
        requires
            one == 1int as real,
    ;
}

/// A sum of two multiples, times `x`.
proof fn lemma_mixed(p: real, d: real, q: real, e: real, x: real)
    ensures
        (p * d + q * e) * x == d * (p * x) + e * (q * x),
{
    lemma_commutes(p * d + q * e, x);
    lemma_spread_two(x, p * d, q * e);
    assert(x * (p * d) == d * (p * x)) by (nonlinear_arith);
    assert(x * (q * e) == e * (q * x)) by (nonlinear_arith);
}

/// The scalar product of a combination of two vectors.
proof fn lemma_combined(
    p: (real, real, real),
    q: (real, real, real),
    d: real,
    e: real,
    v: (real, real, real),
)
    ensures
        (p.0 * d + q.0 * e) * v.0 + (p.1 * d + q.1 * e) * v.1 + (p.2 * d + q.2 * e) * v.2 == d * (
        p.0 * v.0 + p.1 * v.1 + p.2 * v.2) + e * (q.0 * v.0 + q.1 * v.1 + q.2 * v.2),
{
    lemma_mixed(p.0, d, q.0, e, v.0);
    lemma_mixed(p.1, d, q.1, e, v.1);
    lemma_mixed(p.2, d, q.2, e, v.2);
    lemma_spread_two(d, p.0 * v.0, p.1 * v.1);
    lemma_spread_two(d, p.0 * v.0 + p.1 * v.1, p.2 * v.2);
    lemma_spread_two(e, q.0 * v.0, q.1 * v.1);
    lemma_spread_two(e, q.0 * v.0 + q.1 * v.1, q.2 * v.2);
}

/// A row of the rotation about the axis `a`, `b`, `c` of length one, at a vector
/// orthogonal to it.
pub(crate) proof fn lemma_turned_row(
    a: real,
    b: real,
    c: real,
    s: real,
    t: real,
    x: real,
    y: real,
    z: real,
)
    requires
        a * x + b * y + c * z == 0int as real,
    ensures
        ((1int as real) + (a * a - (1int as real)) * ((1int as real) - t)) * x + ((a * b) * ((
        1int as real) - t) - c * s) * y + ((a * c) * ((1int as real) - t) + b * s) * z == t * x + s
            * (b * z - c * y),
{
    let one = 1int as real;
    let m = one - t;
    let aa = a * a;
    lemma_commutes(one + (aa - one) * m, x);
    lemma_spread_two(x, one, (aa - one) * m);
    lemma_nothing(x);
    lemma_nothing(m);
    lemma_commutes(aa - one, m);
    lemma_spread_two(m, aa, one);
    lemma_spread_two(x, m * aa, m);
    lemma_commutes((a * b) * m - c * s, y);
    lemma_spread_two(y, (a * b) * m, c * s);
    lemma_commutes((a * c) * m + b * s, z);
    lemma_spread_two(z, (a * c) * m, b * s);
    assert(x * (m * (a * a)) == (m * a) * (a * x)) by (nonlinear_arith);
    assert(y * ((a * b) * m) == (m * a) * (b * y)) by (nonlinear_arith);
    assert(z * ((a * c) * m) == (m * a) * (c * z)) by (nonlinear_arith);
    lemma_spread_two(m * a, a * x, b * y);
    lemma_spread_two(m * a, a * x + b * y, c * z);
    lemma_nothing(m * a);
    assert(y * (c * s) == s * (c * y)) by (nonlinear_arith);
    assert(z * (b * s) == s * (b * z)) by (nonlinear_arith);
    lemma_spread_two(s, b * z, c * y);
    lemma_spread_two(x, one, t);
    lemma_commutes(x, t);
}

/// A coordinate of `(k x v) x v` for orthogonal vectors.
proof fn lemma_twice_crossed(a: real, b: real, c: real, x: real, y: real, z: real)
    requires
        a * x + b * y + c * z == 0int as real,
    ensures
        (c * x - a * z) * z - (a * y - b * x) * y == -(a * (x * x + y * y + z * z)),
{
    lemma_commutes(c * x - a * z, z);
    lemma_spread_two(z, c * x, a * z);
    lemma_commutes(a * y - b * x, y);
    lemma_spread_two(y, a * y, b * x);
    assert(z * (c * x) == x * (c * z)) by (nonlinear_arith);
    assert(y * (b * x) == x * (b * y)) by (nonlinear_arith);
    assert(z * (a * z) == a * (z * z)) by (nonlinear_arith);
    assert(y * (a * y) == a * (y * y)) by (nonlinear_arith);
    assert(x * (a * x) == a * (x * x)) by (nonlinear_arith);
    lemma_spread_two(x, a * x, b * y);
    lemma_spread_two(x, a * x + b * y, c * z);
    lemma_nothing(x);
    lemma_spread_two(a, x * x, y * y);
    lemma_spread_two(a, x * x + y * y, z * z);
}

/// A coordinate of `(t v + s g) x v`.
proof fn lemma_part_crossed(t: real, s: real, y: real, z: real, g: real, h: real)
    ensures
        (t * y + s * g) * z - (t * z + s * h) * y == s * (g * z - h * y),
{
    lemma_commutes(t * y + s * g, z);
    lemma_spread_two(z, t * y, s * g);
    lemma_commutes(t * z + s * h, y);
    lemma_spread_two(y, t * z, s * h);
    assert(z * (t * y) == y * (t * z)) by (nonlinear_arith);
    assert(z * (s * g) == s * (g * z)) by (nonlinear_arith);
    assert(y * (s * h) == s * (h * y)) by (nonlinear_arith);
    lemma_spread_two(s, g * z, h * y);
}

/// The scalar product of `t v + s k x v` and `v`.
proof fn lemma_along(
    t: real,
    s: real,
    a: real,
    b: real,
    c: real,
    x: real,
    y: real,
    z: real,
)
    ensures
        (t * x + s * (b * z - c * y)) * x + (t * y + s * (c * x - a * z)) * y + (t * z + s * (a * y
            - b * x)) * z == t * (x * x + y * y + z * z),
{
    let g = b * z - c * y;
    let h = c * x - a * z;
    let k = a * y - b * x;
    lemma_commutes(t * x + s * g, x);
    lemma_spread_two(x, t * x, s * g);
    lemma_commutes(t * y + s * h, y);
    lemma_spread_two(y, t * y, s * h);
    lemma_commutes(t * z + s * k, z);
    lemma_spread_two(z, t * z, s * k);
    assert(x * (t * x) == t * (x * x)) by (nonlinear_arith);
    assert(y * (t * y) == t * (y * y)) by (nonlinear_arith);
    assert(z * (t * z) == t * (z * z)) by (nonlinear_arith);
    lemma_spread_two(t, x * x, y * y);
    lemma_spread_two(t, x * x + y * y, z * z);
    lemma_trade(x, s, g);
    lemma_trade(y, s, h);
    lemma_trade(z, s, k);
    lemma_spread_two(x, b * z, c * y);
    lemma_spread_two(y, c * x, a * z);
    lemma_spread_two(z, a * y, b * x);
    assert(x * (b * z) == z * (b * x)) by (nonlinear_arith);
    assert(x * (c * y) == y * (c * x)) by (nonlinear_arith);
    assert(y * (a * z) == z * (a * y)) by (nonlinear_arith);
    lemma_spread_two(s, x * g, y * h);
    lemma_spread_two(s, x * g + y * h, z * k);
    lemma_nothing(s);
}

pub(crate) proof fn lemma_signs(a: real, b: real)
    ensures
        (-a) * b == -(a * b),
        a * (-b) == -(a * b),
        (-a) * (-b) == a * b,
{
    assert((-a) * b == -(a * b)) by (nonlinear_arith);
    assert(a * (-b) == -(a * b)) by (nonlinear_arith);
    assert((-a) * (-b) == a * b) by (nonlinear_arith);
}

/// The square of the skew-symmetric matrix of an axis of length one.
pub(crate) proof fn lemma_skew_square<W: Scalar>(value: spec_fn(W) -> real, k: V3<W>)
    requires
        is_reading(value),
        value(k.x) * value(k.x) + value(k.y) * value(k.y) + value(k.z) * value(k.z)
            == 1int as real,
    ensures
        ({
            let m = skew(k).compose(skew(k));
            let (a, b, c) = (value(k.x), value(k.y), value(k.z));
            let one = 1int as real;
            &&& value(m.a.x) == a * a - one
            &&& value(m.a.y) == a * b
            &&& value(m.a.z) == a * c
            &&& value(m.b.x) == b * a
            &&& value(m.b.y) == b * b - one
            &&& value(m.b.z) == b * c
            &&& value(m.c.x) == c * a
            &&& value(m.c.y) == c * b
            &&& value(m.c.z) == c * c - one
        }),
{
    reveal(is_reading);
    let m = skew(k).compose(skew(k));
    let (a, b, c) = (value(k.x), value(k.y), value(k.z));
    let none = 0int as real;
    lemma_nothing(none);
    lemma_nothing(a);
    lemma_nothing(b);
    lemma_nothing(c);
    lemma_nothing(-a);
    lemma_nothing(-b);
    lemma_nothing(-c);
    lemma_signs(a, a);
    lemma_signs(b, b);
    lemma_signs(c, c);
    lemma_signs(a, b);
    lemma_signs(b, a);
    lemma_signs(a, c);
    lemma_signs(c, a);
    lemma_signs(b, c);
    lemma_signs(c, b);
    lemma_commutes(a, b);
    lemma_commutes(a, c);
    lemma_commutes(b, c);
    assert(value(m.a.x) == none * none + (-c) * c + b * (-b));
    assert(value(m.a.y) == none * (-c) + (-c) * none + b * a);
    assert(value(m.a.z) == none * b + (-c) * (-a) + b * none);
    assert(value(m.b.x) == c * none + none * c + (-a) * (-b));
    assert(value(m.b.y) == c * (-c) + none * none + (-a) * a);
    assert(value(m.b.z) == c * b + none * (-a) + (-a) * none);
    assert(value(m.c.x) == (-b) * none + a * c + none * (-b));
    assert(value(m.c.y) == (-b) * (-c) + a * none + none * a);
    assert(value(m.c.z) == (-b) * b + a * (-a) + none * none);
}

/// A rotation about an axis of length one turns a vector orthogonal to it towards their
/// vector product.
pub(crate) proof fn lemma_rodrigues<W: Scalar>(value: spec_fn(W) -> real, k: V3<W>, angle: W, v: V3<W>)
    requires
        is_reading(value),
        value(k.x) * value(k.x) + value(k.y) * value(k.y) + value(k.z) * value(k.z)
            == 1int as real,
        value(k.x) * value(v.x) + value(k.y) * value(v.y) + value(k.z) * value(v.z)
            == 0int as real,
    ensures
        ({
            let r = rodrigues(k, angle).apply(v);
            let (s, t) = (value(angle.sin_spec()), value(angle.cos_spec()));
            let (a, b, c) = (value(k.x), value(k.y), value(k.z));
            let (x, y, z) = (value(v.x), value(v.y), value(v.z));
            &&& value(r.x) == t * x + s * (b * z - c * y)
            &&& value(r.y) == t * y + s * (c * x - a * z)
            &&& value(r.z) == t * z + s * (a * y - b * x)
        }),
{
    let m = rodrigues(k, angle);
    let kk = skew(k).compose(skew(k));
    let (s, t) = (value(angle.sin_spec()), value(angle.cos_spec()));
    let (a, b, c) = (value(k.x), value(k.y), value(k.z));
    let (x, y, z) = (value(v.x), value(v.y), value(v.z));
    let one = 1int as real;
    let n = one - t;
    lemma_skew_square(value, k);
    lemma_turned_row(a, b, c, s, t, x, y, z);
    lemma_turned_row(b, c, a, s, t, y, z, x);
    lemma_turned_row(c, a, b, s, t, z, x, y);
    lemma_nothing(s);
    lemma_signs(a, s);
    lemma_signs(b, s);
    lemma_signs(c, s);
    assert({
        &&& value(m.a.x) == one + (a * a - one) * n
        &&& value(m.a.y) == (a * b) * n - c * s
        &&& value(m.a.z) == (a * c) * n + b * s
        &&& value(m.b.x) == (b * a) * n + c * s
        &&& value(m.b.y) == one + (b * b - one) * n
        &&& value(m.b.z) == (b * c) * n - a * s
        &&& value(m.c.x) == (c * a) * n - b * s
        &&& value(m.c.y) == (c * b) * n + a * s
        &&& value(m.c.z) == one + (c * c - one) * n
    }) by {
        reveal(is_reading);
    }
    assert({
        let r = m.apply(v);
        &&& value(r.x) == value(m.a.x) * x + value(m.a.y) * y + value(m.a.z) * z
        &&& value(r.y) == value(m.b.x) * x + value(m.b.y) * y + value(m.b.z) * z
        &&& value(r.z) == value(m.c.x) * x + value(m.c.y) * y + value(m.c.z) * z
    }) by {
        reveal(is_reading);
    }
}

pub(crate) proof fn lemma_square_amount(x: real)
    ensures
        x * x >= 0int as real,
{
    let none = 0int as real;
    assert(x * x >= none) by (nonlinear_arith)
        requires
            none == 0int as real,
    ;
}

/// A part of one is positive.
pub(crate) proof fn lemma_part_positive(x: real, m: real)
    requires
        m > 0int as real,
        x * m == 1int as real,
    ensures
        x > 0int as real,
{
    let none = 0int as real;
    let one = 1int as real;
    assert(x > none) by (nonlinear_arith)
        requires
            m > none,
            x * m == one,
            none == 0int as real,
            one == 1int as real,
    ;
}

/// A vector shared by its length is orthogonal to what the vector is orthogonal to.
proof fn lemma_axis_orthogonal(
    n: real,
    u: (real, real, real),
    k: (real, real, real),
    v: (real, real, real),
)
    requires
        n > 0int as real,
        k.0 * n == u.0,
        k.1 * n == u.1,
        k.2 * n == u.2,
        u.0 * v.0 + u.1 * v.1 + u.2 * v.2 == 0int as real,
    ensures
        k.0 * v.0 + k.1 * v.1 + k.2 * v.2 == 0int as real,
{
    let none = 0int as real;
    let w = k.0 * v.0 + k.1 * v.1 + k.2 * v.2;
    lemma_spread_two(n, k.0 * v.0, k.1 * v.1);
    lemma_spread_two(n, k.0 * v.0 + k.1 * v.1, k.2 * v.2);
    lemma_trade(n, k.0, v.0);
    lemma_trade(n, k.1, v.1);
    lemma_trade(n, k.2, v.2);
    lemma_commutes(n, k.0);
    lemma_commutes(n, k.1);
    lemma_commutes(n, k.2);
    assert(w == none) by (nonlinear_arith)
        requires
            n * w == none,
            n > none,
            none == 0int as real,
    ;
}

/// The vector products of a direction and the direction after a step.
proof fn lemma_arms(
    k: (real, real, real),
    v: (real, real, real),
    w: (real, real, real),
    s: real,
    t: real,
    r: real,
)
    requires
        k.0 * v.0 + k.1 * v.1 + k.2 * v.2 == 0int as real,
        w.0 == t * v.0 + s * (k.1 * v.2 - k.2 * v.1),
        w.1 == t * v.1 + s * (k.2 * v.0 - k.0 * v.2),
        w.2 == t * v.2 + s * (k.0 * v.1 - k.1 * v.0),
        r == s * (v.0 * v.0 + v.1 * v.1 + v.2 * v.2),
    ensures
        w.1 * v.2 - w.2 * v.1 == -(k.0 * r),
        w.2 * v.0 - w.0 * v.2 == -(k.1 * r),
        w.0 * v.1 - w.1 * v.0 == -(k.2 * r),
{
    let l = v.0 * v.0 + v.1 * v.1 + v.2 * v.2;
    let g = k.1 * v.2 - k.2 * v.1;
    let h = k.2 * v.0 - k.0 * v.2;
    let m = k.0 * v.1 - k.1 * v.0;
    lemma_part_crossed(t, s, v.1, v.2, h, m);
    lemma_part_crossed(t, s, v.2, v.0, m, g);
    lemma_part_crossed(t, s, v.0, v.1, g, h);
    lemma_twice_crossed(k.0, k.1, k.2, v.0, v.1, v.2);
    lemma_twice_crossed(k.1, k.2, k.0, v.1, v.2, v.0);
    lemma_twice_crossed(k.2, k.0, k.1, v.2, v.0, v.1);
    lemma_signs(s, k.0 * l);
    lemma_signs(s, k.1 * l);
    lemma_signs(s, k.2 * l);
    lemma_trade(s, k.0, l);
    lemma_trade(s, k.1, l);
    lemma_trade(s, k.2, l);
    assert(h * v.2 - m * v.1 == -(k.0 * l));
    assert(m * v.0 - g * v.2 == -(k.1 * l));
    assert(g * v.1 - h * v.0 == -(k.2 * l));
}

/// What a vector of the basis makes of the scaled axis.
proof fn lemma_pulled(
    p: (real, real, real),
    k: (real, real, real),
    u: (real, real, real),
    r: real,
    n: real,
    d: real,
)
    requires
        k.0 * n == u.0,
        k.1 * n == u.1,
        k.2 * n == u.2,
        d * r == n,
    ensures
        (p.0 * (k.0 * r) + p.1 * (k.1 * r) + p.2 * (k.2 * r)) * d == u.0 * p.0 + u.1 * p.1 + u.2
            * p.2,
{
    let (e, f, g) = (p.0 * (k.0 * r), p.1 * (k.1 * r), p.2 * (k.2 * r));
    lemma_commutes(e + f + g, d);
    lemma_spread_two(d, e, f);
    lemma_spread_two(d, e + f, g);
    let (a, b, c) = (k.0, k.1, k.2);
    let (x, y, z) = (p.0, p.1, p.2);
    assert(d * (x * (a * r)) == (a * (d * r)) * x) by (nonlinear_arith);
    assert(d * (y * (b * r)) == (b * (d * r)) * y) by (nonlinear_arith);
    assert(d * (z * (c * r)) == (c * (d * r)) * z) by (nonlinear_arith);
}

/// The length of the vector product: none, or as much as `r` says.
proof fn lemma_arm_length(k: (real, real, real), s: real, l: real, r: real, a: real)
    requires
        k.0 * k.0 + k.1 * k.1 + k.2 * k.2 == 1int as real,
        s > 0int as real,
        l >= 0int as real,
        r == s * l,
        a > 0int as real,
        a * a == (k.0 * r) * (k.0 * r) + (k.1 * r) * (k.1 * r) + (k.2 * r) * (k.2 * r),
    ensures
        l > 0int as real,
        a == r,
{
    let none = 0int as real;
    if l == none {
        lemma_nothing(s);
        lemma_nothing(k.0);
        lemma_nothing(k.1);
        lemma_nothing(k.2);
        lemma_nothing(none);
        assert(a * a > none) by (nonlinear_arith)
            requires
                a > none,
                none == 0int as real,
        ;
    }
    assert(s * l > none) by (nonlinear_arith)
        requires
            s > none,
            l > none,
            none == 0int as real,
    ;
    lemma_length(k.0, k.1, k.2, r, a);
}

/// The direction is neither that before the step nor its opposite.
pub open spec fn is_step<W: Scalar>(s: S2<W>, delta: V2<W>) -> bool {
    let u = s.s2_bx().apply(delta);
    &&& is_less(W::ratio_spec(1, 10000000), u.norm())
    &&& is_less(u.norm(), W::ratio_spec(314, 100))
    &&& is_less(tolerance(), s.stepped(delta).s2_hat().apply(s.vec).norm())
}

proof fn lemma_cancel(p: real, q: real, s: real)
    requires
        p * s == q * s,
        s > 0int as real,
    ensures
        p == q,
{
    let none = 0int as real;
    let d = p - q;
    lemma_commutes(p, s);
    lemma_commutes(q, s);
    lemma_spread_two(s, p, q);
    assert(d == none) by (nonlinear_arith)
        requires
            s * d == none,
            s > none,
            none == 0int as real,
    ;
}

/// The parts of a tangent vector: `x` and `y` along the tangent, `c` along the axis.
proof fn lemma_tangent(x: real, y: real, c: real, l: real, s: real, a: real, f: real, g: real)
    requires
        s > 0int as real,
        s == l + c,
        x * x + y * y + c * c == l * l,
        a * s == x,
        f * s == x * x,
        g * s == -(x * y),
    ensures
        f == a * x,
        g == -(a * y),
        (l - f) * x + g * y + (-x) * c == 0int as real,
        (l - f) * (l - f) + g * g + (-x) * (-x) == l * l,
{
    let h = l - c;
    let rest = x * x + y * y;
    assert(h * s == rest) by {
        lemma_spread_two(h, l, c);
        lemma_commutes(h, l);
        lemma_commutes(h, c);
        lemma_spread_two(l, l, c);
        lemma_spread_two(c, l, c);
        lemma_commutes(l, c);
    }
    lemma_commutes(a, s);
    lemma_trade(s, a, x);
    lemma_trade(s, a, y);
    lemma_commutes(a * x, s);
    lemma_commutes(a * y, s);
    lemma_signs(a * y, s);
    lemma_cancel(f, a * x, s);
    lemma_cancel(g, -(a * y), s);
    // a * (x * x + y * y) == h * x
    assert(a * rest == h * x) by {
        lemma_trade(a, h, s);
    }
    lemma_spread_two(a, x * x, y * y);
    lemma_commutes(l - f, x);
    lemma_spread_two(x, l, f);
    lemma_trade(x, a, x);
    lemma_signs(a * y, y);
    lemma_trade(y, a, y);
    lemma_commutes(a * y, y);
    lemma_signs(x, c);
    lemma_commutes(h, x);
    lemma_spread_two(x, l, c);
    lemma_commutes(x, l);
    assert(f * f + g * g == h * f) by {
        lemma_signs(a * y, a * y);
        assert((a * x) * (a * x) == a * (a * (x * x))) by (nonlinear_arith);
        assert((a * y) * (a * y) == a * (a * (y * y))) by (nonlinear_arith);
        lemma_spread_two(a, a * (x * x), a * (y * y));
        lemma_trade(a, h, x);
    }
    lemma_spread_two(l - f, l, f);
    lemma_commutes(l - f, l);
    lemma_spread_two(l, l, f);
    lemma_commutes(l - f, f);
    lemma_spread_two(f, l, f);
    lemma_commutes(l, f);
    lemma_commutes(h, f);
    lemma_spread_two(f, l, c);
    lemma_signs(x, x);
}

/// The two tangent vectors are orthogonal.
proof fn lemma_tangents_meet(
    x: real,
    y: real,
    c: real,
    l: real,
    s: real,
    a: real,
    b: real,
    f: real,
    e: real,
    g: real,
)
    requires
        s > 0int as real,
        s == l + c,
        x * x + y * y + c * c == l * l,
        f == a * x,
        e == b * y,
        a * s == x,
        b * s == y,
        g * s == -(x * y),
    ensures
        (l - f) * g + g * (l - e) + (-x) * (-y) == 0int as real,
{
    let h = l - c;
    assert(h * s == x * x + y * y) by {
        lemma_spread_two(h, l, c);
        lemma_commutes(h, l);
        lemma_commutes(h, c);
        lemma_spread_two(l, l, c);
        lemma_spread_two(c, l, c);
        lemma_commutes(l, c);
    }
    lemma_trade(s, a, x);
    lemma_trade(s, b, y);
    lemma_commutes(a, s);
    lemma_commutes(b, s);
    lemma_commutes(f + e, s);
    lemma_spread_two(s, f, e);
    lemma_cancel(f + e, h, s);
    lemma_commutes(l - f, g);
    lemma_spread_two(g, l - f, l - e);
    lemma_spread_two(g, l, e);
    assert((l - f) + (l - e) == s);
    lemma_signs(x, y);
}

/// The entries of the basis of the tangent plane, `p` and `q`, with the axis last.
proof fn lemma_basis(
    v: (real, real, real),
    l: real,
    s: real,
    a: real,
    b: real,
    f: real,
    e: real,
    g: real,
    p: (real, real, real),
    q: (real, real, real),
)
    requires
        l > 0int as real,
        s > 0int as real,
        s == l + v.2,
        v.0 * v.0 + v.1 * v.1 + v.2 * v.2 == l * l,
        a * s == v.0,
        b * s == v.1,
        f * s == v.0 * v.0,
        e * s == v.1 * v.1,
        g * s == -(v.0 * v.1),
        p.0 * l == l - f,
        p.1 * l == g,
        p.2 * l == -v.0,
        q.0 * l == g,
        q.1 * l == l - e,
        q.2 * l == -v.1,
    ensures
        p.0 * p.0 + p.1 * p.1 + p.2 * p.2 == 1int as real,
        q.0 * q.0 + q.1 * q.1 + q.2 * q.2 == 1int as real,
        p.0 * q.0 + p.1 * q.1 + p.2 * q.2 == 0int as real,
        p.0 * v.0 + p.1 * v.1 + p.2 * v.2 == 0int as real,
        q.0 * v.0 + q.1 * v.1 + q.2 * v.2 == 0int as real,
{
    let (x, y, c) = v;
    let big = (l - f, g, -x);
    let far = (g, l - e, -y);
    lemma_tangent(x, y, c, l, s, a, f, g);
    lemma_commutes(x, y);
    lemma_tangent(y, x, c, l, s, b, e, g);
    lemma_tangents_meet(x, y, c, l, s, a, b, f, e, g);
    lemma_unit_axis(big.0, big.1, big.2, l, p.0, p.1, p.2);
    lemma_unit_axis(far.0, far.1, far.2, l, q.0, q.1, q.2);
    lemma_axis_orthogonal(l, big, p, v);
    lemma_axis_orthogonal(l, far, q, v);
    lemma_axis_orthogonal(l, big, p, far);
    lemma_commutes(p.0, far.0);
    lemma_commutes(p.1, far.1);
    lemma_commutes(p.2, far.2);
    lemma_axis_orthogonal(l, far, q, p);
    lemma_commutes(p.0, q.0);
    lemma_commutes(p.1, q.1);
    lemma_commutes(p.2, q.2);
}

/// The values of a vector.
pub(crate) open spec fn values<W: Scalar>(value: spec_fn(W) -> real, v: V3<W>) -> (real, real, real) {
    (value(v.x), value(v.y), value(v.z))
}

pub(crate) proof fn lemma_dot_value<W: Scalar>(value: spec_fn(W) -> real, a: V3<W>, b: V3<W>)
    requires
        is_reading(value),
    ensures
        value(a.dot(b)) == value(a.x) * value(b.x) + value(a.y) * value(b.y) + value(a.z) * value(
            b.z,
        ),
{
    reveal(is_reading);
}

pub(crate) proof fn lemma_norm_value<W: Scalar>(value: spec_fn(W) -> real, a: V3<W>)
    requires
        is_reading(value),
        has_angles(value),
    ensures
        value(a.norm()) >= 0int as real,
        value(a.norm()) * value(a.norm()) == value(a.x) * value(a.x) + value(a.y) * value(a.y)
            + value(a.z) * value(a.z),
{
    lemma_dot_value(value, a, a);
    lemma_square_amount(value(a.x));
    lemma_square_amount(value(a.y));
    lemma_square_amount(value(a.z));
    reveal(has_angles);
}

/// The vector product by the skew-symmetric matrix.
pub(crate) proof fn lemma_skew_value<W: Scalar>(value: spec_fn(W) -> real, a: V3<W>, b: V3<W>)
    requires
        is_reading(value),
    ensures
        value(skew(a).apply(b).x) == value(a.y) * value(b.z) - value(a.z) * value(b.y),
        value(skew(a).apply(b).y) == value(a.z) * value(b.x) - value(a.x) * value(b.z),
        value(skew(a).apply(b).z) == value(a.x) * value(b.y) - value(a.y) * value(b.x),
{
    reveal(is_reading);
    lemma_nothing(value(b.x));
    lemma_nothing(value(b.y));
    lemma_nothing(value(b.z));
    lemma_signs(value(a.z), value(b.y));
    lemma_signs(value(a.x), value(b.z));
    lemma_signs(value(a.y), value(b.x));
}

/// The direction has its length, which is positive.
pub open spec fn is_on_sphere<W: Scalar>(s: S2<W>) -> bool {
    &&& s.vec.dot(s.vec) == s.length.times_spec(s.length)
    &&& is_less(zero::<W>(), s.length)
}

/// The coordinate along the axis of the direction.
pub open spec fn along_axis<W: Scalar>(s: S2<W>) -> W {
    if s.typ == 3 {
        s.vec.z
    } else if s.typ == 2 {
        s.vec.y
    } else {
        s.vec.x
    }
}

/// The entries of the basis, of which `l`, `s` and the coordinates `x` and `y` off the
/// axis are given.
proof fn lemma_entries<W: Scalar>(value: spec_fn(W) -> real, l: W, s: W, x: W, y: W)
    requires
        is_reading(value),
        has_angles(value),
        value(l) > 0int as real,
        value(s) > 0int as real,
    ensures
        ({
            let f = x.times_spec(x).over_spec(s);
            let g = x.negate_spec().times_spec(y).over_spec(s);
            &&& value(x.over_spec(s)) * value(s) == value(x)
            &&& value(f) * value(s) == value(x) * value(x)
            &&& value(g) * value(s) == -(value(x) * value(y))
            &&& value(l.minus_spec(f).over_spec(l)) * value(l) == value(l) - value(f)
            &&& value(g.over_spec(l)) * value(l) == value(g)
            &&& value(x.negate_spec().over_spec(l)) * value(l) == -value(x)
        }),
{
    reveal(is_reading);
    reveal(has_angles);
    lemma_signs(value(x), value(y));
}

/// In exact arithmetic the basis of the tangent plane is orthonormal, and orthogonal to
/// the direction, away from the opposite of the axis.
pub proof fn law_basis_is_tangent<W: Scalar>(s: S2<W>)
    requires
        exact_angles::<W>(),
        is_on_sphere(s),
        is_less(tolerance(), along_axis(s).plus_spec(s.length)),
    ensures
        is_framed(s),
{
    reveal(exact_angles);
    let value = choose|value: spec_fn(W) -> real| #[trigger] is_reading(value) && has_angles(value);
    let b = s.s2_bx();
    let (p, q, v) = (values(value, b.p), values(value, b.q), values(value, s.vec));
    let l = value(s.length);
    let sum = s.length.plus_spec(along_axis(s));
    let t = value(sum);
    assert(t == l + value(along_axis(s)) && l > 0int as real && t > 0int as real) by {
        reveal(is_reading);
        reveal(has_angles);
        let tol = tolerance::<W>();
        assert(lt(zero::<W>(), s.length));
        assert(lt(tol, along_axis(s).plus_spec(s.length)));
        assert(value(tol) * (100000000000int as real) == 1int as real);
        lemma_part_positive(value(tol), 100000000000int as real);
    }
    lemma_dot_value(value, s.vec, s.vec);
    assert(v.0 * v.0 + v.1 * v.1 + v.2 * v.2 == l * l) by {
        reveal(is_reading);
    }
    let (x, y) = if s.typ == 3 {
        (s.vec.x, s.vec.y)
    } else if s.typ == 2 {
        (s.vec.x, s.vec.z)
    } else {
        (s.vec.y, s.vec.z)
    };
    lemma_entries(value, s.length, sum, x, y);
    lemma_entries(value, s.length, sum, y, x);
    lemma_commutes(value(x), value(y));
    let f = value(x.times_spec(x).over_spec(sum));
    let e = value(y.times_spec(y).over_spec(sum));
    let (c, d) = (value(x.over_spec(sum)), value(y.over_spec(sum)));
    if s.typ == 3 {
        let g = value(x.negate_spec().times_spec(y).over_spec(sum));
        lemma_basis(v, l, t, c, d, f, e, g, p, q);
    } else if s.typ == 2 {
        let g = value(x.negate_spec().times_spec(y).over_spec(sum));
        lemma_basis(
            (v.0, v.2, v.1),
            l,
            t,
            c,
            d,
            f,
            e,
            g,
            (p.0, p.2, p.1),
            (q.0, q.2, q.1),
        );
    } else {
        let g = value(y.negate_spec().times_spec(x).over_spec(sum));
        lemma_basis(
            (v.1, v.2, v.0),
            l,
            t,
            c,
            d,
            f,
            e,
            g,
            (p.1, p.2, p.0),
            (q.1, q.2, q.0),
        );
    }
    lemma_dot_value(value, b.p, b.p);
    lemma_dot_value(value, b.q, b.q);
    lemma_dot_value(value, b.p, b.q);
    lemma_dot_value(value, b.p, s.vec);
    lemma_dot_value(value, b.q, s.vec);
    reveal(is_reading);
    let (one, o) = (W::ratio_spec(1, 1), zero::<W>());
    assert(value(b.p.dot(b.p)) == value(one));
    assert(value(b.q.dot(b.q)) == value(one));
    assert(value(b.p.dot(b.q)) == value(o));
    assert(value(b.p.dot(s.vec)) == value(o));
    assert(value(b.q.dot(s.vec)) == value(o));
}

/// The axis of a step: of length one and orthogonal to the direction.
proof fn lemma_axis_of_step<W: Scalar>(value: spec_fn(W) -> real, s: S2<W>, delta: V2<W>)
    requires
        is_reading(value),
        has_angles(value),
        is_framed(s),
        is_step(s, delta),
    ensures
        ({
            let b = s.s2_bx();
            let u = b.apply(delta);
            let n = value(u.norm());
            let k = u.shared(u.norm());
            &&& n > 0int as real
            &&& n * (100int as real) <= 314int as real
            &&& value(k.x) * n == value(u.x)
            &&& value(k.y) * n == value(u.y)
            &&& value(k.z) * n == value(u.z)
            &&& value(k.x) * value(k.x) + value(k.y) * value(k.y) + value(k.z) * value(k.z)
                == 1int as real
            &&& value(k.x) * value(s.vec.x) + value(k.y) * value(s.vec.y) + value(k.z) * value(
                s.vec.z,
            ) == 0int as real
            &&& value(u.x) * value(b.p.x) + value(u.y) * value(b.p.y) + value(u.z) * value(b.p.z)
                == value(delta.x)
            &&& value(u.x) * value(b.q.x) + value(u.y) * value(b.q.y) + value(u.z) * value(b.q.z)
                == value(delta.y)
        }),
{
    let b = s.s2_bx();
    let u = b.apply(delta);
    let k = u.shared(u.norm());
    let n = value(u.norm());
    let (d, e) = (value(delta.x), value(delta.y));
    let (p, q, v) = (values(value, b.p), values(value, b.q), values(value, s.vec));
    lemma_dot_value(value, b.p, b.p);
    lemma_dot_value(value, b.q, b.q);
    lemma_dot_value(value, b.p, b.q);
    lemma_dot_value(value, b.p, s.vec);
    lemma_dot_value(value, b.q, s.vec);
    lemma_norm_value(value, u);
    lemma_combined(p, q, d, e, v);
    lemma_combined(p, q, d, e, p);
    lemma_combined(p, q, d, e, q);
    lemma_nothing(d);
    lemma_nothing(e);
    lemma_commutes(p.0, q.0);
    lemma_commutes(p.1, q.1);
    lemma_commutes(p.2, q.2);
    assert({
        &&& value(u.x) == p.0 * d + q.0 * e
        &&& value(u.y) == p.1 * d + q.1 * e
        &&& value(u.z) == p.2 * d + q.2 * e
        &&& value(zero::<W>()) == 0int as real
        &&& value(W::ratio_spec(1, 1)) == 1int as real
    }) by {
        reveal(is_reading);
    }
    let small = W::ratio_spec(1, 10000000);
    let large = W::ratio_spec(314, 100);
    assert({
        &&& value(small) * (10000000int as real) == 1int as real
        &&& value(large) * (100int as real) == 314int as real
        &&& value(small) < n
        &&& n < value(large)
    }) by {
        reveal(has_angles);
        assert(lt(small, u.norm()));
        assert(lt(u.norm(), large));
    }
    lemma_part_positive(value(small), 10000000int as real);
    assert({
        &&& value(k.x) * n == value(u.x)
        &&& value(k.y) * n == value(u.y)
        &&& value(k.z) * n == value(u.z)
    }) by {
        reveal(has_angles);
        assert(n > 0int as real);
    }
    lemma_unit_axis(
        value(u.x),
        value(u.y),
        value(u.z),
        n,
        value(k.x),
        value(k.y),
        value(k.z),
    );
    lemma_axis_orthogonal(n, values(value, u), values(value, k), v);
}

/// In exact arithmetic the difference of directions takes back a step that was taken,
/// between directions that are neither equal nor opposite.
pub proof fn law_step_undone<W: Scalar>(s: S2<W>, delta: V2<W>)
    requires
        exact_angles::<W>(),
        is_framed(s),
        is_step(s, delta),
    ensures
        s.stepped(delta).boxminus(s) == delta,
{
    reveal(exact_angles);
    let value = choose|value: spec_fn(W) -> real| #[trigger] is_reading(value) && has_angles(value);
    lemma_axis_of_step(value, s, delta);
    let b = s.s2_bx();
    let u = b.apply(delta);
    let angle = u.norm();
    let k = u.shared(angle);
    let w = s.stepped(delta).vec;
    assert(w == rodrigues(k, angle).apply(s.vec));
    lemma_rodrigues(value, k, angle, s.vec);
    let n = value(angle);
    let (sine, cosine) = (value(angle.sin_spec()), value(angle.cos_spec()));
    let (vv, vw, vk, vu) = (
        values(value, s.vec),
        values(value, w),
        values(value, k),
        values(value, u),
    );
    let l = vv.0 * vv.0 + vv.1 * vv.1 + vv.2 * vv.2;
    let r = sine * l;
    lemma_arms(vk, vv, vw, sine, cosine, r);
    lemma_along(cosine, sine, vk.0, vk.1, vk.2, vv.0, vv.1, vv.2);
    let arm = skew(w).apply(s.vec);
    let back = skew(s.vec).apply(w);
    lemma_skew_value(value, w, s.vec);
    lemma_skew_value(value, s.vec, w);
    lemma_commutes(vv.0, vw.1);
    lemma_commutes(vv.0, vw.2);
    lemma_commutes(vv.1, vw.0);
    lemma_commutes(vv.1, vw.2);
    lemma_commutes(vv.2, vw.0);
    lemma_commutes(vv.2, vw.1);
    assert(value(back.x) == vk.0 * r);
    assert(value(back.y) == vk.1 * r);
    assert(value(back.z) == vk.2 * r);
    let v_sin = arm.norm();
    lemma_norm_value(value, arm);
    lemma_signs(vk.0 * r, vk.0 * r);
    lemma_signs(vk.1 * r, vk.1 * r);
    lemma_signs(vk.2 * r, vk.2 * r);
    lemma_square_amount(vv.0);
    lemma_square_amount(vv.1);
    lemma_square_amount(vv.2);
    assert(sine > 0int as real && value(v_sin) > 0int as real) by {
        reveal(has_angles);
        let tol = tolerance::<W>();
        assert(lt(tol, v_sin));
        assert(value(tol) * (100000000000int as real) == 1int as real);
        lemma_part_positive(value(tol), 100000000000int as real);
    }
    lemma_arm_length(vk, sine, l, r, value(v_sin));
    let dot = w.dot(s.vec);
    lemma_dot_value(value, w, s.vec);
    lemma_commutes(sine, l);
    lemma_commutes(cosine, l);
    assert(is_polar(value, v_sin, dot, angle, l));
    let theta = v_sin.atan2_spec(dot);
    let share = theta.over_spec(v_sin);
    assert(theta == angle && value(share) * r == n) by {
        reveal(has_angles);
    }
    lemma_pulled(values(value, b.p), vk, vu, r, n, value(share));
    lemma_pulled(values(value, b.q), vk, vu, r, n, value(share));
    lemma_dot_value(value, b.p, back);
    lemma_dot_value(value, b.q, back);
    let result = s.stepped(delta).boxminus(s);
    assert(result == b.pull(back).scaled(share));
    reveal(is_reading);
    assert(value(result.x) == value(delta.x));
    assert(value(result.y) == value(delta.y));
}

/// In exact arithmetic the difference of states takes back an error state that was
/// added, in its gravity.
pub proof fn law_boxminus_undoes_gravity<W: Scalar>(x: StateIkfom<W>, dx: StateVec<W>, i: int)
    requires
        exact_angles::<W>(),
        is_on_sphere(x.grav),
        is_less(tolerance(), along_axis(x.grav).plus_spec(x.grav.length)),
        is_step(x.grav, V2::new(dx[21], dx[22])),
        21 <= i < 23,
    ensures
        x.corrected(dx).boxminus(x)[i] == dx[i],
{
    law_basis_is_tangent(x.grav);
    law_step_undone(x.grav, V2::new(dx[21], dx[22]));
    let d = x.corrected(dx).boxminus(x);
    assert(i == 21 || i == 22);
}

/// In exact arithmetic a step of length `n` leads along the differential at no step: the
/// direction after it, times `n`, is the image of the step under the differential times
/// the sine of `n`, and the direction before it times `n` and the cosine of `n`.
pub proof fn law_step_slope<W: Scalar>(s: S2<W>, delta: V2<W>)
    requires
        exact_angles::<W>(),
        is_framed(s),
        is_step(s, delta),
        is_less(V2::<W>::zeros().norm(), tolerance()),
    ensures
        ({
            let n = s.s2_bx().apply(delta).norm();
            s.stepped(delta).vec.scaled(n) == s.s2_mx(V2::zeros()).apply(delta).scaled(
                n.sin_spec(),
            ).sum(s.vec.scaled(n.cos_spec()).scaled(n))
        }),
{
    reveal(exact_angles);
    let value = choose|value: spec_fn(W) -> real| #[trigger] is_reading(value) && has_angles(value);
    lemma_axis_of_step(value, s, delta);
    let b = s.s2_bx();
    let u = b.apply(delta);
    let angle = u.norm();
    let n = value(angle);
    let k = u.shared(angle);
    let w = s.stepped(delta).vec;
    assert(w == rodrigues(k, angle).apply(s.vec));
    lemma_rodrigues(value, k, angle, s.vec);
    let (c, t) = (value(angle.sin_spec()), value(angle.cos_spec()));
    let (v, vw, vk, vu) = (
        values(value, s.vec),
        values(value, w),
        values(value, k),
        values(value, u),
    );
    let tilt = s.s2_mx(V2::zeros());
    let hat = skew(s.vec).opposite();
    let image = tilt.apply(delta);
    assert(tilt.p == hat.apply(b.p) && tilt.q == hat.apply(b.q));
    lemma_tilted(value, s.vec, b.p, b.q, delta);
    lemma_led(c, t, n, v.0, vk.1, v.2, vk.2, v.1);
    lemma_led(c, t, n, v.1, vk.2, v.0, vk.0, v.2);
    lemma_led(c, t, n, v.2, vk.0, v.1, vk.1, v.0);
    assert(value(image.x) == vu.1 * v.2 - vu.2 * v.1);
    assert(value(image.y) == vu.2 * v.0 - vu.0 * v.2);
    assert(value(image.z) == vu.0 * v.1 - vu.1 * v.0);
    let left = w.scaled(angle);
    let right = image.scaled(angle.sin_spec()).sum(s.vec.scaled(angle.cos_spec()).scaled(angle));
    reveal(is_reading);
    assert(value(left.x) == value(right.x));
    assert(value(left.y) == value(right.y));
    assert(value(left.z) == value(right.z));
}

/// A coordinate of `t v + c k x v`, times `n`.
proof fn lemma_led(c: real, t: real, n: real, x: real, b: real, z: real, d: real, y: real)
    ensures
        (t * x + c * (b * z - d * y)) * n == ((b * n) * z - (d * n) * y) * c + (x * t) * n,
{
    let g = b * z - d * y;
    lemma_commutes(t * x + c * g, n);
    lemma_spread_two(n, t * x, c * g);
    assert(n * (t * x) == (x * t) * n) by (nonlinear_arith);
    lemma_trade(n, c, g);
    lemma_spread_two(n, b * z, d * y);
    assert(n * (b * z) == (b * n) * z) by (nonlinear_arith);
    assert(n * (d * y) == (d * n) * y) by (nonlinear_arith);
    lemma_commutes(c, n * g);
}

/// The image of a step under the differential is its vector product with the direction.
pub(crate) proof fn lemma_tilted<W: Scalar>(
    value: spec_fn(W) -> real,
    v: V3<W>,
    p: V3<W>,
    q: V3<W>,
    delta: V2<W>,
)
    requires
        is_reading(value),
    ensures
        ({
            let hat = skew(v).opposite();
            let u = p.scaled(delta.x).sum(q.scaled(delta.y));
            let r = hat.apply(p).scaled(delta.x).sum(hat.apply(q).scaled(delta.y));
            &&& value(r.x) == value(u.y) * value(v.z) - value(u.z) * value(v.y)
            &&& value(r.y) == value(u.z) * value(v.x) - value(u.x) * value(v.z)
            &&& value(r.z) == value(u.x) * value(v.y) - value(u.y) * value(v.x)
        }),
{
    let hat = skew(v).opposite();
    let (d, e) = (value(delta.x), value(delta.y));
    let (x, y, z) = (value(v.x), value(v.y), value(v.z));
    lemma_hat_value(value, v, p);
    lemma_hat_value(value, v, q);
    let (a, b) = (values(value, p), values(value, q));
    lemma_tilted_part(d, e, z, y, a.1, a.2, b.1, b.2);
    lemma_tilted_part(d, e, x, z, a.2, a.0, b.2, b.0);
    lemma_tilted_part(d, e, y, x, a.0, a.1, b.0, b.1);
    reveal(is_reading);
}

pub(crate) proof fn lemma_hat_value<W: Scalar>(value: spec_fn(W) -> real, v: V3<W>, p: V3<W>)
    requires
        is_reading(value),
    ensures
        value(skew(v).opposite().apply(p).x) == value(p.y) * value(v.z) - value(p.z) * value(v.y),
        value(skew(v).opposite().apply(p).y) == value(p.z) * value(v.x) - value(p.x) * value(v.z),
        value(skew(v).opposite().apply(p).z) == value(p.x) * value(v.y) - value(p.y) * value(v.x),
{
    reveal(is_reading);
    let (x, y, z) = (value(v.x), value(v.y), value(v.z));
    let (a, b, c) = (value(p.x), value(p.y), value(p.z));
    lemma_nothing(a);
    lemma_nothing(b);
    lemma_nothing(c);
    lemma_signs(0int as real, a);
    lemma_signs(0int as real, b);
    lemma_signs(0int as real, c);
    lemma_signs(y, c);
    lemma_signs(z, a);
    lemma_signs(x, b);
    lemma_commutes(z, b);
    lemma_commutes(y, c);
    lemma_commutes(z, a);
    lemma_commutes(x, c);
    lemma_commutes(y, a);
    lemma_commutes(x, b);
}

proof fn lemma_tilted_part(
    d: real,
    e: real,
    z: real,
    y: real,
    a: real,
    b: real,
    f: real,
    g: real,
)
    ensures
        (a * z - b * y) * d + (f * z - g * y) * e == (a * d + f * e) * z - (b * d + g * e) * y,
{
    lemma_mixed(a, d, f, e, z);
    lemma_mixed(b, d, g, e, y);
    lemma_commutes(a * z - b * y, d);
    lemma_spread_two(d, a * z, b * y);
    lemma_commutes(f * z - g * y, e);
    lemma_spread_two(e, f * z, g * y);
}

} // verus!
