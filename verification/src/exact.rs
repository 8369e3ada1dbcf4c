//! Rotations in exact arithmetic.
use crate::linear::{Quat, V3};
use crate::manifold::{quat_exp, quat_log, StateIkfom, StateVec};
use crate::scalar::{exact_arithmetic, is_less, is_reading, lt, zero, Scalar};
use vstd::prelude::*;

verus! {

/// Under `value`, quotients and square roots are those of the reals, an order of two
/// numbers is that of the reals, and so are the sines, cosines and arcs of angles up to
/// half a turn, as far as said here.
#[verifier::opaque]
pub open spec fn has_angles<S: Scalar>(value: spec_fn(S) -> real) -> bool {
    &&& forall|n: int, d: int|
        d > 0 ==> value(#[trigger] S::ratio_spec(n, d)) * (d as real) == n as real
    &&& forall|a: S, b: S|
        value(b) != 0int as real ==> value(#[trigger] a.over_spec(b)) * value(b) == value(a)
    &&& forall|a: S|
        value(a) >= 0int as real ==> value(#[trigger] a.root_spec()) >= 0int as real && value(
            a.root_spec(),
        ) * value(a.root_spec()) == value(a)
    &&& forall|a: S, b: S| #[trigger] lt(a, b) ==> value(a) < value(b)
    &&& forall|a: S|
        0int as real <= value(a) && value(a) * (100int as real) <= 157int as real ==> value(a) <= value(
            #[trigger] a.sin_spec(),
        ) * (2int as real)
    &&& forall|a: S|
        0int as real <= value(a) && value(a) * (100int as real) <= 157int as real ==> value(
            #[trigger] a.cos_spec(),
        ) > 0int as real
    &&& forall|a: S|
        value(a) > 0int as real && value(a) * (100int as real) <= 314int as real ==> value(
            #[trigger] a.sin_spec(),
        ) > 0int as real
    &&& forall|y: S, x: S, a: S, r: real| #[trigger]
        is_polar(value, y, x, a, r) ==> y.atan2_spec(x) == a
}

/// The point at `x`, `y` lies at the distance `r` in the direction of the angle `a`.
pub open spec fn is_polar<S: Scalar>(value: spec_fn(S) -> real, y: S, x: S, a: S, r: real) -> bool {
    &&& r > 0int as real
    &&& 0int as real <= value(a)
    &&& value(a) * (100int as real) <= 314int as real
    &&& value(y) == r * value(a.sin_spec())
    &&& value(x) == r * value(a.cos_spec())
}

/// The arithmetic of `S` is exact, angles included.
#[verifier::opaque]
pub open spec fn exact_angles<S: Scalar>() -> bool {
    exists|value: spec_fn(S) -> real| #[trigger] is_reading(value) && has_angles(value)
}

/// Exact arithmetic with angles is exact arithmetic.
pub proof fn law_exact_angles<S: Scalar>()
    requires
        exact_angles::<S>(),
    ensures
        exact_arithmetic::<S>(),
{
    reveal(exact_angles);
    reveal(exact_arithmetic);
}

/// The quaternion has length one.
pub open spec fn is_unit<W: Scalar>(q: Quat<W>) -> bool {
    q.w.times_spec(q.w).plus_spec(q.i.times_spec(q.i)).plus_spec(q.j.times_spec(q.j)).plus_spec(
        q.k.times_spec(q.k),
    ) == W::ratio_spec(1, 1)
}

pub(crate) proof fn lemma_spread_two(x: real, p: real, q: real)
    ensures
        x * (p + q) == x * p + x * q,
        x * (p - q) == x * p - x * q,
        (-x) * p == -(x * p),
{
    assert(x * (p + q) == x * p + x * q) by (nonlinear_arith);
    assert(x * (p - q) == x * p - x * q) by (nonlinear_arith);
    assert((-x) * p == -(x * p)) by (nonlinear_arith);
}

pub(crate) proof fn lemma_trade(x: real, y: real, z: real)
    ensures
        x * (y * z) == y * (x * z),
        x * (y * z) == (x * y) * z,
{
    assert(x * (y * z) == y * (x * z)) by (nonlinear_arith);
    assert(x * (y * z) == (x * y) * z) by (nonlinear_arith);
}

proof fn lemma_spread(x: real, p: real, q: real, r: real, s: real)
    ensures
        x * (p - q - r - s) == x * p - x * q - x * r - x * s,
        x * (p + q + r - s) == x * p + x * q + x * r - x * s,
        x * (p - q + r + s) == x * p - x * q + x * r + x * s,
        x * (p + q - r + s) == x * p + x * q - x * r + x * s,
{
    lemma_spread_two(x, p, q);
    lemma_spread_two(x, p - q, r);
    lemma_spread_two(x, p + q, r);
    lemma_spread_two(x, p - q - r, s);
    lemma_spread_two(x, p + q + r, s);
    lemma_spread_two(x, p - q + r, s);
    lemma_spread_two(x, p + q - r, s);
}

/// What `x` and its opposite make of the parts of a product of quaternions.
pub(crate) proof fn lemma_times_parts(
    x: real,
    w: real,
    i: real,
    j: real,
    k: real,
    a: real,
    b: real,
    c: real,
    d: real,
)
    ensures
        x * (w * a - i * b - j * c - k * d) == x * (w * a) - x * (i * b) - x * (j * c) - x * (k * d),
        x * (w * b + i * a + j * d - k * c) == x * (w * b) + x * (i * a) + x * (j * d) - x * (k * c),
        x * (w * c - i * d + j * a + k * b) == x * (w * c) - x * (i * d) + x * (j * a) + x * (k * b),
        x * (w * d + i * c - j * b + k * a) == x * (w * d) + x * (i * c) - x * (j * b) + x * (k * a),
        (-x) * (w * a - i * b - j * c - k * d) == -(x * (w * a - i * b - j * c - k * d)),
        (-x) * (w * b + i * a + j * d - k * c) == -(x * (w * b + i * a + j * d - k * c)),
        (-x) * (w * c - i * d + j * a + k * b) == -(x * (w * c - i * d + j * a + k * b)),
        (-x) * (w * d + i * c - j * b + k * a) == -(x * (w * d + i * c - j * b + k * a)),
{
    lemma_spread(x, w * a, i * b, j * c, k * d);
    lemma_spread(x, w * b, i * a, j * d, k * c);
    lemma_spread(x, w * c, i * d, j * a, k * b);
    lemma_spread(x, w * d, i * c, j * b, k * a);
    lemma_spread_two(x, w * a - i * b - j * c - k * d, x);
    lemma_spread_two(x, w * b + i * a + j * d - k * c, x);
    lemma_spread_two(x, w * c - i * d + j * a + k * b, x);
    lemma_spread_two(x, w * d + i * c - j * b + k * a, x);
}

/// The products of two parts of a unit quaternion with `a`.
proof fn lemma_pairs(w: real, i: real, j: real, k: real, a: real)
    requires
        w * w + i * i + j * j + k * k == 1int as real,
    ensures
        w * (i * a) == i * (w * a),
        w * (j * a) == j * (w * a),
        w * (k * a) == k * (w * a),
        i * (j * a) == j * (i * a),
        i * (k * a) == k * (i * a),
        j * (k * a) == k * (j * a),
        w * (w * a) + i * (i * a) + j * (j * a) + k * (k * a) == a,
{
    lemma_trade(w, i, a);
    lemma_trade(w, j, a);
    lemma_trade(w, k, a);
    lemma_trade(i, j, a);
    lemma_trade(i, k, a);
    lemma_trade(j, k, a);
    lemma_trade(w, w, a);
    lemma_trade(i, i, a);
    lemma_trade(j, j, a);
    lemma_trade(k, k, a);
    let ww = w * w;
    let ii = i * i;
    let jj = j * j;
    let kk = k * k;
    lemma_commutes(a, ww);
    lemma_commutes(a, ii);
    lemma_commutes(a, jj);
    lemma_commutes(a, kk);
    lemma_spread_two(a, ww, ii);
    lemma_spread_two(a, ww + ii, jj);
    lemma_spread_two(a, ww + ii + jj, kk);
    let one = 1int as real;
    assert(a * one == a) by (nonlinear_arith)
        requires
            one == 1int as real,
    ;
}

pub(crate) proof fn lemma_commutes(x: real, y: real)
    ensures
        x * y == y * x,
{
    assert(x * y == y * x) by (nonlinear_arith);
}

/// In exact arithmetic the opposite of a rotation undoes it.
pub proof fn law_turn_undone<W: Scalar>(q: Quat<W>, e: Quat<W>)
    requires
        exact_arithmetic::<W>(),
        is_unit(q),
    ensures
        q.conjugate().compose(q.compose(e)) == e,
{
    reveal(exact_arithmetic);
    reveal(is_reading);
    let value = choose|value: spec_fn(W) -> real| #[trigger] is_reading(value);
    assert(value(q.w.times_spec(q.w).plus_spec(q.i.times_spec(q.i)).plus_spec(
        q.j.times_spec(q.j),
    ).plus_spec(q.k.times_spec(q.k))) == 1int as real);
    let (w, i, j, k) = (value(q.w), value(q.i), value(q.j), value(q.k));
    let (a, b, c, d) = (value(e.w), value(e.i), value(e.j), value(e.k));
    lemma_times_parts(w, w, i, j, k, a, b, c, d);
    lemma_times_parts(i, w, i, j, k, a, b, c, d);
    lemma_times_parts(j, w, i, j, k, a, b, c, d);
    lemma_times_parts(k, w, i, j, k, a, b, c, d);
    lemma_pairs(w, i, j, k, a);
    lemma_pairs(w, i, j, k, b);
    lemma_pairs(w, i, j, k, c);
    lemma_pairs(w, i, j, k, d);
    let r = q.conjugate().compose(q.compose(e));
    assert(value(r.w) == value(e.w));
    assert(value(r.i) == value(e.i));
    assert(value(r.j) == value(e.j));
    assert(value(r.k) == value(e.k));
}

proof fn lemma_twice(x: real, p: real)
    ensures
        (p * (2int as real)) * x == (x * p) * (2int as real),
        x * (p * (2int as real)) == (x * p) * (2int as real),
{
    let two = 2int as real;
    assert((p * two) * x == (x * p) * two) by (nonlinear_arith);
    assert(x * (p * two) == (x * p) * two) by (nonlinear_arith);
}

/// A coordinate of a rotated vector, by the quaternion and by its matrix.
proof fn lemma_rotated(w: real, i: real, j: real, k: real, x: real, y: real, z: real)
    requires
        w * w + i * i + j * j + k * k == 1int as real,
    ensures
        ((j * z - k * y) * (2int as real)) * w + (j * ((i * y - j * x) * (2int as real)) - k * ((k
            * x - i * z) * (2int as real))) + x == (w * w + i * i - j * j - k * k) * x + ((i * j)
            * (2int as real) - (w * k) * (2int as real)) * y + ((w * j) * (2int as real) + (i * k)
            * (2int as real)) * z,
{
    let two = 2int as real;
    lemma_twice(w, j * z - k * y);
    lemma_twice(j, i * y - j * x);
    lemma_twice(k, k * x - i * z);
    lemma_spread_two(w, j * z, k * y);
    lemma_spread_two(j, i * y, j * x);
    lemma_spread_two(k, k * x, i * z);
    lemma_trade(w, j, z);
    lemma_trade(w, k, y);
    lemma_trade(j, i, y);
    lemma_trade(i, j, y);
    lemma_trade(j, j, x);
    lemma_trade(k, k, x);
    lemma_trade(k, i, z);
    lemma_trade(i, k, z);
    lemma_trade(w, w, x);
    lemma_trade(i, i, x);
    lemma_pairs(w, i, j, k, x);
    lemma_commutes(w * w + i * i - j * j - k * k, x);
    lemma_spread_two(x, w * w, i * i);
    lemma_spread_two(x, w * w + i * i, j * j);
    lemma_spread_two(x, w * w + i * i - j * j, k * k);
    lemma_commutes(w * w, x);
    lemma_commutes(i * i, x);
    lemma_commutes(j * j, x);
    lemma_commutes(k * k, x);
    lemma_commutes((i * j) * two - (w * k) * two, y);
    lemma_spread_two(y, (i * j) * two, (w * k) * two);
    lemma_twice(y, i * j);
    lemma_twice(y, w * k);
    lemma_commutes(y, i * j);
    lemma_commutes(y, w * k);
    lemma_commutes((w * j) * two + (i * k) * two, z);
    lemma_spread_two(z, (w * j) * two, (i * k) * two);
    lemma_twice(z, w * j);
    lemma_twice(z, i * k);
    lemma_commutes(z, w * j);
    lemma_commutes(z, i * k);
}

/// In exact arithmetic a rotation turns vectors as its matrix does.
pub proof fn law_matrix_rotates<W: Scalar>(q: Quat<W>, v: V3<W>)
    requires
        exact_arithmetic::<W>(),
        is_unit(q),
    ensures
        q.matrix().apply(v) == q.rotate(v),
{
    reveal(exact_arithmetic);
    reveal(is_reading);
    let value = choose|value: spec_fn(W) -> real| #[trigger] is_reading(value);
    assert(value(q.w.times_spec(q.w).plus_spec(q.i.times_spec(q.i)).plus_spec(
        q.j.times_spec(q.j),
    ).plus_spec(q.k.times_spec(q.k))) == 1int as real);
    let (w, i, j, k) = (value(q.w), value(q.i), value(q.j), value(q.k));
    let (x, y, z) = (value(v.x), value(v.y), value(v.z));
    lemma_rotated(w, i, j, k, x, y, z);
    lemma_rotated(w, j, k, i, y, z, x);
    lemma_rotated(w, k, i, j, z, x, y);
    lemma_commutes(i, j);
    lemma_commutes(i, k);
    lemma_commutes(j, k);
    let a = q.matrix().apply(v);
    let b = q.rotate(v);
    assert(value(b.x) == ((j * z - k * y) * (2int as real)) * w + (j * ((i * y - j * x) * (
    2int as real)) - k * ((k * x - i * z) * (2int as real))) + x);
    assert(value(b.y) == ((k * x - i * z) * (2int as real)) * w + (k * ((j * z - k * y) * (
    2int as real)) - i * ((i * y - j * x) * (2int as real))) + y);
    assert(value(b.z) == ((i * y - j * x) * (2int as real)) * w + (i * ((k * x - i * z) * (
    2int as real)) - j * ((j * z - k * y) * (2int as real))) + z);
    assert(value(a.x) == value(b.x));
    assert(value(a.y) == value(b.y));
    assert(value(a.z) == value(b.z));
}

/// In exact arithmetic a scalar product falls by as much as that of what is taken away.
pub proof fn law_dot_falls<W: Scalar>(m: V3<W>, a: V3<W>, b: V3<W>, d: V3<W>)
    requires
        exact_arithmetic::<W>(),
    ensures
        m.dot(a.diff(b.sum(d))) == m.dot(a.diff(b)).plus_spec(m.opposite().dot(d)),
{
    reveal(exact_arithmetic);
    reveal(is_reading);
    let value = choose|value: spec_fn(W) -> real| #[trigger] is_reading(value);
    lemma_spread_two(value(m.x), value(a.x) - value(b.x), value(d.x));
    lemma_spread_two(value(m.y), value(a.y) - value(b.y), value(d.y));
    lemma_spread_two(value(m.z), value(a.z) - value(b.z), value(d.z));
    lemma_spread_two(value(m.x), value(d.x), value(d.x));
    lemma_spread_two(value(m.y), value(d.y), value(d.y));
    lemma_spread_two(value(m.z), value(d.z), value(d.z));
    assert(value(a.diff(b.sum(d)).x) == (value(a.x) - value(b.x)) - value(d.x));
    assert(value(a.diff(b.sum(d)).y) == (value(a.y) - value(b.y)) - value(d.y));
    assert(value(a.diff(b.sum(d)).z) == (value(a.z) - value(b.z)) - value(d.z));
    assert(value(m.dot(a.diff(b.sum(d)))) == value(
        m.dot(a.diff(b)).plus_spec(m.opposite().dot(d)),
    ));
}

/// The vector is none, or longer than what [`quat_exp`] takes for none and shorter than
/// half a turn.
pub open spec fn is_turn<W: Scalar>(v: V3<W>) -> bool {
    v == V3::<W>::zeros() || (is_less(W::ratio_spec(1, 1000000000), v.norm()) && is_less(
        v.norm(),
        W::ratio_spec(314, 100),
    ))
}

proof fn lemma_axis(x: real, u: real, n: real)
    requires
        u * n == x,
    ensures
        x * x == (n * n) * (u * u),
{
    assert(x * x == (n * n) * (u * u)) by (nonlinear_arith)
        requires
            u * n == x,
    ;
}

/// A vector shared by its length has length one.
pub(crate) proof fn lemma_unit_axis(x: real, y: real, z: real, n: real, ux: real, uy: real, uz: real)
    requires
        n > 0int as real,
        ux * n == x,
        uy * n == y,
        uz * n == z,
        n * n == x * x + y * y + z * z,
    ensures
        ux * ux + uy * uy + uz * uz == 1int as real,
{
    lemma_axis(x, ux, n);
    lemma_axis(y, uy, n);
    lemma_axis(z, uz, n);
    let m = n * n;
    let none = 0int as real;
    assert(m > none) by (nonlinear_arith)
        requires
            n > none,
            none == 0int as real,
            m == n * n,
    ;
    lemma_spread_two(m, ux * ux, uy * uy);
    lemma_spread_two(m, ux * ux + uy * uy, uz * uz);
    let u = ux * ux + uy * uy + uz * uz;
    let one = 1int as real;
    assert(u == one) by (nonlinear_arith)
        requires
            m * u == m,
            m > none,
            none == 0int as real,
            one == 1int as real,
    ;
}

/// A vector of length one times `s` has length `s`.
pub(crate) proof fn lemma_length(ux: real, uy: real, uz: real, s: real, l: real)
    requires
        ux * ux + uy * uy + uz * uz == 1int as real,
        s > 0int as real,
        l >= 0int as real,
        l * l == (ux * s) * (ux * s) + (uy * s) * (uy * s) + (uz * s) * (uz * s),
    ensures
        l == s,
{
    let m = s * s;
    lemma_axis(ux * s, ux, s);
    lemma_axis(uy * s, uy, s);
    lemma_axis(uz * s, uz, s);
    lemma_spread_two(m, ux * ux, uy * uy);
    lemma_spread_two(m, ux * ux + uy * uy, uz * uz);
    let one = 1int as real;
    assert(m * one == m) by (nonlinear_arith)
        requires
            one == 1int as real,
    ;
    let none = 0int as real;
    assert(l < s ==> l * l < s * s) by (nonlinear_arith)
        requires
            l >= none,
            s > none,
            none == 0int as real,
    ;
    assert(l > s ==> l * l > s * s) by (nonlinear_arith)
        requires
            l >= none,
            s > none,
            none == 0int as real,
    ;
}

/// A quotient is the product with the inverse.
proof fn lemma_share(s: real, c: real, t: real, r: real)
    requires
        c > 0int as real,
        t * c == s,
        r * c == 1int as real,
    ensures
        r > 0int as real,
        t == r * s,
{
    let none = 0int as real;
    let one = 1int as real;
    assert(r > none) by (nonlinear_arith)
        requires
            c > none,
            r * c == one,
            one == 1int as real,
            none == 0int as real,
    ;
    lemma_trade(r, t, c);
    assert(t * one == t) by (nonlinear_arith)
        requires
            one == 1int as real,
    ;
}

proof fn lemma_turned_back(x: real, u: real, n: real, s: real, h: real, d: real)
    requires
        u * n == x,
        h * (2int as real) == n,
        d * s == 2int as real,
    ensures
        (u * s) * (d * h) == x,
{
    assert((u * s) * (d * h) == u * ((d * s) * h)) by (nonlinear_arith);
    lemma_commutes(h, 2int as real);
}

/// In exact arithmetic the logarithm undoes the exponential of a vector shorter than
/// half a turn.
pub proof fn law_log_undoes_exp<W: Scalar>(v: V3<W>)
    requires
        exact_angles::<W>(),
        is_turn(v),
    ensures
        quat_log(quat_exp(v)) == v,
{
    reveal(exact_angles);
    let value = choose|value: spec_fn(W) -> real| #[trigger] is_reading(value) && has_angles(value);
    if v == V3::<W>::zeros() {
        lemma_none(value);
    } else {
        lemma_some(v, value);
    }
}

pub(crate) proof fn lemma_no_length<W: Scalar>(value: spec_fn(W) -> real)
    requires
        is_reading(value),
        has_angles(value),
    ensures
        value(V3::<W>::zeros().norm()) == 0int as real,
{
    reveal(is_reading);
    reveal(has_angles);
    let none = 0int as real;
    let v = V3::<W>::zeros();
    assert(none * none == none) by (nonlinear_arith)
        requires
            none == 0int as real,
    ;
    let square = v.dot(v);
    assert(value(square) == none);
    let n = value(square.root_spec());
    assert(n == none) by (nonlinear_arith)
        requires
            n * n == none,
            none == 0int as real,
    ;
}

/// In exact arithmetic no turn is the rotation by no angle, and has no logarithm but zero.
pub proof fn law_no_turn<W: Scalar>()
    requires
        exact_angles::<W>(),
    ensures
        quat_exp(V3::<W>::zeros()) == Quat::<W>::identity(),
        quat_log(Quat::<W>::identity()) == V3::<W>::zeros(),
{
    reveal(exact_angles);
    let value = choose|value: spec_fn(W) -> real| #[trigger] is_reading(value) && has_angles(value);
    lemma_none(value);
}

proof fn lemma_none<W: Scalar>(value: spec_fn(W) -> real)
    requires
        is_reading(value),
        has_angles(value),
    ensures
        quat_exp(V3::<W>::zeros()) == Quat::<W>::identity(),
        quat_log(quat_exp(V3::<W>::zeros())) == V3::<W>::zeros(),
{
    reveal(is_reading);
    reveal(has_angles);
    lemma_no_length(value);
    let o = zero::<W>();
    let v = V3::<W>::zeros();
    let small = W::ratio_spec(1, 1000000000);
    assert(value(small) * (1000000000int as real) == 1int as real);
    assert(!lt(small, v.norm()));
    let q = quat_exp(v);
    assert(q == Quat::<W>::identity());
    let r = quat_log(q);
    let length = q.vector().norm();
    let tiny = W::ratio_spec(1, 100000000000);
    let m = if lt(length, tiny) {
        tiny
    } else {
        length
    };
    let k = W::ratio_spec(2, 1).over_spec(m).times_spec(
        m.over_spec(q.w).atan2_spec(W::ratio_spec(1, 1)),
    );
    lemma_by_none(value, k);
    assert(r == V3::new(o.times_spec(k), o.times_spec(k), o.times_spec(k)));
}

proof fn lemma_by_none<W: Scalar>(value: spec_fn(W) -> real, k: W)
    requires
        is_reading(value),
    ensures
        zero::<W>().times_spec(k) == zero::<W>(),
{
    reveal(is_reading);
    let none = 0int as real;
    let x = value(k);
    assert(none * x == none) by (nonlinear_arith)
        requires
            none == 0int as real,
    ;
    assert(value(zero::<W>().times_spec(k)) == value(zero::<W>()));
}

proof fn lemma_some<W: Scalar>(v: V3<W>, value: spec_fn(W) -> real)
    requires
        is_reading(value),
        has_angles(value),
        is_less(W::ratio_spec(1, 1000000000), v.norm()),
        is_less(v.norm(), W::ratio_spec(314, 100)),
    ensures
        quat_log(quat_exp(v)) == v,
{
    reveal(is_reading);
    reveal(has_angles);
    let none = 0int as real;
    let n = v.norm();
    let small = W::ratio_spec(1, 1000000000);
    let large = W::ratio_spec(314, 100);
    assert(value(small) * (1000000000int as real) == 1int as real);
    assert(value(large) * (100int as real) == 314int as real);
    assert(value(small) < value(n) && value(n) < value(large));
    let (x, y, z) = (value(v.x), value(v.y), value(v.z));
    assert(x * x >= none && y * y >= none && z * z >= none) by (nonlinear_arith)
        requires
            none == 0int as real,
    ;
    assert(value(v.dot(v)) == x * x + y * y + z * z);
    let axis = v.shared(n);
    let (ux, uy, uz) = (value(axis.x), value(axis.y), value(axis.z));
    lemma_unit_axis(x, y, z, value(n), ux, uy, uz);
    let half = n.over_spec(W::ratio_spec(2, 1));
    let h = value(half);
    assert(h * (2int as real) == value(n));
    assert(h * (100int as real) <= 157int as real);
    let sine = half.sin_spec();
    let cosine = half.cos_spec();
    let s = value(sine);
    assert(h <= s * (2int as real));
    let q = quat_exp(v);
    assert(q == Quat::about(axis, n));
    let length = q.vector().norm();
    assert(value(q.i) == ux * s && value(q.j) == uy * s && value(q.k) == uz * s);
    let square = q.vector().dot(q.vector());
    let (a, b, c) = (ux * s, uy * s, uz * s);
    assert(a * a >= none && b * b >= none && c * c >= none) by (nonlinear_arith)
        requires
            none == 0int as real,
    ;
    assert(value(square) == a * a + b * b + c * c);
    lemma_length(ux, uy, uz, s, value(length));
    assert(length == sine);
    let tiny = W::ratio_spec(1, 100000000000);
    assert(value(tiny) * (100000000000int as real) == 1int as real);
    assert(!lt(length, tiny));
    let share = W::ratio_spec(2, 1).over_spec(sine);
    assert(value(share) * s == 2int as real);
    let one = W::ratio_spec(1, 1);
    let slope = sine.over_spec(cosine);
    let far = value(one.over_spec(cosine));
    lemma_share(s, value(cosine), value(slope), far);
    assert(is_polar(value, slope, one, half, far));
    let k = share.times_spec(slope.atan2_spec(one));
    assert(k == share.times_spec(half));
    let r = quat_log(q);
    assert(r == q.vector().scaled(k));
    lemma_turned_back(x, ux, value(n), s, h, value(share));
    lemma_turned_back(y, uy, value(n), s, h, value(share));
    lemma_turned_back(z, uz, value(n), s, h, value(share));
    assert(value(r.x) == value(v.x));
    assert(value(r.y) == value(v.y));
    assert(value(r.z) == value(v.z));
}

/// In exact arithmetic the difference of states takes back an error state that was
/// added, in its rotations.
pub proof fn law_boxminus_undoes_turns<W: Scalar>(x: StateIkfom<W>, dx: StateVec<W>, i: int)
    requires
        exact_angles::<W>(),
        is_unit(x.rot),
        is_unit(x.offset_r_l_i),
        is_turn(V3::new(dx[3], dx[4], dx[5])),
        is_turn(V3::new(dx[6], dx[7], dx[8])),
        3 <= i < 9,
    ensures
        x.corrected(dx).boxminus(x)[i] == dx[i],
{
    law_exact_angles::<W>();
    let u = V3::new(dx[3], dx[4], dx[5]);
    let v = V3::new(dx[6], dx[7], dx[8]);
    law_turn_undone(x.rot, quat_exp(u));
    law_turn_undone(x.offset_r_l_i, quat_exp(v));
    law_log_undoes_exp(u);
    law_log_undoes_exp(v);
    let d = x.corrected(dx).boxminus(x);
    assert(i == 3 || i == 4 || i == 5 || i == 6 || i == 7 || i == 8);
}

} // verus!
