//! Angles, vectors and quaternions of rotations, in exact arithmetic.
use crate::exact::{
    exact_angles, has_angles, is_polar, is_unit, lemma_commutes, };
use crate::frames::{
    exact_halves, has_halves, lemma_less_times, lemma_two_times,
};
use crate::laser_mapping::LioResult;
use crate::linear::{M3, Quat, V3};
use crate::nav::{chassis_pose, yaw_from_quat};
use crate::scalar::{exact_arithmetic, is_less, is_reading, lt, zero, Scalar};
use crate::so3::{angle_of, log, rodrigues, rot_m_to_euler};
use crate::sphere::{lemma_nothing, lemma_signs, lemma_skew_square};
use vstd::prelude::*;

verus! {

/// In exact arithmetic the opposite rotation has the opposite logarithm.
pub proof fn law_opposite_log<W: Scalar>(r: M3<W>)
    requires
        exact_arithmetic::<W>(),
    ensures
        log(r.transpose()) == log(r).opposite(),
{
    reveal(exact_arithmetic);
    let value = choose|value: spec_fn(W) -> real| #[trigger] is_reading(value);
    let t = r.transpose();
    assert(t.trace() == r.trace());
    let theta = angle_of(r);
    let f = if is_less(theta.magnitude_spec(), W::ratio_spec(1, 1000)) {
        W::ratio_spec(1, 2)
    } else {
        W::ratio_spec(1, 2).times_spec(theta).over_spec(theta.sin_spec())
    };
    lemma_turned_sign(value, r.c.y, r.b.z, f);
    lemma_turned_sign(value, r.a.z, r.c.x, f);
    lemma_turned_sign(value, r.b.x, r.a.y, f);
}

proof fn lemma_turned_sign<W: Scalar>(value: spec_fn(W) -> real, a: W, b: W, f: W)
    requires
        is_reading(value),
    ensures
        b.minus_spec(a).times_spec(f) == a.minus_spec(b).times_spec(f).negate_spec(),
{
    lemma_less_times(value(a), value(b), value(f));
    lemma_less_times(value(b), value(a), value(f));
    reveal(is_reading);
    let (l, r) = (b.minus_spec(a).times_spec(f), a.minus_spec(b).times_spec(f).negate_spec());
    assert(value(l) == value(r));
}

/// The entries of the rotation by an angle about an axis of length one.
proof fn lemma_turn_entries<W: Scalar>(value: spec_fn(W) -> real, k: V3<W>, angle: W)
    requires
        is_reading(value),
        value(k.x) * value(k.x) + value(k.y) * value(k.y) + value(k.z) * value(k.z)
            == 1int as real,
    ensures
        ({
            let m = rodrigues(k, angle);
            let (s, t) = (value(angle.sin_spec()), value(angle.cos_spec()));
            let (a, b, c) = (value(k.x), value(k.y), value(k.z));
            let one = 1int as real;
            let n = one - t;
            &&& value(m.a.x) == one + (a * a - one) * n
            &&& value(m.a.y) == (a * b) * n - c * s
            &&& value(m.a.z) == (a * c) * n + b * s
            &&& value(m.b.x) == (b * a) * n + c * s
            &&& value(m.b.y) == one + (b * b - one) * n
            &&& value(m.b.z) == (b * c) * n - a * s
            &&& value(m.c.x) == (c * a) * n - b * s
            &&& value(m.c.y) == (c * b) * n + a * s
            &&& value(m.c.z) == one + (c * c - one) * n
        }),
{
    let s = value(angle.sin_spec());
    lemma_skew_square(value, k);
    lemma_nothing(s);
    lemma_signs(value(k.x), s);
    lemma_signs(value(k.y), s);
    lemma_signs(value(k.z), s);
    reveal(is_reading);
}

/// An angle from nothing to half a turn.
pub open spec fn is_part_turn<W: Scalar>(a: W) -> bool {
    is_less(zero::<W>(), a) && is_less(a, W::ratio_spec(314, 100))
}

proof fn lemma_part_turn<W: Scalar>(value: spec_fn(W) -> real, a: W)
    requires
        is_reading(value),
        has_angles(value),
        is_part_turn(a),
    ensures
        value(a) > 0int as real,
        value(a) * (100int as real) <= 314int as real,
        value(a.sin_spec()) > 0int as real,
{
    let far = W::ratio_spec(314, 100);
    assert(value(zero::<W>()) == 0int as real) by {
        reveal(is_reading);
    }
    assert(value(far) * (100int as real) == 314int as real && value(zero::<W>()) < value(a) && value(
        a,
    ) < value(far)) by {
        reveal(has_angles);
        assert(lt(zero::<W>(), a) && lt(a, far));
    }
    let (x, y) = (value(a), value(far));
    assert(x * (100int as real) <= 314int as real) by (nonlinear_arith)
        requires
            x < y,
            y * (100int as real) == 314int as real,
    ;
    reveal(has_angles);
}

/// In exact arithmetic the logarithm of a rotation about an axis is the axis times the
/// angle, wherever the angle of the rotation is found.
pub proof fn law_log_of_turn<W: Scalar>(k: V3<W>, angle: W)
    requires
        exact_angles::<W>(),
        k.dot(k) == W::ratio_spec(1, 1),
        is_part_turn(angle),
        angle_of(rodrigues(k, angle)) == angle,
        !is_less(angle.magnitude_spec(), W::ratio_spec(1, 1000)),
    ensures
        log(rodrigues(k, angle)) == k.scaled(angle),
{
    reveal(exact_angles);
    let value = choose|value: spec_fn(W) -> real| #[trigger] is_reading(value) && has_angles(value);
    let (a, b, c) = (value(k.x), value(k.y), value(k.z));
    assert(a * a + b * b + c * c == 1int as real) by {
        reveal(is_reading);
        assert(value(k.dot(k)) == value(W::ratio_spec(1, 1)));
    }
    lemma_turn_entries(value, k, angle);
    lemma_part_turn(value, angle);
    let m = rodrigues(k, angle);
    let half = W::ratio_spec(1, 2);
    let (s, h, x) = (value(angle.sin_spec()), value(half), value(angle));
    let f = half.times_spec(angle).over_spec(angle.sin_spec());
    assert(value(half.times_spec(angle)) == h * x) by {
        reveal(is_reading);
    }
    assert(h * (2int as real) == 1int as real && value(f) * s == h * x) by {
        reveal(has_angles);
    }
    lemma_commutes(a, b);
    lemma_commutes(a, c);
    lemma_commutes(b, c);
    lemma_log_part(a, s, value(f), h, x);
    lemma_log_part(b, s, value(f), h, x);
    lemma_log_part(c, s, value(f), h, x);
    let l = log(m);
    let r = k.scaled(angle);
    assert(value(m.c.y.minus_spec(m.b.z)) == a * s + a * s && value(m.a.z.minus_spec(m.c.x)) == b * s
        + b * s && value(m.b.x.minus_spec(m.a.y)) == c * s + c * s) by {
        reveal(is_reading);
    }
    reveal(is_reading);
    assert(value(l.x) == value(r.x));
    assert(value(l.y) == value(r.y));
    assert(value(l.z) == value(r.z));
}

proof fn lemma_log_part(a: real, s: real, f: real, h: real, x: real)
    requires
        h * (2int as real) == 1int as real,
        f * s == h * x,
    ensures
        (a * s + a * s) * f == a * x,
{
    let two = 2int as real;
    lemma_two_times(a * s, a * s, f);
    assert((a * s) * f == a * (f * s)) by (nonlinear_arith);
    assert(a * (h * x) + a * (h * x) == (a * x) * (h * two)) by (nonlinear_arith)
        requires
            two == 2int as real,
    ;
    lemma_nothing(a * x);
}

/// The sine and the cosine of an angle lie on the circle.
proof fn lemma_on_circle<W: Scalar>(value: spec_fn(W) -> real, a: W)
    requires
        is_reading(value),
        has_halves(value),
    ensures
        ({
            let (s, t) = (value(a.sin_spec()), value(a.cos_spec()));
            s * s + t * t == 1int as real
        }),
{
    let half = a.over_spec(W::ratio_spec(2, 1));
    let (p, q) = (value(half.sin_spec()), value(half.cos_spec()));
    let (s, t) = (value(a.sin_spec()), value(a.cos_spec()));
    let (one, two) = (1int as real, 2int as real);
    assert(s == (p * q) * two && t == one - (p * p) * two && p * p + q * q == one) by {
        reveal(has_halves);
    }
    let (u, v) = (p * p, q * q);
    assert(s * s == (u * v) * (two * two)) by (nonlinear_arith)
        requires
            s == (p * q) * two,
            u == p * p,
            v == q * q,
    ;
    assert(t * t == one - u * two - u * two + (u * u) * (two * two)) by (nonlinear_arith)
        requires
            t == one - u * two,
            one == 1int as real,
    ;
    assert(u * v == u - u * u) by (nonlinear_arith)
        requires
            u + v == one,
            one == 1int as real,
    ;
}

/// In exact arithmetic a turn about the vertical axis is found again as yaw.
pub proof fn law_yaw_of_turn<W: Scalar>(a: W)
    requires
        exact_halves::<W>(),
        is_part_turn(a),
    ensures
        rot_m_to_euler(
            rodrigues(V3::new(zero::<W>(), zero::<W>(), W::ratio_spec(1, 1)), a),
        ).z == a,
{
    reveal(exact_halves);
    let value = choose|value: spec_fn(W) -> real| #[trigger]
        is_reading(value) && has_angles(value) && has_halves(value);
    let k = V3::new(zero::<W>(), zero::<W>(), W::ratio_spec(1, 1));
    let m = rodrigues(k, a);
    let (none, one) = (0int as real, 1int as real);
    assert(value(k.x) == none && value(k.y) == none && value(k.z) == one) by {
        reveal(is_reading);
    }
    lemma_nothing(none);
    lemma_nothing(one);
    lemma_turn_entries(value, k, a);
    lemma_part_turn(value, a);
    lemma_on_circle(value, a);
    let (s, t) = (value(a.sin_spec()), value(a.cos_spec()));
    lemma_nothing(s);
    lemma_nothing(one - t);
    lemma_commutes(one, s);
    lemma_less_times(none, one, one - t);
    lemma_commutes(one, one - t);
    assert(value(m.a.x) == t && value(m.b.x) == s);
    lemma_not_small(value, m.a.x, m.b.x);
    lemma_found(value, m.b.x, m.a.x, a);
}

/// A root of a sum of squares that is one is not small.
proof fn lemma_not_small<W: Scalar>(value: spec_fn(W) -> real, x: W, y: W)
    requires
        is_reading(value),
        has_angles(value),
        value(y) * value(y) + value(x) * value(x) == 1int as real,
    ensures
        !is_less(
            x.times_spec(x).plus_spec(y.times_spec(y)).root_spec(),
            W::ratio_spec(1, 1000000),
        ),
{
    let sq = x.times_spec(x).plus_spec(y.times_spec(y));
    let (r, small) = (sq.root_spec(), W::ratio_spec(1, 1000000));
    assert(value(sq) == 1int as real) by {
        reveal(is_reading);
    }
    let (a, b) = (value(r), value(small));
    assert(a >= 0int as real && a * a == 1int as real && b * (1000000int as real) == 1int as real)
        by {
        reveal(has_angles);
    }
    if lt(r, small) {
        assert(a < b) by {
            reveal(has_angles);
        }
        assert(false) by (nonlinear_arith)
            requires
                0int as real <= a,
                a < b,
                a * a == 1int as real,
                b * (1000000int as real) == 1int as real,
        ;
    }
}

/// An angle is found from its sine and cosine.
proof fn lemma_found<W: Scalar>(value: spec_fn(W) -> real, y: W, x: W, a: W)
    requires
        is_reading(value),
        has_angles(value),
        is_part_turn(a),
        value(y) == value(a.sin_spec()),
        value(x) == value(a.cos_spec()),
    ensures
        y.atan2_spec(x) == a,
{
    lemma_part_turn(value, a);
    let one = 1int as real;
    lemma_commutes(one, value(y));
    lemma_commutes(one, value(x));
    lemma_nothing(value(y));
    lemma_nothing(value(x));
    assert(is_polar(value, y, x, a, one));
    reveal(has_angles);
}

/// The same for a turn about the axis ahead, as roll.
pub proof fn law_roll_of_turn<W: Scalar>(a: W)
    requires
        exact_halves::<W>(),
        is_part_turn(a),
    ensures
        rot_m_to_euler(
            rodrigues(V3::new(W::ratio_spec(1, 1), zero::<W>(), zero::<W>()), a),
        ).x == a,
{
    reveal(exact_halves);
    let value = choose|value: spec_fn(W) -> real| #[trigger]
        is_reading(value) && has_angles(value) && has_halves(value);
    let k = V3::new(W::ratio_spec(1, 1), zero::<W>(), zero::<W>());
    let m = rodrigues(k, a);
    let (none, one) = (0int as real, 1int as real);
    assert(value(k.x) == one && value(k.y) == none && value(k.z) == none) by {
        reveal(is_reading);
    }
    lemma_nothing(none);
    lemma_nothing(one);
    lemma_turn_entries(value, k, a);
    lemma_part_turn(value, a);
    let (s, t) = (value(a.sin_spec()), value(a.cos_spec()));
    lemma_nothing(s);
    lemma_nothing(one - t);
    lemma_commutes(one, s);
    lemma_less_times(none, one, one - t);
    lemma_commutes(one, one - t);
    assert(value(m.c.y) == s && value(m.c.z) == t);
    assert(value(m.a.x) == one && value(m.b.x) == none);
    lemma_not_small(value, m.a.x, m.b.x);
    lemma_found(value, m.c.y, m.c.z, a);
}

/// The same for a turn about the axis to the side, up to a quarter turn, as pitch.
pub proof fn law_pitch_of_turn<W: Scalar>(a: W)
    requires
        exact_angles::<W>(),
        is_part_turn(a),
        is_less(a, W::ratio_spec(157, 100)),
    ensures
        rot_m_to_euler(
            rodrigues(V3::new(zero::<W>(), W::ratio_spec(1, 1), zero::<W>()), a),
        ).y == a,
{
    reveal(exact_angles);
    let value = choose|value: spec_fn(W) -> real| #[trigger] is_reading(value) && has_angles(value);
    let k = V3::new(zero::<W>(), W::ratio_spec(1, 1), zero::<W>());
    let m = rodrigues(k, a);
    let (none, one) = (0int as real, 1int as real);
    assert(value(k.x) == none && value(k.y) == one && value(k.z) == none) by {
        reveal(is_reading);
    }
    lemma_nothing(none);
    lemma_nothing(one);
    lemma_turn_entries(value, k, a);
    lemma_part_turn(value, a);
    let (s, t) = (value(a.sin_spec()), value(a.cos_spec()));
    let far = W::ratio_spec(157, 100);
    assert(value(far) * (100int as real) == 157int as real && value(a) < value(far)) by {
        reveal(has_angles);
        assert(lt(a, far));
    }
    let (x, y) = (value(a), value(far));
    assert(x * (100int as real) <= 157int as real) by (nonlinear_arith)
        requires
            x < y,
            y * (100int as real) == 157int as real,
    ;
    assert(t > none) by {
        reveal(has_angles);
    }
    lemma_nothing(s);
    lemma_nothing(one - t);
    lemma_commutes(one, s);
    lemma_less_times(none, one, one - t);
    lemma_commutes(one, one - t);
    assert(value(m.c.x) == -s && value(m.a.x) == t && value(m.b.x) == none);
    let sq = m.a.x.times_spec(m.a.x).plus_spec(m.b.x.times_spec(m.b.x));
    let sy = sq.root_spec();
    crate::sphere::lemma_square_amount(t);
    assert(value(sq) == t * t) by {
        reveal(is_reading);
    }
    let r = value(sy);
    assert(r >= none && r * r == t * t) by {
        reveal(has_angles);
    }
    assert(r == t) by (nonlinear_arith)
        requires
            r >= 0int as real,
            t > 0int as real,
            r * r == t * t,
    ;
    let up = m.c.x.negate_spec();
    assert(value(up) == s) by {
        reveal(is_reading);
    }
    lemma_found(value, up, sy, a);
}

/// In exact arithmetic the yaw of a quaternion that turns about the vertical axis is the
/// angle that it turns by.
pub proof fn law_yaw_of_quaternion<W: Scalar>(a: W)
    requires
        exact_halves::<W>(),
        is_part_turn(a),
    ensures
        ({
            let q = Quat::about(V3::new(zero::<W>(), zero::<W>(), W::ratio_spec(1, 1)), a);
            yaw_from_quat([q.w, q.i, q.j, q.k]) == a
        }),
{
    reveal(exact_halves);
    let value = choose|value: spec_fn(W) -> real| #[trigger]
        is_reading(value) && has_angles(value) && has_halves(value);
    let q = Quat::about(V3::new(zero::<W>(), zero::<W>(), W::ratio_spec(1, 1)), a);
    let half = a.over_spec(W::ratio_spec(2, 1));
    let (s, t) = (value(half.sin_spec()), value(half.cos_spec()));
    let (none, one, two) = (0int as real, 1int as real, 2int as real);
    assert(value(a.sin_spec()) == (s * t) * two && value(a.cos_spec()) == one - (s * s) * two) by {
        reveal(has_halves);
    }
    lemma_nothing(s);
    lemma_commutes(one, s);
    lemma_nothing(none);
    lemma_commutes(t, s);
    assert(value(q.w) == t && value(q.i) == none && value(q.j) == none && value(q.k) == s) by {
        reveal(is_reading);
    }
    let c = W::ratio_spec(2, 1);
    let y = c.times_spec(q.w.times_spec(q.k).plus_spec(q.i.times_spec(q.j)));
    let x = W::ratio_spec(1, 1).minus_spec(
        c.times_spec(q.j.times_spec(q.j).plus_spec(q.k.times_spec(q.k))),
    );
    lemma_commutes(two, s * t);
    lemma_commutes(two, s * s);
    assert(value(y) == (s * t) * two && value(x) == one - (s * s) * two) by {
        reveal(is_reading);
    }
    lemma_found(value, y, x, a);
}

/// The root of four times a square, twice.
proof fn lemma_four_times<W: Scalar>(value: spec_fn(W) -> real, sq: W, a: real)
    requires
        is_reading(value),
        has_angles(value),
        a > 0int as real,
        value(sq) == (a * a) * (4int as real),
    ensures
        value(sq.root_spec().times_spec(W::ratio_spec(2, 1))) == a * (4int as real),
{
    crate::sphere::lemma_square_amount(a);
    let r = value(sq.root_spec());
    assert(r >= 0int as real && r * r == (a * a) * (4int as real)) by {
        reveal(has_angles);
    }
    let b = a * (2int as real);
    assert(b * b == (a * a) * (4int as real) && b > 0int as real) by (nonlinear_arith)
        requires
            b == a * (2int as real),
            a > 0int as real,
    ;
    assert(r == b) by (nonlinear_arith)
        requires
            r >= 0int as real,
            b > 0int as real,
            r * r == b * b,
    ;
    assert(b * (2int as real) == a * (4int as real)) by (nonlinear_arith)
        requires
            b == a * (2int as real),
    ;
    reveal(is_reading);
}

/// A part of a quaternion is found from an entry.
proof fn lemma_part_found<W: Scalar>(value: spec_fn(W) -> real, e: W, d: W, a: real, b: real)
    requires
        is_reading(value),
        has_angles(value),
        a > 0int as real,
        value(d) == a * (4int as real),
        value(e) == (a * b) * (4int as real),
    ensures
        value(e.over_spec(d)) == b,
{
    let k = value(d);
    assert(k > 0int as real);
    assert(value(e.over_spec(d)) * k == value(e)) by {
        reveal(has_angles);
    }
    let c = value(e.over_spec(d));
    assert((a * b) * (4int as real) == b * (a * (4int as real))) by (nonlinear_arith);
    lemma_less_times(c, b, k);
    let g = c - b;
    assert(g == 0int as real) by (nonlinear_arith)
        requires
            g * k == 0int as real,
            k > 0int as real,
    ;
}

/// In exact arithmetic a rotation is found again from its matrix: the quaternion of length
/// one whose part that the matrix is divided by is positive.
pub proof fn law_quaternion_from_matrix<W: Scalar>(q: Quat<W>)
    requires
        exact_angles::<W>(),
        is_unit(q),
    ensures
        ({
            let m = q.matrix();
            let o = W::ratio_spec(0, 1);
            if is_less(o, m.trace()) {
                is_less(o, q.w) ==> Quat::from_matrix(m) == q
            } else if is_less(m.b.y, m.a.x) && is_less(m.c.z, m.a.x) {
                is_less(o, q.i) ==> Quat::from_matrix(m) == q
            } else if is_less(m.c.z, m.b.y) {
                is_less(o, q.j) ==> Quat::from_matrix(m) == q
            } else {
                is_less(o, q.k) ==> Quat::from_matrix(m) == q
            }
        }),
{
    reveal(exact_angles);
    let value = choose|value: spec_fn(W) -> real| #[trigger] is_reading(value) && has_angles(value);
    let m = q.matrix();
    let (w, i, j, k) = (value(q.w), value(q.i), value(q.j), value(q.k));
    let (one, two, four) = (1int as real, 2int as real, 4int as real);
    let o = W::ratio_spec(0, 1);
    let unit = W::ratio_spec(1, 1);
    assert(w * w + i * i + j * j + k * k == one) by {
        reveal(is_reading);
        assert(value(q.w.times_spec(q.w).plus_spec(q.i.times_spec(q.i)).plus_spec(
            q.j.times_spec(q.j),
        ).plus_spec(q.k.times_spec(q.k))) == one);
    }
    assert({
        &&& value(m.a.x) == w * w + i * i - j * j - k * k
        &&& value(m.b.y) == w * w - i * i + j * j - k * k
        &&& value(m.c.z) == w * w - i * i - j * j + k * k
        &&& value(m.a.y) == (i * j) * two - (w * k) * two
        &&& value(m.a.z) == (w * j) * two + (i * k) * two
        &&& value(m.b.x) == (w * k) * two + (i * j) * two
        &&& value(m.b.z) == (j * k) * two - (w * i) * two
        &&& value(m.c.x) == (i * k) * two - (w * j) * two
        &&& value(m.c.y) == (w * i) * two + (j * k) * two
        &&& value(o) == 0int as real
        &&& value(unit) == one
    }) by {
        reveal(is_reading);
    }
    let r = Quat::from_matrix(m);
    lemma_commutes(w, i);
    lemma_commutes(w, j);
    lemma_commutes(w, k);
    lemma_commutes(i, j);
    lemma_commutes(i, k);
    lemma_commutes(j, k);
    let (dw, di, dj, dk) = (
        m.trace().plus_spec(unit),
        unit.plus_spec(m.a.x).minus_spec(m.b.y).minus_spec(m.c.z),
        unit.plus_spec(m.b.y).minus_spec(m.a.x).minus_spec(m.c.z),
        unit.plus_spec(m.c.z).minus_spec(m.a.x).minus_spec(m.b.y),
    );
    assert(value(dw) == (w * w) * four && value(di) == (i * i) * four && value(dj) == (j * j) * four
        && value(dk) == (k * k) * four) by {
        reveal(is_reading);
    }
    let (cy, az, bx) = (
        m.c.y.minus_spec(m.b.z),
        m.a.z.minus_spec(m.c.x),
        m.b.x.minus_spec(m.a.y),
    );
    let (ab, ac, bc) = (
        m.a.y.plus_spec(m.b.x),
        m.a.z.plus_spec(m.c.x),
        m.b.z.plus_spec(m.c.y),
    );
    assert(value(cy) == (w * i) * four && value(az) == (w * j) * four && value(bx) == (w * k) * four
        && value(ab) == (i * j) * four && value(ac) == (i * k) * four && value(bc) == (j * k) * four)
        by {
        reveal(is_reading);
    }
    let d2 = W::ratio_spec(2, 1);
    let part = W::ratio_spec(1, 4);
    let h = value(part);
    assert(h * four == one) by {
        reveal(has_angles);
    }
    if is_less(o, m.trace()) {
        if is_less(o, q.w) {
            lemma_above(value, q.w);
            let d = dw.root_spec().times_spec(d2);
            lemma_four_times(value, dw, w);
            lemma_part_found(value, cy, d, w, i);
            lemma_part_found(value, az, d, w, j);
            lemma_part_found(value, bx, d, w, k);
            lemma_quarter(value, part, d, w);
            reveal(is_reading);
        }
    } else if is_less(m.b.y, m.a.x) && is_less(m.c.z, m.a.x) {
        if is_less(o, q.i) {
            lemma_above(value, q.i);
            let d = di.root_spec().times_spec(d2);
            lemma_four_times(value, di, i);
            lemma_part_found(value, cy, d, i, w);
            lemma_part_found(value, ab, d, i, j);
            lemma_part_found(value, ac, d, i, k);
            lemma_quarter(value, part, d, i);
            reveal(is_reading);
        }
    } else if is_less(m.c.z, m.b.y) {
        if is_less(o, q.j) {
            lemma_above(value, q.j);
            let d = dj.root_spec().times_spec(d2);
            lemma_four_times(value, dj, j);
            lemma_part_found(value, az, d, j, w);
            lemma_part_found(value, ab, d, j, i);
            lemma_part_found(value, bc, d, j, k);
            lemma_quarter(value, part, d, j);
            reveal(is_reading);
        }
    } else {
        if is_less(o, q.k) {
            lemma_above(value, q.k);
            let d = dk.root_spec().times_spec(d2);
            lemma_four_times(value, dk, k);
            lemma_part_found(value, bx, d, k, w);
            lemma_part_found(value, ac, d, k, i);
            lemma_part_found(value, bc, d, k, j);
            lemma_quarter(value, part, d, k);
            reveal(is_reading);
        }
    }
}

proof fn lemma_above<W: Scalar>(value: spec_fn(W) -> real, a: W)
    requires
        is_reading(value),
        has_angles(value),
        is_less(W::ratio_spec(0, 1), a),
    ensures
        value(a) > 0int as real,
{
    let o = W::ratio_spec(0, 1);
    assert(value(o) == 0int as real) by {
        reveal(is_reading);
    }
    reveal(has_angles);
    assert(lt(o, a));
}

proof fn lemma_quarter<W: Scalar>(value: spec_fn(W) -> real, part: W, d: W, a: real)
    requires
        is_reading(value),
        value(part) * (4int as real) == 1int as real,
        value(d) == a * (4int as real),
    ensures
        value(part.times_spec(d)) == a,
{
    let h = value(part);
    assert(h * (a * (4int as real)) == a * (h * (4int as real))) by (nonlinear_arith);
    lemma_nothing(a);
    reveal(is_reading);
}

/// In exact arithmetic the centre of rotation is ahead of the lidar, along the heading, by
/// as much as it is further ahead on the body, and not aside of it.
pub proof fn law_centre_is_ahead<W: Scalar>(res: &LioResult<W>, lidar_fwd: W, rot_fwd: W)
    requires
        exact_halves::<W>(),
    ensures
        ({
            let at = chassis_pose(res, lidar_fwd, rot_fwd);
            let (s, c) = (at[2].sin_spec(), at[2].cos_spec());
            let (dx, dy) = (at[0].minus_spec(res.pos.x), at[1].minus_spec(res.pos.y));
            &&& dx.times_spec(c).plus_spec(dy.times_spec(s)) == rot_fwd.minus_spec(lidar_fwd)
            &&& dy.times_spec(c) == dx.times_spec(s)
        }),
{
    reveal(exact_halves);
    let value = choose|value: spec_fn(W) -> real| #[trigger]
        is_reading(value) && has_angles(value) && has_halves(value);
    let at = chassis_pose(res, lidar_fwd, rot_fwd);
    lemma_on_circle(value, at[2]);
    let (s, c) = (at[2].sin_spec(), at[2].cos_spec());
    let (dx, dy) = (at[0].minus_spec(res.pos.x), at[1].minus_spec(res.pos.y));
    let rel = rot_fwd.minus_spec(lidar_fwd);
    let (p, q, r) = (value(s), value(c), value(rel));
    assert(value(dx) == r * q && value(dy) == r * p) by {
        reveal(is_reading);
    }
    assert((r * q) * q == r * (q * q) && (r * p) * p == r * (p * p)) by (nonlinear_arith);
    crate::exact::lemma_spread_two(r, p * p, q * q);
    lemma_nothing(r);
    assert((r * p) * q == (r * q) * p) by (nonlinear_arith);
    reveal(is_reading);
    assert(value(dx.times_spec(c).plus_spec(dy.times_spec(s))) == value(rel));
    assert(value(dy.times_spec(c)) == value(dx.times_spec(s)));
}

} // verus!
