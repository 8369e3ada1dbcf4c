//! How errors go through a step of the filter, in exact arithmetic.
use crate::esekf::{
    carried, entry2, gravity_lift, gravity_step, row23, step_noise, step_slope, unturn,
};
use crate::exact::{
    exact_angles, has_angles, is_unit, law_exact_angles, law_matrix_rotates, lemma_commutes,
    lemma_no_length, lemma_spread_two, lemma_trade,
};
use crate::frames::{
    exact_halves, law_correction_of_opposite, law_exact_halves, law_exponentials_agree,
    lemma_dot_swapped, lemma_less_times, lemma_multiple_dot, lemma_pulled, lemma_twice,
    lemma_two_times,
};
use crate::kalman::{lemma_by_units, unbent};
use crate::linear::{M3, Quat, V2, V3};
use crate::manifold::{quat_exp, StateIkfom};
use crate::matrix::{column3, inner, row3};
use crate::model::{dw_rows, dx_rows, entry_of, get_f, InputIkfom};
use crate::places::{law_matrices_compose, law_rotation_undone, lemma_axis_of};
use crate::planes::lemma_dot_sum;
use crate::s2::{tolerance, S2};
use crate::scalar::{
    exact_arithmetic, is_less, is_reading, law_exact_is_ring, lt, whole, zero, Scalar,
};
use crate::slopes::{
    law_step_is_motion, lemma_unit_row, lemma_unrolled, three, total_of, unit_row,
};
use crate::so3::{a_matrix, exp, skew};
use crate::sphere::{
    is_framed, is_on_sphere, lemma_dot_value, lemma_hat_value, lemma_nothing, lemma_part_positive,
    lemma_signs, lemma_skew_value, lemma_tilted, values,
};
use vstd::prelude::*;

verus! {

/// In exact arithmetic the opposite vector makes the opposite rotation.
pub proof fn law_opposite_turn<W: Scalar>(v: V3<W>)
    requires
        exact_angles::<W>(),
        is_less(W::ratio_spec(1, 10000000), v.norm()),
        is_less(W::ratio_spec(1, 1000000000), v.norm()),
    ensures
        v.opposite().norm() == v.norm(),
        quat_exp(v.opposite()) == quat_exp(v).conjugate(),
{
    reveal(exact_angles);
    let value = choose|value: spec_fn(W) -> real| #[trigger] is_reading(value) && has_angles(value);
    let o = v.opposite();
    lemma_dot_value(value, v, v);
    lemma_dot_value(value, o, o);
    lemma_signs(value(v.x), value(v.x));
    lemma_signs(value(v.y), value(v.y));
    lemma_signs(value(v.z), value(v.z));
    assert(o.dot(o) == v.dot(v)) by {
        reveal(is_reading);
        assert(value(o.dot(o)) == value(v.dot(v)));
    }
    let n = v.norm();
    lemma_axis_of(value, v);
    lemma_axis_of(value, o);
    let (a, b) = (v.shared(n), o.shared(n));
    let l = value(n);
    assert(value(o.x) == -value(v.x) && value(o.y) == -value(v.y) && value(o.z) == -value(v.z)) by {
        reveal(is_reading);
    }
    lemma_cancels(value(a.x), value(b.x), l);
    lemma_cancels(value(a.y), value(b.y), l);
    lemma_cancels(value(a.z), value(b.z), l);
    let half = n.over_spec(W::ratio_spec(2, 1));
    let s = value(half.sin_spec());
    lemma_signs(value(a.x), s);
    lemma_signs(value(a.y), s);
    lemma_signs(value(a.z), s);
    let (p, q) = (quat_exp(o), quat_exp(v).conjugate());
    reveal(is_reading);
    assert(value(p.i) == value(q.i));
    assert(value(p.j) == value(q.j));
    assert(value(p.k) == value(q.k));
}

proof fn lemma_cancels(a: real, b: real, l: real)
    requires
        l > 0int as real,
        b * l == -(a * l),
    ensures
        b == -a,
{
    lemma_two_times(a, b, l);
    let c = a + b;
    assert(c == 0int as real) by (nonlinear_arith)
        requires
            c * l == 0int as real,
            l > 0int as real,
    ;
}

/// In exact arithmetic a direction fixed in the world shows after a turn of the body as the
/// opposite turn of how it showed before.
pub proof fn law_direction_after_turn<W: Scalar>(r: Quat<W>, v: V3<W>, w: V3<W>)
    requires
        exact_halves::<W>(),
        is_unit(r),
        is_less(W::ratio_spec(1, 10000000), v.norm()),
        is_less(W::ratio_spec(1, 1000000000), v.norm()),
    ensures
        r.rotate(quat_exp(v).rotate(exp(v.opposite()).apply(w))) == r.rotate(w),
{
    law_exact_halves::<W>();
    law_opposite_turn(v);
    law_exponentials_agree(v.opposite(), w);
    law_exponentials_agree(v, w);
    law_rotation_undone(quat_exp(v), w);
}

/// The turn back over a step.
pub open spec fn turn_back<W: Scalar>(x: StateIkfom<W>, input: InputIkfom<W>, dt: W) -> V3<W> {
    input.gyro.diff(x.bg).opposite().scaled(dt)
}

/// What a vector makes of a column of the opposite of the identity.
proof fn lemma_minus_column<W: Scalar>(value: spec_fn(W) -> real, a: V3<W>, k: int)
    requires
        is_reading(value),
        0 <= k < 3,
    ensures
        ({
            let m = M3::<W>::identity().opposite();
            let c = V3 { x: entry_of(m.a, k), y: entry_of(m.b, k), z: entry_of(m.c, k) };
            value(a.dot(c)) == -value(entry_of(a, k))
        }),
        value(a.dot(V3 { x: zero::<W>(), y: zero::<W>(), z: zero::<W>() })) == 0int as real,
{
    let m = M3::<W>::identity().opposite();
    let c = V3 { x: entry_of(m.a, k), y: entry_of(m.b, k), z: entry_of(m.c, k) };
    let none = V3 { x: zero::<W>(), y: zero::<W>(), z: zero::<W>() };
    lemma_dot_value(value, a, c);
    lemma_dot_value(value, a, none);
    lemma_nothing(value(a.x));
    lemma_nothing(value(a.y));
    lemma_nothing(value(a.z));
    lemma_signs(value(a.x), 1int as real);
    lemma_signs(value(a.y), 1int as real);
    lemma_signs(value(a.z), 1int as real);
    reveal(is_reading);
    assert(k == 0 || k == 1 || k == 2);
}

/// What a row with a column of the opposite of the identity, or of zeros, adds over a time.
proof fn lemma_lift_value<W: Scalar>(
    value: spec_fn(W) -> real,
    a: V3<W>,
    col: V3<W>,
    frame: W,
    dt: W,
    k: int,
)
    requires
        is_reading(value),
        0 <= k < 3,
    ensures
        ({
            let m = M3::<W>::identity().opposite();
            let e = value(frame.plus_spec(a.dot(col).times_spec(dt)));
            let f = value(a.dot(col).times_spec(dt));
            &&& col == (V3 { x: entry_of(m.a, k), y: entry_of(m.b, k), z: entry_of(m.c, k) }) ==> e
                == value(frame) - value(entry_of(a, k)) * value(dt) && f == -(value(entry_of(a, k))
                * value(dt))
            &&& col == (V3 { x: zero::<W>(), y: zero::<W>(), z: zero::<W>() }) ==> e == value(frame)
                && f == 0int as real
        }),
{
    lemma_minus_column(value, a, k);
    lemma_signs(value(entry_of(a, k)), value(dt));
    lemma_nothing(value(dt));
    let lift = a.dot(col);
    assert(value(lift.times_spec(dt)) == value(lift) * value(dt) && value(
        frame.plus_spec(lift.times_spec(dt)),
    ) == value(frame) + value(lift.times_spec(dt))) by {
        reveal(is_reading);
    }
}

/// A column of the rows of rotation of the derivative of the rate.
proof fn lemma_turn_column<W: Scalar>(x: StateIkfom<W>, input: InputIkfom<W>, j: int)
    requires
        0 <= j < 23,
    ensures
        ({
            let m = M3::<W>::identity().opposite();
            let k = j - 15;
            column3(dx_rows(x, input), 3, j) == if 15 <= j < 18 {
                V3 { x: entry_of(m.a, k), y: entry_of(m.b, k), z: entry_of(m.c, k) }
            } else {
                V3 { x: zero::<W>(), y: zero::<W>(), z: zero::<W>() }
            }
        }),
{
}

/// A row of rotation of the derivative of a step.
proof fn lemma_turn_row<W: Scalar>(
    x: StateIkfom<W>,
    input: InputIkfom<W>,
    dt: W,
    i: int,
    j: int,
)
    requires
        0 <= i < 3,
        0 <= j < 23,
    ensures
        ({
            let back = turn_back(x, input, dt);
            let col = column3(dx_rows(x, input), 3, j);
            let frame = if 3 <= j < 6 {
                entry_of(row3(exp(back), i), j - 3)
            } else {
                zero::<W>()
            };
            step_slope(x, input, dt)[3 + i][j] == frame.plus_spec(
                row3(a_matrix(back), i).dot(col).times_spec(dt),
            )
        }),
{
    let f = get_f(x, input);
    assert(unturn(f[3], f[4], f[5], dt) == turn_back(x, input, dt));
}

/// A row with the entries of `e`, and those of `a` against it over a time.
proof fn lemma_row_total<W: Scalar>(
    value: spec_fn(W) -> real,
    row: Seq<W>,
    d: Seq<W>,
    e: V3<W>,
    a: V3<W>,
    dt: W,
)
    requires
        is_reading(value),
        forall|j: int|
            0 <= j < 23 ==> value(#[trigger] row[j]) == (if 3 <= j < 6 {
                value(entry_of(e, j - 3))
            } else if 15 <= j < 18 {
                -(value(entry_of(a, j - 15)) * value(dt))
            } else {
                0int as real
            }),
    ensures
        inner(row, d, 23) == e.dot(three(d, 3)).minus_spec(
            a.dot(three(d, 15)).times_spec(dt),
        ),
{
    let t = value(dt);
    assert forall|j: int| 0 <= j < 23 && !(3 <= j < 6) && !(15 <= j < 18) implies value(
        #[trigger] row[j],
    ) * value(d[j]) == 0int as real by {
        lemma_nothing(value(d[j]));
    }
    let (p, q, r) = (value(d[15]), value(d[16]), value(d[17]));
    lemma_signs(value(a.x) * t, p);
    lemma_signs(value(a.y) * t, q);
    lemma_signs(value(a.z) * t, r);
    lemma_pulled(value(a.x), t, p);
    lemma_pulled(value(a.y), t, q);
    lemma_pulled(value(a.z), t, r);
    lemma_two_times(value(a.x) * p, value(a.y) * q, t);
    lemma_two_times(value(a.x) * p + value(a.y) * q, value(a.z) * r, t);
    lemma_unrolled(value, row, d, 23);
    let total = value(e.x) * value(d[3]) + value(e.y) * value(d[4]) + value(e.z) * value(d[5]) - (
    value(a.x) * p + value(a.y) * q + value(a.z) * r) * t;
    assert(total_of(value, row, d, 23) == total) by {
        reveal_with_fuel(total_of, 24);
        assert(row[3] == row[3] && row[15] == row[15]);
    }
    lemma_dot_value(value, e, three(d, 3));
    lemma_dot_value(value, a, three(d, 15));
    reveal(is_reading);
    assert(value(e.dot(three(d, 3)).minus_spec(a.dot(three(d, 15)).times_spec(dt))) == total);
}

/// In exact arithmetic the error of the rotation goes through a step as the step turns the
/// frame of the body, and the error of the bias slows the turn.
pub proof fn law_step_turns_errors<W: Scalar>(
    x: StateIkfom<W>,
    input: InputIkfom<W>,
    dt: W,
    d: Seq<W>,
    i: int,
)
    requires
        exact_arithmetic::<W>(),
        0 <= i < 3,
        d.len() == 23,
    ensures
        ({
            let back = turn_back(x, input, dt);
            inner(step_slope(x, input, dt)[3 + i], d, 23) == entry_of(
                exp(back).apply(three(d, 3)).diff(
                    a_matrix(back).apply(three(d, 15)).scaled(dt),
                ),
                i,
            )
        }),
{
    reveal(exact_arithmetic);
    let value = choose|value: spec_fn(W) -> real| #[trigger] is_reading(value);
    let back = turn_back(x, input, dt);
    let row = step_slope(x, input, dt)[3 + i];
    let (m, n) = (exp(back), a_matrix(back));
    let (e, a) = (row3(m, i), row3(n, i));
    let none = zero::<W>();
    assert(value(none) == 0int as real) by {
        reveal(is_reading);
    }
    assert forall|j: int| 0 <= j < 23 implies value(#[trigger] row[j]) == (if 3 <= j < 6 {
        value(entry_of(e, j - 3))
    } else if 15 <= j < 18 {
        -(value(entry_of(a, j - 15)) * value(dt))
    } else {
        0int as real
    }) by {
        lemma_turn_row(x, input, dt, i, j);
        lemma_turn_column(x, input, j);
        let col = column3(dx_rows(x, input), 3, j);
        let frame = if 3 <= j < 6 {
            entry_of(e, j - 3)
        } else {
            none
        };
        lemma_lift_value(value, a, col, frame, dt, if 15 <= j < 18 {
            j - 15
        } else {
            0
        });
    }
    lemma_row_total(value, row, d, e, a, dt);
    lemma_entry_of_images(m, n, three(d, 3), three(d, 15), dt, i);
}

proof fn lemma_entry_of_images<W: Scalar>(m: M3<W>, n: M3<W>, v: V3<W>, w: V3<W>, dt: W, i: int)
    requires
        0 <= i < 3,
    ensures
        entry_of(m.apply(v).diff(n.apply(w).scaled(dt)), i) == row3(m, i).dot(v).minus_spec(
            row3(n, i).dot(w).times_spec(dt),
        ),
        entry_of(n.apply(w).scaled(dt).opposite(), i) == row3(n, i).dot(w).times_spec(
            dt,
        ).negate_spec(),
{
    assert(i == 0 || i == 1 || i == 2);
}

/// A column of the rows of rotation of the derivative of the rate by the noise.
proof fn lemma_noise_column<W: Scalar>(x: StateIkfom<W>, j: int)
    requires
        0 <= j < 12,
    ensures
        ({
            let m = M3::<W>::identity().opposite();
            column3(dw_rows(x), 3, j) == if j < 3 {
                V3 { x: entry_of(m.a, j), y: entry_of(m.b, j), z: entry_of(m.c, j) }
            } else {
                V3 { x: zero::<W>(), y: zero::<W>(), z: zero::<W>() }
            }
        }),
{
}

/// A row of rotation of the derivative of a step by the noise.
proof fn lemma_noise_row<W: Scalar>(x: StateIkfom<W>, input: InputIkfom<W>, dt: W, i: int, j: int)
    requires
        0 <= i < 3,
        0 <= j < 12,
    ensures
        step_noise(x, input, dt)[3 + i][j] == row3(a_matrix(turn_back(x, input, dt)), i).dot(
            column3(dw_rows(x), 3, j),
        ).times_spec(dt),
{
    let f = get_f(x, input);
    assert(unturn(f[3], f[4], f[5], dt) == turn_back(x, input, dt));
}

/// A row of twelve with the opposite entries of `a` over a time.
proof fn lemma_noise_total<W: Scalar>(
    value: spec_fn(W) -> real,
    row: Seq<W>,
    n: Seq<W>,
    a: V3<W>,
    dt: W,
)
    requires
        is_reading(value),
        forall|j: int|
            0 <= j < 12 ==> value(#[trigger] row[j]) == (if j < 3 {
                -(value(entry_of(a, j)) * value(dt))
            } else {
                0int as real
            }),
    ensures
        inner(row, n, 12) == a.dot(three(n, 0)).times_spec(dt).negate_spec(),
{
    let t = value(dt);
    assert forall|j: int| 3 <= j < 12 implies value(#[trigger] row[j]) * value(n[j])
        == 0int as real by {
        lemma_nothing(value(n[j]));
    }
    let (p, q, r) = (value(n[0]), value(n[1]), value(n[2]));
    lemma_signs(value(a.x) * t, p);
    lemma_signs(value(a.y) * t, q);
    lemma_signs(value(a.z) * t, r);
    lemma_pulled(value(a.x), t, p);
    lemma_pulled(value(a.y), t, q);
    lemma_pulled(value(a.z), t, r);
    lemma_two_times(value(a.x) * p, value(a.y) * q, t);
    lemma_two_times(value(a.x) * p + value(a.y) * q, value(a.z) * r, t);
    lemma_unrolled(value, row, n, 12);
    let total = -((value(a.x) * p + value(a.y) * q + value(a.z) * r) * t);
    assert(total_of(value, row, n, 12) == total) by {
        reveal_with_fuel(total_of, 13);
        assert(row[0] == row[0]);
    }
    lemma_dot_value(value, a, three(n, 0));
    reveal(is_reading);
    assert(value(a.dot(three(n, 0)).times_spec(dt).negate_spec()) == total);
}

/// In exact arithmetic the noise of the gyroscope slows the turn of a step as the error of
/// its bias does.
pub proof fn law_noise_slows_turn<W: Scalar>(
    x: StateIkfom<W>,
    input: InputIkfom<W>,
    dt: W,
    n: Seq<W>,
    i: int,
)
    requires
        exact_arithmetic::<W>(),
        0 <= i < 3,
        n.len() == 12,
    ensures
        ({
            let back = turn_back(x, input, dt);
            inner(step_noise(x, input, dt)[3 + i], n, 12) == entry_of(
                a_matrix(back).apply(three(n, 0)).scaled(dt).opposite(),
                i,
            )
        }),
{
    reveal(exact_arithmetic);
    let value = choose|value: spec_fn(W) -> real| #[trigger] is_reading(value);
    let row = step_noise(x, input, dt)[3 + i];
    let m = a_matrix(turn_back(x, input, dt));
    let a = row3(m, i);
    assert forall|j: int| 0 <= j < 12 implies value(#[trigger] row[j]) == (if j < 3 {
        -(value(entry_of(a, j)) * value(dt))
    } else {
        0int as real
    }) by {
        lemma_noise_row(x, input, dt, i, j);
        lemma_noise_column(x, j);
        lemma_lift_value(value, a, column3(dw_rows(x), 3, j), zero(), dt, if j < 3 {
            j
        } else {
            0
        });
    }
    lemma_noise_total(value, row, n, a, dt);
    lemma_entry_of_images(m, m, three(n, 0), three(n, 0), dt, i);
}

/// The entries of a row of the opposite matrix against a vector.
proof fn lemma_opposite_row<W: Scalar>(value: spec_fn(W) -> real, a: V3<W>, v: V3<W>, w: V3<W>)
    requires
        is_reading(value),
        value(w.x) == -value(v.x),
        value(w.y) == -value(v.y),
        value(w.z) == -value(v.z),
    ensures
        a.opposite().dot(v) == a.dot(w),
{
    lemma_signs(value(a.x), value(v.x));
    lemma_signs(value(a.y), value(v.y));
    lemma_signs(value(a.z), value(v.z));
    reveal(is_reading);
    assert(value(a.opposite().dot(v)) == value(a.dot(w)));
}

/// In exact arithmetic the derivative of the acceleration by the rotation is how fast the
/// acceleration turns with the body.
pub proof fn law_turn_tilts_acceleration<W: Scalar>(
    x: StateIkfom<W>,
    input: InputIkfom<W>,
    turn: V3<W>,
    i: int,
)
    requires
        exact_arithmetic::<W>(),
        is_unit(x.rot),
        0 <= i < 3,
    ensures
        three(dx_rows(x, input)[12 + i], 3).dot(turn) == entry_of(
            x.rot.rotate(turn.cross(input.acc.diff(x.ba))),
            i,
        ),
{
    reveal(exact_arithmetic);
    let value = choose|value: spec_fn(W) -> real| #[trigger] is_reading(value);
    let a = input.acc.diff(x.ba);
    let m = x.rot.matrix();
    let lean = m.opposite();
    let k = skew(a);
    let way = turn.cross(a);
    let v = k.apply(turn);
    assert(three(dx_rows(x, input)[12 + i], 3) == row3(lean.compose(k), i));
    law_matrices_compose(lean, k, turn);
    law_matrix_rotates(x.rot, way);
    lemma_skew_value(value, a, turn);
    assert(value(way.x) == -value(v.x) && value(way.y) == -value(v.y) && value(way.z) == -value(
        v.z,
    )) by {
        lemma_crossed(value, turn, a);
        lemma_commutes(value(a.y), value(turn.z));
        lemma_commutes(value(a.z), value(turn.y));
        lemma_commutes(value(a.z), value(turn.x));
        lemma_commutes(value(a.x), value(turn.z));
        lemma_commutes(value(a.x), value(turn.y));
        lemma_commutes(value(a.y), value(turn.x));
    }
    lemma_opposite_row(value, m.a, v, way);
    lemma_opposite_row(value, m.b, v, way);
    lemma_opposite_row(value, m.c, v, way);
    assert(i == 0 || i == 1 || i == 2);
    assert(row3(lean.compose(k), i).dot(turn) == entry_of(lean.compose(k).apply(turn), i));
    assert(entry_of(lean.apply(v), i) == entry_of(m.apply(way), i));
}

proof fn lemma_crossed<W: Scalar>(value: spec_fn(W) -> real, a: V3<W>, b: V3<W>)
    requires
        is_reading(value),
    ensures
        value(a.cross(b).x) == value(a.y) * value(b.z) - value(a.z) * value(b.y),
        value(a.cross(b).y) == value(a.z) * value(b.x) - value(a.x) * value(b.z),
        value(a.cross(b).z) == value(a.x) * value(b.y) - value(a.y) * value(b.x),
{
    reveal(is_reading);
}

/// In exact arithmetic the derivative of the acceleration by gravity is how fast gravity
/// turns about a step in its tangent plane.
pub proof fn law_gravity_tilts_acceleration<W: Scalar>(
    x: StateIkfom<W>,
    input: InputIkfom<W>,
    delta: V2<W>,
    i: int,
)
    requires
        exact_arithmetic::<W>(),
        is_less(V2::<W>::zeros().norm(), tolerance()),
        0 <= i < 3,
    ensures
        ({
            let row = dx_rows(x, input)[12 + i];
            row[21].times_spec(delta.x).plus_spec(row[22].times_spec(delta.y)) == entry_of(
                x.grav.s2_bx().apply(delta).cross(x.grav.vec),
                i,
            )
        }),
{
    reveal(exact_arithmetic);
    let value = choose|value: spec_fn(W) -> real| #[trigger] is_reading(value);
    let b = x.grav.s2_bx();
    let g = x.grav.vec;
    let u = b.apply(delta);
    let hat = skew(g).opposite();
    let tilt = x.grav.s2_mx(V2::zeros());
    assert(tilt.p == hat.apply(b.p) && tilt.q == hat.apply(b.q));
    lemma_tilted(value, g, b.p, b.q, delta);
    lemma_crossed(value, u, g);
    let row = dx_rows(x, input)[12 + i];
    assert(row[21] == entry_of(tilt.p, i) && row[22] == entry_of(tilt.q, i));
    let r = tilt.apply(delta);
    let w = u.cross(g);
    assert(r.x == w.x && r.y == w.y && r.z == w.z) by {
        assert(value(r.x) == value(w.x) && value(r.y) == value(w.y) && value(r.z) == value(w.z));
        reveal(is_reading);
    }
    assert(i == 0 || i == 1 || i == 2);
}

/// A vector product changes its side in a scalar product, with the sign.
proof fn lemma_side(
    g: (real, real, real),
    p: (real, real, real),
    c: (real, real, real),
)
    ensures
        (g.1 * p.2 - g.2 * p.1) * c.0 + (g.2 * p.0 - g.0 * p.2) * c.1 + (g.0 * p.1 - g.1 * p.0)
            * c.2 == -(p.0 * (g.1 * c.2 - g.2 * c.1) + p.1 * (g.2 * c.0 - g.0 * c.2) + p.2 * (g.0
            * c.1 - g.1 * c.0)),
{
    lemma_less_times(g.1 * p.2, g.2 * p.1, c.0);
    lemma_less_times(g.2 * p.0, g.0 * p.2, c.1);
    lemma_less_times(g.0 * p.1, g.1 * p.0, c.2);
    lemma_spread_two(p.0, g.1 * c.2, g.2 * c.1);
    lemma_spread_two(p.1, g.2 * c.0, g.0 * c.2);
    lemma_spread_two(p.2, g.0 * c.1, g.1 * c.0);
    lemma_moved(g.1, p.2, c.0);
    lemma_moved(g.2, p.1, c.0);
    lemma_moved(g.2, p.0, c.1);
    lemma_moved(g.0, p.2, c.1);
    lemma_moved(g.0, p.1, c.2);
    lemma_moved(g.1, p.0, c.2);
}

proof fn lemma_moved(g: real, p: real, c: real)
    ensures
        (g * p) * c == p * (g * c),
{
    assert((g * p) * c == p * (g * c)) by (nonlinear_arith);
}

/// Two vector products with the same vector in a scalar product.
pub(crate) proof fn lemma_two_products(
    g: (real, real, real),
    p: (real, real, real),
    q: (real, real, real),
)
    ensures
        ({
            let n = g.0 * g.0 + g.1 * g.1 + g.2 * g.2;
            let gp = g.0 * p.0 + g.1 * p.1 + g.2 * p.2;
            let gq = g.0 * q.0 + g.1 * q.1 + g.2 * q.2;
            let pq = p.0 * q.0 + p.1 * q.1 + p.2 * q.2;
            (g.1 * p.2 - g.2 * p.1) * (g.1 * q.2 - g.2 * q.1) + (g.2 * p.0 - g.0 * p.2) * (g.2 * q.0
                - g.0 * q.2) + (g.0 * p.1 - g.1 * p.0) * (g.0 * q.1 - g.1 * q.0) == n * pq - gp * gq
        }),
{
    let n = g.0 * g.0 + g.1 * g.1 + g.2 * g.2;
    let gp = g.0 * p.0 + g.1 * p.1 + g.2 * p.2;
    let gq = g.0 * q.0 + g.1 * q.1 + g.2 * q.2;
    let c = (g.1 * q.2 - g.2 * q.1, g.2 * q.0 - g.0 * q.2, g.0 * q.1 - g.1 * q.0);
    lemma_side(g, p, c);
    lemma_twice(g.0, g.1, g.2, q.0, q.1, q.2);
    lemma_twice(g.1, g.2, g.0, q.1, q.2, q.0);
    lemma_twice(g.2, g.0, g.1, q.2, q.0, q.1);
    lemma_spread_two(p.0, g.0 * gq, n * q.0);
    lemma_spread_two(p.1, g.1 * gq, n * q.1);
    lemma_spread_two(p.2, g.2 * gq, n * q.2);
    lemma_moved(n, p.0, q.0);
    lemma_moved(n, p.1, q.1);
    lemma_moved(n, p.2, q.2);
    lemma_trade(n, p.0, q.0);
    lemma_trade(n, p.1, q.1);
    lemma_trade(n, p.2, q.2);
    lemma_spread_two(n, p.0 * q.0, p.1 * q.1);
    lemma_spread_two(n, p.0 * q.0 + p.1 * q.1, p.2 * q.2);
    lemma_trade(p.0, g.0, gq);
    lemma_trade(p.1, g.1, gq);
    lemma_trade(p.2, g.2, gq);
    lemma_commutes(p.0, g.0);
    lemma_commutes(p.1, g.1);
    lemma_commutes(p.2, g.2);
    lemma_two_times(g.0 * p.0, g.1 * p.1, gq);
    lemma_two_times(g.0 * p.0 + g.1 * p.1, g.2 * p.2, gq);
}

/// What a projection to the tangent plane makes of a tilt.
proof fn lemma_tilt_seen<W: Scalar>(value: spec_fn(W) -> real, s: S2<W>, p: V3<W>, q: V3<W>)
    requires
        is_reading(value),
        has_angles(value),
        is_on_sphere(s),
        p.dot(s.vec) == zero::<W>(),
    ensures
        ({
            let square = s.length.times_spec(s.length);
            skew(s.vec).transpose().apply(p).shared(square).dot(skew(s.vec).opposite().apply(q))
                == p.dot(q)
        }),
{
    let g = s.vec;
    let square = s.length.times_spec(s.length);
    let f = skew(g).transpose().apply(p);
    let h = skew(g).opposite().apply(q);
    let k = value(square);
    assert(skew(g).transpose() == skew(g).opposite()) by {
        lemma_skew_turned(value, g);
    }
    lemma_hat_value(value, g, p);
    lemma_hat_value(value, g, q);
    lemma_dot_value(value, g, g);
    lemma_dot_value(value, p, g);
    lemma_dot_value(value, p, q);
    let (vg, vp, vq) = (values(value, g), values(value, p), values(value, q));
    lemma_two_products(vg, vp, vq);
    let l = value(s.length);
    assert(l > 0int as real && value(zero::<W>()) == 0int as real) by {
        reveal(has_angles);
        assert(lt(zero::<W>(), s.length));
        reveal(is_reading);
    }
    assert(k == l * l) by {
        reveal(is_reading);
    }
    assert(l * l > 0int as real) by (nonlinear_arith)
        requires
            l > 0int as real,
    ;
    let e = f.shared(square);
    assert(value(e.x) * k == value(f.x) && value(e.y) * k == value(f.y) && value(e.z) * k == value(
        f.z,
    )) by {
        reveal(has_angles);
    }
    lemma_dot_value(value, e, h);
    let (a, b, c) = (value(h.x), value(h.y), value(h.z));
    lemma_pulled(value(e.x), k, a);
    lemma_pulled(value(e.y), k, b);
    lemma_pulled(value(e.z), k, c);
    lemma_two_times(value(e.x) * a, value(e.y) * b, k);
    lemma_two_times(value(e.x) * a + value(e.y) * b, value(e.z) * c, k);
    let d = value(e.dot(h));
    assert(d * k == value(f.x) * a + value(f.y) * b + value(f.z) * c);
    lemma_commutes(vp.0, vg.0);
    lemma_commutes(vp.1, vg.1);
    lemma_commutes(vp.2, vg.2);
    lemma_commutes(vg.1, vp.2);
    lemma_commutes(vg.2, vp.1);
    lemma_commutes(vg.2, vp.0);
    lemma_commutes(vg.0, vp.2);
    lemma_commutes(vg.0, vp.1);
    lemma_commutes(vg.1, vp.0);
    lemma_commutes(vg.1, vq.2);
    lemma_commutes(vg.2, vq.1);
    lemma_commutes(vg.2, vq.0);
    lemma_commutes(vg.0, vq.2);
    lemma_commutes(vg.0, vq.1);
    lemma_commutes(vg.1, vq.0);
    let gp = vg.0 * vp.0 + vg.1 * vp.1 + vg.2 * vp.2;
    let gq = vg.0 * vq.0 + vg.1 * vq.1 + vg.2 * vq.2;
    assert(gp == 0int as real);
    lemma_nothing(gq);
    let pq = value(p.dot(q));
    let (x, y, z) = (value(f.x), value(f.y), value(f.z));
    lemma_signs(x, a);
    lemma_signs(y, b);
    lemma_signs(z, c);
    assert(x * a == (vg.1 * vp.2 - vg.2 * vp.1) * (vg.1 * vq.2 - vg.2 * vq.1)) by {
        lemma_signs(-x, -a);
        assert(-x == vg.1 * vp.2 - vg.2 * vp.1);
        assert(-a == vg.1 * vq.2 - vg.2 * vq.1);
    }
    assert(y * b == (vg.2 * vp.0 - vg.0 * vp.2) * (vg.2 * vq.0 - vg.0 * vq.2)) by {
        lemma_signs(-y, -b);
        assert(-y == vg.2 * vp.0 - vg.0 * vp.2);
        assert(-b == vg.2 * vq.0 - vg.0 * vq.2);
    }
    assert(z * c == (vg.0 * vp.1 - vg.1 * vp.0) * (vg.0 * vq.1 - vg.1 * vq.0)) by {
        lemma_signs(-z, -c);
        assert(-z == vg.0 * vp.1 - vg.1 * vp.0);
        assert(-c == vg.0 * vq.1 - vg.1 * vq.0);
    }
    assert(d * k == k * pq);
    lemma_commutes(k, pq);
    lemma_same_factor(d, pq, k);
    reveal(is_reading);
}

proof fn lemma_same_factor(a: real, b: real, k: real)
    requires
        k > 0int as real,
        a * k == b * k,
    ensures
        a == b,
{
    lemma_less_times(a, b, k);
    let c = a - b;
    assert(c == 0int as real) by (nonlinear_arith)
        requires
            c * k == 0int as real,
            k > 0int as real,
    ;
}

proof fn lemma_skew_turned<W: Scalar>(value: spec_fn(W) -> real, g: V3<W>)
    requires
        is_reading(value),
    ensures
        skew(g).transpose() == skew(g).opposite(),
{
    reveal(is_reading);
    let (m, n) = (skew(g).transpose(), skew(g).opposite());
    assert(value(m.a.x) == value(n.a.x) && value(m.a.y) == value(n.a.y) && value(m.a.z) == value(
        n.a.z,
    ));
    assert(value(m.b.x) == value(n.b.x) && value(m.b.y) == value(n.b.y) && value(m.b.z) == value(
        n.b.z,
    ));
    assert(value(m.c.x) == value(n.c.x) && value(m.c.y) == value(n.c.y) && value(m.c.z) == value(
        n.c.z,
    ));
}

/// In exact arithmetic the projection to the tangent plane undoes the tilt of a direction
/// by a step in it.
pub proof fn law_tilt_projected<W: Scalar>(s: S2<W>)
    requires
        exact_angles::<W>(),
        is_on_sphere(s),
        is_framed(s),
        is_less(V2::<W>::zeros().norm(), tolerance()),
    ensures
        s.s2_nx_yy().meet(s.s2_mx(V2::zeros())) == unbent::<W>(),
{
    reveal(exact_angles);
    let value = choose|value: spec_fn(W) -> real| #[trigger] is_reading(value) && has_angles(value);
    let b = s.s2_bx();
    lemma_tilt_seen(value, s, b.p, b.p);
    lemma_tilt_seen(value, s, b.p, b.q);
    lemma_tilt_seen(value, s, b.q, b.p);
    lemma_tilt_seen(value, s, b.q, b.q);
    assert(b.q.dot(b.p) == b.p.dot(b.q)) by {
        lemma_dot_value(value, b.p, b.q);
        lemma_dot_value(value, b.q, b.p);
        lemma_commutes(value(b.p.x), value(b.q.x));
        lemma_commutes(value(b.p.y), value(b.q.y));
        lemma_commutes(value(b.p.z), value(b.q.z));
        reveal(is_reading);
    }
}

/// Nothing turns by no vector.
proof fn lemma_no_turn<W: Scalar>()
    requires
        exact_angles::<W>(),
    ensures
        exp(V3::<W>::zeros()) == M3::<W>::identity(),
{
    reveal(exact_angles);
    let value = choose|value: spec_fn(W) -> real| #[trigger] is_reading(value) && has_angles(value);
    lemma_no_length(value);
    let small = W::ratio_spec(1, 10000000);
    assert(value(small) * (10000000int as real) == 1int as real) by {
        reveal(has_angles);
    }
    lemma_part_positive(value(small), 10000000int as real);
    assert(!lt(small, V3::<W>::zeros().norm())) by {
        reveal(has_angles);
    }
}

/// A vector times nothing, and its opposite.
proof fn lemma_none_scaled<W: Scalar>(dt: W)
    requires
        exact_arithmetic::<W>(),
    ensures
        ({
            let o = zero::<W>();
            &&& V3::new(o, o, o).scaled(dt) == V3::<W>::zeros()
            &&& unturn(o, o, o, dt) == V3::<W>::zeros()
            &&& o.times_spec(dt) == o
        }),
{
    reveal(exact_arithmetic);
    let value = choose|value: spec_fn(W) -> real| #[trigger] is_reading(value);
    let o = zero::<W>();
    lemma_nothing(value(dt));
    reveal(is_reading);
    assert(value(o.times_spec(dt)) == value(o));
    assert(value(o.negate_spec().times_spec(dt)) == value(o));
}

/// A row for the rotation of the sensor on its mount in the derivative of a step.
proof fn lemma_mount_row<W: Scalar>(
    x: StateIkfom<W>,
    input: InputIkfom<W>,
    dt: W,
    i: int,
    j: int,
)
    requires
        0 <= i < 3,
        0 <= j < 23,
    ensures
        ({
            let o = zero::<W>();
            let off = unturn(o, o, o, dt);
            let frame = if 6 <= j < 9 {
                entry_of(row3(exp(off), i), j - 6)
            } else {
                o
            };
            step_slope(x, input, dt)[6 + i][j] == frame.plus_spec(
                row3(a_matrix(off), i).dot(V3 { x: o, y: o, z: o }).times_spec(dt),
            )
        }),
{
    let f = get_f(x, input);
    let o = zero::<W>();
    assert(f[6] == o && f[7] == o && f[8] == o);
    assert(column3(dx_rows(x, input), 6, j) == V3 { x: o, y: o, z: o });
}

/// In exact arithmetic the error of the rotation of the sensor on its mount goes through a
/// step as it is.
pub proof fn law_mount_error_stays<W: Scalar>(
    x: StateIkfom<W>,
    input: InputIkfom<W>,
    dt: W,
    d: Seq<W>,
    i: int,
)
    requires
        exact_angles::<W>(),
        d.len() == 23,
        6 <= i < 9,
    ensures
        inner(step_slope(x, input, dt)[i], d, 23) == d[i],
{
    law_exact_angles::<W>();
    lemma_no_turn::<W>();
    lemma_none_scaled(dt);
    let o = zero::<W>();
    let row = step_slope(x, input, dt)[i];
    assert forall|j: int| 0 <= j < 23 implies #[trigger] row[j] == unit_row::<W>(i, 23)[j] by {
        lemma_mount_row(x, input, dt, i - 6, j);
        lemma_no_row(row3(a_matrix(V3::<W>::zeros()), i - 6), dt);
        law_exact_is_ring(whole::<W>(1), o, o);
        law_exact_is_ring(o, o, o);
        assert(i == 6 || i == 7 || i == 8);
    }
    assert(row =~= unit_row::<W>(i, 23));
    lemma_unit_row(i, d, 23, 23);
}

proof fn lemma_no_row<W: Scalar>(a: V3<W>, dt: W)
    requires
        exact_arithmetic::<W>(),
    ensures
        a.dot(V3 { x: zero::<W>(), y: zero::<W>(), z: zero::<W>() }).times_spec(dt) == zero::<W>(),
{
    reveal(exact_arithmetic);
    let value = choose|value: spec_fn(W) -> real| #[trigger] is_reading(value);
    lemma_minus_column(value, a, 0);
    lemma_nothing(value(dt));
    reveal(is_reading);
}

/// A row for gravity in the derivative of a step.
proof fn lemma_gravity_row<W: Scalar>(
    x: StateIkfom<W>,
    input: InputIkfom<W>,
    dt: W,
    i: int,
    j: int,
)
    requires
        0 <= i < 2,
        0 <= j < 23,
    ensures
        ({
            let o = zero::<W>();
            let f = get_f(x, input);
            let after = carried(x, f, dt);
            let frame = if 21 <= j < 23 {
                entry2(gravity_step(x, after, f, dt), i, j - 21)
            } else {
                o
            };
            step_slope(x, input, dt)[21 + i][j] == frame.plus_spec(
                row23(gravity_lift(x, after, f, dt), i).dot(V3 { x: o, y: o, z: o }).times_spec(dt),
            )
        }),
{
    let o = zero::<W>();
    assert(column3(dx_rows(x, input), 21, j) == V3 { x: o, y: o, z: o });
}

/// In exact arithmetic gravity stays as it is in a step, and so does its error.
pub proof fn law_gravity_error_stays<W: Scalar>(
    x: StateIkfom<W>,
    input: InputIkfom<W>,
    dt: W,
    d: Seq<W>,
    i: int,
)
    requires
        exact_angles::<W>(),
        is_unit(x.rot),
        is_on_sphere(x.grav),
        is_framed(x.grav),
        is_less(V2::<W>::zeros().norm(), tolerance()),
        d.len() == 23,
        21 <= i < 23,
    ensures
        inner(step_slope(x, input, dt)[i], d, 23) == d[i],
{
    law_exact_angles::<W>();
    lemma_no_turn::<W>();
    lemma_none_scaled(dt);
    law_step_is_motion(x, input, dt);
    law_tilt_projected(x.grav);
    let o = zero::<W>();
    let f = get_f(x, input);
    let after = carried(x, f, dt);
    assert(f[21] == o && f[22] == o && f[23] == o);
    let n = x.grav.s2_nx_yy();
    lemma_by_units(n.a, V2::zeros());
    lemma_by_units(n.b, V2::zeros());
    let id = M3::<W>::identity();
    assert(id.transpose() == id);
    assert(n.compose(id) == n);
    assert(gravity_step(x, after, f, dt) == unbent::<W>());
    let row = step_slope(x, input, dt)[i];
    assert forall|j: int| 0 <= j < 23 implies #[trigger] row[j] == unit_row::<W>(i, 23)[j] by {
        lemma_gravity_row(x, input, dt, i - 21, j);
        lemma_no_row(row23(gravity_lift(x, after, f, dt), i - 21), dt);
        law_exact_is_ring(whole::<W>(1), o, o);
        law_exact_is_ring(o, o, o);
        assert(i == 21 || i == 22);
    }
    assert(row =~= unit_row::<W>(i, 23));
    lemma_unit_row(i, d, 23, 23);
}

/// A matrix takes a combination of two vectors to the combination of their images.
proof fn lemma_combined<W: Scalar>(value: spec_fn(W) -> real, m: M3<W>, p: V3<W>, q: V3<W>, e: V2<W>)
    requires
        is_reading(value),
    ensures
        m.apply(p).scaled(e.x).sum(m.apply(q).scaled(e.y)) == m.apply(
            p.scaled(e.x).sum(q.scaled(e.y)),
        ),
{
    lemma_combined_row(value, m.a, p, q, e);
    lemma_combined_row(value, m.b, p, q, e);
    lemma_combined_row(value, m.c, p, q, e);
}

proof fn lemma_combined_row<W: Scalar>(
    value: spec_fn(W) -> real,
    a: V3<W>,
    p: V3<W>,
    q: V3<W>,
    e: V2<W>,
)
    requires
        is_reading(value),
    ensures
        a.dot(p).times_spec(e.x).plus_spec(a.dot(q).times_spec(e.y)) == a.dot(
            p.scaled(e.x).sum(q.scaled(e.y)),
        ),
{
    reveal(exact_arithmetic);
    lemma_multiple_dot(value, p, e.x, a);
    lemma_multiple_dot(value, q, e.y, a);
    lemma_dot_swapped(p.scaled(e.x), a);
    lemma_dot_swapped(q.scaled(e.y), a);
    lemma_dot_swapped(p, a);
    lemma_dot_swapped(q, a);
    lemma_dot_sum(value, a, p.scaled(e.x), q.scaled(e.y));
}

/// In exact arithmetic the differential of a step in the tangent plane is how the direction
/// turns as the step grows: the change of the turn, seen from the turned direction, turns
/// the direction before the step, and the turn is made of that.
pub proof fn law_tilt_after_step<W: Scalar>(s: S2<W>, delta: V2<W>, e: V2<W>)
    requires
        exact_arithmetic::<W>(),
        !is_less(delta.norm(), tolerance()),
    ensures
        ({
            let b = s.s2_bx();
            let u = b.apply(delta);
            let change = a_matrix(u.opposite()).apply(b.apply(e));
            s.s2_mx(delta).apply(e) == exp(u).apply(change.cross(s.vec))
        }),
{
    reveal(exact_arithmetic);
    let value = choose|value: spec_fn(W) -> real| #[trigger] is_reading(value);
    let b = s.s2_bx();
    let u = b.apply(delta);
    let (x, k, t) = (exp(u), skew(s.vec), a_matrix(u).transpose());
    let m = x.opposite().compose(k).compose(t);
    assert(s.s2_mx(delta) == b.after(m));
    let w = b.apply(e);
    lemma_combined(value, m, b.p, b.q, e);
    law_correction_of_opposite(u);
    law_matrices_compose(x.opposite().compose(k), t, w);
    let change = t.apply(w);
    law_matrices_compose(x.opposite(), k, change);
    let v = k.apply(change);
    let way = change.cross(s.vec);
    lemma_skew_value(value, s.vec, change);
    lemma_crossed(value, change, s.vec);
    lemma_commutes(value(s.vec.y), value(change.z));
    lemma_commutes(value(s.vec.z), value(change.y));
    lemma_commutes(value(s.vec.z), value(change.x));
    lemma_commutes(value(s.vec.x), value(change.z));
    lemma_commutes(value(s.vec.x), value(change.y));
    lemma_commutes(value(s.vec.y), value(change.x));
    lemma_opposite_row(value, x.a, v, way);
    lemma_opposite_row(value, x.b, v, way);
    lemma_opposite_row(value, x.c, v, way);
}

} // verus!
