//! Where rotations and poses take a point, in exact arithmetic.
use crate::exact::{
    exact_angles, has_angles, is_unit, law_matrix_rotates, law_turn_undone,
    lemma_commutes, lemma_spread_two, lemma_trade, lemma_unit_axis,
};
use crate::imu_processing::{compensated, Pose6D};
use crate::linear::{M3, Quat, V3};
use crate::manifold::StateIkfom;
use crate::scalar::{
    exact_arithmetic, is_less, is_reading, lt, Scalar, Widen,
};
use crate::so3::{exp, exp_scaled, rodrigues};
use crate::sphere::{
    lemma_dot_value, lemma_norm_value, lemma_nothing, lemma_part_positive, lemma_signs,
    lemma_skew_square,
};
use crate::turns::law_turns_compose;
use crate::types::PointType;
use vstd::prelude::*;

verus! {

/// In exact arithmetic a rotation and its opposite undo each other.
pub proof fn law_rotation_undone<W: Scalar>(q: Quat<W>, v: V3<W>)
    requires
        exact_arithmetic::<W>(),
        is_unit(q),
    ensures
        is_unit(q.conjugate()),
        q.rotate(q.conjugate().rotate(v)) == v,
        q.conjugate().rotate(q.rotate(v)) == v,
{
    let c = q.conjugate();
    let e = Quat::<W>::identity();
    lemma_opposite(q);
    law_turn_undone(q, e);
    law_turn_undone(c, e);
    lemma_identity(q, v);
    lemma_identity(c, v);
    law_turns_compose(q, c, v);
    law_turns_compose(c, q, v);
    law_matrix_rotates(q, v);
    law_matrix_rotates(c, v);
    law_matrix_rotates(q, c.rotate(v));
    law_matrix_rotates(c, q.rotate(v));
}

/// The opposite of a rotation has length one, and its opposite is the rotation.
proof fn lemma_opposite<W: Scalar>(q: Quat<W>)
    requires
        exact_arithmetic::<W>(),
        is_unit(q),
    ensures
        is_unit(q.conjugate()),
        q.conjugate().conjugate() == q,
{
    reveal(exact_arithmetic);
    reveal(is_reading);
    let value = choose|value: spec_fn(W) -> real| #[trigger] is_reading(value);
    let c = q.conjugate();
    lemma_signs(value(q.i), value(q.i));
    lemma_signs(value(q.j), value(q.j));
    lemma_signs(value(q.k), value(q.k));
    let left = c.w.times_spec(c.w).plus_spec(c.i.times_spec(c.i)).plus_spec(
        c.j.times_spec(c.j),
    ).plus_spec(c.k.times_spec(c.k));
    let right = q.w.times_spec(q.w).plus_spec(q.i.times_spec(q.i)).plus_spec(
        q.j.times_spec(q.j),
    ).plus_spec(q.k.times_spec(q.k));
    assert(value(left) == value(right));
    let d = c.conjugate();
    assert(value(d.i) == value(q.i));
    assert(value(d.j) == value(q.j));
    assert(value(d.k) == value(q.k));
}

/// The rotation by no angle changes neither a rotation nor a vector.
pub(crate) proof fn lemma_identity<W: Scalar>(q: Quat<W>, v: V3<W>)
    requires
        exact_arithmetic::<W>(),
    ensures
        q.compose(Quat::identity()) == q,
        Quat::<W>::identity().matrix().apply(v) == v,
{
    reveal(exact_arithmetic);
    reveal(is_reading);
    let value = choose|value: spec_fn(W) -> real| #[trigger] is_reading(value);
    let e = Quat::<W>::identity();
    let (one, none) = (1int as real, 0int as real);
    lemma_nothing(value(q.w));
    lemma_nothing(value(q.i));
    lemma_nothing(value(q.j));
    lemma_nothing(value(q.k));
    lemma_nothing(value(v.x));
    lemma_nothing(value(v.y));
    lemma_nothing(value(v.z));
    lemma_commutes(one, value(v.x));
    lemma_commutes(one, value(v.y));
    lemma_commutes(one, value(v.z));
    lemma_nothing(none);
    lemma_nothing(one);
    lemma_nothing(2int as real);
    let r = q.compose(e);
    assert(value(r.w) == value(q.w));
    assert(value(r.i) == value(q.i));
    assert(value(r.j) == value(q.j));
    assert(value(r.k) == value(q.k));
    let m = e.matrix();
    assert(value(m.a.x) == one && value(m.a.y) == none && value(m.a.z) == none);
    assert(value(m.b.x) == none && value(m.b.y) == one && value(m.b.z) == none);
    assert(value(m.c.x) == none && value(m.c.y) == none && value(m.c.z) == one);
    let w = m.apply(v);
    assert(value(w.x) == value(v.x));
    assert(value(w.y) == value(v.y));
    assert(value(w.z) == value(v.z));
}

/// A row before a matrix and a vector.
proof fn lemma_row_before(
    a: (real, real, real),
    p: (real, real, real),
    q: (real, real, real),
    r: (real, real, real),
    v: (real, real, real),
)
    ensures
        (a.0 * p.0 + a.1 * q.0 + a.2 * r.0) * v.0 + (a.0 * p.1 + a.1 * q.1 + a.2 * r.1) * v.1 + (a.0
            * p.2 + a.1 * q.2 + a.2 * r.2) * v.2 == a.0 * (p.0 * v.0 + p.1 * v.1 + p.2 * v.2) + a.1
            * (q.0 * v.0 + q.1 * v.1 + q.2 * v.2) + a.2 * (r.0 * v.0 + r.1 * v.1 + r.2 * v.2),
{
    lemma_three_times(a.0 * p.0, a.1 * q.0, a.2 * r.0, v.0);
    lemma_three_times(a.0 * p.1, a.1 * q.1, a.2 * r.1, v.1);
    lemma_three_times(a.0 * p.2, a.1 * q.2, a.2 * r.2, v.2);
    lemma_times_three(a.0, p, v);
    lemma_times_three(a.1, q, v);
    lemma_times_three(a.2, r, v);
}

proof fn lemma_three_times(a: real, b: real, c: real, s: real)
    ensures
        (a + b + c) * s == a * s + b * s + c * s,
{
    lemma_commutes(a + b + c, s);
    lemma_spread_two(s, a, b);
    lemma_spread_two(s, a + b, c);
    lemma_commutes(a, s);
    lemma_commutes(b, s);
    lemma_commutes(c, s);
}

proof fn lemma_times_three(a: real, p: (real, real, real), v: (real, real, real))
    ensures
        a * (p.0 * v.0 + p.1 * v.1 + p.2 * v.2) == (a * p.0) * v.0 + (a * p.1) * v.1 + (a * p.2)
            * v.2,
{
    lemma_spread_two(a, p.0 * v.0, p.1 * v.1);
    lemma_spread_two(a, p.0 * v.0 + p.1 * v.1, p.2 * v.2);
    lemma_trade(a, p.0, v.0);
    lemma_trade(a, p.1, v.1);
    lemma_trade(a, p.2, v.2);
}

/// In exact arithmetic a product of matrices takes a vector where the matrices take it one
/// after the other.
pub proof fn law_matrices_compose<W: Scalar>(m: M3<W>, n: M3<W>, v: V3<W>)
    requires
        exact_arithmetic::<W>(),
    ensures
        m.compose(n).apply(v) == m.apply(n.apply(v)),
{
    reveal(exact_arithmetic);
    let value = choose|value: spec_fn(W) -> real| #[trigger] is_reading(value);
    lemma_row_composed(value, m.a, n, v);
    lemma_row_composed(value, m.b, n, v);
    lemma_row_composed(value, m.c, n, v);
}

pub(crate) proof fn lemma_row_composed<W: Scalar>(value: spec_fn(W) -> real, a: V3<W>, n: M3<W>, v: V3<W>)
    requires
        is_reading(value),
    ensures
        ({
            let t = n.transpose();
            V3::new(a.dot(t.a), a.dot(t.b), a.dot(t.c)).dot(v) == a.dot(n.apply(v))
        }),
{
    let t = n.transpose();
    lemma_row_before(
        (value(a.x), value(a.y), value(a.z)),
        (value(n.a.x), value(n.a.y), value(n.a.z)),
        (value(n.b.x), value(n.b.y), value(n.b.z)),
        (value(n.c.x), value(n.c.y), value(n.c.z)),
        (value(v.x), value(v.y), value(v.z)),
    );
    reveal(is_reading);
    assert(value(V3::new(a.dot(t.a), a.dot(t.b), a.dot(t.c)).dot(v)) == value(a.dot(n.apply(v))));
}

/// What was taken away and is added again leaves the vector.
proof fn lemma_back_again<W: Scalar>(a: V3<W>, b: V3<W>)
    requires
        exact_arithmetic::<W>(),
    ensures
        a.diff(b).sum(b) == a,
{
    reveal(exact_arithmetic);
    reveal(is_reading);
    let value = choose|value: spec_fn(W) -> real| #[trigger] is_reading(value);
    let r = a.diff(b).sum(b);
    assert(value(r.x) == value(a.x));
    assert(value(r.y) == value(a.y));
    assert(value(r.z) == value(a.z));
}

/// A way without a start, and the start again.
proof fn lemma_way_and_start<W: Scalar>(a: V3<W>, way: V3<W>, start: V3<W>)
    requires
        exact_arithmetic::<W>(),
    ensures
        a.sum(way.diff(start)).sum(start) == a.sum(way),
{
    reveal(exact_arithmetic);
    reveal(is_reading);
    let value = choose|value: spec_fn(W) -> real| #[trigger] is_reading(value);
    let l = a.sum(way.diff(start)).sum(start);
    let r = a.sum(way);
    assert(value(l.x) == value(r.x));
    assert(value(l.y) == value(r.y));
    assert(value(l.z) == value(r.z));
}

/// The coordinates of a point as wide numbers.
pub open spec fn coordinates<N: Widen<W>, W: Scalar>(p: PointType<N>) -> V3<W> {
    V3::new(p.x.widen_spec(), p.y.widen_spec(), p.z.widen_spec())
}

/// Where a point seen by the lidar lies in the world, from a state.
pub open spec fn place_in_world<W: Scalar>(x: StateIkfom<W>, at: V3<W>) -> V3<W> {
    x.rot.rotate(x.offset_r_l_i.rotate(at).sum(x.offset_t_l_i)).sum(x.pos)
}

/// In exact arithmetic a compensated point lies where the measured one lay: from the state
/// at the end of the scan it is at the place of the world that the point had from the pose
/// at its time, which is the pose `head` turned on and moved on for the time since then.
/// The numbers of points are taken to hold what is computed.
pub proof fn law_compensated_point_stays<N: Widen<W>, W: Scalar>(
    p: PointType<N>,
    head: Pose6D<W>,
    tail: Pose6D<W>,
    end: StateIkfom<W>,
)
    requires
        exact_arithmetic::<W>(),
        is_unit(end.rot),
        is_unit(end.offset_r_l_i),
        forall|w: W| (#[trigger] N::narrow_spec(w)).widen_spec() == w,
    ensures
        ({
            let dt = p.curvature.widen_spec().over_spec(W::ratio_spec(1000, 1)).minus_spec(
                head.offset_time,
            );
            let seen = end.offset_r_l_i.rotate(coordinates::<N, W>(p)).sum(end.offset_t_l_i);
            let turned = head.rot.apply(exp_scaled(tail.gyr, dt).apply(seen));
            let half = W::ratio_spec(1, 2);
            let moved = head.pos.sum(head.vel.scaled(dt)).sum(
                tail.acc.scaled(half).scaled(dt).scaled(dt),
            );
            let after = compensated(p, head, tail, end);
            place_in_world(end, coordinates::<N, W>(after)) == turned.sum(moved)
        }),
{
    let dt = p.curvature.widen_spec().over_spec(W::ratio_spec(1000, 1)).minus_spec(
        head.offset_time,
    );
    let at = coordinates::<N, W>(p);
    let seen = end.offset_r_l_i.rotate(at).sum(end.offset_t_l_i);
    let turn = exp_scaled(tail.gyr, dt);
    law_matrices_compose(head.rot, turn, seen);
    let half = W::ratio_spec(1, 2);
    let moved = head.pos.sum(head.vel.scaled(dt)).sum(tail.acc.scaled(half).scaled(dt).scaled(dt));
    let there = head.rot.compose(turn).apply(seen).sum(moved.diff(end.pos));
    let back = end.rot.conjugate().rotate(there);
    let to = end.offset_r_l_i.conjugate().rotate(back.diff(end.offset_t_l_i));
    assert(coordinates::<N, W>(compensated(p, head, tail, end)) == to);
    law_rotation_undone(end.offset_r_l_i, back.diff(end.offset_t_l_i));
    lemma_back_again(back, end.offset_t_l_i);
    law_rotation_undone(end.rot, there);
    lemma_way_and_start(head.rot.compose(turn).apply(seen), moved, end.pos);
}

/// A row of the rotation about the axis `a`, `b`, `c` of length one, at any vector.
proof fn lemma_turned_row_any(
    a: real,
    b: real,
    c: real,
    s: real,
    t: real,
    x: real,
    y: real,
    z: real,
)
    ensures
        ((1int as real) + (a * a - (1int as real)) * ((1int as real) - t)) * x + ((a * b) * ((
        1int as real) - t) - c * s) * y + ((a * c) * ((1int as real) - t) + b * s) * z == x * t + (b
            * z - c * y) * s + a * ((a * x + b * y + c * z) * ((1int as real) - t)),
{
    let one = 1int as real;
    let m = one - t;
    let aa = a * a;
    let d = a * x + b * y + c * z;
    lemma_commutes(one + (aa - one) * m, x);
    lemma_spread_two(x, one, (aa - one) * m);
    lemma_nothing(x);
    lemma_nothing(m);
    lemma_commutes(aa - one, m);
    lemma_spread_two(m, aa, one);
    lemma_spread_two(x, m * aa, m);
    lemma_commutes((a * b) * m - c * s, y);
    lemma_spread_two(y, (a * b) * m, c * s);
    lemma_commutes((a * c) * m + b * s, z);
    lemma_spread_two(z, (a * c) * m, b * s);
    assert(x * (m * (a * a)) == (m * a) * (a * x)) by (nonlinear_arith);
    assert(y * ((a * b) * m) == (m * a) * (b * y)) by (nonlinear_arith);
    assert(z * ((a * c) * m) == (m * a) * (c * z)) by (nonlinear_arith);
    lemma_spread_two(m * a, a * x, b * y);
    lemma_spread_two(m * a, a * x + b * y, c * z);
    assert((m * a) * d == a * (d * m)) by (nonlinear_arith);
    assert(y * (c * s) == s * (c * y)) by (nonlinear_arith);
    assert(z * (b * s) == s * (b * z)) by (nonlinear_arith);
    lemma_spread_two(s, b * z, c * y);
    lemma_commutes(s, b * z - c * y);
    lemma_spread_two(x, one, t);
}

/// In exact arithmetic the rotation by an angular velocity over a time turns about the axis
/// of the velocity by its length times the time: what of a vector is along the axis stays,
/// and the rest turns towards its vector product with the axis.
pub proof fn law_velocity_turns<W: Scalar>(velocity: V3<W>, dt: W, v: V3<W>)
    requires
        exact_angles::<W>(),
        is_less(W::ratio_spec(1, 10000000), velocity.norm()),
    ensures
        ({
            let n = velocity.norm();
            let k = velocity.shared(n);
            let angle = n.times_spec(dt);
            let rest = W::ratio_spec(1, 1).minus_spec(angle.cos_spec());
            exp_scaled(velocity, dt).apply(v) == v.scaled(angle.cos_spec()).sum(
                k.cross(v).scaled(angle.sin_spec()),
            ).sum(k.scaled(k.dot(v).times_spec(rest)))
        }),
{
    reveal(exact_angles);
    let value = choose|value: spec_fn(W) -> real| #[trigger] is_reading(value) && has_angles(value);
    let n = velocity.norm();
    let k = velocity.shared(n);
    lemma_axis_of(value, velocity);
    lemma_turn_formula(value, k, n.times_spec(dt), v);
}

/// The same for a rotation vector.
pub proof fn law_vector_turns<W: Scalar>(turn: V3<W>, v: V3<W>)
    requires
        exact_angles::<W>(),
        is_less(W::ratio_spec(1, 10000000), turn.norm()),
    ensures
        ({
            let angle = turn.norm();
            let k = turn.shared(angle);
            let rest = W::ratio_spec(1, 1).minus_spec(angle.cos_spec());
            exp(turn).apply(v) == v.scaled(angle.cos_spec()).sum(
                k.cross(v).scaled(angle.sin_spec()),
            ).sum(k.scaled(k.dot(v).times_spec(rest)))
        }),
{
    reveal(exact_angles);
    let value = choose|value: spec_fn(W) -> real| #[trigger] is_reading(value) && has_angles(value);
    lemma_axis_of(value, turn);
    lemma_turn_formula(value, turn.shared(turn.norm()), turn.norm(), v);
}

/// A vector that is long enough, shared by its length, is an axis of length one.
pub(crate) proof fn lemma_axis_of<W: Scalar>(value: spec_fn(W) -> real, v: V3<W>)
    requires
        is_reading(value),
        has_angles(value),
        is_less(W::ratio_spec(1, 10000000), v.norm()),
    ensures
        ({
            let n = value(v.norm());
            let k = v.shared(v.norm());
            &&& n > 0int as real
            &&& value(k.x) * n == value(v.x)
            &&& value(k.y) * n == value(v.y)
            &&& value(k.z) * n == value(v.z)
            &&& value(k.x) * value(k.x) + value(k.y) * value(k.y) + value(k.z) * value(k.z)
                == 1int as real
        }),
{
    let n = value(v.norm());
    let k = v.shared(v.norm());
    let small = W::ratio_spec(1, 10000000);
    lemma_norm_value(value, v);
    assert(value(small) * (10000000int as real) == 1int as real && value(small) < n) by {
        reveal(has_angles);
        assert(lt(small, v.norm()));
    }
    lemma_part_positive(value(small), 10000000int as real);
    assert(value(k.x) * n == value(v.x) && value(k.y) * n == value(v.y) && value(k.z) * n
        == value(v.z)) by {
        reveal(has_angles);
    }
    lemma_unit_axis(
        value(v.x),
        value(v.y),
        value(v.z),
        n,
        value(k.x),
        value(k.y),
        value(k.z),
    );
}

pub(crate) proof fn lemma_turn_formula<W: Scalar>(
    value: spec_fn(W) -> real,
    k: V3<W>,
    angle: W,
    v: V3<W>,
)
    requires
        is_reading(value),
        value(k.x) * value(k.x) + value(k.y) * value(k.y) + value(k.z) * value(k.z)
            == 1int as real,
    ensures
        ({
            let rest = W::ratio_spec(1, 1).minus_spec(angle.cos_spec());
            rodrigues(k, angle).apply(v) == v.scaled(angle.cos_spec()).sum(
                k.cross(v).scaled(angle.sin_spec()),
            ).sum(k.scaled(k.dot(v).times_spec(rest)))
        }),
{
    let m = rodrigues(k, angle);
    let (s, t) = (value(angle.sin_spec()), value(angle.cos_spec()));
    let (a, b, c) = (value(k.x), value(k.y), value(k.z));
    let (x, y, z) = (value(v.x), value(v.y), value(v.z));
    let one = 1int as real;
    let n = one - t;
    lemma_skew_square(value, k);
    lemma_turned_row_any(a, b, c, s, t, x, y, z);
    lemma_turned_row_any(b, c, a, s, t, y, z, x);
    lemma_turned_row_any(c, a, b, s, t, z, x, y);
    lemma_nothing(s);
    lemma_signs(a, s);
    lemma_signs(b, s);
    lemma_signs(c, s);
    lemma_dot_value(value, k, v);
    assert({
        &&& value(m.a.x) == one + (a * a - one) * n
        &&& value(m.a.y) == (a * b) * n - c * s
        &&& value(m.a.z) == (a * c) * n + b * s
        &&& value(m.b.x) == (b * a) * n + c * s
        &&& value(m.b.y) == one + (b * b - one) * n
        &&& value(m.b.z) == (b * c) * n - a * s
        &&& value(m.c.x) == (c * a) * n - b * s
        &&& value(m.c.y) == (c * b) * n + a * s
        &&& value(m.c.z) == one + (c * c - one) * n
    }) by {
        reveal(is_reading);
    }
    let r = m.apply(v);
    assert({
        &&& value(r.x) == value(m.a.x) * x + value(m.a.y) * y + value(m.a.z) * z
        &&& value(r.y) == value(m.b.x) * x + value(m.b.y) * y + value(m.b.z) * z
        &&& value(r.z) == value(m.c.x) * x + value(m.c.y) * y + value(m.c.z) * z
    }) by {
        reveal(is_reading);
    }
    let rest = W::ratio_spec(1, 1).minus_spec(angle.cos_spec());
    let w = v.scaled(angle.cos_spec()).sum(k.cross(v).scaled(angle.sin_spec())).sum(
        k.scaled(k.dot(v).times_spec(rest)),
    );
    reveal(is_reading);
    let d = a * x + b * y + c * z;
    assert(value(k.dot(v).times_spec(rest)) == d * n);
    assert(value(w.x) == x * t + (b * z - c * y) * s + a * (d * n));
    assert(value(w.y) == y * t + (c * x - a * z) * s + b * (d * n));
    assert(value(w.z) == z * t + (a * y - b * x) * s + c * (d * n));
    assert(value(r.x) == value(w.x));
    assert(value(r.y) == value(w.y));
    assert(value(r.z) == value(w.z));
}

} // verus!
