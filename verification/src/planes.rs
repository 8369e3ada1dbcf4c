//! Distances from planes, and how they change with the state, in exact arithmetic.
use crate::exact::{
    exact_angles, has_angles, is_unit, law_matrix_rotates, lemma_commutes, lemma_spread_two,
    lemma_trade,
};
use crate::fixed::Fixed;
use crate::linear::{Quat, V3};
use crate::manifold::StateIkfom;
use crate::measure::{
    chosen, fits, match_of, normal_vec, off_plane, plane_along, position_of, residuals, score_of, slope_of,
    weighed, world_of, ScanView,
};
use crate::places::{law_rotation_undone, lemma_axis_of, lemma_row_composed, place_in_world};
use crate::scalar::{exact_arithmetic, greater_spec, is_less, is_reading, lt, zero, Scalar, Widen};
use crate::units::{law_over_in_order, law_times_in_order};
use crate::sphere::{lemma_dot_value, lemma_signs, lemma_skew_value};
use crate::types::PointType;
use vstd::prelude::*;

verus! {

/// In exact arithmetic a rotation goes over to the other side of a scalar product as its
/// opposite.
pub proof fn law_rotation_changes_side<W: Scalar>(q: Quat<W>, n: V3<W>, v: V3<W>)
    requires
        exact_arithmetic::<W>(),
        is_unit(q),
    ensures
        q.conjugate().rotate(n).dot(v) == n.dot(q.rotate(v)),
{
    reveal(exact_arithmetic);
    let value = choose|value: spec_fn(W) -> real| #[trigger] is_reading(value);
    let c = q.conjugate();
    let m = q.matrix();
    let t = m.transpose();
    law_rotation_undone(q, v);
    law_matrix_rotates(q, v);
    law_matrix_rotates(c, n);
    lemma_row_composed(value, n, m, v);
    lemma_transposed(value, q);
    let l = c.matrix().apply(n);
    let r = V3::new(n.dot(t.a), n.dot(t.b), n.dot(t.c));
    lemma_swapped(value, t.a, n);
    lemma_swapped(value, t.b, n);
    lemma_swapped(value, t.c, n);
    assert(l == r);
}

proof fn lemma_swapped<W: Scalar>(value: spec_fn(W) -> real, a: V3<W>, b: V3<W>)
    requires
        is_reading(value),
    ensures
        a.dot(b) == b.dot(a),
{
    lemma_dot_value(value, a, b);
    lemma_dot_value(value, b, a);
    lemma_commutes(value(a.x), value(b.x));
    lemma_commutes(value(a.y), value(b.y));
    lemma_commutes(value(a.z), value(b.z));
    reveal(is_reading);
}

/// The matrix of the opposite rotation is the transposed one.
proof fn lemma_transposed<W: Scalar>(value: spec_fn(W) -> real, q: Quat<W>)
    requires
        is_reading(value),
    ensures
        q.conjugate().matrix() == q.matrix().transpose(),
{
    reveal(is_reading);
    let (w, i, j, k) = (value(q.w), value(q.i), value(q.j), value(q.k));
    lemma_signs(i, i);
    lemma_signs(j, j);
    lemma_signs(k, k);
    lemma_signs(i, j);
    lemma_signs(i, k);
    lemma_signs(j, k);
    lemma_signs(w, i);
    lemma_signs(w, j);
    lemma_signs(w, k);
    lemma_signs(w * i, 2int as real);
    lemma_signs(w * j, 2int as real);
    lemma_signs(w * k, 2int as real);
    let m = q.conjugate().matrix();
    let t = q.matrix().transpose();
    assert(value(m.a.x) == value(t.a.x));
    assert(value(m.a.y) == value(t.a.y));
    assert(value(m.a.z) == value(t.a.z));
    assert(value(m.b.x) == value(t.b.x));
    assert(value(m.b.y) == value(t.b.y));
    assert(value(m.b.z) == value(t.b.z));
    assert(value(m.c.x) == value(t.c.x));
    assert(value(m.c.y) == value(t.c.y));
    assert(value(m.c.z) == value(t.c.z));
}

/// In exact arithmetic a point placed in the world is seen again where it was: less the
/// position and turned back into the body, less the mount and turned back into the sensor.
/// The numbers of points are taken to hold what is computed.
pub proof fn law_placed_point_is_seen<N: Widen<W>, W: Scalar>(p: PointType<N>, s: StateIkfom<W>)
    requires
        exact_arithmetic::<W>(),
        is_unit(s.rot),
        is_unit(s.offset_r_l_i),
        forall|w: W| (#[trigger] N::narrow_spec(w)).widen_spec() == w,
    ensures
        ({
            let at = position_of::<N, W>(world_of(p, s));
            let on_imu = s.rot.conjugate().rotate(at.diff(s.pos));
            s.offset_r_l_i.conjugate().rotate(on_imu.diff(s.offset_t_l_i)) == position_of::<N, W>(p)
        }),
        world_of(p, s).intensity == p.intensity,
{
    reveal(exact_arithmetic);
    let value = choose|value: spec_fn(W) -> real| #[trigger] is_reading(value);
    let seen = position_of::<N, W>(p);
    let r = s.offset_r_l_i.rotate(seen);
    let u = r.sum(s.offset_t_l_i);
    lemma_taken_again(value, s.rot.rotate(u), s.pos);
    law_rotation_undone(s.rot, u);
    lemma_taken_again(value, r, s.offset_t_l_i);
    law_rotation_undone(s.offset_r_l_i, seen);
}

proof fn lemma_taken_again<W: Scalar>(value: spec_fn(W) -> real, a: V3<W>, b: V3<W>)
    requires
        is_reading(value),
    ensures
        a.sum(b).diff(b) == a,
{
    reveal(is_reading);
    let r = a.sum(b).diff(b);
    assert(value(r.x) == value(a.x));
    assert(value(r.y) == value(a.y));
    assert(value(r.z) == value(a.z));
}

/// Three of the entries of a row, as a vector.
pub open spec fn part_of<W>(row: Seq<W>, i: int) -> V3<W> {
    V3 { x: row[i], y: row[i + 1], z: row[i + 2] }
}

/// In exact arithmetic a distance grows by the slope when the position moves.
pub proof fn law_slope_by_position<N: Widen<W>, W: Scalar>(
    s: StateIkfom<W>,
    body: PointType<N>,
    norm: PointType<N>,
    ext: bool,
    d: V3<W>,
)
    requires
        exact_arithmetic::<W>(),
    ensures
        ({
            let n = normal_vec::<N, W>(norm);
            let at = position_of::<N, W>(body);
            let moved = StateIkfom { pos: s.pos.sum(d), ..s };
            n.dot(place_in_world(moved, at)) == n.dot(place_in_world(s, at)).plus_spec(
                part_of(slope_of(s, body, norm, ext), 0).dot(d),
            )
        }),
{
    reveal(exact_arithmetic);
    let value = choose|value: spec_fn(W) -> real| #[trigger] is_reading(value);
    let n = normal_vec::<N, W>(norm);
    let at = position_of::<N, W>(body);
    let a = s.rot.rotate(s.offset_r_l_i.rotate(at).sum(s.offset_t_l_i));
    lemma_dot_of_sums(value, n, a, s.pos, d);
}

proof fn lemma_dot_of_sums<W: Scalar>(
    value: spec_fn(W) -> real,
    n: V3<W>,
    a: V3<W>,
    b: V3<W>,
    d: V3<W>,
)
    requires
        is_reading(value),
    ensures
        n.dot(a.sum(b.sum(d))) == n.dot(a.sum(b)).plus_spec(n.dot(d)),
{
    reveal(is_reading);
    lemma_spread_two(value(n.x), value(a.x) + value(b.x), value(d.x));
    lemma_spread_two(value(n.y), value(a.y) + value(b.y), value(d.y));
    lemma_spread_two(value(n.z), value(a.z) + value(b.z), value(d.z));
    let l = a.sum(b.sum(d));
    assert(value(l.x) == (value(a.x) + value(b.x)) + value(d.x));
    assert(value(l.y) == (value(a.y) + value(b.y)) + value(d.y));
    assert(value(l.z) == (value(a.z) + value(b.z)) + value(d.z));
    assert(value(n.dot(l)) == value(n.dot(a.sum(b)).plus_spec(n.dot(d))));
}

/// A rotation of a sum is the sum of the rotations.
proof fn lemma_rotated_sum<W: Scalar>(value: spec_fn(W) -> real, q: Quat<W>, a: V3<W>, b: V3<W>)
    requires
        exact_arithmetic::<W>(),
        is_reading(value),
        is_unit(q),
    ensures
        q.rotate(a.sum(b)) == q.rotate(a).sum(q.rotate(b)),
{
    law_matrix_rotates(q, a);
    law_matrix_rotates(q, b);
    law_matrix_rotates(q, a.sum(b));
    let m = q.matrix();
    lemma_dot_sum(value, m.a, a, b);
    lemma_dot_sum(value, m.b, a, b);
    lemma_dot_sum(value, m.c, a, b);
}

pub(crate) proof fn lemma_dot_sum<W: Scalar>(value: spec_fn(W) -> real, n: V3<W>, a: V3<W>, b: V3<W>)
    requires
        is_reading(value),
    ensures
        n.dot(a.sum(b)) == n.dot(a).plus_spec(n.dot(b)),
{
    reveal(is_reading);
    lemma_spread_two(value(n.x), value(a.x), value(b.x));
    lemma_spread_two(value(n.y), value(a.y), value(b.y));
    lemma_spread_two(value(n.z), value(a.z), value(b.z));
    assert(value(n.dot(a.sum(b))) == value(n.dot(a).plus_spec(n.dot(b))));
}

/// In exact arithmetic a distance grows by the slope when the sensor is mounted elsewhere.
pub proof fn law_slope_by_mount<N: Widen<W>, W: Scalar>(
    s: StateIkfom<W>,
    body: PointType<N>,
    norm: PointType<N>,
    d: V3<W>,
)
    requires
        exact_arithmetic::<W>(),
        is_unit(s.rot),
    ensures
        ({
            let n = normal_vec::<N, W>(norm);
            let at = position_of::<N, W>(body);
            let moved = StateIkfom { offset_t_l_i: s.offset_t_l_i.sum(d), ..s };
            n.dot(place_in_world(moved, at)) == n.dot(place_in_world(s, at)).plus_spec(
                part_of(slope_of(s, body, norm, true), 9).dot(d),
            )
        }),
{
    reveal(exact_arithmetic);
    let value = choose|value: spec_fn(W) -> real| #[trigger] is_reading(value);
    let n = normal_vec::<N, W>(norm);
    let at = position_of::<N, W>(body);
    let r = s.offset_r_l_i.rotate(at);
    let u = r.sum(s.offset_t_l_i);
    lemma_sums_regroup(value, r, s.offset_t_l_i, d);
    lemma_rotated_sum(value, s.rot, u, d);
    let (a, b) = (s.rot.rotate(u), s.rot.rotate(d));
    lemma_sums_reorder(value, a, b, s.pos);
    lemma_dot_sum(value, n, a.sum(s.pos), b);
    law_rotation_changes_side(s.rot, n, d);
}

proof fn lemma_sums_regroup<W: Scalar>(value: spec_fn(W) -> real, a: V3<W>, b: V3<W>, c: V3<W>)
    requires
        is_reading(value),
    ensures
        a.sum(b.sum(c)) == a.sum(b).sum(c),
{
    reveal(is_reading);
    let (l, r) = (a.sum(b.sum(c)), a.sum(b).sum(c));
    assert(value(l.x) == value(r.x));
    assert(value(l.y) == value(r.y));
    assert(value(l.z) == value(r.z));
}

proof fn lemma_sums_reorder<W: Scalar>(value: spec_fn(W) -> real, a: V3<W>, b: V3<W>, c: V3<W>)
    requires
        is_reading(value),
    ensures
        a.sum(b).sum(c) == a.sum(c).sum(b),
{
    reveal(is_reading);
    let (l, r) = (a.sum(b).sum(c), a.sum(c).sum(b));
    assert(value(l.x) == value(r.x));
    assert(value(l.y) == value(r.y));
    assert(value(l.z) == value(r.z));
}

/// A skew-symmetric image in a scalar product is a vector product on the other side.
proof fn lemma_skew_changes_side<W: Scalar>(
    value: spec_fn(W) -> real,
    u: V3<W>,
    c: V3<W>,
    turn: V3<W>,
)
    requires
        is_reading(value),
    ensures
        crate::so3::skew(u).apply(c).dot(turn) == c.dot(turn.cross(u)),
{
    let a = crate::so3::skew(u).apply(c);
    lemma_skew_value(value, u, c);
    lemma_dot_value(value, a, turn);
    lemma_dot_value(value, c, turn.cross(u));
    let (p, q, r) = (value(u.x), value(u.y), value(u.z));
    let (x, y, z) = (value(c.x), value(c.y), value(c.z));
    let (f, g, h) = (value(turn.x), value(turn.y), value(turn.z));
    let k = turn.cross(u);
    assert(value(k.x) == g * r - h * q && value(k.y) == h * p - f * r && value(k.z) == f * q - g
        * p) by {
        reveal(is_reading);
    }
    lemma_commutes(q * z - r * y, f);
    lemma_commutes(r * x - p * z, g);
    lemma_commutes(p * y - q * x, h);
    lemma_spread_two(f, q * z, r * y);
    lemma_spread_two(g, r * x, p * z);
    lemma_spread_two(h, p * y, q * x);
    lemma_spread_two(x, g * r, h * q);
    lemma_spread_two(y, h * p, f * r);
    lemma_spread_two(z, f * q, g * p);
    lemma_around(f, q, z);
    lemma_around(f, r, y);
    lemma_around(g, r, x);
    lemma_around(g, p, z);
    lemma_around(h, p, y);
    lemma_around(h, q, x);
    reveal(is_reading);
    assert(value(a.dot(turn)) == value(c.dot(k)));
}

proof fn lemma_around(a: real, b: real, c: real)
    ensures
        a * (b * c) == c * (a * b),
{
    lemma_trade(a, b, c);
    lemma_commutes(a * b, c);
}

/// In exact arithmetic the slope by rotation is how fast the distance grows as the body
/// turns: with an angular velocity in the frame of the body, a point moves in that frame
/// by the vector product of the velocity with its place.
pub proof fn law_slope_by_turn<N: Widen<W>, W: Scalar>(
    s: StateIkfom<W>,
    body: PointType<N>,
    norm: PointType<N>,
    ext: bool,
    turn: V3<W>,
)
    requires
        exact_arithmetic::<W>(),
        is_unit(s.rot),
    ensures
        ({
            let n = normal_vec::<N, W>(norm);
            let u = s.offset_r_l_i.rotate(position_of::<N, W>(body)).sum(s.offset_t_l_i);
            part_of(slope_of(s, body, norm, ext), 3).dot(turn) == n.dot(
                s.rot.rotate(turn.cross(u)),
            )
        }),
{
    reveal(exact_arithmetic);
    let value = choose|value: spec_fn(W) -> real| #[trigger] is_reading(value);
    let n = normal_vec::<N, W>(norm);
    let u = s.offset_r_l_i.rotate(position_of::<N, W>(body)).sum(s.offset_t_l_i);
    lemma_skew_changes_side(value, u, s.rot.conjugate().rotate(n), turn);
    law_rotation_changes_side(s.rot, n, turn.cross(u));
}

/// The same as the sensor turns on its mount.
pub proof fn law_slope_by_mount_turn<N: Widen<W>, W: Scalar>(
    s: StateIkfom<W>,
    body: PointType<N>,
    norm: PointType<N>,
    turn: V3<W>,
)
    requires
        exact_arithmetic::<W>(),
        is_unit(s.rot),
        is_unit(s.offset_r_l_i),
    ensures
        ({
            let n = normal_vec::<N, W>(norm);
            let at = position_of::<N, W>(body);
            part_of(slope_of(s, body, norm, true), 6).dot(turn) == n.dot(
                s.rot.rotate(s.offset_r_l_i.rotate(turn.cross(at))),
            )
        }),
{
    reveal(exact_arithmetic);
    let value = choose|value: spec_fn(W) -> real| #[trigger] is_reading(value);
    let n = normal_vec::<N, W>(norm);
    let at = position_of::<N, W>(body);
    let c = s.rot.conjugate().rotate(n);
    let e = s.offset_r_l_i.conjugate().rotate(c);
    let way = turn.cross(at);
    lemma_skew_changes_side(value, at, e, turn);
    law_rotation_changes_side(s.offset_r_l_i, c, way);
    law_rotation_changes_side(s.rot, n, s.offset_r_l_i.rotate(way));
}

/// In exact arithmetic the plane of a vector has a normal of length one, and the distance
/// from it, times the length of the vector, is by how much the point misses `n · p = -1`.
pub proof fn law_plane_of_vector<N: Scalar>(sol: V3<N>, p: PointType<N>)
    requires
        exact_angles::<N>(),
        is_less(N::ratio_spec(1, 10000000), sol.norm()),
    ensures
        ({
            let f = plane_along(sol);
            &&& f.n.dot(f.n) == N::ratio_spec(1, 1)
            &&& off_plane(f, p).times_spec(sol.norm()) == sol.dot(V3::new(p.x, p.y, p.z)).plus_spec(
                N::ratio_spec(1, 1),
            )
        }),
{
    reveal(exact_angles);
    let value = choose|value: spec_fn(N) -> real| #[trigger] is_reading(value) && has_angles(value);
    let f = plane_along(sol);
    let m = sol.norm();
    let n = value(m);
    lemma_axis_of(value, sol);
    lemma_dot_value(value, f.n, f.n);
    let one = N::ratio_spec(1, 1);
    assert(value(one) == 1int as real) by {
        reveal(is_reading);
    }
    assert(value(f.d) * n == 1int as real) by {
        reveal(has_angles);
    }
    let (x, y, z) = (value(p.x), value(p.y), value(p.z));
    let (a, b, c) = (value(f.n.x), value(f.n.y), value(f.n.z));
    let d = value(f.d);
    lemma_commutes(a * x + b * y + c * z + d, n);
    lemma_spread_two(n, a * x + b * y + c * z, d);
    lemma_spread_two(n, a * x + b * y, c * z);
    lemma_spread_two(n, a * x, b * y);
    lemma_share_times(n, a, x);
    lemma_share_times(n, b, y);
    lemma_share_times(n, c, z);
    lemma_commutes(n, d);
    reveal(is_reading);
    assert(value(f.n.dot(f.n)) == value(one));
    let off = off_plane(f, p);
    assert(value(off) == a * x + b * y + c * z + d);
    let at = V3::new(p.x, p.y, p.z);
    assert(value(sol.dot(at).plus_spec(one)) == value(sol.x) * x + value(sol.y) * y + value(sol.z)
        * z + 1int as real);
    assert(value(off.times_spec(m)) == value(sol.dot(at).plus_spec(one)));
}

proof fn lemma_share_times(n: real, a: real, x: real)
    ensures
        n * (a * x) == (a * n) * x,
{
    lemma_trade(n, a, x);
    lemma_commutes(n, a);
}

/// The numbers of the points that take part are those of the selected points, in order.
pub proof fn law_chosen_are_selected(selected: Seq<bool>, n: nat)
    requires
        n <= selected.len(),
    ensures
        forall|k: int|
            0 <= k < chosen(selected, n).len() ==> 0 <= #[trigger] chosen(selected, n)[k] < n
                && selected[chosen(selected, n)[k]],
        forall|i: int, k: int|
            0 <= i < k < chosen(selected, n).len() ==> #[trigger] chosen(selected, n)[i]
                < #[trigger] chosen(selected, n)[k],
        forall|i: int|
            0 <= i < n && #[trigger] selected[i] ==> chosen(selected, n).contains(i),
    decreases n,
{
    if n > 0 {
        let before = chosen(selected, (n - 1) as nat);
        law_chosen_are_selected(selected, (n - 1) as nat);
        let after = chosen(selected, n);
        assert forall|i: int| 0 <= i < n && #[trigger] selected[i] implies after.contains(i) by {
            if i == n - 1 {
                assert(after[after.len() - 1] == i);
            } else {
                let k = choose|k: int| 0 <= k < before.len() && before[k] == i;
                assert(after[k] == i);
            }
        }
    }
}

/// What a filter is told of a point that takes part is the opposite of its distance from
/// its plane: the two make nothing together. Widening is taken to keep sums and opposites.
pub proof fn law_residual_opposes_distance<N: Widen<W>, W: Scalar>(
    a: ScanView<N>,
    sols: Seq<V3<N>>,
    k: int,
)
    requires
        exact_arithmetic::<W>(),
        crate::measure::aligned(a),
        0 <= k < residuals::<N, W>(weighed::<N, W>(a, sols)).len(),
        forall|v: N| (#[trigger] v.negate_spec()).widen_spec() == v.widen_spec().negate_spec(),
    ensures
        ({
            let b = weighed::<N, W>(a, sols);
            let i = chosen(b.selected, b.selected.len())[k];
            &&& 0 <= i < a.body.len()
            &&& match_of::<N, W>(a, sols[i], i) is Some
            &&& residuals::<N, W>(b)[k].plus_spec(
                off_plane(plane_along(sols[i]), a.world[i]).widen_spec(),
            ) == zero::<W>()
        }),
{
    reveal(exact_arithmetic);
    let value = choose|value: spec_fn(W) -> real| #[trigger] is_reading(value);
    let b = weighed::<N, W>(a, sols);
    law_chosen_are_selected(b.selected, b.selected.len());
    let c = chosen(b.selected, b.selected.len());
    let i = c[k];
    let off = off_plane(plane_along(sols[i]), a.world[i]);
    assert(b.selected[i]);
    assert(match_of::<N, W>(a, sols[i], i) == Some((plane_along(sols[i]), off)));
    assert(b.normvec[i].intensity == off);
    reveal(is_reading);
    let sum = residuals::<N, W>(b)[k].plus_spec(off.widen_spec());
    assert(residuals::<N, W>(b)[k] == off.negate_spec().widen_spec());
    assert(value(sum) == value(zero::<W>()));
}

/// In fixed point, a point counts the less the further it is off its plane, and fully where
/// it is on it.
pub proof fn law_further_off_counts_less(body: PointType<Fixed>, a: Fixed, b: Fixed)
    requires
        position_of::<Fixed, Fixed>(body).norm().root_spec().raw > 0,
        a.magnitude_spec().raw <= b.magnitude_spec().raw,
    ensures
        score_of::<Fixed, Fixed>(body, b).raw <= score_of::<Fixed, Fixed>(body, a).raw,
        a.raw == 0 ==> score_of::<Fixed, Fixed>(body, a) == Fixed::ratio_spec(1, 1),
{
    let reach = greater_spec(
        position_of::<Fixed, Fixed>(body).norm().root_spec(),
        Fixed::ratio_spec(1, 1000000),
    );
    let k = Fixed::ratio_spec(9, 10);
    assert(k.raw == 58982);
    let (p, q) = (a.magnitude_spec(), b.magnitude_spec());
    law_times_in_order(k, p, q);
    law_over_in_order(k.times_spec(p), k.times_spec(q), reach);
    if a.raw == 0 {
        let r = reach.raw as int;
        assert(0int / r == 0) by (nonlinear_arith)
            requires
                r > 0,
        ;
        assert(k.times_spec(p).raw == 0);
        assert(k.times_spec(p).over_spec(reach).raw == 0);
    }
}

/// A point takes part in a measurement where it was near enough points of the map, their
/// plane fits them, and it is so little off the plane that it counts well.
pub proof fn law_good_matches_take_part<N: Widen<W>, W: Scalar>(
    a: ScanView<N>,
    sols: Seq<V3<N>>,
    i: int,
)
    requires
        crate::measure::aligned(a),
        0 <= i < a.body.len(),
    ensures
        ({
            let b = weighed::<N, W>(a, sols);
            let f = plane_along(sols[i]);
            let off = off_plane(f, a.world[i]);
            &&& b.selected[i] <==> a.selected[i] && fits(sols[i], a.near[i], N::ratio_spec(1, 10))
                && lt(N::ratio_spec(9, 10), score_of::<N, W>(a.body[i], off))
            &&& b.selected[i] ==> V3::new(b.normvec[i].x, b.normvec[i].y, b.normvec[i].z) == f.n
                && b.normvec[i].intensity == off && b.res[i] == off.magnitude_spec()
            &&& b.body == a.body && b.world == a.world && b.near == a.near
        }),
{
}

} // verus!
