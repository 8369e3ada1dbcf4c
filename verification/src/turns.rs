//! Rotations one after the other, in exact arithmetic.
use crate::exact::{lemma_commutes, lemma_spread_two, lemma_times_parts, lemma_trade};
use crate::linear::{Quat, V3};
use crate::scalar::{exact_arithmetic, is_reading, Scalar};
use vstd::prelude::*;

verus! {

/// A quaternion of reals.
type Parts = (real, real, real, real);

/// The product of two quaternions of reals.
spec fn joined(p: Parts, q: Parts) -> Parts {
    (
        p.0 * q.0 - p.1 * q.1 - p.2 * q.2 - p.3 * q.3,
        p.0 * q.1 + p.1 * q.0 + p.2 * q.3 - p.3 * q.2,
        p.0 * q.2 - p.1 * q.3 + p.2 * q.0 + p.3 * q.1,
        p.0 * q.3 + p.1 * q.2 - p.2 * q.1 + p.3 * q.0,
    )
}

/// The opposite of a quaternion of reals.
spec fn flipped(q: Parts) -> Parts {
    (q.0, -q.1, -q.2, -q.3)
}

proof fn lemma_cycle(x: real, y: real, z: real)
    ensures
        x * (y * z) == z * (x * y),
{
    assert(x * (y * z) == z * (x * y)) by (nonlinear_arith);
}

proof fn lemma_cycles(x: real, q: Parts, r: Parts)
    ensures
        x * (q.0 * r.0) == r.0 * (x * q.0),
        x * (q.0 * r.1) == r.1 * (x * q.0),
        x * (q.0 * r.2) == r.2 * (x * q.0),
        x * (q.0 * r.3) == r.3 * (x * q.0),
        x * (q.1 * r.0) == r.0 * (x * q.1),
        x * (q.1 * r.1) == r.1 * (x * q.1),
        x * (q.1 * r.2) == r.2 * (x * q.1),
        x * (q.1 * r.3) == r.3 * (x * q.1),
        x * (q.2 * r.0) == r.0 * (x * q.2),
        x * (q.2 * r.1) == r.1 * (x * q.2),
        x * (q.2 * r.2) == r.2 * (x * q.2),
        x * (q.2 * r.3) == r.3 * (x * q.2),
        x * (q.3 * r.0) == r.0 * (x * q.3),
        x * (q.3 * r.1) == r.1 * (x * q.3),
        x * (q.3 * r.2) == r.2 * (x * q.3),
        x * (q.3 * r.3) == r.3 * (x * q.3),
{
    lemma_cycle(x, q.0, r.0);
    lemma_cycle(x, q.0, r.1);
    lemma_cycle(x, q.0, r.2);
    lemma_cycle(x, q.0, r.3);
    lemma_cycle(x, q.1, r.0);
    lemma_cycle(x, q.1, r.1);
    lemma_cycle(x, q.1, r.2);
    lemma_cycle(x, q.1, r.3);
    lemma_cycle(x, q.2, r.0);
    lemma_cycle(x, q.2, r.1);
    lemma_cycle(x, q.2, r.2);
    lemma_cycle(x, q.2, r.3);
    lemma_cycle(x, q.3, r.0);
    lemma_cycle(x, q.3, r.1);
    lemma_cycle(x, q.3, r.2);
    lemma_cycle(x, q.3, r.3);
}

/// A number times the parts of a product, from either side.
proof fn lemma_beside(x: real, p: Parts, q: Parts)
    ensures
        ({
            let m = joined(p, q);
            &&& m.0 * x == x * (p.0 * q.0) - x * (p.1 * q.1) - x * (p.2 * q.2) - x * (p.3 * q.3)
            &&& m.1 * x == x * (p.0 * q.1) + x * (p.1 * q.0) + x * (p.2 * q.3) - x * (p.3 * q.2)
            &&& m.2 * x == x * (p.0 * q.2) - x * (p.1 * q.3) + x * (p.2 * q.0) + x * (p.3 * q.1)
            &&& m.3 * x == x * (p.0 * q.3) + x * (p.1 * q.2) - x * (p.2 * q.1) + x * (p.3 * q.0)
            &&& x * m.0 == m.0 * x
            &&& x * m.1 == m.1 * x
            &&& x * m.2 == m.2 * x
            &&& x * m.3 == m.3 * x
        }),
{
    let m = joined(p, q);
    lemma_times_parts(x, p.0, p.1, p.2, p.3, q.0, q.1, q.2, q.3);
    lemma_commutes(x, m.0);
    lemma_commutes(x, m.1);
    lemma_commutes(x, m.2);
    lemma_commutes(x, m.3);
}

/// Products of quaternions may be taken in any order.
proof fn lemma_associates(p: Parts, q: Parts, r: Parts)
    ensures
        joined(joined(p, q), r) == joined(p, joined(q, r)),
{
    lemma_beside(r.0, p, q);
    lemma_beside(r.1, p, q);
    lemma_beside(r.2, p, q);
    lemma_beside(r.3, p, q);
    lemma_beside(p.0, q, r);
    lemma_beside(p.1, q, r);
    lemma_beside(p.2, q, r);
    lemma_beside(p.3, q, r);
    lemma_cycles(p.0, q, r);
    lemma_cycles(p.1, q, r);
    lemma_cycles(p.2, q, r);
    lemma_cycles(p.3, q, r);
}

proof fn lemma_flip_pair(x: real, y: real)
    ensures
        (-x) * y == -(x * y),
        x * (-y) == -(x * y),
        (-x) * (-y) == x * y,
        x * y == y * x,
{
    assert((-x) * y == -(x * y)) by (nonlinear_arith);
    assert(x * (-y) == -(x * y)) by (nonlinear_arith);
    assert((-x) * (-y) == x * y) by (nonlinear_arith);
    assert(x * y == y * x) by (nonlinear_arith);
}

proof fn lemma_flip_pairs(x: real, q: Parts)
    ensures
        (-x) * q.0 == -(x * q.0),
        q.0 * (-x) == -(x * q.0),
        (-q.1) * x == -(x * q.1),
        (-q.2) * x == -(x * q.2),
        (-q.3) * x == -(x * q.3),
        (-q.1) * (-x) == x * q.1,
        (-q.2) * (-x) == x * q.2,
        (-q.3) * (-x) == x * q.3,
        q.0 * x == x * q.0,
{
    lemma_flip_pair(x, q.0);
    lemma_flip_pair(q.0, x);
    lemma_flip_pair(q.1, x);
    lemma_flip_pair(q.2, x);
    lemma_flip_pair(q.3, x);
}

/// The opposite of a product is the product of the opposites, the other way round.
proof fn lemma_flipped_product(p: Parts, q: Parts)
    ensures
        flipped(joined(p, q)) == joined(flipped(q), flipped(p)),
{
    lemma_flip_pairs(p.0, q);
    lemma_flip_pairs(p.1, q);
    lemma_flip_pairs(p.2, q);
    lemma_flip_pairs(p.3, q);
}

/// A coordinate of a vector between a quaternion and its opposite.
spec fn carried_part(w: real, i: real, j: real, k: real, x: real, y: real, z: real) -> real {
    (w * w + i * i - j * j - k * k) * x + ((i * j) * (2int as real) - (w * k) * (2int as real)) * y
        + ((w * j) * (2int as real) + (i * k) * (2int as real)) * z
}

proof fn lemma_carried_part(w: real, i: real, j: real, k: real, x: real, y: real, z: real)
    ensures
        carried_part(w, i, j, k, x, y, z) == w * (w * x) + i * (i * x) - j * (j * x) - k * (k * x)
            + (i * (j * y)) * (2int as real) - (w * (k * y)) * (2int as real) + (w * (j * z)) * (
        2int as real) + (i * (k * z)) * (2int as real),
{
    let two = 2int as real;
    lemma_trade(w, w, x);
    lemma_trade(i, i, x);
    lemma_trade(j, j, x);
    lemma_trade(k, k, x);
    lemma_trade(i, j, y);
    lemma_trade(w, k, y);
    lemma_trade(w, j, z);
    lemma_trade(i, k, z);
    lemma_commutes(w * w + i * i - j * j - k * k, x);
    lemma_spread_two(x, w * w, i * i);
    lemma_spread_two(x, w * w + i * i, j * j);
    lemma_spread_two(x, w * w + i * i - j * j, k * k);
    lemma_commutes(x, w * w);
    lemma_commutes(x, i * i);
    lemma_commutes(x, j * j);
    lemma_commutes(x, k * k);
    lemma_commutes((i * j) * two - (w * k) * two, y);
    lemma_spread_two(y, (i * j) * two, (w * k) * two);
    lemma_commutes((w * j) * two + (i * k) * two, z);
    lemma_spread_two(z, (w * j) * two, (i * k) * two);
    let (a, b, c, d) = (i * j, w * k, w * j, i * k);
    assert(y * (a * two) == (a * y) * two) by (nonlinear_arith);
    assert(y * (b * two) == (b * y) * two) by (nonlinear_arith);
    assert(z * (c * two) == (c * z) * two) by (nonlinear_arith);
    assert(z * (d * two) == (d * z) * two) by (nonlinear_arith);
}

/// The six trades of two parts of a quaternion before `x`.
proof fn lemma_trades(w: real, i: real, j: real, k: real, x: real)
    ensures
        w * (i * x) == i * (w * x),
        w * (j * x) == j * (w * x),
        w * (k * x) == k * (w * x),
        i * (j * x) == j * (i * x),
        i * (k * x) == k * (i * x),
        j * (k * x) == k * (j * x),
{
    lemma_trade(w, i, x);
    lemma_trade(w, j, x);
    lemma_trade(w, k, x);
    lemma_trade(i, j, x);
    lemma_trade(i, k, x);
    lemma_trade(j, k, x);
}

/// A vector between a quaternion and its opposite.
proof fn lemma_between(q: Parts, x: real, y: real, z: real)
    ensures
        joined(joined(q, (0int as real, x, y, z)), flipped(q)) == (
            0int as real,
            carried_part(q.0, q.1, q.2, q.3, x, y, z),
            carried_part(q.0, q.2, q.3, q.1, y, z, x),
            carried_part(q.0, q.3, q.1, q.2, z, x, y),
        ),
{
    let none = 0int as real;
    let (w, i, j, k) = q;
    let v = (none, x, y, z);
    lemma_beside(w, q, v);
    lemma_beside(-i, q, v);
    lemma_beside(-j, q, v);
    lemma_beside(-k, q, v);
    lemma_flip_rows(w, q, v);
    lemma_flip_rows(i, q, v);
    lemma_flip_rows(j, q, v);
    lemma_flip_rows(k, q, v);
    lemma_trades(w, i, j, k, x);
    lemma_trades(w, i, j, k, y);
    lemma_trades(w, i, j, k, z);
    lemma_carried_part(w, i, j, k, x, y, z);
    lemma_carried_part(w, j, k, i, y, z, x);
    lemma_carried_part(w, k, i, j, z, x, y);
}

/// A number and its opposite before the products of the parts of `q` with a vector.
proof fn lemma_flip_rows(u: real, q: Parts, v: Parts)
    requires
        v.0 == 0int as real,
    ensures
        u * (q.0 * v.0) == 0int as real,
        u * (q.1 * v.0) == 0int as real,
        u * (q.2 * v.0) == 0int as real,
        u * (q.3 * v.0) == 0int as real,
        (-u) * (q.0 * v.0) == 0int as real,
        (-u) * (q.1 * v.0) == 0int as real,
        (-u) * (q.2 * v.0) == 0int as real,
        (-u) * (q.3 * v.0) == 0int as real,
        (-u) * (q.0 * v.1) == -(u * (q.0 * v.1)),
        (-u) * (q.0 * v.2) == -(u * (q.0 * v.2)),
        (-u) * (q.0 * v.3) == -(u * (q.0 * v.3)),
        (-u) * (q.1 * v.1) == -(u * (q.1 * v.1)),
        (-u) * (q.1 * v.2) == -(u * (q.1 * v.2)),
        (-u) * (q.1 * v.3) == -(u * (q.1 * v.3)),
        (-u) * (q.2 * v.1) == -(u * (q.2 * v.1)),
        (-u) * (q.2 * v.2) == -(u * (q.2 * v.2)),
        (-u) * (q.2 * v.3) == -(u * (q.2 * v.3)),
        (-u) * (q.3 * v.1) == -(u * (q.3 * v.1)),
        (-u) * (q.3 * v.2) == -(u * (q.3 * v.2)),
        (-u) * (q.3 * v.3) == -(u * (q.3 * v.3)),
{
    lemma_gone(u, q.0, v.0);
    lemma_gone(u, q.1, v.0);
    lemma_gone(u, q.2, v.0);
    lemma_gone(u, q.3, v.0);
    lemma_flip_pair(u, q.0 * v.1);
    lemma_flip_pair(u, q.0 * v.2);
    lemma_flip_pair(u, q.0 * v.3);
    lemma_flip_pair(u, q.1 * v.1);
    lemma_flip_pair(u, q.1 * v.2);
    lemma_flip_pair(u, q.1 * v.3);
    lemma_flip_pair(u, q.2 * v.1);
    lemma_flip_pair(u, q.2 * v.2);
    lemma_flip_pair(u, q.2 * v.3);
    lemma_flip_pair(u, q.3 * v.1);
    lemma_flip_pair(u, q.3 * v.2);
    lemma_flip_pair(u, q.3 * v.3);
}

proof fn lemma_gone(u: real, a: real, o: real)
    requires
        o == 0int as real,
    ensures
        u * (a * o) == 0int as real,
        (-u) * (a * o) == 0int as real,
{
    let none = 0int as real;
    assert(a * o == none) by (nonlinear_arith)
        requires
            o == none,
            none == 0int as real,
    ;
    assert(u * none == none && (-u) * none == none) by (nonlinear_arith)
        requires
            none == 0int as real,
    ;
}

/// The parts of a quaternion.
spec fn parts_of<W: Scalar>(value: spec_fn(W) -> real, q: Quat<W>) -> Parts {
    (value(q.w), value(q.i), value(q.j), value(q.k))
}

proof fn lemma_matrix_value<W: Scalar>(value: spec_fn(W) -> real, q: Quat<W>, v: V3<W>)
    requires
        is_reading(value),
    ensures
        ({
            let r = q.matrix().apply(v);
            let p = parts_of(value, q);
            let (x, y, z) = (value(v.x), value(v.y), value(v.z));
            &&& value(r.x) == carried_part(p.0, p.1, p.2, p.3, x, y, z)
            &&& value(r.y) == carried_part(p.0, p.2, p.3, p.1, y, z, x)
            &&& value(r.z) == carried_part(p.0, p.3, p.1, p.2, z, x, y)
        }),
{
    reveal(is_reading);
    lemma_commutes(value(q.i), value(q.j));
    lemma_commutes(value(q.i), value(q.k));
    lemma_commutes(value(q.j), value(q.k));
}

/// In exact arithmetic the matrix of a product of rotations turns as the matrices do one
/// after the other.
pub proof fn law_turns_compose<W: Scalar>(q: Quat<W>, e: Quat<W>, v: V3<W>)
    requires
        exact_arithmetic::<W>(),
    ensures
        q.compose(e).matrix().apply(v) == q.matrix().apply(e.matrix().apply(v)),
{
    reveal(exact_arithmetic);
    let value = choose|value: spec_fn(W) -> real| #[trigger] is_reading(value);
    let both = q.compose(e);
    let once = e.matrix().apply(v);
    let (a, b) = (parts_of(value, q), parts_of(value, e));
    let p = (0int as real, value(v.x), value(v.y), value(v.z));
    assert(parts_of(value, both) == joined(a, b)) by {
        reveal(is_reading);
    }
    lemma_matrix_value(value, both, v);
    lemma_matrix_value(value, e, v);
    lemma_matrix_value(value, q, once);
    lemma_between(joined(a, b), p.1, p.2, p.3);
    lemma_between(b, p.1, p.2, p.3);
    lemma_between(a, value(once.x), value(once.y), value(once.z));
    let inner = joined(joined(b, p), flipped(b));
    assert(inner == (0int as real, value(once.x), value(once.y), value(once.z)));
    lemma_flipped_product(a, b);
    lemma_associates(a, b, p);
    lemma_associates(a, joined(b, p), joined(flipped(b), flipped(a)));
    lemma_associates(joined(b, p), flipped(b), flipped(a));
    lemma_associates(a, inner, flipped(a));
    let left = both.matrix().apply(v);
    let right = q.matrix().apply(once);
    reveal(is_reading);
    assert(value(left.x) == value(right.x));
    assert(value(left.y) == value(right.y));
    assert(value(left.z) == value(right.z));
}

} // verus!
