//! The motion model of the filter: how the state changes with the inertial
//! measurements, and the derivatives of that.
use crate::exact::{is_unit, law_dot_falls, law_matrix_rotates};
use crate::linear::{M3, M32, Quat, V2, V3};
use crate::manifold::StateIkfom;
use crate::matrix::{has_shape, pick3, row3, slice3, table, tabulate, Mat, Rows};
use crate::scalar::{
    exact_arithmetic, get_pi, is_less, is_reading, law_exact_is_ring, pi, zero, Scalar,
};
use crate::so3::skew;
use vstd::prelude::*;

verus! {

/// The inertial input of the model.
#[derive(Clone, Copy, Debug)]
pub struct InputIkfom<W> {
    pub acc: V3<W>,
    pub gyro: V3<W>,
}

impl<W: Scalar> Default for InputIkfom<W> {
    fn default() -> (r: Self)
        ensures
            r == (InputIkfom { acc: V3::<W>::zeros(), gyro: V3::<W>::zeros() }),
    {
        InputIkfom { acc: V3::zeros(), gyro: V3::zeros() }
    }
}

/// Number of degrees of freedom of the process noise.
pub const PROCESS_NOISE_DOF: usize = 12;

/// The diagonal of the process noise: gyroscope, accelerometer, and their biases.
pub open spec fn noise_level<W: Scalar>(i: int) -> W {
    if i < 6 {
        W::ratio_spec(1, 10000)
    } else {
        W::ratio_spec(1, 100000)
    }
}

/// The covariance of the process noise.
pub open spec fn noise_rows<W: Scalar>() -> Rows<W> {
    table(
        12,
        12,
        |i: int, j: int|
            if i == j {
                noise_level::<W>(i)
            } else {
                zero::<W>()
            },
    )
}

/// Builds the covariance of the process noise.
pub fn process_noise_cov<W: Scalar>() -> (r: Mat<W>)
    ensures
        r@ == noise_rows::<W>(),
        has_shape(r@, 12, 12),
{
    let f = |i: usize, j: usize| -> (v: W)
        ensures
            v == if i == j {
                noise_level::<W>(i as int)
            } else {
                zero::<W>()
            },
        {
            if i == j {
                if i < 6 {
                    W::ratio(1, 10000)
                } else {
                    W::ratio(1, 100000)
                }
            } else {
                W::ratio(0, 1)
            }
        };
    tabulate(
        12,
        12,
        f,
        Ghost(
            |i: int, j: int|
                if i == j {
                    noise_level::<W>(i)
                } else {
                    zero::<W>()
                },
        ),
    )
}

/// The rate of change of the state, with gravity as a vector in space.
#[verifier::allow_in_spec]
pub fn get_f<W: Scalar>(s: StateIkfom<W>, input: InputIkfom<W>) -> [W; 24]
    returns
        ({
            let o: W = W::ratio_spec(0, 1);
            let omega: V3<W> = input.gyro.diff(s.bg);
            let a: V3<W> = s.rot.rotate(input.acc.diff(s.ba)).sum(s.grav.vec);
            [
                s.vel.x, s.vel.y, s.vel.z, omega.x, omega.y, omega.z, o, o, o, o, o, o, a.x, a.y, a.z, o, o, o,
                o, o, o, o, o, o,
            ]
        }),
{
    let o: W = W::ratio(0, 1);
    let omega: V3<W> = input.gyro.diff(s.bg);
    let a: V3<W> = s.rot.rotate(input.acc.diff(s.ba)).sum(s.grav.vec);
    [
        s.vel.x, s.vel.y, s.vel.z, omega.x, omega.y, omega.z, o, o, o, o, o, o, a.x, a.y, a.z, o, o, o,
        o, o, o, o, o, o,
    ]
}

/// Entry `k` of a vector.
pub open spec fn entry_of<W>(v: V3<W>, k: int) -> W {
    if k == 0 {
        v.x
    } else if k == 1 {
        v.y
    } else {
        v.z
    }
}

pub(crate) fn pick_entry<W: Scalar>(v: V3<W>, k: usize) -> (r: W)
    ensures
        r == entry_of(v, k as int),
{
    if k == 0 {
        v.x
    } else if k == 1 {
        v.y
    } else {
        v.z
    }
}

/// The derivative of the rate by the state: the velocity moves the position, the
/// bias of the gyroscope slows the turn, and rotation (`turn`), bias of the
/// accelerometer (`lean`) and gravity (`tilt`) change the acceleration.
pub open spec fn state_slope<W: Scalar>(
    turn: M3<W>,
    lean: M3<W>,
    tilt: M32<W>,
    i: int,
    j: int,
) -> W {
    if 0 <= i < 3 && 12 <= j < 15 {
        entry_of(row3(M3::<W>::identity(), i), j - 12)
    } else if 3 <= i < 6 && 15 <= j < 18 {
        entry_of(row3(M3::<W>::identity().opposite(), i - 3), j - 15)
    } else if 12 <= i < 15 && 3 <= j < 6 {
        entry_of(row3(turn, i - 12), j - 3)
    } else if 12 <= i < 15 && 18 <= j < 21 {
        entry_of(row3(lean, i - 12), j - 18)
    } else if 12 <= i < 15 && j == 21 {
        entry_of(tilt.p, i - 12)
    } else if 12 <= i < 15 && j == 22 {
        entry_of(tilt.q, i - 12)
    } else {
        zero::<W>()
    }
}

/// The derivative of the rate by the error state.
pub open spec fn dx_rows<W: Scalar>(s: StateIkfom<W>, input: InputIkfom<W>) -> Rows<W> {
    let lean = s.rot.matrix().opposite();
    let turn = lean.compose(skew(input.acc.diff(s.ba)));
    let tilt = s.grav.s2_mx(V2::<W>::zeros());
    table(24, 23, |i: int, j: int| state_slope(turn, lean, tilt, i, j))
}

/// Builds the derivative of the rate by the error state.
pub fn df_dx<W: Scalar>(s: StateIkfom<W>, input: InputIkfom<W>) -> (r: Mat<W>)
    ensures
        r@ == dx_rows(s, input),
        has_shape(r@, 24, 23),
{
    let lean: M3<W> = s.rot.matrix().opposite();
    let turn: M3<W> = lean.compose(skew(input.acc.diff(s.ba)));
    let tilt: M32<W> = s.grav.s2_mx(V2::zeros());
    let f = |i: usize, j: usize| -> (v: W)
        ensures
            v == state_slope(turn, lean, tilt, i as int, j as int),
        {
            if i < 3 && 12 <= j && j < 15 {
                pick_entry(pick3(M3::identity(), i), j - 12)
            } else if 3 <= i && i < 6 && 15 <= j && j < 18 {
                pick_entry(pick3(M3::identity().opposite(), i - 3), j - 15)
            } else if 12 <= i && i < 15 && 3 <= j && j < 6 {
                pick_entry(pick3(turn, i - 12), j - 3)
            } else if 12 <= i && i < 15 && 18 <= j && j < 21 {
                pick_entry(pick3(lean, i - 12), j - 18)
            } else if 12 <= i && i < 15 && j == 21 {
                pick_entry(tilt.p, i - 12)
            } else if 12 <= i && i < 15 && j == 22 {
                pick_entry(tilt.q, i - 12)
            } else {
                W::ratio(0, 1)
            }
        };
    tabulate(24, 23, f, Ghost(|i: int, j: int| state_slope(turn, lean, tilt, i, j)))
}

/// No rate depends on the position or on the extrinsics, and the derivative by these is
/// zero.
pub proof fn law_rate_ignores<W: Scalar>(
    s: StateIkfom<W>,
    t: StateIkfom<W>,
    input: InputIkfom<W>,
    i: int,
    j: int,
)
    requires
        s.rot == t.rot,
        s.vel == t.vel,
        s.bg == t.bg,
        s.ba == t.ba,
        s.grav == t.grav,
        0 <= i < 24,
        0 <= j < 3 || 6 <= j < 12,
    ensures
        get_f(s, input) == get_f(t, input),
        dx_rows(s, input)[i][j] == zero::<W>(),
{
}

/// The state with changes of its velocity and its biases added.
pub open spec fn nudged<W: Scalar>(
    s: StateIkfom<W>,
    vel: V3<W>,
    bg: V3<W>,
    ba: V3<W>,
) -> StateIkfom<W> {
    StateIkfom { vel: s.vel.sum(vel), bg: s.bg.sum(bg), ba: s.ba.sum(ba), ..s }
}

/// In exact arithmetic the derivative is the slope of the rate by the velocity and the
/// biases: a change of these changes every rate by its image.
pub proof fn law_rate_slope<W: Scalar>(
    s: StateIkfom<W>,
    input: InputIkfom<W>,
    vel: V3<W>,
    bg: V3<W>,
    ba: V3<W>,
    i: int,
)
    requires
        exact_arithmetic::<W>(),
        is_unit(s.rot),
        0 <= i < 24,
    ensures
        get_f(nudged(s, vel, bg, ba), input)[i] == get_f(s, input)[i].plus_spec(
            slice3(dx_rows(s, input), i, 12).dot(vel).plus_spec(
                slice3(dx_rows(s, input), i, 15).dot(bg),
            ).plus_spec(slice3(dx_rows(s, input), i, 18).dot(ba)),
        ),
{
    let o = zero::<W>();
    let none = V3::new(o, o, o);
    let rows = dx_rows(s, input);
    let f = get_f(s, input);
    let g = get_f(nudged(s, vel, bg, ba), input);
    lemma_pick(vel.x, vel.y, vel.z);
    lemma_pick(bg.x, bg.y, bg.z);
    lemma_pick(ba.x, ba.y, ba.z);
    law_exact_is_ring(o, o, o);
    law_exact_is_ring(f[i], o, o);
    if i < 3 {
        let c = entry_of(vel, i);
        law_exact_is_ring(c, o, o);
        assert(slice3(rows, i, 12) == row3(M3::<W>::identity(), i));
        assert(slice3(rows, i, 15) == none);
        assert(slice3(rows, i, 18) == none);
        assert(g[i] == f[i].plus_spec(c)) by {
            assert(i == 0 || i == 1 || i == 2);
        }
    } else if i < 6 {
        let c = entry_of(bg, i - 3);
        law_exact_is_ring(o, c.negate_spec(), o);
        law_exact_is_ring(c.negate_spec(), o, o);
        lemma_slower(entry_of(input.gyro, i - 3), entry_of(s.bg, i - 3), c);
        assert(slice3(rows, i, 12) == none);
        assert(slice3(rows, i, 15) == row3(M3::<W>::identity().opposite(), i - 3));
        assert(slice3(rows, i, 18) == none);
        assert(g[i] == f[i].plus_spec(c.negate_spec())) by {
            assert(i == 3 || i == 4 || i == 5);
        }
    } else if 12 <= i < 15 {
        let lean = s.rot.matrix().opposite();
        let c = row3(lean, i - 12).dot(ba);
        law_exact_is_ring(o, c, o);
        assert(slice3(rows, i, 12) == none);
        assert(slice3(rows, i, 15) == none);
        assert(slice3(rows, i, 18) == row3(lean, i - 12));
        let m = row3(s.rot.matrix(), i - 12);
        assert(row3(lean, i - 12) == m.opposite());
        law_matrix_rotates(s.rot, input.acc.diff(s.ba));
        law_matrix_rotates(s.rot, input.acc.diff(s.ba.sum(ba)));
        law_dot_falls(m, input.acc, s.ba, ba);
        let r = m.dot(input.acc.diff(s.ba));
        let e = entry_of(s.grav.vec, i - 12);
        law_exact_is_ring(r, c, e);
        law_exact_is_ring(c, e, r);
        law_exact_is_ring(r, e, c);
        assert(f[i] == r.plus_spec(e) && g[i] == r.plus_spec(c).plus_spec(e)) by {
            assert(i == 12 || i == 13 || i == 14);
        }
    } else {
        assert(slice3(rows, i, 12) == none);
        assert(slice3(rows, i, 15) == none);
        assert(slice3(rows, i, 18) == none);
        assert(g[i] == f[i]);
    }
}

/// What a row of the identity, of its opposite or of zeros makes of a vector.
pub(crate) proof fn lemma_pick<W: Scalar>(x: W, y: W, z: W)
    requires
        exact_arithmetic::<W>(),
    ensures
        ({
            let v = V3::new(x, y, z);
            let o = zero::<W>();
            let m = M3::<W>::identity();
            let n = m.opposite();
            &&& m.a.dot(v) == x
            &&& m.b.dot(v) == y
            &&& m.c.dot(v) == z
            &&& n.a.dot(v) == x.negate_spec()
            &&& n.b.dot(v) == y.negate_spec()
            &&& n.c.dot(v) == z.negate_spec()
            &&& V3::new(o, o, o).dot(v) == o
        }),
{
    reveal(exact_arithmetic);
    reveal(is_reading);
    let value = choose|value: spec_fn(W) -> real| #[trigger] is_reading(value);
    let v = V3::new(x, y, z);
    let o = zero::<W>();
    let m = M3::<W>::identity();
    let n = m.opposite();
    lemma_by_unit(value(x));
    lemma_by_unit(value(y));
    lemma_by_unit(value(z));
    assert(value(m.a.dot(v)) == value(x));
    assert(value(m.b.dot(v)) == value(y));
    assert(value(m.c.dot(v)) == value(z));
    assert(value(n.a.dot(v)) == value(x.negate_spec()));
    assert(value(n.b.dot(v)) == value(y.negate_spec()));
    assert(value(n.c.dot(v)) == value(z.negate_spec()));
    assert(value(V3::new(o, o, o).dot(v)) == value(o));
}

proof fn lemma_by_unit(x: real)
    ensures
        (1int as real) * x == x,
        (-(1int as real)) * x == -x,
        (0int as real) * x == 0int as real,
        (-(0int as real)) * x == 0int as real,
{
    let one = 1int as real;
    let none = 0int as real;
    assert(one * x == x && (-one) * x == -x) by (nonlinear_arith)
        requires
            one == 1int as real,
    ;
    assert(none * x == none && (-none) * x == none) by (nonlinear_arith)
        requires
            none == 0int as real,
    ;
}

/// A larger bias lowers the difference by as much.
pub(crate) proof fn lemma_slower<W: Scalar>(a: W, b: W, c: W)
    requires
        exact_arithmetic::<W>(),
    ensures
        a.minus_spec(b.plus_spec(c)) == a.minus_spec(b).plus_spec(c.negate_spec()),
{
    reveal(exact_arithmetic);
    reveal(is_reading);
    let value = choose|value: spec_fn(W) -> real| #[trigger] is_reading(value);
    assert(value(a.minus_spec(b.plus_spec(c))) == value(
        a.minus_spec(b).plus_spec(c.negate_spec()),
    ));
}

/// The derivative of the rate by the process noise.
pub open spec fn noise_slope<W: Scalar>(lean: M3<W>, i: int, j: int) -> W {
    if 3 <= i < 6 && 0 <= j < 3 {
        entry_of(row3(M3::<W>::identity().opposite(), i - 3), j)
    } else if 12 <= i < 15 && 3 <= j < 6 {
        entry_of(row3(lean, i - 12), j - 3)
    } else if 15 <= i < 18 && 6 <= j < 9 {
        entry_of(row3(M3::<W>::identity(), i - 15), j - 6)
    } else if 18 <= i < 21 && 9 <= j < 12 {
        entry_of(row3(M3::<W>::identity(), i - 18), j - 9)
    } else {
        zero::<W>()
    }
}

/// The derivative of the rate by the process noise.
pub open spec fn dw_rows<W: Scalar>(s: StateIkfom<W>) -> Rows<W> {
    let lean = s.rot.matrix().opposite();
    table(24, 12, |i: int, j: int| noise_slope(lean, i, j))
}

/// Builds the derivative of the rate by the process noise.
pub fn df_dw<W: Scalar>(s: StateIkfom<W>) -> (r: Mat<W>)
    ensures
        r@ == dw_rows(s),
        has_shape(r@, 24, 12),
{
    let lean: M3<W> = s.rot.matrix().opposite();
    let f = |i: usize, j: usize| -> (v: W)
        ensures
            v == noise_slope(lean, i as int, j as int),
        {
            if 3 <= i && i < 6 && j < 3 {
                pick_entry(pick3(M3::identity().opposite(), i - 3), j)
            } else if 12 <= i && i < 15 && 3 <= j && j < 6 {
                pick_entry(pick3(lean, i - 12), j - 3)
            } else if 15 <= i && i < 18 && 6 <= j && j < 9 {
                pick_entry(pick3(M3::identity(), i - 15), j - 6)
            } else if 18 <= i && i < 21 && 9 <= j && j < 12 {
                pick_entry(pick3(M3::identity(), i - 18), j - 9)
            } else {
                W::ratio(0, 1)
            }
        };
    tabulate(24, 12, f, Ghost(|i: int, j: int| noise_slope(lean, i, j)))
}

/// The sine of the pitch times half the squared length of a quaternion.
#[verifier::allow_in_spec]
pub fn pitch_test<W: Scalar>(q: Quat<W>) -> W
    returns
        q.w.times_spec(q.j).minus_spec(q.k.times_spec(q.i)),
{
    q.w.times(q.j).minus(q.k.times(q.i))
}

/// The squared length of a quaternion.
#[verifier::allow_in_spec]
pub fn squared_length<W: Scalar>(q: Quat<W>) -> W
    returns
        q.i.times_spec(q.i).plus_spec(q.j.times_spec(q.j)).plus_spec(q.k.times_spec(q.k)).plus_spec(q.w.times_spec(q.w)),
{
    q.i.times(q.i).plus(q.j.times(q.j)).plus(q.k.times(q.k)).plus(q.w.times(q.w))
}

/// Roll, pitch and yaw of a rotation away from the poles, in radians.
#[verifier::allow_in_spec]
pub fn euler_inside<W: Scalar>(q: Quat<W>) -> V3<W>
    returns
        ({
            let two: W = W::ratio_spec(2, 1);
            let sqw: W = q.w.times_spec(q.w);
            let sqx: W = q.i.times_spec(q.i);
            let sqy: W = q.j.times_spec(q.j);
            let sqz: W = q.k.times_spec(q.k);
            V3::new(
                two.times_spec(q.i).times_spec(q.w).plus_spec(two.times_spec(q.j).times_spec(q.k)).atan2_spec(
                    sqx.negate_spec().minus_spec(sqy).plus_spec(sqz).plus_spec(sqw),
                ),
                two.times_spec(pitch_test(q)).over_spec(squared_length(q)).asin_spec(),
                two.times_spec(q.k).times_spec(q.w).plus_spec(two.times_spec(q.j).times_spec(q.i)).atan2_spec(
                    sqx.minus_spec(sqy).minus_spec(sqz).plus_spec(sqw),
                ),
            )
        }),
{
    let two: W = W::ratio(2, 1);
    let sqw: W = q.w.times(q.w);
    let sqx: W = q.i.times(q.i);
    let sqy: W = q.j.times(q.j);
    let sqz: W = q.k.times(q.k);
    V3::new(
        two.times(q.i).times(q.w).plus(two.times(q.j).times(q.k)).atan2(
            sqx.negate().minus(sqy).plus(sqz).plus(sqw),
        ),
        two.times(pitch_test(q)).over(squared_length(q)).asin(),
        two.times(q.k).times(q.w).plus(two.times(q.j).times(q.i)).atan2(
            sqx.minus(sqy).minus(sqz).plus(sqw),
        ),
    )
}

/// Roll, pitch and yaw of a rotation in degrees, of 57.3 to the radian.
#[verifier::allow_in_spec]
pub fn so3_to_euler<W: Scalar>(q: Quat<W>) -> V3<W>
    returns
        ({
            let bound: W = W::ratio_spec(49999, 100000).times_spec(squared_length(q));
            let half: W = pi::<W>().over_spec(W::ratio_spec(2, 1));
            let ang: V3<W> = if is_less(bound, pitch_test(q)) {
                V3::new(W::ratio_spec(2, 1).times_spec(q.i.atan2_spec(q.w)), half, W::ratio_spec(0, 1))
            } else if is_less(pitch_test(q), W::ratio_spec(49999, 100000).negate_spec().times_spec(squared_length(q))) {
                V3::new(W::ratio_spec(2, 1).negate_spec().times_spec(q.i.atan2_spec(q.w)), half.negate_spec(), W::ratio_spec(0, 1))
            } else {
                euler_inside(q)
            };
            ang.scaled(W::ratio_spec(573, 10))
        }),
{
    let bound: W = W::ratio(49999, 100000).times(squared_length(q));
    let half: W = get_pi::<W>().over(W::ratio(2, 1));
    let ang: V3<W> = if is_less(bound, pitch_test(q)) {
        V3::new(W::ratio(2, 1).times(q.i.atan2(q.w)), half, W::ratio(0, 1))
    } else if is_less(pitch_test(q), W::ratio(49999, 100000).negate().times(squared_length(q))) {
        V3::new(W::ratio(2, 1).negate().times(q.i.atan2(q.w)), half.negate(), W::ratio(0, 1))
    } else {
        euler_inside(q)
    };
    ang.scaled(W::ratio(573, 10))
}

/// Roll, pitch and yaw for a trajectory log: as [`so3_to_euler`], with the pitch
/// at the poles a right angle.
#[verifier::allow_in_spec]
pub fn quat_to_euler<W: Scalar>(q: Quat<W>) -> V3<W>
    returns
        ({
            let bound: W = W::ratio_spec(49999, 100000).times_spec(squared_length(q));
            let deg: W = W::ratio_spec(573, 10);
            if is_less(bound, pitch_test(q)) {
                V3::new(W::ratio_spec(2, 1).times_spec(q.i.atan2_spec(q.w)).times_spec(deg), W::ratio_spec(90, 1), W::ratio_spec(0, 1))
            } else if is_less(pitch_test(q), W::ratio_spec(49999, 100000).negate_spec().times_spec(squared_length(q))) {
                V3::new(
                    W::ratio_spec(2, 1).negate_spec().times_spec(q.i.atan2_spec(q.w)).times_spec(deg),
                    W::ratio_spec(90, 1).negate_spec(),
                    W::ratio_spec(0, 1),
                )
            } else {
                euler_inside(q).scaled(deg)
            }
        }),
{
    let bound: W = W::ratio(49999, 100000).times(squared_length(q));
    let deg: W = W::ratio(573, 10);
    if is_less(bound, pitch_test(q)) {
        V3::new(W::ratio(2, 1).times(q.i.atan2(q.w)).times(deg), W::ratio(90, 1), W::ratio(0, 1))
    } else if is_less(pitch_test(q), W::ratio(49999, 100000).negate().times(squared_length(q))) {
        V3::new(
            W::ratio(2, 1).negate().times(q.i.atan2(q.w)).times(deg),
            W::ratio(90, 1).negate(),
            W::ratio(0, 1),
        )
    } else {
        euler_inside(q).scaled(deg)
    }
}

} // verus!
