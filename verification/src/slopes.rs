//! The step of the filter and its slope.
use crate::esekf::{carried, carried_cov, predicted_cov, step_noise, step_slope};
use crate::exact::{
    exact_angles, has_angles, is_unit, law_dot_falls, law_exact_angles, law_matrix_rotates,
    law_no_turn, lemma_no_length,
};
use crate::forms::{
    form, law_form_carried, law_form_of_sum, lemma_inner_multiple, lemma_inner_sum, row_image,
};
use crate::kalman::lemma_by_units;
use crate::linear::{M3, V2, V3};
use crate::manifold::{is_vector_entry, quat_exp, vector_entry, StateIkfom};
use crate::matrix::{has_shape, inner, row3, Rows};
use crate::model::{
    dw_rows, dx_rows, entry_of, get_f, law_rate_ignores, law_rate_slope, lemma_pick, lemma_slower,
    nudged, InputIkfom,
};
use crate::places::lemma_identity;
use crate::scalar::{exact_arithmetic, is_reading, law_exact_is_ring, lt, whole, zero, Scalar};
use crate::so3::exp;
use crate::sphere::lemma_part_positive;
use vstd::prelude::*;

verus! {

/// Three entries of an error state, from `s` on.
pub open spec fn three<W: Scalar>(d: Seq<W>, s: int) -> V3<W> {
    V3::new(d[s], d[s + 1], d[s + 2])
}

/// The state with the vectors of an error state added: position, translation of the lidar,
/// velocity and biases.
pub open spec fn displaced<W: Scalar>(x: StateIkfom<W>, d: Seq<W>) -> StateIkfom<W> {
    StateIkfom {
        pos: x.pos.sum(three(d, 0)),
        offset_t_l_i: x.offset_t_l_i.sum(three(d, 9)),
        vel: x.vel.sum(three(d, 12)),
        bg: x.bg.sum(three(d, 15)),
        ba: x.ba.sum(three(d, 18)),
        ..x
    }
}

/// The error state is one of vectors alone.
pub open spec fn is_displacement<W: Scalar>(d: Seq<W>) -> bool {
    &&& d.len() == 23
    &&& forall|j: int| 0 <= j < 23 && !is_vector_entry(j) ==> #[trigger] d[j] == zero::<W>()
}

/// The row of the identity at `i`, of length `n`.
pub(crate) open spec fn unit_row<W: Scalar>(i: int, n: nat) -> Seq<W> {
    Seq::new(n, |j: int| if i == j {
        whole::<W>(1)
    } else {
        zero::<W>()
    })
}

pub(crate) proof fn lemma_unit_row<W: Scalar>(i: int, d: Seq<W>, m: nat, n: nat)
    requires
        exact_arithmetic::<W>(),
        n <= m,
        0 <= i < m,
    ensures
        inner(unit_row::<W>(i, m), d, n) == if i < n {
            d[i]
        } else {
            zero::<W>()
        },
    decreases n,
{
    if n > 0 {
        lemma_unit_row(i, d, m, (n - 1) as nat);
        let c = d[n - 1];
        law_exact_is_ring(c, zero(), zero());
        law_exact_is_ring(c, whole(1), zero());
        law_exact_is_ring(zero::<W>(), c, c);
        law_exact_is_ring(zero::<W>(), zero(), zero());
        law_exact_is_ring(d[i], zero(), zero());
    }
}

proof fn lemma_null(x: real)
    ensures
        x * (0int as real) == 0int as real,
        (0int as real) * x == 0int as real,
{
    let none = 0int as real;
    assert(x * none == none && none * x == none) by (nonlinear_arith)
        requires
            none == 0int as real,
    ;
}

/// A row without entries for position, translation and beyond the vectors.
proof fn lemma_row_at_vectors<W: Scalar>(row: Seq<W>, d: Seq<W>)
    requires
        exact_arithmetic::<W>(),
        is_displacement(d),
        forall|j: int| 0 <= j < 3 || 9 <= j < 12 ==> #[trigger] row[j] == zero::<W>(),
    ensures
        inner(row, d, 23) == V3::new(row[12], row[13], row[14]).dot(three(d, 12)).plus_spec(
            V3::new(row[15], row[16], row[17]).dot(three(d, 15)),
        ).plus_spec(V3::new(row[18], row[19], row[20]).dot(three(d, 18))),
{
    reveal(exact_arithmetic);
    reveal(is_reading);
    let value = choose|value: spec_fn(W) -> real| #[trigger] is_reading(value);
    assert forall|j: int| 0 <= j < 23 && !(12 <= j < 21) implies value(#[trigger] row[j]) * value(
        d[j],
    ) == 0int as real by {
        lemma_null(value(row[j]));
        lemma_null(value(d[j]));
        if 0 <= j < 3 || 9 <= j < 12 {
            assert(row[j] == zero::<W>());
        } else {
            assert(d[j] == zero::<W>());
        }
    }
    lemma_unrolled(value, row, d, 23);
    let right = V3::new(row[12], row[13], row[14]).dot(three(d, 12)).plus_spec(
        V3::new(row[15], row[16], row[17]).dot(three(d, 15)),
    ).plus_spec(V3::new(row[18], row[19], row[20]).dot(three(d, 18)));
    assert(row[0] == row[0] && row[1] == row[1] && row[2] == row[2] && row[3] == row[3]);
    reveal_with_fuel(total_of, 24);
    assert(total_of(value, row, d, 23) == value(right));
}

/// The sum of the products of the values of two rows.
pub(crate) open spec fn total_of<W: Scalar>(value: spec_fn(W) -> real, a: Seq<W>, b: Seq<W>, n: nat) -> real
    decreases n,
{
    if n == 0 {
        0int as real
    } else {
        total_of(value, a, b, (n - 1) as nat) + value(a[n - 1]) * value(b[n - 1])
    }
}

pub(crate) proof fn lemma_unrolled<W: Scalar>(value: spec_fn(W) -> real, a: Seq<W>, b: Seq<W>, n: nat)
    requires
        is_reading(value),
    ensures
        value(inner(a, b, n)) == total_of(value, a, b, n),
    decreases n,
{
    reveal(is_reading);
    if n > 0 {
        lemma_unrolled(value, a, b, (n - 1) as nat);
    }
}

/// The rate at a displaced state, by the derivative of the rate.
pub proof fn law_rate_displaced<W: Scalar>(
    x: StateIkfom<W>,
    input: InputIkfom<W>,
    d: Seq<W>,
    i: int,
)
    requires
        exact_arithmetic::<W>(),
        is_unit(x.rot),
        is_displacement(d),
        0 <= i < 24,
    ensures
        get_f(displaced(x, d), input)[i] == get_f(x, input)[i].plus_spec(
            inner(dx_rows(x, input)[i], d, 23),
        ),
{
    let (vel, bg, ba) = (three(d, 12), three(d, 15), three(d, 18));
    let row = dx_rows(x, input)[i];
    law_rate_slope(x, input, vel, bg, ba, i);
    law_rate_ignores(displaced(x, d), nudged(x, vel, bg, ba), input, i, 0);
    assert forall|j: int| 0 <= j < 3 || 9 <= j < 12 implies #[trigger] row[j] == zero::<W>() by {
        law_rate_ignores(x, x, input, i, j);
    }
    lemma_row_at_vectors(row, d);
}

/// Adding a sum of two to a sum of two.
proof fn lemma_regrouped<W: Scalar>(a: W, b: W, c: W, d: W)
    requires
        exact_arithmetic::<W>(),
    ensures
        a.plus_spec(b).plus_spec(c.plus_spec(d)) == a.plus_spec(c).plus_spec(b.plus_spec(d)),
{
    reveal(exact_arithmetic);
    reveal(is_reading);
    let value = choose|value: spec_fn(W) -> real| #[trigger] is_reading(value);
    assert(value(a.plus_spec(b).plus_spec(c.plus_spec(d))) == value(
        a.plus_spec(c).plus_spec(b.plus_spec(d)),
    ));
}

/// A vector entry of the state after a step.
proof fn lemma_carried_entry<W: Scalar>(x: StateIkfom<W>, f: [W; 24], dt: W, i: int)
    requires
        is_vector_entry(i),
    ensures
        vector_entry(carried(x, f, dt), i) == vector_entry(x, i).plus_spec(f[i].times_spec(dt)),
{
    if i < 3 {
        assert(i == 0 || i == 1 || i == 2);
    } else if i < 12 {
        assert(i == 9 || i == 10 || i == 11);
    } else if i < 15 {
        assert(i == 12 || i == 13 || i == 14);
    } else if i < 18 {
        assert(i == 15 || i == 16 || i == 17);
    } else {
        assert(i == 18 || i == 19 || i == 20);
    }
}

proof fn lemma_displaced_entry<W: Scalar>(x: StateIkfom<W>, d: Seq<W>, i: int)
    requires
        is_vector_entry(i),
    ensures
        vector_entry(displaced(x, d), i) == vector_entry(x, i).plus_spec(d[i]),
{
    if i < 3 {
        assert(i == 0 || i == 1 || i == 2);
    } else if i < 12 {
        assert(i == 9 || i == 10 || i == 11);
    } else if i < 15 {
        assert(i == 12 || i == 13 || i == 14);
    } else if i < 18 {
        assert(i == 15 || i == 16 || i == 17);
    } else {
        assert(i == 18 || i == 19 || i == 20);
    }
}

/// In exact arithmetic the matrix that carries the covariance is the derivative of the
/// step: a displacement of the state before the step moves every vector of the state after
/// it by the image of the displacement. So a change of the velocity moves the position by
/// as much in the time of the step, and a displaced position stays so.
pub proof fn law_step_moves_by_its_slope<W: Scalar>(
    x: StateIkfom<W>,
    input: InputIkfom<W>,
    dt: W,
    d: Seq<W>,
    i: int,
)
    requires
        exact_arithmetic::<W>(),
        is_unit(x.rot),
        is_displacement(d),
        is_vector_entry(i),
    ensures
        ({
            let y = displaced(x, d);
            vector_entry(carried(y, get_f(y, input), dt), i) == vector_entry(
                carried(x, get_f(x, input), dt),
                i,
            ).plus_spec(inner(step_slope(x, input, dt)[i], d, 23))
        }),
{
    let y = displaced(x, d);
    let f = get_f(x, input);
    let g = get_f(y, input);
    lemma_carried_entry(x, f, dt, i);
    lemma_carried_entry(y, g, dt, i);
    lemma_displaced_entry(x, d, i);
    law_rate_displaced(x, input, d, i);
    let slope = step_slope(x, input, dt)[i];
    let row = dx_rows(x, input)[i];
    let one = unit_row::<W>(i, 23);
    let times = Seq::new(23, |j: int| dt.times_spec(row[j]));
    assert forall|j: int| 0 <= j < 23 implies #[trigger] slope[j] == one[j].plus_spec(times[j]) by {
        law_exact_is_ring(row[j], dt, dt);
    }
    lemma_inner_sum(one, times, slope, d, 23);
    lemma_unit_row(i, d, 23, 23);
    lemma_inner_multiple(row, dt, times, d, 23);
    let change = inner(row, d, 23);
    law_exact_is_ring(f[i], change, dt);
    law_exact_is_ring(dt, change, dt);
    lemma_regrouped(vector_entry(x, i), d[i], f[i].times_spec(dt), change.times_spec(dt));
}

/// The rate with noise: that of the gyroscope and of the accelerometer is taken from the
/// input, and that of their biases drives the biases.
pub open spec fn noisy_rate<W: Scalar>(
    s: StateIkfom<W>,
    input: InputIkfom<W>,
    n: Seq<W>,
    i: int,
) -> W {
    let shaken = InputIkfom { gyro: input.gyro.diff(three(n, 0)), acc: input.acc.diff(three(n, 3)) };
    if 15 <= i < 21 {
        get_f(s, shaken)[i].plus_spec(n[i - 9])
    } else {
        get_f(s, shaken)[i]
    }
}

/// A row of twelve, by threes.
proof fn lemma_row_of_twelve<W: Scalar>(row: Seq<W>, n: Seq<W>)
    requires
        exact_arithmetic::<W>(),
    ensures
        inner(row, n, 12) == three(row, 0).dot(three(n, 0)).plus_spec(
            three(row, 3).dot(three(n, 3)),
        ).plus_spec(three(row, 6).dot(three(n, 6))).plus_spec(three(row, 9).dot(three(n, 9))),
{
    reveal(exact_arithmetic);
    reveal(is_reading);
    let value = choose|value: spec_fn(W) -> real| #[trigger] is_reading(value);
    lemma_unrolled(value, row, n, 12);
    reveal_with_fuel(total_of, 13);
    let right = three(row, 0).dot(three(n, 0)).plus_spec(three(row, 3).dot(three(n, 3))).plus_spec(
        three(row, 6).dot(three(n, 6)),
    ).plus_spec(three(row, 9).dot(three(n, 9)));
    assert(total_of(value, row, n, 12) == value(right));
}

/// Two differences in a row are one of the sum.
proof fn lemma_twice_less<W: Scalar>(a: W, b: W, c: W)
    requires
        exact_arithmetic::<W>(),
    ensures
        a.minus_spec(c).minus_spec(b) == a.minus_spec(b.plus_spec(c)),
{
    reveal(exact_arithmetic);
    reveal(is_reading);
    let value = choose|value: spec_fn(W) -> real| #[trigger] is_reading(value);
    assert(value(a.minus_spec(c).minus_spec(b)) == value(a.minus_spec(b.plus_spec(c))));
}

/// In exact arithmetic the derivative by the process noise is the slope of the rate: noise
/// changes every rate by its image.
pub proof fn law_noise_slope<W: Scalar>(
    s: StateIkfom<W>,
    input: InputIkfom<W>,
    n: Seq<W>,
    i: int,
)
    requires
        exact_arithmetic::<W>(),
        is_unit(s.rot),
        n.len() == 12,
        0 <= i < 24,
    ensures
        noisy_rate(s, input, n, i) == get_f(s, input)[i].plus_spec(inner(dw_rows(s)[i], n, 12)),
{
    let o = zero::<W>();
    let none = V3::new(o, o, o);
    let row = dw_rows(s)[i];
    let (ng, na, nb, nc) = (three(n, 0), three(n, 3), three(n, 6), three(n, 9));
    let shaken = InputIkfom { gyro: input.gyro.diff(ng), acc: input.acc.diff(na) };
    let f = get_f(s, input);
    let g = get_f(s, shaken);
    lemma_row_of_twelve(row, n);
    lemma_pick(ng.x, ng.y, ng.z);
    lemma_pick(na.x, na.y, na.z);
    lemma_pick(nb.x, nb.y, nb.z);
    lemma_pick(nc.x, nc.y, nc.z);
    law_exact_is_ring(o, o, o);
    law_exact_is_ring(f[i], o, o);
    if 3 <= i < 6 {
        let c = entry_of(ng, i - 3);
        let m = c.negate_spec();
        assert(three(row, 0) == row3(M3::<W>::identity().opposite(), i - 3));
        assert(three(row, 3) == none && three(row, 6) == none && three(row, 9) == none);
        law_exact_is_ring(m, o, o);
        lemma_twice_less(entry_of(input.gyro, i - 3), entry_of(s.bg, i - 3), c);
        lemma_slower(entry_of(input.gyro, i - 3), entry_of(s.bg, i - 3), c);
        assert(g[i] == f[i].plus_spec(m)) by {
            assert(i == 3 || i == 4 || i == 5);
        }
    } else if 12 <= i < 15 {
        let lean = s.rot.matrix().opposite();
        let m = row3(s.rot.matrix(), i - 12);
        let c = row3(lean, i - 12).dot(na);
        assert(row3(lean, i - 12) == m.opposite());
        assert(three(row, 3) == row3(lean, i - 12));
        assert(three(row, 0) == none && three(row, 6) == none && three(row, 9) == none);
        law_exact_is_ring(o, c, o);
        law_exact_is_ring(c, o, o);
        lemma_twice_less(input.acc.x, s.ba.x, na.x);
        lemma_twice_less(input.acc.y, s.ba.y, na.y);
        lemma_twice_less(input.acc.z, s.ba.z, na.z);
        assert(shaken.acc.diff(s.ba) == input.acc.diff(s.ba.sum(na)));
        law_matrix_rotates(s.rot, input.acc.diff(s.ba));
        law_matrix_rotates(s.rot, input.acc.diff(s.ba.sum(na)));
        law_dot_falls(m, input.acc, s.ba, na);
        let r = m.dot(input.acc.diff(s.ba));
        let e = entry_of(s.grav.vec, i - 12);
        law_exact_is_ring(r, c, e);
        law_exact_is_ring(c, e, r);
        law_exact_is_ring(r, e, c);
        assert(f[i] == r.plus_spec(e) && g[i] == r.plus_spec(c).plus_spec(e)) by {
            assert(i == 12 || i == 13 || i == 14);
        }
    } else if 15 <= i < 18 {
        let c = entry_of(nb, i - 15);
        assert(three(row, 6) == row3(M3::<W>::identity(), i - 15));
        assert(three(row, 0) == none && three(row, 3) == none && three(row, 9) == none);
        law_exact_is_ring(o, c, o);
        law_exact_is_ring(c, o, o);
        assert(n[i - 9] == c);
        assert(g[i] == o && f[i] == o);
    } else if 18 <= i < 21 {
        let c = entry_of(nc, i - 18);
        assert(three(row, 9) == row3(M3::<W>::identity(), i - 18));
        assert(three(row, 0) == none && three(row, 3) == none && three(row, 6) == none);
        law_exact_is_ring(o, c, o);
        law_exact_is_ring(c, o, o);
        assert(n[i - 9] == c);
        assert(g[i] == o && f[i] == o);
    } else {
        assert(three(row, 0) == none && three(row, 3) == none && three(row, 6) == none && three(
            row,
            9,
        ) == none);
        assert(g[i] == f[i]);
    }
}

/// In exact arithmetic noise enters the vectors of the state after a step as it changes
/// their rates over the time of the step.
pub proof fn law_noise_enters_with_time<W: Scalar>(
    x: StateIkfom<W>,
    input: InputIkfom<W>,
    dt: W,
    n: Seq<W>,
    i: int,
)
    requires
        exact_arithmetic::<W>(),
        is_unit(x.rot),
        n.len() == 12,
        is_vector_entry(i),
    ensures
        vector_entry(x, i).plus_spec(noisy_rate(x, input, n, i).times_spec(dt)) == vector_entry(
            carried(x, get_f(x, input), dt),
            i,
        ).plus_spec(inner(step_noise(x, input, dt)[i], n, 12)),
{
    let f = get_f(x, input);
    lemma_carried_entry(x, f, dt, i);
    law_noise_slope(x, input, n, i);
    let row = dw_rows(x)[i];
    let noise = step_noise(x, input, dt)[i];
    assert forall|j: int| 0 <= j < 12 implies #[trigger] noise[j] == dt.times_spec(row[j]) by {
        law_exact_is_ring(row[j], dt, dt);
    }
    lemma_inner_multiple(row, dt, noise, n, 12);
    let change = inner(row, n, 12);
    law_exact_is_ring(f[i], change, dt);
    law_exact_is_ring(dt, change, dt);
    law_exact_is_ring(vector_entry(x, i), f[i].times_spec(dt), change.times_spec(dt));
}

/// In exact arithmetic a step is a motion: the position moves with the velocity, the
/// velocity with the turned acceleration and gravity, the rotation with the angular
/// velocity, each without its bias and over the time of the step, and all else stays.
pub proof fn law_step_is_motion<W: Scalar>(x: StateIkfom<W>, input: InputIkfom<W>, dt: W)
    requires
        exact_angles::<W>(),
        is_unit(x.rot),
    ensures
        ({
            let y = carried(x, get_f(x, input), dt);
            let push = x.rot.matrix().apply(input.acc.diff(x.ba)).sum(x.grav.vec);
            &&& y.pos == x.pos.sum(x.vel.scaled(dt))
            &&& y.vel == x.vel.sum(push.scaled(dt))
            &&& y.rot == x.rot.compose(quat_exp(input.gyro.diff(x.bg).scaled(dt)))
            &&& y.offset_r_l_i == x.offset_r_l_i
            &&& y.offset_t_l_i == x.offset_t_l_i
            &&& y.bg == x.bg
            &&& y.ba == x.ba
            &&& y.grav == x.grav
        }),
{
    law_exact_angles::<W>();
    let f = get_f(x, input);
    let y = carried(x, f, dt);
    let o = zero::<W>();
    law_matrix_rotates(x.rot, input.acc.diff(x.ba));
    law_exact_is_ring(dt, o, o);
    law_exact_is_ring(o, dt, o);
    let none = V3::new(o, o, o);
    assert(none.scaled(dt) == V3::<W>::zeros());
    law_no_turn::<W>();
    lemma_identity(x.offset_r_l_i, none);
    lemma_nothing_added(x.offset_t_l_i);
    lemma_nothing_added(x.bg);
    lemma_nothing_added(x.ba);
    lemma_by_units(x.grav.vec, V2::zeros());
    assert(exp(V3::<W>::zeros()) == M3::<W>::identity()) by {
        reveal(exact_angles);
        let value = choose|value: spec_fn(W) -> real| #[trigger]
            is_reading(value) && has_angles(value);
        lemma_no_length(value);
        let small = W::ratio_spec(1, 10000000);
        assert(value(small) * (10000000int as real) == 1int as real) by {
            reveal(has_angles);
        }
        lemma_part_positive(value(small), 10000000int as real);
        assert(!lt(small, V3::<W>::zeros().norm())) by {
            reveal(has_angles);
        }
    }
}

proof fn lemma_nothing_added<W: Scalar>(v: V3<W>)
    requires
        exact_arithmetic::<W>(),
    ensures
        v.sum(V3::zeros()) == v,
{
    law_exact_is_ring(v.x, zero(), zero());
    law_exact_is_ring(v.y, zero(), zero());
    law_exact_is_ring(v.z, zero(), zero());
}

/// In exact arithmetic the variance of any combination `v` of the entries after a step is
/// that of what the step makes it of before, and that of what the noise adds to it.
pub proof fn law_predicted_variance<W: Scalar>(
    x: StateIkfom<W>,
    p: Rows<W>,
    q: Rows<W>,
    input: InputIkfom<W>,
    dt: W,
    v: Seq<W>,
)
    requires
        exact_arithmetic::<W>(),
        has_shape(p, 23, 23),
        has_shape(q, 12, 12),
        v.len() == 23,
    ensures
        ({
            let before = row_image(v, step_slope(x, input, dt), 23);
            let noise = row_image(v, step_noise(x, input, dt), 12);
            form(predicted_cov(x, p, q, input, dt), v, v) == form(p, before, before).plus_spec(
                form(q, noise, noise),
            )
        }),
{
    let slope = step_slope(x, input, dt);
    let noise = step_noise(x, input, dt);
    law_form_carried(slope, p, 23, v, v);
    law_form_carried(noise, q, 12, v, v);
    law_form_of_sum(carried_cov(slope, p, 23), carried_cov(noise, q, 12), v, v);
}

} // verus!
