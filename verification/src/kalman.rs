//! What an update of the filter estimates, in exact arithmetic.
use crate::exact::{
    exact_angles, has_angles, is_unit, law_exact_angles, law_no_turn, law_turn_undone,
    lemma_commutes, lemma_trade,
};
use crate::forms::{
    column, law_image_moves_across, lemma_column, lemma_inner_multiple,
    lemma_inner_same, lemma_inner_sum, lemma_inner_swap, row_image,
};
use crate::linear::{M2, M3, Quat, V2, V3};
use crate::manifold::{
    is_vector_entry, lemma_vector_entry, quat_log, vector_entry, StateIkfom, StateVec,
};
use crate::matrix::{
    column2, column3, columns_bent, columns_turned, corner_of, corner_raised, difference_of,
    has_shape, identity_of, image, inner, padded, product, rows_bent, rows_turned, share_of, slice2, slice3, sum_of, table, transposed, Rows,
};
use crate::places::lemma_identity;
use crate::scalar::{exact_arithmetic, is_reading, law_exact_is_ring, zero, Scalar};
use crate::slopes::{lemma_unit_row, unit_row};
use crate::so3::{a_matrix, skew};
use crate::sphere::lemma_nothing;
use crate::update::{
    bend_of, correction, final_cov, innovation, inverted, large_feedback, large_gain, listed, measured,
    rounded, shifted_cov, shifted_error, small_feedback, small_gain, squared_slope, state_vec,
    triple_of, turn_of, UpdateView,
};
use vstd::prelude::*;

verus! {

/// The sum of two vectors.
pub open spec fn plus_all<W: Scalar>(u: Seq<W>, v: Seq<W>) -> Seq<W> {
    Seq::new(u.len(), |i: int| u[i].plus_spec(v[i]))
}

/// The difference of two vectors.
pub open spec fn minus_all<W: Scalar>(u: Seq<W>, v: Seq<W>) -> Seq<W> {
    Seq::new(u.len(), |i: int| u[i].minus_spec(v[i]))
}

/// A vector times a number.
pub open spec fn times_all<W: Scalar>(k: W, u: Seq<W>) -> Seq<W> {
    Seq::new(u.len(), |i: int| k.times_spec(u[i]))
}

/// In exact arithmetic a product of matrices takes a vector where the matrices take it one
/// after the other.
pub proof fn law_image_of_product<W: Scalar>(a: Rows<W>, b: Rows<W>, v: Seq<W>)
    requires
        exact_arithmetic::<W>(),
    ensures
        image(product(a, b, v.len()), v) == image(a, image(b, v)),
{
    let c = v.len();
    let m = product(a, b, c);
    assert forall|i: int| 0 <= i < a.len() implies #[trigger] image(m, v)[i] == image(
        a,
        image(b, v),
    )[i] by {
        assert(m[i] =~= row_image(a[i], b, c));
        law_image_moves_across(a[i], b, v, c);
    }
    assert(image(m, v) =~= image(a, image(b, v)));
}

proof fn lemma_image_plus<W: Scalar>(a: Rows<W>, u: Seq<W>, v: Seq<W>)
    requires
        exact_arithmetic::<W>(),
        u.len() == v.len(),
    ensures
        image(a, plus_all(u, v)) == plus_all(image(a, u), image(a, v)),
{
    let n = u.len();
    assert forall|i: int| 0 <= i < a.len() implies #[trigger] image(a, plus_all(u, v))[i]
        == plus_all(image(a, u), image(a, v))[i] by {
        lemma_inner_swap(a[i], plus_all(u, v), n);
        lemma_inner_swap(a[i], u, n);
        lemma_inner_swap(a[i], v, n);
        lemma_inner_sum(u, v, plus_all(u, v), a[i], n);
    }
    assert(image(a, plus_all(u, v)) =~= plus_all(image(a, u), image(a, v)));
}

proof fn lemma_image_times<W: Scalar>(a: Rows<W>, k: W, u: Seq<W>)
    requires
        exact_arithmetic::<W>(),
    ensures
        image(a, times_all(k, u)) == times_all(k, image(a, u)),
{
    let n = u.len();
    assert forall|i: int| 0 <= i < a.len() implies #[trigger] image(a, times_all(k, u))[i]
        == times_all(k, image(a, u))[i] by {
        lemma_inner_swap(a[i], times_all(k, u), n);
        lemma_inner_swap(a[i], u, n);
        lemma_inner_multiple(u, k, times_all(k, u), a[i], n);
    }
    assert(image(a, times_all(k, u)) =~= times_all(k, image(a, u)));
}

proof fn lemma_less_and_back<W: Scalar>(a: W, b: W)
    requires
        exact_arithmetic::<W>(),
    ensures
        a.minus_spec(b).plus_spec(b) == a,
        a.plus_spec(b).minus_spec(b) == a,
        b.plus_spec(a.minus_spec(b)) == a,
{
    reveal(exact_arithmetic);
    reveal(is_reading);
    let value = choose|value: spec_fn(W) -> real| #[trigger] is_reading(value);
    assert(value(a.minus_spec(b).plus_spec(b)) == value(a));
    assert(value(a.plus_spec(b).minus_spec(b)) == value(a));
    assert(value(b.plus_spec(a.minus_spec(b))) == value(a));
}

proof fn lemma_image_minus<W: Scalar>(a: Rows<W>, u: Seq<W>, v: Seq<W>)
    requires
        exact_arithmetic::<W>(),
        u.len() == v.len(),
    ensures
        image(a, minus_all(u, v)) == minus_all(image(a, u), image(a, v)),
{
    let d = minus_all(u, v);
    assert forall|i: int| 0 <= i < u.len() implies #[trigger] plus_all(d, v)[i] == u[i] by {
        lemma_less_and_back(u[i], v[i]);
    }
    assert(plus_all(d, v) =~= u);
    lemma_image_plus(a, d, v);
    assert forall|i: int| 0 <= i < a.len() implies #[trigger] image(a, d)[i] == minus_all(
        image(a, u),
        image(a, v),
    )[i] by {
        assert(plus_all(image(a, d), image(a, v))[i] == image(a, u)[i]);
        lemma_less_and_back(image(a, d)[i], image(a, v)[i]);
    }
    assert(image(a, d) =~= minus_all(image(a, u), image(a, v)));
}

/// The identity leaves a vector as it is.
proof fn lemma_image_identity<W: Scalar>(v: Seq<W>)
    requires
        exact_arithmetic::<W>(),
    ensures
        image(identity_of::<W>(v.len()), v) == v,
{
    let n = v.len();
    assert forall|i: int| 0 <= i < n implies #[trigger] image(identity_of::<W>(n), v)[i] == v[i] by {
        assert(identity_of::<W>(n)[i] =~= unit_row::<W>(i, n));
        lemma_unit_row(i, v, n, n);
    }
    assert(image(identity_of::<W>(n), v) =~= v);
}

/// A difference of matrices takes a vector to the difference of its images.
proof fn lemma_image_of_difference<W: Scalar>(a: Rows<W>, b: Rows<W>, v: Seq<W>)
    requires
        exact_arithmetic::<W>(),
        a.len() == b.len(),
    ensures
        image(difference_of(a, b, v.len()), v) == minus_all(image(a, v), image(b, v)),
{
    let n = v.len();
    let d = difference_of(a, b, n);
    assert forall|i: int| 0 <= i < a.len() implies #[trigger] image(d, v)[i] == minus_all(
        image(a, v),
        image(b, v),
    )[i] by {
        let whole = Seq::new(n, |j: int| a[i][j]);
        assert forall|j: int| 0 <= j < n implies #[trigger] whole[j] == d[i][j].plus_spec(b[i][j]) by {
            lemma_less_and_back(a[i][j], b[i][j]);
        }
        lemma_inner_sum(d[i], b[i], whole, v, n);
        lemma_inner_same(whole, v, a[i], v, n);
        lemma_less_and_back(inner(d[i], v, n), inner(b[i], v, n));
    }
    assert(image(d, v) =~= minus_all(image(a, v), image(b, v)));
}

/// In exact arithmetic a round of the update takes the state to the estimate, whatever
/// state it starts from. For a measurement that is linear in the state, the residuals at
/// the error state `dx` are those of the base without the image of `dx`; the correction then
/// completes `dx` to the gain times the residuals of the base. So a further round, from the
/// estimate, corrects nothing.
pub proof fn law_round_completes<W: Scalar>(
    gain: Rows<W>,
    slope: Rows<W>,
    residuals: Seq<W>,
    dx: StateVec<W>,
    i: int,
)
    requires
        exact_arithmetic::<W>(),
        gain.len() == 23,
        slope.len() == residuals.len(),
        0 <= i < 23,
    ensures
        ({
            let here = minus_all(residuals, image(slope, listed(dx)));
            let step = correction(image(gain, here), product(gain, slope, 23), dx);
            &&& dx[i].plus_spec(step[i]) == image(gain, residuals)[i]
            &&& dx[i] == image(gain, residuals)[i] ==> step[i] == zero::<W>()
        }),
{
    law_image_of_product(gain, slope, listed(dx));
    lemma_round(gain, slope, product(gain, slope, 23), residuals, dx, i);
}

proof fn lemma_round<W: Scalar>(
    gain: Rows<W>,
    slope: Rows<W>,
    k_x: Rows<W>,
    residuals: Seq<W>,
    dx: StateVec<W>,
    i: int,
)
    requires
        exact_arithmetic::<W>(),
        gain.len() == 23,
        k_x.len() == 23,
        slope.len() == residuals.len(),
        image(k_x, listed(dx)) == image(gain, image(slope, listed(dx))),
        0 <= i < 23,
    ensures
        ({
            let here = minus_all(residuals, image(slope, listed(dx)));
            let step = correction(image(gain, here), k_x, dx);
            &&& dx[i].plus_spec(step[i]) == image(gain, residuals)[i]
            &&& dx[i] == image(gain, residuals)[i] ==> step[i] == zero::<W>()
        }),
{
    let d = listed(dx);
    let seen = image(slope, d);
    let here = minus_all(residuals, seen);
    let step = correction(image(gain, here), k_x, dx);
    lemma_image_minus(gain, residuals, seen);
    lemma_image_of_difference(k_x, identity_of(23), d);
    lemma_image_identity(d);
    let k = image(gain, residuals)[i];
    let f = image(gain, seen)[i];
    assert(step[i] == k.minus_spec(f).plus_spec(f.minus_spec(d[i])));
    lemma_completed(d[i], k, f);
}

proof fn lemma_completed<W: Scalar>(d: W, k: W, f: W)
    requires
        exact_arithmetic::<W>(),
    ensures
        d.plus_spec(k.minus_spec(f).plus_spec(f.minus_spec(d))) == k,
        d == k ==> k.minus_spec(f).plus_spec(f.minus_spec(d)) == zero::<W>(),
{
    reveal(exact_arithmetic);
    reveal(is_reading);
    let value = choose|value: spec_fn(W) -> real| #[trigger] is_reading(value);
    let step = k.minus_spec(f).plus_spec(f.minus_spec(d));
    assert(value(d.plus_spec(step)) == value(k));
    if d == k {
        assert(value(step) == value(zero::<W>()));
    }
}

/// Scalar products with the same products of their terms are the same.
proof fn lemma_inner_terms<W: Scalar>(a: Seq<W>, b: Seq<W>, c: Seq<W>, d: Seq<W>, n: nat)
    requires
        forall|k: int| 0 <= k < n ==> #[trigger] a[k].times_spec(b[k]) == c[k].times_spec(d[k]),
    ensures
        inner(a, b, n) == inner(c, d, n),
    decreases n,
{
    if n > 0 {
        lemma_inner_terms(a, b, c, d, (n - 1) as nat);
        assert(a[n - 1].times_spec(b[n - 1]) == c[n - 1].times_spec(d[n - 1]));
    }
}

/// A scalar product without terms from `m` on.
proof fn lemma_inner_short<W: Scalar>(a: Seq<W>, b: Seq<W>, m: nat, n: nat)
    requires
        exact_arithmetic::<W>(),
        m <= n,
        forall|k: int|
            m <= k < n ==> (#[trigger] a[k]) == zero::<W>() || (#[trigger] b[k]) == zero::<W>(),
    ensures
        inner(a, b, n) == inner(a, b, m),
    decreases n,
{
    if n > m {
        lemma_inner_short(a, b, m, (n - 1) as nat);
        let (x, y) = (a[n - 1], b[n - 1]);
        law_exact_is_ring(x, zero(), zero());
        law_exact_is_ring(y, zero(), zero());
        law_exact_is_ring(x, y, zero());
        law_exact_is_ring(inner(a, b, m), zero(), zero());
        assert(a[n - 1] == zero::<W>() || b[n - 1] == zero::<W>());
    }
}

/// Dividing a matrix by `r` and multiplying a vector with it leaves its image.
proof fn lemma_shared_image<W: Scalar>(a: Rows<W>, r: W, z: Seq<W>)
    requires
        exact_angles::<W>(),
        r != zero::<W>(),
    ensures
        image(share_of(a, r, z.len()), times_all(r, z)) == image(a, z),
        times_all(r, image(share_of(a, r, z.len()), z)) == image(a, z),
{
    law_exact_angles::<W>();
    reveal(exact_angles);
    let value = choose|value: spec_fn(W) -> real| #[trigger] is_reading(value) && has_angles(value);
    let n = z.len();
    let s = share_of(a, r, n);
    let w = times_all(r, z);
    assert forall|i: int| 0 <= i < a.len() implies #[trigger] image(s, w)[i] == image(a, z)[i] by {
        assert forall|k: int| 0 <= k < n implies #[trigger] s[i][k].times_spec(w[k])
            == a[i][k].times_spec(z[k]) by {
            lemma_shared_term(value, a[i][k], r, z[k]);
        }
        lemma_inner_terms(s[i], w, a[i], z, n);
    }
    assert(image(s, w) =~= image(a, z));
    lemma_image_times(s, r, z);
}

proof fn lemma_shared_term<W: Scalar>(value: spec_fn(W) -> real, a: W, r: W, z: W)
    requires
        is_reading(value),
        has_angles(value),
        r != zero::<W>(),
    ensures
        a.over_spec(r).times_spec(r.times_spec(z)) == a.times_spec(z),
{
    reveal(is_reading);
    reveal(has_angles);
    assert(value(r) != value(zero::<W>()));
    lemma_trade(value(a.over_spec(r)), value(r), value(z));
    assert(value(a.over_spec(r).times_spec(r.times_spec(z))) == value(a.times_spec(z)));
}

/// A sum of matrices takes a vector to the sum of its images.
proof fn lemma_image_of_sum<W: Scalar>(a: Rows<W>, b: Rows<W>, v: Seq<W>)
    requires
        exact_arithmetic::<W>(),
        a.len() == b.len(),
    ensures
        image(sum_of(a, b, v.len()), v) == plus_all(image(a, v), image(b, v)),
{
    let n = v.len();
    let s = sum_of(a, b, n);
    assert forall|i: int| 0 <= i < a.len() implies #[trigger] image(s, v)[i] == plus_all(
        image(a, v),
        image(b, v),
    )[i] by {
        lemma_inner_sum(a[i], b[i], s[i], v, n);
    }
    assert(image(s, v) =~= plus_all(image(a, v), image(b, v)));
}

/// A matrix and its inverse undo each other.
proof fn lemma_inverse<W: Scalar>(inv: Rows<W>, m: Rows<W>, v: Seq<W>)
    requires
        exact_arithmetic::<W>(),
        product(inv, m, v.len()) == identity_of::<W>(v.len()),
    ensures
        image(inv, image(m, v)) == v,
{
    law_image_of_product(inv, m, v);
    lemma_image_identity(v);
}

/// The derivatives of residuals by the whole state.
pub open spec fn slope_of<W: Scalar>(h_x: Rows<W>) -> Rows<W> {
    padded(h_x, 12, 23)
}

/// How uncertain the residuals are under weights `y`: by the state with covariance `p`,
/// and of themselves with variance `r`.
pub open spec fn residual_spread<W: Scalar>(p: Rows<W>, h_x: Rows<W>, r: W, y: Seq<W>) -> Seq<W> {
    let h = slope_of(h_x);
    plus_all(image(h, image(p, image(transposed(h, 23), y))), times_all(r, y))
}

/// In exact arithmetic the gain for few residuals is that of Kalman: applied to how
/// uncertain the residuals are, it gives how they go together with the state.
pub proof fn law_small_gain<W: Scalar>(
    p: Rows<W>,
    h_x: Rows<W>,
    inv: Rows<W>,
    r: W,
    y: Seq<W>,
)
    requires
        exact_angles::<W>(),
        r != zero::<W>(),
        has_shape(p, 23, 23),
        y.len() == h_x.len(),
        product(inv, innovation(p, h_x, r), h_x.len()) == identity_of::<W>(h_x.len()),
    ensures
        image(small_gain(p, h_x, inv, r), residual_spread(p, h_x, r, y)) == image(
            p,
            image(transposed(slope_of(h_x), 23), y),
        ),
{
    law_exact_angles::<W>();
    let m = h_x.len();
    let h = slope_of(h_x);
    let t = transposed(h, 23);
    let hph = product(product(h, p, 23), t, m);
    let side = product(p, t, m);
    let a = product(side, inv, m);
    let z = image(innovation(p, h_x, r), y);
    lemma_image_of_sum(share_of(hph, r, m), identity_of(m), y);
    lemma_image_identity(y);
    lemma_shared_image(hph, r, y);
    law_image_of_product(product(h, p, 23), t, y);
    law_image_of_product(h, p, image(t, y));
    assert(times_all(r, z) =~= residual_spread(p, h_x, r, y)) by {
        let part = image(share_of(hph, r, m), y);
        assert forall|i: int| 0 <= i < m implies #[trigger] times_all(r, z)[i] == residual_spread(
            p,
            h_x,
            r,
            y,
        )[i] by {
            law_exact_is_ring(part[i], y[i], r);
            law_exact_is_ring(r, part[i].plus_spec(y[i]), r);
            law_exact_is_ring(r, part[i], r);
            law_exact_is_ring(r, y[i], r);
            assert(times_all(r, part)[i] == image(hph, y)[i]);
        }
    }
    lemma_shared_image(a, r, z);
    law_image_of_product(side, inv, z);
    lemma_inverse(inv, innovation(p, h_x, r), y);
    law_image_of_product(p, t, y);
}

/// The images of the derivatives by the whole state, by those of the derivatives given.
proof fn lemma_slope_images<W: Scalar>(h_x: Rows<W>, u: Seq<W>, w: Seq<W>)
    requires
        exact_arithmetic::<W>(),
        u.len() == 23,
        w.len() == h_x.len(),
    ensures
        image(slope_of(h_x), u) == image(h_x, u.take(12)),
        image(transposed(slope_of(h_x), 23), w).len() == 23,
        forall|j: int|
            0 <= j < 12 ==> #[trigger] image(transposed(slope_of(h_x), 23), w)[j] == image(
                transposed(h_x, 12),
                w,
            )[j],
        forall|j: int|
            12 <= j < 23 ==> #[trigger] image(transposed(slope_of(h_x), 23), w)[j] == zero::<W>(),
{
    let h = slope_of(h_x);
    let m = h_x.len();
    assert forall|k: int| 0 <= k < m implies #[trigger] image(h, u)[k] == image(
        h_x,
        u.take(12),
    )[k] by {
        assert forall|j: int| 12 <= j < 23 implies (#[trigger] h[k][j]) == zero::<W>() || (
        #[trigger] u[j]) == zero::<W>() by {}
        lemma_inner_short(h[k], u, 12, 23);
        lemma_inner_same(h[k], u, h_x[k], u.take(12), 12);
    }
    assert(image(h, u) =~= image(h_x, u.take(12)));
    let t = transposed(h, 23);
    let s = transposed(h_x, 12);
    assert forall|j: int| 0 <= j < 12 implies #[trigger] image(t, w)[j] == image(s, w)[j] by {
        lemma_inner_same(t[j], w, s[j], w, m);
    }
    assert forall|j: int| 12 <= j < 23 implies #[trigger] image(t, w)[j] == zero::<W>() by {
        assert forall|k: int| 0 <= k < m implies (#[trigger] t[j][k]) == zero::<W>() || (
        #[trigger] w[k]) == zero::<W>() by {}
        lemma_inner_short(t[j], w, 0, m);
    }
}

/// The image of a matrix whose corner was raised by the squared derivatives.
proof fn lemma_raised_image<W: Scalar>(a: Rows<W>, h_x: Rows<W>, u: Seq<W>)
    requires
        exact_arithmetic::<W>(),
        a.len() == 23,
        u.len() == 23,
    ensures
        image(corner_raised(a, squared_slope(h_x), 12, 23), u) == plus_all(
            image(a, u),
            image(transposed(slope_of(h_x), 23), image(slope_of(h_x), u)),
        ),
{
    let b = squared_slope(h_x);
    let c = corner_raised(a, b, 12, 23);
    let h = slope_of(h_x);
    let seen = image(h, u);
    let back = image(transposed(h, 23), seen);
    let short = u.take(12);
    lemma_slope_images(h_x, u, seen);
    law_image_of_product(transposed(h_x, 12), h_x, short);
    let raise = table(
        23,
        23,
        |i: int, j: int|
            if i < 12 && j < 12 {
                b[i][j]
            } else {
                zero::<W>()
            },
    );
    assert forall|i: int| 0 <= i < 23 implies #[trigger] image(c, u)[i] == plus_all(
        image(a, u),
        back,
    )[i] by {
        lemma_inner_sum(a[i], raise[i], c[i], u, 23);
        if i < 12 {
            assert forall|j: int| 12 <= j < 23 implies (#[trigger] raise[i][j]) == zero::<W>() || (
            #[trigger] u[j]) == zero::<W>() by {}
            lemma_inner_short(raise[i], u, 12, 23);
            lemma_inner_same(raise[i], u, b[i], short, 12);
            assert(image(b, short)[i] == back[i]);
        } else {
            assert forall|j: int| 0 <= j < 23 implies (#[trigger] raise[i][j]) == zero::<W>() || (
            #[trigger] u[j]) == zero::<W>() by {}
            lemma_inner_short(raise[i], u, 0, 23);
        }
    }
    assert(image(c, u) =~= plus_all(image(a, u), back));
}

/// The gain for many residuals, by the whole inverse.
proof fn lemma_large_gain_image<W: Scalar>(h_x: Rows<W>, inv: Rows<W>, w: Seq<W>)
    requires
        exact_arithmetic::<W>(),
        inv.len() == 23,
        w.len() == h_x.len(),
    ensures
        image(large_gain(h_x, inv), w) == image(inv, image(transposed(slope_of(h_x), 23), w)),
{
    let s = transposed(h_x, 12);
    let side = corner_of(inv, 23, 12);
    let full = image(transposed(slope_of(h_x), 23), w);
    let zeros = Seq::new(23, |j: int| zero::<W>());
    lemma_slope_images(h_x, zeros, w);
    law_image_of_product(side, s, w);
    let q = image(s, w);
    assert forall|i: int| 0 <= i < 23 implies #[trigger] image(side, q)[i] == image(inv, full)[i] by {
        assert forall|j: int| 12 <= j < 23 implies (#[trigger] inv[i][j]) == zero::<W>() || (
        #[trigger] full[j]) == zero::<W>() by {}
        lemma_inner_short(inv[i], full, 12, 23);
        lemma_inner_same(inv[i], full, side[i], q, 12);
    }
    assert(image(side, q) =~= image(inv, full));
}

/// In exact arithmetic the gain for many residuals is that of Kalman too: `spread` is the
/// inverse of the covariance in units of the variance of a residual, and `inv` that of the
/// information matrix.
pub proof fn law_large_gain<W: Scalar>(
    p: Rows<W>,
    h_x: Rows<W>,
    spread: Rows<W>,
    inv: Rows<W>,
    r: W,
    y: Seq<W>,
)
    requires
        exact_angles::<W>(),
        r != zero::<W>(),
        has_shape(p, 23, 23),
        spread.len() == 23,
        inv.len() == 23,
        y.len() == h_x.len(),
        product(spread, share_of(p, r, 23), 23) == identity_of::<W>(23),
        product(inv, corner_raised(spread, squared_slope(h_x), 12, 23), 23) == identity_of::<W>(23),
    ensures
        image(large_gain(h_x, inv), residual_spread(p, h_x, r, y)) == image(
            p,
            image(transposed(slope_of(h_x), 23), y),
        ),
{
    law_exact_angles::<W>();
    let h = slope_of(h_x);
    let t = transposed(h, 23);
    let back = image(t, y);
    let u = image(p, back);
    let w = residual_spread(p, h_x, r, y);
    let raised = corner_raised(spread, squared_slope(h_x), 12, 23);
    lemma_large_gain_image(h_x, inv, w);
    lemma_image_plus(t, image(h, u), times_all(r, y));
    lemma_image_times(t, r, y);
    lemma_raised_image(spread, h_x, u);
    lemma_shared_image(p, r, back);
    lemma_inverse(spread, share_of(p, r, 23), times_all(r, back));
    assert(image(spread, u) == times_all(r, back));
    assert(image(raised, u) =~= image(t, w)) by {
        assert forall|i: int| 0 <= i < 23 implies #[trigger] image(raised, u)[i] == image(t, w)[i] by {
            law_exact_is_ring(times_all(r, back)[i], image(t, image(h, u))[i], r);
        }
    }
    lemma_inverse(inv, raised, u);
}

/// In exact arithmetic both forms of the gain give the same correction, wherever both can
/// be formed: on residuals that come from some weights they agree.
pub proof fn law_gains_agree<W: Scalar>(
    p: Rows<W>,
    h_x: Rows<W>,
    small: Rows<W>,
    spread: Rows<W>,
    inv: Rows<W>,
    r: W,
    y: Seq<W>,
)
    requires
        exact_angles::<W>(),
        r != zero::<W>(),
        has_shape(p, 23, 23),
        spread.len() == 23,
        inv.len() == 23,
        y.len() == h_x.len(),
        product(small, innovation(p, h_x, r), h_x.len()) == identity_of::<W>(h_x.len()),
        product(spread, share_of(p, r, 23), 23) == identity_of::<W>(23),
        product(inv, corner_raised(spread, squared_slope(h_x), 12, 23), 23) == identity_of::<W>(23),
    ensures
        image(small_gain(p, h_x, small, r), residual_spread(p, h_x, r, y)) == image(
            large_gain(h_x, inv),
            residual_spread(p, h_x, r, y),
        ),
{
    law_small_gain(p, h_x, small, r, y);
    law_large_gain(p, h_x, spread, inv, r, y);
}

/// What the gain for many residuals makes of the derivatives.
proof fn lemma_large_feedback<W: Scalar>(h_x: Rows<W>, inv: Rows<W>, v: Seq<W>)
    requires
        exact_arithmetic::<W>(),
        inv.len() == 23,
        v.len() == 23,
    ensures
        image(large_feedback(h_x, inv), v) == image(
            large_gain(h_x, inv),
            image(slope_of(h_x), v),
        ),
{
    let short = v.take(12);
    let side = corner_of(inv, 23, 12);
    let b = squared_slope(h_x);
    let core = product(side, b, 12);
    let k_x = large_feedback(h_x, inv);
    let seen = image(slope_of(h_x), v);
    lemma_slope_images(h_x, v, seen);
    law_image_of_product(side, b, short);
    law_image_of_product(transposed(h_x, 12), h_x, short);
    law_image_of_product(side, transposed(h_x, 12), seen);
    assert forall|i: int| 0 <= i < 23 implies #[trigger] image(k_x, v)[i] == image(core, short)[i] by {
        assert forall|j: int| 12 <= j < 23 implies (#[trigger] k_x[i][j]) == zero::<W>() || (
        #[trigger] v[j]) == zero::<W>() by {}
        lemma_inner_short(k_x[i], v, 12, 23);
        lemma_inner_same(k_x[i], v, core[i], short, 12);
    }
    assert(image(k_x, v) =~= image(core, short));
}

/// The identity of size two.
pub open spec fn unbent<W: Scalar>() -> M2<W> {
    let (one, o) = (W::ratio_spec(1, 1), zero::<W>());
    M2 { a: V2::new(one, o), b: V2::new(o, one) }
}

/// A vector by the rows of an identity.
pub(crate) proof fn lemma_by_units<W: Scalar>(v: V3<W>, w: V2<W>)
    requires
        exact_arithmetic::<W>(),
    ensures
        ({
            let m = M3::<W>::identity();
            let n = unbent::<W>();
            &&& m.a.dot(v) == v.x && m.b.dot(v) == v.y && m.c.dot(v) == v.z
            &&& v.dot(m.a) == v.x && v.dot(m.b) == v.y && v.dot(m.c) == v.z
            &&& n.a.dot(w) == w.x && n.b.dot(w) == w.y
            &&& w.dot(n.a) == w.x && w.dot(n.b) == w.y
        }),
{
    reveal(exact_arithmetic);
    reveal(is_reading);
    let value = choose|value: spec_fn(W) -> real| #[trigger] is_reading(value);
    let m = M3::<W>::identity();
    let n = unbent::<W>();
    let one = 1int as real;
    lemma_nothing(value(v.x));
    lemma_nothing(value(v.y));
    lemma_nothing(value(v.z));
    lemma_nothing(value(w.x));
    lemma_nothing(value(w.y));
    lemma_commutes(one, value(v.x));
    lemma_commutes(one, value(v.y));
    lemma_commutes(one, value(v.z));
    lemma_commutes(one, value(w.x));
    lemma_commutes(one, value(w.y));
    assert(value(m.a.dot(v)) == value(v.x) && value(v.dot(m.a)) == value(v.x));
    assert(value(m.b.dot(v)) == value(v.y) && value(v.dot(m.b)) == value(v.y));
    assert(value(m.c.dot(v)) == value(v.z) && value(v.dot(m.c)) == value(v.z));
    assert(value(n.a.dot(w)) == value(w.x) && value(w.dot(n.a)) == value(w.x));
    assert(value(n.b.dot(w)) == value(w.y) && value(w.dot(n.b)) == value(w.y));
}

/// A matrix that is turned or bent by an identity stays.
proof fn lemma_unturned<W: Scalar>(p: Rows<W>, s: int, w: nat)
    requires
        exact_arithmetic::<W>(),
        has_shape(p, 23, 23),
        0 <= s <= 20,
    ensures
        rows_turned(p, p, s, M3::identity(), w, 23) == p,
        columns_turned(p, s, M3::identity(), 23) == p,
{
    let id = M3::<W>::identity();
    let a = rows_turned(p, p, s, id, w, 23);
    let b = columns_turned(p, s, id, 23);
    let spare = V2::<W>::zeros();
    assert forall|i: int, j: int| 0 <= i < 23 && 0 <= j < 23 implies #[trigger] a[i][j] == p[i][j]
        by {
        lemma_by_units(column3(p, s, j), spare);
        if s <= i < s + 3 {
            assert(i == s || i == s + 1 || i == s + 2);
        }
    }
    assert forall|i: int, j: int| 0 <= i < 23 && 0 <= j < 23 implies #[trigger] b[i][j] == p[i][j]
        by {
        lemma_by_units(slice3(p, i, s), spare);
        if s <= j < s + 3 {
            assert(j == s || j == s + 1 || j == s + 2);
        }
    }
    assert forall|i: int| 0 <= i < 23 implies #[trigger] a[i] == p[i] by {
        assert(a[i] =~= p[i]);
    }
    assert forall|i: int| 0 <= i < 23 implies #[trigger] b[i] == p[i] by {
        assert(b[i] =~= p[i]);
    }
    assert(a =~= p);
    assert(b =~= p);
}

proof fn lemma_unbent<W: Scalar>(p: Rows<W>, w: nat)
    requires
        exact_arithmetic::<W>(),
        has_shape(p, 23, 23),
    ensures
        rows_bent(p, p, 21, unbent(), w, 23) == p,
        columns_bent(p, 21, unbent(), 23) == p,
{
    let id = unbent::<W>();
    let a = rows_bent(p, p, 21, id, w, 23);
    let b = columns_bent(p, 21, id, 23);
    let spare = V3::<W>::zeros();
    assert forall|i: int, j: int| 0 <= i < 23 && 0 <= j < 23 implies #[trigger] a[i][j] == p[i][j]
        by {
        lemma_by_units(spare, column2(p, 21, j));
        if i >= 21 {
            assert(i == 21 || i == 22);
        }
    }
    assert forall|i: int, j: int| 0 <= i < 23 && 0 <= j < 23 implies #[trigger] b[i][j] == p[i][j]
        by {
        lemma_by_units(spare, slice2(p, i, 21));
        if j >= 21 {
            assert(j == 21 || j == 22);
        }
    }
    assert forall|i: int| 0 <= i < 23 implies #[trigger] a[i] == p[i] by {
        assert(a[i] =~= p[i]);
    }
    assert forall|i: int| 0 <= i < 23 implies #[trigger] b[i] == p[i] by {
        assert(b[i] =~= p[i]);
    }
    assert(a =~= p);
    assert(b =~= p);
}

/// No turn needs no correction.
proof fn lemma_no_correction<W: Scalar>()
    requires
        exact_arithmetic::<W>(),
    ensures
        turn_of(zero::<W>(), zero::<W>(), zero::<W>()) == M3::<W>::identity(),
{
    let o = zero::<W>();
    let v = V3::new(o, o, o);
    let id = M3::<W>::identity();
    let squared = o.times_spec(o).plus_spec(o.times_spec(o)).plus_spec(o.times_spec(o));
    let norm = squared.root_spec();
    let one = W::ratio_spec(1, 1);
    let k = one.minus_spec(norm.cos_spec()).over_spec(squared);
    let l = one.minus_spec(norm.sin_spec().over_spec(norm)).over_spec(squared);
    let m = id.sum(skew(v).scaled(k)).sum(skew(v).compose(skew(v)).scaled(l));
    reveal(exact_arithmetic);
    reveal(is_reading);
    let value = choose|value: spec_fn(W) -> real| #[trigger] is_reading(value);
    let none = 0int as real;
    lemma_nothing(value(k));
    lemma_nothing(value(l));
    lemma_nothing(none);
    let n = skew(v).compose(skew(v));
    assert(value(n.a.x) == none && value(n.a.y) == none && value(n.a.z) == none);
    assert(value(n.b.x) == none && value(n.b.y) == none && value(n.b.z) == none);
    assert(value(n.c.x) == none && value(n.c.y) == none && value(n.c.z) == none);
    assert(value(m.a.x) == value(id.a.x));
    assert(value(m.a.y) == value(id.a.y));
    assert(value(m.a.z) == value(id.a.z));
    assert(value(m.b.x) == value(id.b.x));
    assert(value(m.b.y) == value(id.b.y));
    assert(value(m.b.z) == value(id.b.z));
    assert(value(m.c.x) == value(id.c.x));
    assert(value(m.c.y) == value(id.c.y));
    assert(value(m.c.z) == value(id.c.z));
    assert(a_matrix(v) == id);
}

/// Only vectors of the state have changed since the base of the update: the rotations and
/// gravity are those of the base.
pub open spec fn only_vectors_moved<W: Scalar>(u: UpdateView<W>) -> bool {
    let o = zero::<W>();
    &&& is_unit(u.base_x.rot)
    &&& is_unit(u.base_x.offset_r_l_i)
    &&& u.x.rot == u.base_x.rot
    &&& u.x.offset_r_l_i == u.base_x.offset_r_l_i
    &&& u.x.grav.boxminus(u.base_x.grav) == V2::<W>::zeros()
    &&& bend_of(u.x, u.base_x, o, o) == unbent::<W>()
}

/// The entries of an error state for rotations and gravity are zero.
pub open spec fn is_straight<W: Scalar>(d: StateVec<W>) -> bool {
    let o = zero::<W>();
    &&& d[3] == o && d[4] == o && d[5] == o && d[6] == o && d[7] == o && d[8] == o
    &&& d[21] == o && d[22] == o
}

/// A rotation differs from itself by no turn.
proof fn lemma_same_rotation<W: Scalar>(q: Quat<W>)
    requires
        exact_angles::<W>(),
        is_unit(q),
    ensures
        quat_log(q.conjugate().compose(q)) == V3::<W>::zeros(),
{
    law_exact_angles::<W>();
    law_no_turn::<W>();
    lemma_identity(q, V3::zeros());
    law_turn_undone(q, Quat::identity());
}

proof fn lemma_straight_error<W: Scalar>(u: UpdateView<W>)
    requires
        exact_angles::<W>(),
        only_vectors_moved(u),
    ensures
        is_straight(u.x.boxminus(u.base_x)),
{
    lemma_same_rotation(u.base_x.rot);
    lemma_same_rotation(u.base_x.offset_r_l_i);
}

/// An error state without turns is the same from the current state.
proof fn lemma_unshifted_error<W: Scalar>(
    d: StateVec<W>,
    x: StateIkfom<W>,
    base: StateIkfom<W>,
)
    requires
        exact_arithmetic::<W>(),
        is_straight(d),
        bend_of(x, base, zero(), zero()) == unbent::<W>(),
    ensures
        shifted_error(d, x, base)@ == d@,
{
    let o = zero::<W>();
    lemma_no_correction::<W>();
    lemma_by_units(V3::new(o, o, o), V2::new(o, o));
    let e = shifted_error(d, x, base);
    assert forall|j: int| 0 <= j < 23 implies #[trigger] e@[j] == d@[j] by {
        assert(j == 0 || j == 1 || j == 2 || j == 3 || j == 4 || j == 5 || j == 6 || j == 7 || j
            == 8 || j == 9 || j == 10 || j == 11 || j == 12 || j == 13 || j == 14 || j == 15 || j
            == 16 || j == 17 || j == 18 || j == 19 || j == 20 || j == 21 || j == 22);
        assert(e[j] == d[j]);
    }
    assert(e@ =~= d@);
}

/// A covariance seen from a state without turns is the same.
proof fn lemma_unshifted_cov<W: Scalar>(
    p: Rows<W>,
    d: StateVec<W>,
    x: StateIkfom<W>,
    base: StateIkfom<W>,
)
    requires
        exact_arithmetic::<W>(),
        has_shape(p, 23, 23),
        is_straight(d),
        bend_of(x, base, zero(), zero()) == unbent::<W>(),
    ensures
        shifted_cov(p, d, x, base) == p,
{
    lemma_no_correction::<W>();
    lemma_unturned(p, 3, 23);
    lemma_unturned(p, 6, 23);
    lemma_unbent(p, 23);
}

/// Where a round takes a vector entry of the state.
proof fn lemma_round_lands<W: Scalar>(
    u: UpdateView<W>,
    gain: Rows<W>,
    k_x: Rows<W>,
    h_x: Rows<W>,
    residuals: Seq<W>,
    dx: StateVec<W>,
    i: int,
)
    requires
        exact_arithmetic::<W>(),
        gain.len() == 23,
        k_x.len() == 23,
        h_x.len() == residuals.len(),
        dx@ == u.x.boxminus(u.base_x)@,
        image(k_x, listed(dx)) == image(gain, image(slope_of(h_x), listed(dx))),
        is_vector_entry(i),
    ensures
        ({
            let here = minus_all(residuals, image(slope_of(h_x), listed(dx)));
            vector_entry(rounded(u, image(gain, here), k_x, dx).x, i) == vector_entry(
                u.base_x,
                i,
            ).plus_spec(image(gain, residuals)[i])
        }),
{
    let here = minus_all(residuals, image(slope_of(h_x), listed(dx)));
    let k_h = image(gain, here);
    let step = correction(k_h, k_x, dx);
    lemma_round(gain, slope_of(h_x), k_x, residuals, dx, i);
    let moved = state_vec(step);
    assert(moved[i] == step[i]) by {
        if i < 3 {
            assert(i == 0 || i == 1 || i == 2);
        } else if i < 12 {
            assert(i == 9 || i == 10 || i == 11);
        } else if i < 15 {
            assert(i == 12 || i == 13 || i == 14);
        } else if i < 18 {
            assert(i == 15 || i == 16 || i == 17);
        } else {
            assert(i == 18 || i == 19 || i == 20);
        }
    }
    lemma_vector_entry(u.x, u.x.corrected(moved), moved, i);
    lemma_vector_entry(u.base_x, u.x, dx, i);
    let (a, b) = (vector_entry(u.x, i), vector_entry(u.base_x, i));
    assert(dx@[i] == u.x.boxminus(u.base_x)@[i]);
    assert(dx[i] == a.minus_spec(b));
    lemma_less_and_back(a, b);
    law_exact_is_ring(b, dx[i], step[i]);
}

/// In exact arithmetic an update with few residuals of a linear measurement ends at the
/// estimate in every round: the vectors of the state are those of the base corrected by the
/// gain times the residuals of the base, whatever the round started from. So two rounds from
/// different states end at the same.
pub proof fn law_every_round_estimates<W: Scalar>(
    u: UpdateView<W>,
    residuals: Seq<W>,
    h_x: Rows<W>,
    inv: Rows<W>,
    i: int,
)
    requires
        exact_angles::<W>(),
        only_vectors_moved(u),
        has_shape(u.base_p, 23, 23),
        h_x.len() == residuals.len(),
        residuals.len() < 23,
        is_vector_entry(i),
    ensures
        ({
            let here = minus_all(
                residuals,
                image(slope_of(h_x), u.x.boxminus(u.base_x)@),
            );
            vector_entry(inverted(measured(u, true, here, h_x), inv).x, i) == vector_entry(
                u.base_x,
                i,
            ).plus_spec(image(small_gain(u.base_p, h_x, inv, u.r), residuals)[i])
        }),
{
    law_exact_angles::<W>();
    let err = u.x.boxminus(u.base_x);
    lemma_straight_error(u);
    lemma_unshifted_error(err, u.x, u.base_x);
    lemma_unshifted_cov(u.base_p, err, u.x, u.base_x);
    let here = minus_all(residuals, image(slope_of(h_x), err@));
    let v = measured(u, true, here, h_x);
    let dx = shifted_error(err, u.x, u.base_x);
    let gain = small_gain(u.base_p, h_x, inv, u.r);
    law_image_of_product(gain, slope_of(h_x), listed(dx));
    lemma_round_lands(v, gain, small_feedback(gain, h_x), h_x, residuals, dx, i);
}

/// The same with many residuals, which takes two inverses.
pub proof fn law_every_large_round_estimates<W: Scalar>(
    u: UpdateView<W>,
    residuals: Seq<W>,
    h_x: Rows<W>,
    spread: Rows<W>,
    inv: Rows<W>,
    i: int,
)
    requires
        exact_angles::<W>(),
        only_vectors_moved(u),
        has_shape(u.base_p, 23, 23),
        h_x.len() == residuals.len(),
        residuals.len() >= 23,
        inv.len() == 23,
        is_vector_entry(i),
    ensures
        ({
            let here = minus_all(
                residuals,
                image(slope_of(h_x), u.x.boxminus(u.base_x)@),
            );
            let v = measured(u, true, here, h_x);
            vector_entry(inverted(inverted(v, spread), inv).x, i) == vector_entry(
                u.base_x,
                i,
            ).plus_spec(image(large_gain(h_x, inv), residuals)[i])
        }),
{
    law_exact_angles::<W>();
    let err = u.x.boxminus(u.base_x);
    lemma_straight_error(u);
    lemma_unshifted_error(err, u.x, u.base_x);
    let here = minus_all(residuals, image(slope_of(h_x), err@));
    let v = inverted(measured(u, true, here, h_x), spread);
    let dx = shifted_error(err, u.x, u.base_x);
    lemma_large_feedback(h_x, inv, listed(dx));
    lemma_round_lands(v, large_gain(h_x, inv), large_feedback(h_x, inv), h_x, residuals, dx, i);
}

/// The covariance after an update without turns, at a vector.
proof fn lemma_final_image<W: Scalar>(
    p: Rows<W>,
    gain: Rows<W>,
    h_x: Rows<W>,
    d: StateVec<W>,
    x: StateIkfom<W>,
    base: StateIkfom<W>,
    v: Seq<W>,
)
    requires
        exact_arithmetic::<W>(),
        has_shape(p, 23, 23),
        gain.len() == 23,
        is_straight(d),
        bend_of(x, base, zero(), zero()) == unbent::<W>(),
        v.len() == 23,
    ensures
        image(final_cov(triple_of(p, small_feedback(gain, h_x), d, x, base)), v) == minus_all(
            image(p, v),
            image(gain, image(slope_of(h_x), image(p, v))),
        ),
{
    let k_x = small_feedback(gain, h_x);
    let h = slope_of(h_x);
    lemma_no_correction::<W>();
    lemma_unturned(p, 3, 23);
    lemma_unturned(p, 6, 23);
    lemma_unbent(p, 23);
    lemma_unturned(k_x, 3, 12);
    lemma_unturned(k_x, 6, 12);
    lemma_unbent(k_x, 12);
    let k = corner_of(k_x, 23, 12);
    let q = corner_of(p, 12, 23);
    let less = product(k, q, 23);
    assert(final_cov(triple_of(p, k_x, d, x, base)) == difference_of(p, less, 23));
    lemma_image_of_difference(p, less, v);
    law_image_of_product(k, q, v);
    let u = image(p, v);
    let short = image(q, v);
    assert(short =~= u.take(12)) by {
        assert forall|j: int| 0 <= j < 12 implies #[trigger] short[j] == u[j] by {
            lemma_inner_same(q[j], v, p[j], v, 23);
        }
    }
    law_image_of_product(gain, h, u);
    assert forall|i: int| 0 <= i < 23 implies #[trigger] image(k, short)[i] == image(k_x, u)[i] by {
        assert forall|j: int| 12 <= j < 23 implies (#[trigger] k_x[i][j]) == zero::<W>() || (
        #[trigger] u[j]) == zero::<W>() by {
            lemma_column(gain[i], h, j, h.len());
            assert forall|l: int| 0 <= l < h.len() implies (#[trigger] gain[i][l]) == zero::<W>()
                || (#[trigger] column(h, j)[l]) == zero::<W>() by {}
            lemma_inner_short(gain[i], column(h, j), 0, h.len());
        }
        lemma_inner_short(k_x[i], u, 12, 23);
        lemma_inner_same(k[i], short, k_x[i], u, 12);
    }
    assert(image(k, short) =~= image(k_x, u));
}

/// In exact arithmetic an update makes the covariance that of the estimate: with what was
/// measured, the state goes together by the gain times the variance of a residual; of what
/// the residuals do not see, the covariance stays.
pub proof fn law_covariance_of_estimate<W: Scalar>(
    p: Rows<W>,
    h_x: Rows<W>,
    inv: Rows<W>,
    r: W,
    d: StateVec<W>,
    x: StateIkfom<W>,
    base: StateIkfom<W>,
    y: Seq<W>,
    v: Seq<W>,
)
    requires
        exact_angles::<W>(),
        r != zero::<W>(),
        has_shape(p, 23, 23),
        y.len() == h_x.len(),
        v.len() == 23,
        product(inv, innovation(p, h_x, r), h_x.len()) == identity_of::<W>(h_x.len()),
        is_straight(d),
        bend_of(x, base, zero(), zero()) == unbent::<W>(),
        forall|k: int|
            0 <= k < h_x.len() ==> #[trigger] image(slope_of(h_x), image(p, v))[k] == zero::<W>(),
    ensures
        ({
            let gain = small_gain(p, h_x, inv, r);
            let after = final_cov(triple_of(p, small_feedback(gain, h_x), d, x, base));
            &&& image(after, image(transposed(slope_of(h_x), 23), y)) == times_all(
                r,
                image(gain, y),
            )
            &&& image(after, v) == image(p, v)
        }),
{
    law_exact_angles::<W>();
    let gain = small_gain(p, h_x, inv, r);
    let h = slope_of(h_x);
    let t = image(transposed(h, 23), y);
    let after = final_cov(triple_of(p, small_feedback(gain, h_x), d, x, base));
    law_small_gain(p, h_x, inv, r, y);
    lemma_final_image(p, gain, h_x, d, x, base, t);
    lemma_final_image(p, gain, h_x, d, x, base, v);
    let u = image(p, t);
    let seen = image(h, u);
    lemma_image_plus(gain, seen, times_all(r, y));
    lemma_image_times(gain, r, y);
    assert forall|i: int| 0 <= i < 23 implies #[trigger] image(after, t)[i] == times_all(
        r,
        image(gain, y),
    )[i] by {
        let (a, b) = (image(gain, seen)[i], times_all(r, image(gain, y))[i]);
        assert(u[i] == plus_all(image(gain, seen), times_all(r, image(gain, y)))[i]);
        law_exact_is_ring(a, b, a);
        lemma_less_and_back(b, a);
    }
    assert(image(after, t) =~= times_all(r, image(gain, y)));
    let w = image(h, image(p, v));
    assert forall|i: int| 0 <= i < 23 implies #[trigger] image(after, v)[i] == image(p, v)[i] by {
        assert forall|l: int| 0 <= l < h_x.len() implies (#[trigger] gain[i][l]) == zero::<W>() || (
        #[trigger] w[l]) == zero::<W>() by {}
        lemma_inner_short(gain[i], w, 0, h_x.len());
        lemma_less_none(image(p, v)[i]);
    }
    assert(image(after, v) =~= image(p, v));
}

proof fn lemma_less_none<W: Scalar>(a: W)
    requires
        exact_arithmetic::<W>(),
    ensures
        a.minus_spec(zero()) == a,
{
    reveal(exact_arithmetic);
    reveal(is_reading);
    let value = choose|value: spec_fn(W) -> real| #[trigger] is_reading(value);
    assert(value(a.minus_spec(zero())) == value(a));
}

/// The update ends with that covariance: in the last round the covariance before it is
/// replaced by the final one.
pub proof fn law_last_round_has_estimate_covariance<W: Scalar>(
    u: UpdateView<W>,
    residuals: Seq<W>,
    h_x: Rows<W>,
    inv: Rows<W>,
    y: Seq<W>,
    v: Seq<W>,
)
    requires
        exact_angles::<W>(),
        only_vectors_moved(u),
        has_shape(u.base_p, 23, 23),
        u.r != zero::<W>(),
        h_x.len() == residuals.len(),
        residuals.len() < 23,
        u.round == u.last,
        product(inv, innovation(u.base_p, h_x, u.r), h_x.len()) == identity_of::<W>(h_x.len()),
        forall|j: int|
            0 <= j < 23 && !is_vector_entry(j) ==> #[trigger] image(
                small_gain(u.base_p, h_x, inv, u.r),
                residuals,
            )[j] == zero::<W>(),
        ({
            let here = minus_all(residuals, image(slope_of(h_x), u.x.boxminus(u.base_x)@));
            let after = inverted(measured(u, true, here, h_x), inv);
            bend_of(after.x, u.base_x, zero(), zero()) == unbent::<W>()
        }),
        y.len() == h_x.len(),
        v.len() == 23,
        forall|k: int|
            0 <= k < h_x.len() ==> #[trigger] image(slope_of(h_x), image(u.base_p, v))[k] == zero::<
                W,
            >(),
    ensures
        ({
            let here = minus_all(residuals, image(slope_of(h_x), u.x.boxminus(u.base_x)@));
            let after = inverted(measured(u, true, here, h_x), inv);
            let gain = small_gain(u.base_p, h_x, inv, u.r);
            &&& after.stage is Finished
            &&& image(after.p, image(transposed(slope_of(h_x), 23), y)) == times_all(
                u.r,
                image(gain, y),
            )
            &&& image(after.p, v) == image(u.base_p, v)
        }),
{
    law_exact_angles::<W>();
    let err = u.x.boxminus(u.base_x);
    lemma_straight_error(u);
    lemma_unshifted_error(err, u.x, u.base_x);
    lemma_unshifted_cov(u.base_p, err, u.x, u.base_x);
    let here = minus_all(residuals, image(slope_of(h_x), err@));
    let w = measured(u, true, here, h_x);
    let dx = shifted_error(err, u.x, u.base_x);
    let gain = small_gain(u.base_p, h_x, inv, u.r);
    let k_x = small_feedback(gain, h_x);
    let step = correction(image(gain, here), k_x, dx);
    law_image_of_product(gain, slope_of(h_x), listed(dx));
    let moved = state_vec(step);
    assert forall|j: int| 0 <= j < 23 && !is_vector_entry(j) implies #[trigger] step[j] == zero::<
        W,
    >() by {
        lemma_round(gain, slope_of(h_x), k_x, residuals, dx, j);
        assert(dx@[j] == err@[j]);
        assert(j == 3 || j == 4 || j == 5 || j == 6 || j == 7 || j == 8 || j == 21 || j == 22);
        assert(err[j] == zero::<W>());
        assert(image(gain, residuals)[j] == zero::<W>());
    }
    assert(step[3] == zero::<W>() && step[4] == zero::<W>() && step[5] == zero::<W>());
    assert(step[6] == zero::<W>() && step[7] == zero::<W>() && step[8] == zero::<W>());
    assert(step[21] == zero::<W>() && step[22] == zero::<W>());
    assert(is_straight(moved));
    let after = inverted(w, inv);
    law_covariance_of_estimate(u.base_p, h_x, inv, u.r, moved, after.x, u.base_x, y, v);
}

} // verus!
