//! Covariances seen from a corrected state, in exact arithmetic.
use crate::esekf::{carried_cov, entry2};
use crate::forms::{
    column, form, law_form_carried, law_row_image_of_product, lemma_column, lemma_inner_same,
    lemma_inner_swap, row_image,
};
use crate::frames::lemma_dot_swapped;
use crate::linear::{M2, M3, V2, V3};
use crate::manifold::{StateIkfom, StateVec};
use crate::matrix::{
    column2, column3, columns_bent, columns_turned, corner_of, has_shape, inner, product, row2, row3,
    rows_bent, rows_turned, slice2, slice3, table, transposed, Rows,
};
use crate::model::entry_of;
use crate::scalar::{
    exact_arithmetic, is_reading, law_exact_is_ring, lt, whole, zero, Scalar,
};
use crate::slopes::{lemma_unit_row, lemma_unrolled, total_of, unit_row};
use crate::sphere::lemma_nothing;
use crate::update::{
    bend_of, both_bent, both_turned, correction, final_cov, rounded, settled, shifted_cov,
    triple_bent, triple_of, triple_turned, turn_of, Triple, UpdateView,
};
use vstd::prelude::*;

verus! {

/// The identity with the matrix `m` in place of its three rows and columns from `s` on.
pub open spec fn turn_block<W: Scalar>(s: int, m: M3<W>) -> Rows<W> {
    table(
        23,
        23,
        |i: int, j: int|
            if s <= i < s + 3 && s <= j < s + 3 {
                entry_of(row3(m, i - s), j - s)
            } else if i == j {
                whole::<W>(1)
            } else {
                zero::<W>()
            },
    )
}

/// The same with two rows and columns.
pub open spec fn bend_block<W: Scalar>(s: int, m: M2<W>) -> Rows<W> {
    table(
        23,
        23,
        |i: int, j: int|
            if s <= i < s + 2 && s <= j < s + 2 {
                entry2(m, i - s, j - s)
            } else if i == j {
                whole::<W>(1)
            } else {
                zero::<W>()
            },
    )
}

/// The sum of products with a row that has entries from `s` on, `w` of them.
proof fn lemma_sparse<W: Scalar>(
    value: spec_fn(W) -> real,
    row: Seq<W>,
    d: Seq<W>,
    s: int,
    w: int,
    n: nat,
)
    requires
        is_reading(value),
        0 <= s,
        2 <= w <= 3,
        forall|k: int| 0 <= k < n && !(s <= k < s + w) ==> #[trigger] row[k] == zero::<W>(),
    ensures
        total_of(value, row, d, n) == (if n <= s {
            0int as real
        } else if n == s + 1 {
            value(row[s]) * value(d[s])
        } else if n == s + 2 || w == 2 {
            value(row[s]) * value(d[s]) + value(row[s + 1]) * value(d[s + 1])
        } else {
            value(row[s]) * value(d[s]) + value(row[s + 1]) * value(d[s + 1]) + value(row[s + 2])
                * value(d[s + 2])
        }),
    decreases n,
{
    if n > 0 {
        lemma_sparse(value, row, d, s, w, (n - 1) as nat);
        if !(s <= n - 1 < s + w) {
            assert(row[n - 1] == zero::<W>());
            assert(value(zero::<W>()) == 0int as real) by {
                reveal(is_reading);
            }
            lemma_nothing(value(d[n - 1]));
        }
    }
}

/// What a row of a block makes of a vector.
proof fn lemma_turn_row_inner<W: Scalar>(s: int, m: M3<W>, i: int, d: Seq<W>)
    requires
        exact_arithmetic::<W>(),
        0 <= s <= 20,
        0 <= i < 23,
    ensures
        inner(turn_block(s, m)[i], d, 23) == if s <= i < s + 3 {
            row3(m, i - s).dot(V3 { x: d[s], y: d[s + 1], z: d[s + 2] })
        } else {
            d[i]
        },
{
    let row = turn_block(s, m)[i];
    if s <= i < s + 3 {
        reveal(exact_arithmetic);
        let value = choose|value: spec_fn(W) -> real| #[trigger] is_reading(value);
        let a = row3(m, i - s);
        lemma_sparse(value, row, d, s, 3, 23);
        lemma_unrolled(value, row, d, 23);
        assert(row[s] == a.x && row[s + 1] == a.y && row[s + 2] == a.z);
        let v = V3 { x: d[s], y: d[s + 1], z: d[s + 2] };
        crate::sphere::lemma_dot_value(value, a, v);
        reveal(is_reading);
    } else {
        assert(row =~= unit_row::<W>(i, 23));
        lemma_unit_row(i, d, 23, 23);
    }
}

proof fn lemma_bend_row_inner<W: Scalar>(s: int, m: M2<W>, i: int, d: Seq<W>)
    requires
        exact_arithmetic::<W>(),
        0 <= s <= 21,
        0 <= i < 23,
    ensures
        inner(bend_block(s, m)[i], d, 23) == if s <= i < s + 2 {
            row2(m, i - s).dot(V2 { x: d[s], y: d[s + 1] })
        } else {
            d[i]
        },
{
    let row = bend_block(s, m)[i];
    if s <= i < s + 2 {
        reveal(exact_arithmetic);
        let value = choose|value: spec_fn(W) -> real| #[trigger] is_reading(value);
        let a = row2(m, i - s);
        lemma_sparse(value, row, d, s, 2, 23);
        lemma_unrolled(value, row, d, 23);
        assert(row[s] == a.x && row[s + 1] == a.y);
        reveal(is_reading);
        assert(value(a.dot(V2 { x: d[s], y: d[s + 1] })) == value(row[s]) * value(d[s]) + value(
            row[s + 1],
        ) * value(d[s + 1]));
    } else {
        assert(row =~= unit_row::<W>(i, 23));
        lemma_unit_row(i, d, 23, 23);
    }
}

/// Turning rows is a product with a block.
proof fn lemma_rows_by_block<W: Scalar>(a: Rows<W>, s: int, m: M3<W>, c: nat)
    requires
        exact_arithmetic::<W>(),
        0 <= s <= 20,
        has_shape(a, 23, c),
    ensures
        rows_turned(a, a, s, m, c, c) == product(turn_block(s, m), a, c),
{
    let b = turn_block(s, m);
    let (l, r) = (rows_turned(a, a, s, m, c, c), product(b, a, c));
    assert forall|i: int| 0 <= i < 23 implies #[trigger] l[i] == r[i] by {
        assert forall|j: int| 0 <= j < c implies #[trigger] l[i][j] == r[i][j] by {
            lemma_column(b[i], a, j, 23);
            lemma_turn_row_inner(s, m, i, column(a, j));
        }
        assert(l[i] =~= r[i]);
    }
    assert(l =~= r);
}

proof fn lemma_bent_rows_by_block<W: Scalar>(a: Rows<W>, s: int, m: M2<W>, c: nat)
    requires
        exact_arithmetic::<W>(),
        0 <= s <= 21,
        has_shape(a, 23, c),
    ensures
        rows_bent(a, a, s, m, c, c) == product(bend_block(s, m), a, c),
{
    let b = bend_block(s, m);
    let (l, r) = (rows_bent(a, a, s, m, c, c), product(b, a, c));
    assert forall|i: int| 0 <= i < 23 implies #[trigger] l[i] == r[i] by {
        assert forall|j: int| 0 <= j < c implies #[trigger] l[i][j] == r[i][j] by {
            lemma_column(b[i], a, j, 23);
            lemma_bend_row_inner(s, m, i, column(a, j));
        }
        assert(l[i] =~= r[i]);
    }
    assert(l =~= r);
}

/// Turning columns is a product with the transposed block.
proof fn lemma_columns_by_block<W: Scalar>(a: Rows<W>, s: int, m: M3<W>, n: nat)
    requires
        exact_arithmetic::<W>(),
        0 <= s <= 20,
        has_shape(a, n, 23),
    ensures
        columns_turned(a, s, m, 23) == product(a, transposed(turn_block(s, m), 23), 23),
{
    let b = turn_block(s, m);
    let t = transposed(b, 23);
    let (l, r) = (columns_turned(a, s, m, 23), product(a, t, 23));
    assert forall|i: int| 0 <= i < n implies #[trigger] l[i] == r[i] by {
        assert forall|j: int| 0 <= j < 23 implies #[trigger] l[i][j] == r[i][j] by {
            lemma_column(a[i], t, j, 23);
            lemma_inner_same(a[i], column(t, j), a[i], b[j], 23);
            lemma_inner_swap(a[i], b[j], 23);
            lemma_turn_row_inner(s, m, j, a[i]);
            lemma_dot_swapped(slice3(a, i, s), row3(m, j - s));
        }
        assert(l[i] =~= r[i]);
    }
    assert(l =~= r);
}

proof fn lemma_bent_columns_by_block<W: Scalar>(a: Rows<W>, s: int, m: M2<W>, n: nat)
    requires
        exact_arithmetic::<W>(),
        0 <= s <= 21,
        has_shape(a, n, 23),
    ensures
        columns_bent(a, s, m, 23) == product(a, transposed(bend_block(s, m), 23), 23),
{
    let b = bend_block(s, m);
    let t = transposed(b, 23);
    let (l, r) = (columns_bent(a, s, m, 23), product(a, t, 23));
    assert forall|i: int| 0 <= i < n implies #[trigger] l[i] == r[i] by {
        assert forall|j: int| 0 <= j < 23 implies #[trigger] l[i][j] == r[i][j] by {
            lemma_column(a[i], t, j, 23);
            lemma_inner_same(a[i], column(t, j), a[i], b[j], 23);
            lemma_inner_swap(a[i], b[j], 23);
            lemma_bend_row_inner(s, m, j, a[i]);
            let (u, v) = (slice2(a, i, s), row2(m, j - s));
            law_exact_is_ring(u.x, v.x, v.x);
            law_exact_is_ring(u.y, v.y, v.y);
        }
        assert(l[i] =~= r[i]);
    }
    assert(l =~= r);
}

/// In exact arithmetic a covariance seen after a turn is that of the turned errors: the
/// variance of a combination of them is that of the combination turned back.
pub proof fn law_turned_covariance<W: Scalar>(p: Rows<W>, s: int, m: M3<W>, u: Seq<W>, v: Seq<W>)
    requires
        exact_arithmetic::<W>(),
        0 <= s <= 20,
        has_shape(p, 23, 23),
        u.len() == 23,
        v.len() == 23,
    ensures
        both_turned(p, s, m) == carried_cov(turn_block(s, m), p, 23),
        form(both_turned(p, s, m), u, v) == form(
            p,
            row_image(u, turn_block(s, m), 23),
            row_image(v, turn_block(s, m), 23),
        ),
{
    lemma_rows_by_block(p, s, m, 23);
    lemma_columns_by_block(rows_turned(p, p, s, m, 23, 23), s, m, 23);
    law_form_carried(turn_block(s, m), p, 23, u, v);
}

/// The same for gravity.
pub proof fn law_bent_covariance<W: Scalar>(p: Rows<W>, s: int, m: M2<W>, u: Seq<W>, v: Seq<W>)
    requires
        exact_arithmetic::<W>(),
        0 <= s <= 21,
        has_shape(p, 23, 23),
        u.len() == 23,
        v.len() == 23,
    ensures
        both_bent(p, s, m) == carried_cov(bend_block(s, m), p, 23),
        form(both_bent(p, s, m), u, v) == form(
            p,
            row_image(u, bend_block(s, m), 23),
            row_image(v, bend_block(s, m), 23),
        ),
{
    lemma_bent_rows_by_block(p, s, m, 23);
    lemma_bent_columns_by_block(rows_bent(p, p, s, m, 23, 23), s, m, 23);
    law_form_carried(bend_block(s, m), p, 23, u, v);
}

/// Products of four matrices in either order.
proof fn lemma_four<W: Scalar>(b: Rows<W>, k: Rows<W>, p: Rows<W>, t: Rows<W>)
    requires
        exact_arithmetic::<W>(),
        b.len() == 23,
        has_shape(k, 23, 12),
        has_shape(p, 12, 23),
        has_shape(t, 23, 23),
    ensures
        product(product(b, k, 12), product(p, t, 23), 23) == product(
            product(b, product(k, p, 23), 23),
            t,
            23,
        ),
{
    let l = product(product(b, k, 12), product(p, t, 23), 23);
    let r = product(product(b, product(k, p, 23), 23), t, 23);
    assert forall|i: int| 0 <= i < 23 implies #[trigger] l[i] == r[i] by {
        let bk = row_image(b[i], k, 12);
        assert(product(b, k, 12)[i] =~= bk);
        assert(l[i] =~= row_image(bk, product(p, t, 23), 23));
        law_row_image_of_product(bk, p, t, 23);
        let kp = product(k, p, 23);
        assert(product(b, kp, 23)[i] =~= row_image(b[i], kp, 23));
        law_row_image_of_product(b[i], k, p, 23);
        assert(r[i] =~= row_image(row_image(b[i], kp, 23), t, 23));
    }
    assert(l =~= r);
}

/// A difference of scalar products is the scalar product of the difference.
proof fn lemma_dot_less<W: Scalar>(a: V3<W>, u: V3<W>, v: V3<W>)
    requires
        exact_arithmetic::<W>(),
    ensures
        a.dot(u).minus_spec(a.dot(v)) == a.dot(u.diff(v)),
        u.dot(a).minus_spec(v.dot(a)) == u.diff(v).dot(a),
{
    reveal(exact_arithmetic);
    let value = choose|value: spec_fn(W) -> real| #[trigger] is_reading(value);
    crate::exact::lemma_spread_two(value(a.x), value(u.x), value(v.x));
    crate::exact::lemma_spread_two(value(a.y), value(u.y), value(v.y));
    crate::exact::lemma_spread_two(value(a.z), value(u.z), value(v.z));
    let d = u.diff(v);
    assert(a.dot(u).minus_spec(a.dot(v)) == a.dot(d)) by {
        reveal(is_reading);
        assert(value(a.dot(u).minus_spec(a.dot(v))) == value(a.dot(d)));
    }
    lemma_dot_swapped(u, a);
    lemma_dot_swapped(v, a);
    lemma_dot_swapped(d, a);
}

proof fn lemma_dot2_less<W: Scalar>(a: V2<W>, u: V2<W>, v: V2<W>)
    requires
        exact_arithmetic::<W>(),
    ensures
        ({
            let d = V2 { x: u.x.minus_spec(v.x), y: u.y.minus_spec(v.y) };
            &&& a.dot(u).minus_spec(a.dot(v)) == a.dot(d)
            &&& u.dot(a).minus_spec(v.dot(a)) == d.dot(a)
        }),
{
    reveal(exact_arithmetic);
    let value = choose|value: spec_fn(W) -> real| #[trigger] is_reading(value);
    crate::exact::lemma_spread_two(value(a.x), value(u.x), value(v.x));
    crate::exact::lemma_spread_two(value(a.y), value(u.y), value(v.y));
    let d = V2 { x: u.x.minus_spec(v.x), y: u.y.minus_spec(v.y) };
    assert(a.dot(u).minus_spec(a.dot(v)) == a.dot(d)) by {
        reveal(is_reading);
        assert(value(a.dot(u).minus_spec(a.dot(v))) == value(a.dot(d)));
    }
    law_exact_is_ring(u.x, a.x, a.x);
    law_exact_is_ring(u.y, a.y, a.y);
    law_exact_is_ring(v.x, a.x, a.x);
    law_exact_is_ring(v.y, a.y, a.y);
    law_exact_is_ring(d.x, a.x, a.x);
    law_exact_is_ring(d.y, a.y, a.y);
}

/// The difference of turned matrices is the turned difference.
proof fn lemma_turned_difference<W: Scalar>(a: Rows<W>, b: Rows<W>, s: int, m: M3<W>)
    requires
        exact_arithmetic::<W>(),
        0 <= s <= 20,
        has_shape(a, 23, 23),
        has_shape(b, 23, 23),
    ensures
        crate::matrix::difference_of(both_turned(a, s, m), both_turned(b, s, m), 23) == both_turned(
            crate::matrix::difference_of(a, b, 23),
            s,
            m,
        ),
{
    let d = crate::matrix::difference_of(a, b, 23);
    let (ra, rb, rd) = (
        rows_turned(a, a, s, m, 23, 23),
        rows_turned(b, b, s, m, 23, 23),
        rows_turned(d, d, s, m, 23, 23),
    );
    assert forall|i: int, j: int| 0 <= i < 23 && 0 <= j < 23 implies #[trigger] rd[i][j]
        == ra[i][j].minus_spec(rb[i][j]) by {
        if s <= i < s + 3 {
            lemma_dot_less(row3(m, i - s), column3(a, s, j), column3(b, s, j));
            assert(column3(d, s, j) == column3(a, s, j).diff(column3(b, s, j)));
        }
    }
    let l = crate::matrix::difference_of(both_turned(a, s, m), both_turned(b, s, m), 23);
    let r = both_turned(d, s, m);
    assert forall|i: int| 0 <= i < 23 implies #[trigger] l[i] == r[i] by {
        assert forall|j: int| 0 <= j < 23 implies #[trigger] l[i][j] == r[i][j] by {
            if s <= j < s + 3 {
                lemma_dot_less(row3(m, j - s), slice3(ra, i, s), slice3(rb, i, s));
                assert(rd[i][s] == ra[i][s].minus_spec(rb[i][s]));
                assert(rd[i][s + 1] == ra[i][s + 1].minus_spec(rb[i][s + 1]));
                assert(rd[i][s + 2] == ra[i][s + 2].minus_spec(rb[i][s + 2]));
                assert(slice3(rd, i, s) == slice3(ra, i, s).diff(slice3(rb, i, s)));
            } else {
                assert(rd[i][j] == ra[i][j].minus_spec(rb[i][j]));
            }
        }
        assert(l[i] =~= r[i]);
    }
    assert(l =~= r);
}

proof fn lemma_bent_difference<W: Scalar>(a: Rows<W>, b: Rows<W>, s: int, m: M2<W>)
    requires
        exact_arithmetic::<W>(),
        0 <= s <= 21,
        has_shape(a, 23, 23),
        has_shape(b, 23, 23),
    ensures
        crate::matrix::difference_of(both_bent(a, s, m), both_bent(b, s, m), 23) == both_bent(
            crate::matrix::difference_of(a, b, 23),
            s,
            m,
        ),
{
    let d = crate::matrix::difference_of(a, b, 23);
    let (ra, rb, rd) = (
        rows_bent(a, a, s, m, 23, 23),
        rows_bent(b, b, s, m, 23, 23),
        rows_bent(d, d, s, m, 23, 23),
    );
    assert forall|i: int, j: int| 0 <= i < 23 && 0 <= j < 23 implies #[trigger] rd[i][j]
        == ra[i][j].minus_spec(rb[i][j]) by {
        if s <= i < s + 2 {
            lemma_dot2_less(row2(m, i - s), column2(a, s, j), column2(b, s, j));
        }
    }
    let l = crate::matrix::difference_of(both_bent(a, s, m), both_bent(b, s, m), 23);
    let r = both_bent(d, s, m);
    assert forall|i: int| 0 <= i < 23 implies #[trigger] l[i] == r[i] by {
        assert forall|j: int| 0 <= j < 23 implies #[trigger] l[i][j] == r[i][j] by {
            if s <= j < s + 2 {
                lemma_dot2_less(row2(m, j - s), slice2(ra, i, s), slice2(rb, i, s));
                assert(rd[i][s] == ra[i][s].minus_spec(rb[i][s]));
                assert(rd[i][s + 1] == ra[i][s + 1].minus_spec(rb[i][s + 1]));
            } else {
                assert(rd[i][j] == ra[i][j].minus_spec(rb[i][j]));
            }
        }
        assert(l[i] =~= r[i]);
    }
    assert(l =~= r);
}

/// The matrices of a final correction have their sizes.
pub open spec fn is_triple<W>(a: Triple<W>) -> bool {
    has_shape(a.l, 23, 23) && has_shape(a.p, 23, 23) && has_shape(a.k, 23, 23)
}

/// The new covariance and the old one agree in `w` rows from `s` on.
pub open spec fn agree_from<W>(a: Triple<W>, s: int, w: int) -> bool {
    forall|i: int, j: int|
        s <= i < s + w && 0 <= j < 23 ==> #[trigger] a.l[i][j] == #[trigger] a.p[i][j]
}

proof fn lemma_final_turned<W: Scalar>(a: Triple<W>, s: int, m: M3<W>)
    requires
        exact_arithmetic::<W>(),
        0 <= s <= 20,
        is_triple(a),
        agree_from(a, s, 3),
    ensures
        is_triple(triple_turned(a, s, m)),
        final_cov(triple_turned(a, s, m)) == both_turned(final_cov(a), s, m),
{
    let b = turn_block(s, m);
    let t = transposed(b, 23);
    let to = triple_turned(a, s, m);
    let rows = rows_turned(a.l, a.p, s, m, 23, 23);
    assert forall|i: int| 0 <= i < 23 implies #[trigger] rows[i] == rows_turned(
        a.l,
        a.l,
        s,
        m,
        23,
        23,
    )[i] by {
        assert forall|j: int| 0 <= j < 23 implies #[trigger] rows[i][j] == rows_turned(
            a.l,
            a.l,
            s,
            m,
            23,
            23,
        )[i][j] by {
            assert(a.l[s][j] == a.p[s][j] && a.l[s + 1][j] == a.p[s + 1][j] && a.l[s + 2][j]
                == a.p[s + 2][j]);
        }
        assert(rows[i] =~= rows_turned(a.l, a.l, s, m, 23, 23)[i]);
    }
    assert(rows =~= rows_turned(a.l, a.l, s, m, 23, 23));
    assert(to.l == both_turned(a.l, s, m));
    let k = corner_of(a.k, 23, 12);
    let p = corner_of(a.p, 12, 23);
    lemma_rows_by_block(k, s, m, 12);
    assert(corner_of(to.k, 23, 12) =~= rows_turned(k, k, s, m, 12, 12)) by {
        let (l, r) = (corner_of(to.k, 23, 12), rows_turned(k, k, s, m, 12, 12));
        assert forall|i: int| 0 <= i < 23 implies #[trigger] l[i] == r[i] by {
            assert(l[i] =~= r[i]);
        }
    }
    lemma_columns_by_block(p, s, m, 12);
    assert(corner_of(to.p, 12, 23) =~= columns_turned(p, s, m, 23)) by {
        let (l, r) = (corner_of(to.p, 12, 23), columns_turned(p, s, m, 23));
        assert forall|i: int| 0 <= i < 12 implies #[trigger] l[i] == r[i] by {
            assert(l[i] =~= r[i]);
        }
    }
    lemma_four(b, k, p, t);
    let kp = product(k, p, 23);
    lemma_rows_by_block(kp, s, m, 23);
    lemma_columns_by_block(rows_turned(kp, kp, s, m, 23, 23), s, m, 23);
    lemma_turned_difference(a.l, kp, s, m);
}

proof fn lemma_final_bent<W: Scalar>(a: Triple<W>, s: int, m: M2<W>)
    requires
        exact_arithmetic::<W>(),
        12 <= s <= 21,
        is_triple(a),
        agree_from(a, s, 2),
    ensures
        final_cov(triple_bent(a, s, m)) == both_bent(final_cov(a), s, m),
{
    let b = bend_block(s, m);
    let t = transposed(b, 23);
    let to = triple_bent(a, s, m);
    let rows = rows_bent(a.l, a.p, s, m, 23, 23);
    assert forall|i: int| 0 <= i < 23 implies #[trigger] rows[i] == rows_bent(
        a.l,
        a.l,
        s,
        m,
        23,
        23,
    )[i] by {
        assert forall|j: int| 0 <= j < 23 implies #[trigger] rows[i][j] == rows_bent(
            a.l,
            a.l,
            s,
            m,
            23,
            23,
        )[i][j] by {
            assert(a.l[s][j] == a.p[s][j] && a.l[s + 1][j] == a.p[s + 1][j]);
        }
        assert(rows[i] =~= rows_bent(a.l, a.l, s, m, 23, 23)[i]);
    }
    assert(rows =~= rows_bent(a.l, a.l, s, m, 23, 23));
    assert(to.l == both_bent(a.l, s, m));
    let k = corner_of(a.k, 23, 12);
    let p = corner_of(a.p, 12, 23);
    lemma_bent_rows_by_block(k, s, m, 12);
    assert(corner_of(to.k, 23, 12) =~= rows_bent(k, k, s, m, 12, 12)) by {
        let (l, r) = (corner_of(to.k, 23, 12), rows_bent(k, k, s, m, 12, 12));
        assert forall|i: int| 0 <= i < 23 implies #[trigger] l[i] == r[i] by {
            assert(l[i] =~= r[i]);
        }
    }
    lemma_bent_columns_by_block(p, s, m, 12);
    assert(corner_of(to.p, 12, 23) =~= columns_bent(p, s, m, 23)) by {
        let (l, r) = (corner_of(to.p, 12, 23), columns_bent(p, s, m, 23));
        assert forall|i: int| 0 <= i < 12 implies #[trigger] l[i] == r[i] by {
            assert(l[i] =~= r[i]);
        }
    }
    lemma_four(b, k, p, t);
    let kp = product(k, p, 23);
    lemma_bent_rows_by_block(kp, s, m, 23);
    lemma_bent_columns_by_block(rows_bent(kp, kp, s, m, 23, 23), s, m, 23);
    lemma_bent_difference(a.l, kp, s, m);
}

/// In exact arithmetic the covariance after an update is the corrected covariance seen from
/// the corrected state: all that a final correction by `d` does besides taking the gain
/// times the derivatives away is to turn the errors as the state turns.
pub proof fn law_update_turns_covariance<W: Scalar>(
    p: Rows<W>,
    k_x: Rows<W>,
    d: StateVec<W>,
    x: StateIkfom<W>,
    base: StateIkfom<W>,
)
    requires
        exact_arithmetic::<W>(),
        has_shape(p, 23, 23),
        has_shape(k_x, 23, 23),
    ensures
        final_cov(triple_of(p, k_x, d, x, base)) == shifted_cov(
            final_cov((Triple { l: p, p, k: k_x })),
            d,
            x,
            base,
        ),
{
    let a = Triple { l: p, p, k: k_x };
    let (m, n) = (turn_of(d[3], d[4], d[5]), turn_of(d[6], d[7], d[8]));
    let g = bend_of(x, base, d[21], d[22]);
    lemma_final_turned(a, 3, m);
    let b = triple_turned(a, 3, m);
    lemma_rows_agree(a, 3, m);
    lemma_final_turned(b, 6, n);
    let c = triple_turned(b, 6, n);
    lemma_rows_agree(b, 6, n);
    lemma_final_bent(c, 21, g);
}

/// Rows that agree before a turn and are not turned agree after it.
proof fn lemma_rows_agree<W: Scalar>(a: Triple<W>, s: int, m: M3<W>)
    requires
        0 <= s <= 20,
        is_triple(a),
    ensures
        forall|i: int, j: int|
            0 <= i < 23 && !(s <= i < s + 3) && 0 <= j < 23 && (forall|l: int|
                0 <= l < 23 ==> a.l[i][l] == #[trigger] a.p[i][l]) ==> #[trigger] triple_turned(
                a,
                s,
                m,
            ).l[i][j] == #[trigger] triple_turned(a, s, m).p[i][j],
{
    let to = triple_turned(a, s, m);
    let rows = rows_turned(a.l, a.p, s, m, 23, 23);
    assert forall|i: int, j: int|
        0 <= i < 23 && !(s <= i < s + 3) && 0 <= j < 23 && (forall|l: int|
            0 <= l < 23 ==> a.l[i][l] == #[trigger] a.p[i][l]) implies #[trigger] to.l[i][j]
        == #[trigger] to.p[i][j] by {
        if s <= j < s + 3 {
            assert(a.l[i][s] == a.p[i][s] && a.l[i][s + 1] == a.p[i][s + 1] && a.l[i][s + 2]
                == a.p[i][s + 2]);
            assert(slice3(rows, i, s) == slice3(a.p, i, s));
        } else {
            assert(a.l[i][j] == a.p[i][j]);
            assert(rows[i][j] == a.l[i][j]);
        }
    }
}

/// A round counts as calm only if no entry of its correction is above its limit; with a
/// second calm round the update ends, and without one before the last round, the last looks
/// for neighbours anew.
pub proof fn law_calm_rounds<W: Scalar>(
    u: UpdateView<W>,
    k_h: Seq<W>,
    k_x: Rows<W>,
    dx: StateVec<W>,
    i: int,
)
    requires
        0 <= i < 23,
        u.round < u.last,
    ensures
        ({
            let step = correction(k_h, k_x, dx);
            let v = rounded(u, k_h, k_x, dx);
            &&& lt(u.limit[i], step[i].magnitude_spec()) ==> v.t == u.t
            &&& (forall|k: int|
                0 <= k < 23 ==> !lt(u.limit[k], (#[trigger] step[k]).magnitude_spec())) ==> v.t
                == u.t + 1 && v.converge
            &&& v.t >= 2 <==> v.stage is Finished
            &&& v.t == 0 && u.round + 1 == u.last ==> v.converge
            &&& v.t == u.t && !(v.t == 0 && u.round + 1 == u.last) ==> !v.converge
            &&& v.stage is Measure ==> v.p == u.p && v.round == u.round + 1
            &&& v.base_x == u.base_x && v.base_p == u.base_p
        }),
{
    let step = correction(k_h, k_x, dx);
    if lt(u.limit[i], step[i].magnitude_spec()) {
        assert(!settled(step, u.limit));
    }
}

} // verus!
