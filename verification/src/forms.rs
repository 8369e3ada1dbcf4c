//! Bilinear forms of matrices in exact arithmetic.
use crate::matrix::{
    has_shape, image, inner, product, row_by_column, sum_of, transposed, Rows,
};
use crate::scalar::{
    exact_arithmetic, is_amount, law_exact_is_ring, lawful, zero, Scalar,
};
use vstd::prelude::*;

verus! {

/// A row vector times a matrix of `c` columns.
pub open spec fn row_image<W: Scalar>(v: Seq<W>, m: Rows<W>, c: nat) -> Seq<W> {
    Seq::new(c, |k: int| row_by_column(v, m, k, m.len()))
}

/// The bilinear form of a square matrix at two vectors.
pub open spec fn form<W: Scalar>(m: Rows<W>, x: Seq<W>, y: Seq<W>) -> W {
    inner(row_image(x, m, m.len()), y, m.len())
}

/// The matrix is its own transpose.
pub open spec fn is_symmetric<W>(m: Rows<W>) -> bool {
    forall|i: int, j: int|
        0 <= i < m.len() && 0 <= j < m.len() ==> #[trigger] m[i][j] == #[trigger] m[j][i]
}

/// The form of the matrix is negative at no vector.
pub open spec fn is_semidefinite<W: Scalar>(m: Rows<W>) -> bool {
    forall|v: Seq<W>| v.len() == m.len() ==> is_amount(#[trigger] form(m, v, v))
}

/// The scalar product looks at the first entries only.
pub(crate) proof fn lemma_inner_same<W: Scalar>(a: Seq<W>, b: Seq<W>, c: Seq<W>, d: Seq<W>, n: nat)
    requires
        forall|k: int| 0 <= k < n ==> #[trigger] a[k] == c[k],
        forall|k: int| 0 <= k < n ==> #[trigger] b[k] == d[k],
    ensures
        inner(a, b, n) == inner(c, d, n),
    decreases n,
{
    if n > 0 {
        lemma_inner_same(a, b, c, d, (n - 1) as nat);
        assert(a[n - 1] == c[n - 1]);
        assert(b[n - 1] == d[n - 1]);
    }
}

/// The scalar product is symmetric.
pub(crate) proof fn lemma_inner_swap<W: Scalar>(a: Seq<W>, b: Seq<W>, n: nat)
    requires
        exact_arithmetic::<W>(),
    ensures
        inner(a, b, n) == inner(b, a, n),
    decreases n,
{
    if n > 0 {
        lemma_inner_swap(a, b, (n - 1) as nat);
        law_exact_is_ring(a[n - 1], b[n - 1], zero());
    }
}

/// The scalar product with a sum is the sum of the scalar products.
pub(crate) proof fn lemma_inner_sum<W: Scalar>(a: Seq<W>, b: Seq<W>, d: Seq<W>, y: Seq<W>, n: nat)
    requires
        exact_arithmetic::<W>(),
        forall|k: int| 0 <= k < n ==> #[trigger] d[k] == a[k].plus_spec(b[k]),
    ensures
        inner(d, y, n) == inner(a, y, n).plus_spec(inner(b, y, n)),
    decreases n,
{
    if n == 0 {
        law_exact_is_ring(zero::<W>(), zero(), zero());
    } else {
        let m = (n - 1) as nat;
        lemma_inner_sum(a, b, d, y, m);
        assert(d[n - 1] == a[n - 1].plus_spec(b[n - 1]));
        let s = inner(a, y, m);
        let t = inner(b, y, m);
        let u = a[n - 1].times_spec(y[n - 1]);
        let v = b[n - 1].times_spec(y[n - 1]);
        law_exact_is_ring(a[n - 1], b[n - 1], y[n - 1]);
        law_exact_is_ring(s, t, u.plus_spec(v));
        law_exact_is_ring(t, u, v);
        law_exact_is_ring(u, t, v);
        law_exact_is_ring(s, u, t.plus_spec(v));
    }
}

/// The scalar product with a multiple is the multiple of the scalar product.
pub(crate) proof fn lemma_inner_multiple<W: Scalar>(a: Seq<W>, t: W, d: Seq<W>, y: Seq<W>, n: nat)
    requires
        exact_arithmetic::<W>(),
        forall|k: int| 0 <= k < n ==> #[trigger] d[k] == t.times_spec(a[k]),
    ensures
        inner(d, y, n) == t.times_spec(inner(a, y, n)),
    decreases n,
{
    if n == 0 {
        law_exact_is_ring(t, t, t);
    } else {
        let m = (n - 1) as nat;
        lemma_inner_multiple(a, t, d, y, m);
        assert(d[n - 1] == t.times_spec(a[n - 1]));
        let s = inner(a, y, m);
        let u = a[n - 1].times_spec(y[n - 1]);
        law_exact_is_ring(t, a[n - 1], y[n - 1]);
        law_exact_is_ring(s, u, t);
        law_exact_is_ring(t, s.plus_spec(u), t);
        law_exact_is_ring(t, s, t);
        law_exact_is_ring(t, u, t);
    }
}

/// The scalar product of a row image and a vector, with the first `r` rows.
proof fn lemma_across<W: Scalar>(x: Seq<W>, m: Rows<W>, y: Seq<W>, c: nat, r: nat)
    requires
        exact_arithmetic::<W>(),
        r <= m.len(),
        y.len() == c,
    ensures
        inner(Seq::new(c, |k: int| row_by_column(x, m, k, r)), y, c) == inner(x, image(m, y), r),
    decreases r,
{
    let now = Seq::new(c, |k: int| row_by_column(x, m, k, r));
    if r == 0 {
        let none = Seq::new(c, |k: int| zero::<W>());
        assert forall|k: int| 0 <= k < c implies #[trigger] now[k] == zero::<W>().times_spec(
            none[k],
        ) by {
            law_exact_is_ring(zero::<W>(), zero(), zero());
        }
        lemma_inner_multiple(none, zero(), now, y, c);
        let s = inner(none, y, c);
        law_exact_is_ring(zero::<W>(), s, s);
        law_exact_is_ring(s, s, s);
    } else {
        let q = (r - 1) as nat;
        lemma_across(x, m, y, c, q);
        let before = Seq::new(c, |k: int| row_by_column(x, m, k, q));
        let more = Seq::new(c, |k: int| x[r - 1].times_spec(m[r - 1][k]));
        assert forall|k: int| 0 <= k < c implies #[trigger] now[k] == before[k].plus_spec(
            more[k],
        ) by {}
        lemma_inner_sum(before, more, now, y, c);
        lemma_inner_multiple(m[r - 1], x[r - 1], more, y, c);
        assert(image(m, y)[r - 1] == inner(m[r - 1], y, c));
    }
}

/// A matrix between two vectors may be taken with either of them first.
pub proof fn law_image_moves_across<W: Scalar>(x: Seq<W>, m: Rows<W>, y: Seq<W>, c: nat)
    requires
        exact_arithmetic::<W>(),
        y.len() == c,
    ensures
        inner(row_image(x, m, c), y, c) == inner(x, image(m, y), m.len()),
{
    lemma_across(x, m, y, c, m.len());
    assert(row_image(x, m, c) =~= Seq::new(c, |k: int| row_by_column(x, m, k, m.len())));
}

/// Column `j` of a matrix.
pub(crate) open spec fn column<W>(m: Rows<W>, j: int) -> Seq<W> {
    Seq::new(m.len(), |k: int| m[k][j])
}

pub(crate) proof fn lemma_column<W: Scalar>(v: Seq<W>, m: Rows<W>, j: int, n: nat)
    requires
        n <= m.len(),
    ensures
        row_by_column(v, m, j, n) == inner(v, column(m, j), n),
    decreases n,
{
    if n > 0 {
        lemma_column(v, m, j, (n - 1) as nat);
    }
}

/// A row times a product is the row times the first matrix, times the second.
pub proof fn law_row_image_of_product<W: Scalar>(x: Seq<W>, a: Rows<W>, b: Rows<W>, c: nat)
    requires
        exact_arithmetic::<W>(),
    ensures
        row_image(x, product(a, b, c), c) == row_image(row_image(x, a, b.len()), b, c),
{
    let both = product(a, b, c);
    let first = row_image(x, a, b.len());
    assert forall|j: int| 0 <= j < c implies #[trigger] row_image(x, both, c)[j] == row_image(
        first,
        b,
        c,
    )[j] by {
        lemma_column(x, both, j, both.len());
        lemma_column(first, b, j, b.len());
        law_image_moves_across(x, a, column(b, j), b.len());
        assert forall|i: int| 0 <= i < both.len() implies #[trigger] column(both, j)[i] == image(
            a,
            column(b, j),
        )[i] by {
            lemma_column(a[i], b, j, b.len());
        }
        lemma_inner_same(x, column(both, j), x, image(a, column(b, j)), both.len());
    }
    assert(row_image(x, both, c) =~= row_image(first, b, c));
}

/// The form of a symmetric matrix is symmetric.
pub proof fn law_form_symmetric<W: Scalar>(m: Rows<W>, x: Seq<W>, y: Seq<W>)
    requires
        exact_arithmetic::<W>(),
        is_symmetric(m),
        x.len() == m.len(),
        y.len() == m.len(),
    ensures
        form(m, x, y) == form(m, y, x),
{
    let n = m.len();
    law_image_moves_across(x, m, y, n);
    assert forall|l: int| 0 <= l < n implies #[trigger] image(m, y)[l] == row_image(y, m, n)[l] by {
        lemma_column(y, m, l, n);
        assert forall|k: int| 0 <= k < n implies #[trigger] m[l][k] == column(m, l)[k] by {
            assert(m[k][l] == m[l][k]);
        }
        lemma_inner_same(m[l], y, column(m, l), y, n);
        lemma_inner_swap(column(m, l), y, n);
    }
    lemma_inner_same(x, image(m, y), x, row_image(y, m, n), n);
    lemma_inner_swap(x, row_image(y, m, n), n);
}

/// The form of `f p fᵀ` is the form of `p` at the images under `fᵀ`.
pub proof fn law_form_carried<W: Scalar>(f: Rows<W>, p: Rows<W>, c: nat, x: Seq<W>, y: Seq<W>)
    requires
        exact_arithmetic::<W>(),
        has_shape(p, c, c),
        x.len() == f.len(),
        y.len() == f.len(),
    ensures
        form(product(product(f, p, c), transposed(f, c), f.len()), x, y) == form(
            p,
            row_image(x, f, c),
            row_image(y, f, c),
        ),
{
    let n = f.len();
    let t = transposed(f, c);
    law_row_image_of_product(x, product(f, p, c), t, n);
    law_row_image_of_product(x, f, p, c);
    let w = row_image(row_image(x, f, c), p, c);
    law_image_moves_across(w, t, y, n);
    assert forall|k: int| 0 <= k < c implies #[trigger] image(t, y)[k] == row_image(y, f, c)[k] by {
        lemma_column(y, f, k, n);
        lemma_inner_same(t[k], y, column(f, k), y, n);
        lemma_inner_swap(column(f, k), y, n);
    }
    lemma_inner_same(w, image(t, y), w, row_image(y, f, c), c);
}

/// An entry of `f p fᵀ` is the form of `p` at two rows of `f`.
proof fn lemma_carried_entry<W: Scalar>(f: Rows<W>, p: Rows<W>, c: nat, i: int, j: int)
    requires
        has_shape(p, c, c),
        0 <= i < f.len(),
        0 <= j < f.len(),
    ensures
        product(product(f, p, c), transposed(f, c), f.len())[i][j] == form(p, f[i], f[j]),
{
    let t = transposed(f, c);
    let row = product(f, p, c)[i];
    assert(row =~= row_image(f[i], p, c));
    lemma_column(row, t, j, c);
    lemma_inner_same(row, column(t, j), row, f[j], c);
}

/// `f p fᵀ` is symmetric when `p` is.
pub proof fn law_carried_symmetric<W: Scalar>(f: Rows<W>, p: Rows<W>, c: nat)
    requires
        exact_arithmetic::<W>(),
        has_shape(p, c, c),
        has_shape(f, f.len(), c),
        is_symmetric(p),
    ensures
        is_symmetric(product(product(f, p, c), transposed(f, c), f.len())),
{
    let r = product(product(f, p, c), transposed(f, c), f.len());
    assert forall|i: int, j: int|
        0 <= i < r.len() && 0 <= j < r.len() implies #[trigger] r[i][j] == #[trigger] r[j][i] by {
        lemma_carried_entry(f, p, c, i, j);
        lemma_carried_entry(f, p, c, j, i);
        law_form_symmetric(p, f[i], f[j]);
    }
}

/// `f p fᵀ` is positive semidefinite when `p` is.
pub proof fn law_carried_semidefinite<W: Scalar>(f: Rows<W>, p: Rows<W>, c: nat)
    requires
        exact_arithmetic::<W>(),
        has_shape(p, c, c),
        is_semidefinite(p),
    ensures
        is_semidefinite(product(product(f, p, c), transposed(f, c), f.len())),
{
    let r = product(product(f, p, c), transposed(f, c), f.len());
    assert forall|v: Seq<W>| v.len() == r.len() implies is_amount(#[trigger] form(r, v, v)) by {
        law_form_carried(f, p, c, v, v);
    }
}

proof fn lemma_sum_column<W: Scalar>(v: Seq<W>, a: Rows<W>, b: Rows<W>, k: int, n: nat)
    requires
        exact_arithmetic::<W>(),
        a.len() == b.len(),
        n <= a.len(),
        0 <= k < a.len(),
    ensures
        row_by_column(v, sum_of(a, b, a.len()), k, n) == row_by_column(v, a, k, n).plus_spec(
            row_by_column(v, b, k, n),
        ),
{
    let s = sum_of(a, b, a.len());
    lemma_column(v, s, k, n);
    lemma_column(v, a, k, n);
    lemma_column(v, b, k, n);
    lemma_inner_swap(v, column(s, k), n);
    lemma_inner_swap(v, column(a, k), n);
    lemma_inner_swap(v, column(b, k), n);
    lemma_inner_sum(column(a, k), column(b, k), column(s, k), v, n);
}

/// The form of a sum is the sum of the forms.
pub proof fn law_form_of_sum<W: Scalar>(a: Rows<W>, b: Rows<W>, x: Seq<W>, y: Seq<W>)
    requires
        exact_arithmetic::<W>(),
        a.len() == b.len(),
    ensures
        form(sum_of(a, b, a.len()), x, y) == form(a, x, y).plus_spec(form(b, x, y)),
{
    let n = a.len();
    let s = sum_of(a, b, n);
    let d = row_image(x, s, n);
    assert forall|k: int| 0 <= k < n implies #[trigger] d[k] == row_image(x, a, n)[k].plus_spec(
        row_image(x, b, n)[k],
    ) by {
        lemma_sum_column(x, a, b, k, n);
    }
    lemma_inner_sum(row_image(x, a, n), row_image(x, b, n), d, y, n);
}

/// A sum is symmetric when both matrices are.
pub proof fn law_sum_symmetric<W: Scalar>(a: Rows<W>, b: Rows<W>)
    requires
        a.len() == b.len(),
        is_symmetric(a),
        is_symmetric(b),
    ensures
        is_symmetric(sum_of(a, b, a.len())),
{
    let s = sum_of(a, b, a.len());
    assert forall|i: int, j: int|
        0 <= i < s.len() && 0 <= j < s.len() implies #[trigger] s[i][j] == #[trigger] s[j][i] by {
        assert(a[i][j] == a[j][i]);
        assert(b[i][j] == b[j][i]);
    }
}

/// A sum is positive semidefinite when both matrices are.
pub proof fn law_sum_semidefinite<W: Scalar>(a: Rows<W>, b: Rows<W>)
    requires
        exact_arithmetic::<W>(),
        lawful::<W>(),
        a.len() == b.len(),
        is_semidefinite(a),
        is_semidefinite(b),
    ensures
        is_semidefinite(sum_of(a, b, a.len())),
{
    let s = sum_of(a, b, a.len());
    assert forall|v: Seq<W>| v.len() == s.len() implies is_amount(#[trigger] form(s, v, v)) by {
        law_form_of_sum(a, b, v, v);
        let g = form(a, v, v);
        let h = form(b, v, v);
        assert(is_amount(g));
        assert(is_amount(h));
        reveal(lawful);
        assert(is_amount(g.plus_spec(h)));
    }
}

} // verus!
