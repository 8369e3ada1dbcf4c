//! Matrices of any size.
use crate::linear::{M2, M3, V2, V3};
use crate::scalar::{zero, Scalar};
use vstd::prelude::*;

verus! {

/// The rows of a matrix.
pub type Rows<W> = Seq<Seq<W>>;

/// The matrix of `r` rows and `c` columns with the entries that `f` gives.
pub open spec fn table<W>(r: nat, c: nat, f: spec_fn(int, int) -> W) -> Rows<W> {
    Seq::new(r, |i: int| Seq::new(c, |j: int| f(i, j)))
}

/// The matrix has `r` rows of `c` entries.
pub open spec fn has_shape<W>(m: Rows<W>, r: nat, c: nat) -> bool {
    m.len() == r && forall|i: int| 0 <= i < r ==> (#[trigger] m[i]).len() == c
}

/// A matrix.
#[derive(Debug)]
pub struct Mat<W> {
    pub cells: Vec<Vec<W>>,
}

impl<W> View for Mat<W> {
    type V = Rows<W>;

    open spec fn view(&self) -> Rows<W> {
        Seq::new(self.cells@.len(), |i: int| self.cells@[i]@)
    }
}

impl<W: Copy> Clone for Mat<W> {
    fn clone(&self) -> (r: Self)
        ensures
            r@ == self@,
    {
        let mut cells: Vec<Vec<W>> = Vec::new();
        let mut i: usize = 0;
        while i < self.cells.len()
            invariant
                i <= self.cells@.len(),
                cells@.len() == i,
                forall|k: int| 0 <= k < i ==> (#[trigger] cells@[k])@ == self.cells@[k]@,
            decreases self.cells@.len() - i,
        {
            let mut row: Vec<W> = Vec::new();
            let mut j: usize = 0;
            while j < self.cells[i].len()
                invariant
                    i < self.cells@.len(),
                    j <= self.cells@[i as int]@.len(),
                    row@ == self.cells@[i as int]@.take(j as int),
                decreases self.cells@[i as int]@.len() - j,
            {
                row.push(self.cells[i][j]);
                j = j + 1;
                assert(row@ =~= self.cells@[i as int]@.take(j as int));
            }
            assert(row@ =~= self.cells@[i as int]@);
            cells.push(row);
            i = i + 1;
        }
        let r: Mat<W> = Mat { cells };
        assert(r@ =~= self@);
        r
    }
}

/// Builds the matrix whose entries `f` computes.
pub(crate) fn tabulate<W: Scalar, F: Fn(usize, usize) -> W>(
    r: usize,
    c: usize,
    f: F,
    Ghost(g): Ghost<spec_fn(int, int) -> W>,
) -> (m: Mat<W>)
    requires
        forall|i: usize, j: usize| i < r && j < c ==> call_requires(f, (i, j)),
        forall|i: usize, j: usize, v: W|
            i < r && j < c && call_ensures(f, (i, j), v) ==> v == g(i as int, j as int),
    ensures
        m@ == table(r as nat, c as nat, g),
{
    let mut cells: Vec<Vec<W>> = Vec::new();
    let mut i: usize = 0;
    while i < r
        invariant
            i <= r,
            cells@.len() == i,
            forall|k: int|
                0 <= k < i ==> (#[trigger] cells@[k])@ == Seq::new(c as nat, |j: int| g(k, j)),
            forall|i: usize, j: usize| i < r && j < c ==> call_requires(f, (i, j)),
            forall|i: usize, j: usize, v: W|
                i < r && j < c && call_ensures(f, (i, j), v) ==> v == g(i as int, j as int),
        decreases r - i,
    {
        let mut row: Vec<W> = Vec::new();
        let mut j: usize = 0;
        while j < c
            invariant
                i < r,
                j <= c,
                row@.len() == j,
                forall|l: int| 0 <= l < j ==> #[trigger] row@[l] == g(i as int, l),
                forall|i: usize, j: usize| i < r && j < c ==> call_requires(f, (i, j)),
                forall|i: usize, j: usize, v: W|
                    i < r && j < c && call_ensures(f, (i, j), v) ==> v == g(i as int, j as int),
            decreases c - j,
        {
            row.push(f(i, j));
            j = j + 1;
        }
        assert(row@ =~= Seq::new(c as nat, |j: int| g(i as int, j)));
        cells.push(row);
        i = i + 1;
    }
    let m: Mat<W> = Mat { cells };
    assert(m@ =~= table(r as nat, c as nat, g));
    m
}

/// The sum of the products of the first `n` entries of a row and of column `j`.
pub open spec fn row_by_column<W: Scalar>(row: Seq<W>, b: Rows<W>, j: int, n: nat) -> W
    decreases n,
{
    if n == 0 {
        zero()
    } else {
        row_by_column(row, b, j, (n - 1) as nat).plus_spec(row[n - 1].times_spec(b[n - 1][j]))
    }
}

/// The product of two matrices, the second of `c` columns.
pub open spec fn product<W: Scalar>(a: Rows<W>, b: Rows<W>, c: nat) -> Rows<W> {
    table(a.len(), c, |i: int, j: int| row_by_column(a[i], b, j, b.len()))
}

/// The sum of the products of the first `n` entries of two vectors.
pub open spec fn inner<W: Scalar>(a: Seq<W>, b: Seq<W>, n: nat) -> W
    decreases n,
{
    if n == 0 {
        zero()
    } else {
        inner(a, b, (n - 1) as nat).plus_spec(a[n - 1].times_spec(b[n - 1]))
    }
}

/// The image of a vector under a matrix.
pub open spec fn image<W: Scalar>(a: Rows<W>, v: Seq<W>) -> Seq<W> {
    Seq::new(a.len(), |i: int| inner(a[i], v, v.len()))
}

/// The matrix of zeros.
pub open spec fn zeros_of<W: Scalar>(r: nat, c: nat) -> Rows<W> {
    table(r, c, |i: int, j: int| zero::<W>())
}

/// The identity of size `n`.
pub open spec fn identity_of<W: Scalar>(n: nat) -> Rows<W> {
    table(
        n,
        n,
        |i: int, j: int|
            if i == j {
                W::ratio_spec(1, 1)
            } else {
                zero::<W>()
            },
    )
}

/// The matrix of `c` columns with rows and columns exchanged.
pub open spec fn transposed<W>(a: Rows<W>, c: nat) -> Rows<W> {
    table(c, a.len(), |i: int, j: int| a[j][i])
}

/// The sum of two matrices of `c` columns.
pub open spec fn sum_of<W: Scalar>(a: Rows<W>, b: Rows<W>, c: nat) -> Rows<W> {
    table(a.len(), c, |i: int, j: int| a[i][j].plus_spec(b[i][j]))
}

/// The difference of two matrices of `c` columns.
pub open spec fn difference_of<W: Scalar>(a: Rows<W>, b: Rows<W>, c: nat) -> Rows<W> {
    table(a.len(), c, |i: int, j: int| a[i][j].minus_spec(b[i][j]))
}

/// A matrix of `c` columns times a number.
pub open spec fn multiple_of<W: Scalar>(a: Rows<W>, k: W, c: nat) -> Rows<W> {
    table(a.len(), c, |i: int, j: int| a[i][j].times_spec(k))
}

/// A matrix of `c` columns divided by a number.
pub open spec fn share_of<W: Scalar>(a: Rows<W>, k: W, c: nat) -> Rows<W> {
    table(a.len(), c, |i: int, j: int| a[i][j].over_spec(k))
}

/// The first `r` rows and `c` columns.
pub open spec fn corner_of<W>(a: Rows<W>, r: nat, c: nat) -> Rows<W> {
    table(r, c, |i: int, j: int| a[i][j])
}

/// The first `k` columns of a matrix, with columns of zeros up to `c`.
pub open spec fn padded<W: Scalar>(a: Rows<W>, k: nat, c: nat) -> Rows<W> {
    table(
        a.len(),
        c,
        |i: int, j: int|
            if j < k {
                a[i][j]
            } else {
                zero::<W>()
            },
    )
}

/// A matrix of `c` columns with a square of size `k` added to its first entries.
pub open spec fn corner_raised<W: Scalar>(a: Rows<W>, b: Rows<W>, k: nat, c: nat) -> Rows<W> {
    table(
        a.len(),
        c,
        |i: int, j: int|
            a[i][j].plus_spec(
                if i < k && j < k {
                    b[i][j]
                } else {
                    zero::<W>()
                },
            ),
    )
}

/// Row `k` of a matrix of three rows.
pub open spec fn row3<W>(m: M3<W>, k: int) -> V3<W> {
    if k == 0 {
        m.a
    } else if k == 1 {
        m.b
    } else {
        m.c
    }
}

/// Row `k` of a matrix of two rows.
pub open spec fn row2<W>(m: M2<W>, k: int) -> V2<W> {
    if k == 0 {
        m.a
    } else {
        m.b
    }
}

/// Three entries of column `j` from row `s` on.
pub open spec fn column3<W: Scalar>(p: Rows<W>, s: int, j: int) -> V3<W> {
    V3 { x: p[s][j], y: p[s + 1][j], z: p[s + 2][j] }
}

/// Three entries of row `i` from column `s` on.
pub open spec fn slice3<W: Scalar>(p: Rows<W>, i: int, s: int) -> V3<W> {
    V3 { x: p[i][s], y: p[i][s + 1], z: p[i][s + 2] }
}

/// Two entries of column `j` from row `s` on.
pub open spec fn column2<W: Scalar>(p: Rows<W>, s: int, j: int) -> V2<W> {
    V2 { x: p[s][j], y: p[s + 1][j] }
}

/// Two entries of row `i` from column `s` on.
pub open spec fn slice2<W: Scalar>(p: Rows<W>, i: int, s: int) -> V2<W> {
    V2 { x: p[i][s], y: p[i][s + 1] }
}

/// The matrix `l` of `c` columns whose three rows from `s` on are replaced by
/// `m` times those of `p`, in the first `w` columns.
pub open spec fn rows_turned<W: Scalar>(
    l: Rows<W>,
    p: Rows<W>,
    s: int,
    m: M3<W>,
    w: nat,
    c: nat,
) -> Rows<W> {
    table(
        l.len(),
        c,
        |i: int, j: int|
            if s <= i < s + 3 && j < w {
                row3(m, i - s).dot(column3(p, s, j))
            } else {
                l[i][j]
            },
    )
}

/// The matrix `p` of `c` columns whose three columns from `s` on are multiplied
/// by the transposed `m`.
pub open spec fn columns_turned<W: Scalar>(p: Rows<W>, s: int, m: M3<W>, c: nat) -> Rows<W> {
    table(
        p.len(),
        c,
        |i: int, j: int|
            if s <= j < s + 3 {
                slice3(p, i, s).dot(row3(m, j - s))
            } else {
                p[i][j]
            },
    )
}

/// The same as [`rows_turned`] for two rows.
pub open spec fn rows_bent<W: Scalar>(
    l: Rows<W>,
    p: Rows<W>,
    s: int,
    m: M2<W>,
    w: nat,
    c: nat,
) -> Rows<W> {
    table(
        l.len(),
        c,
        |i: int, j: int|
            if s <= i < s + 2 && j < w {
                row2(m, i - s).dot(column2(p, s, j))
            } else {
                l[i][j]
            },
    )
}

/// The same as [`columns_turned`] for two columns.
pub open spec fn columns_bent<W: Scalar>(p: Rows<W>, s: int, m: M2<W>, c: nat) -> Rows<W> {
    table(
        p.len(),
        c,
        |i: int, j: int|
            if s <= j < s + 2 {
                slice2(p, i, s).dot(row2(m, j - s))
            } else {
                p[i][j]
            },
    )
}

pub(crate) fn pick3<W: Scalar>(m: M3<W>, k: usize) -> (r: V3<W>)
    ensures
        r == row3(m, k as int),
{
    if k == 0 {
        m.a
    } else if k == 1 {
        m.b
    } else {
        m.c
    }
}

fn pick2<W: Scalar>(m: M2<W>, k: usize) -> (r: V2<W>)
    ensures
        r == row2(m, k as int),
{
    if k == 0 {
        m.a
    } else {
        m.b
    }
}

impl<W: Scalar> Mat<W> {
    /// The entry at row `i` and column `j`.
    pub fn at(&self, i: usize, j: usize) -> (v: W)
        requires
            i < self@.len(),
            j < self@[i as int].len(),
        ensures
            v == self@[i as int][j as int],
    {
        self.cells[i][j]
    }

    /// The number of rows.
    pub fn height(&self) -> (n: usize)
        ensures
            n == self@.len(),
    {
        self.cells.len()
    }

    fn entry_of_product(&self, b: &Mat<W>, i: usize, j: usize) -> (v: W)
        requires
            i < self@.len(),
            self@[i as int].len() == b@.len(),
            forall|k: int| 0 <= k < b@.len() ==> j < (#[trigger] b@[k]).len(),
        ensures
            v == row_by_column(self@[i as int], b@, j as int, b@.len()),
    {
        let n: usize = b.height();
        let mut v: W = W::ratio(0, 1);
        let mut k: usize = 0;
        while k < n
            invariant
                k <= n == b@.len(),
                i < self@.len(),
                self@[i as int].len() == b@.len(),
                forall|k: int| 0 <= k < b@.len() ==> j < (#[trigger] b@[k]).len(),
                v == row_by_column(self@[i as int], b@, j as int, k as nat),
            decreases n - k,
        {
            assert(j < b@[k as int].len());
            v = v.plus(self.at(i, k).times(b.at(k, j)));
            k = k + 1;
        }
        v
    }

    /// The product with a matrix of `c` columns.
    pub fn times(&self, b: &Mat<W>, c: usize) -> (m: Mat<W>)
        requires
            has_shape(self@, self@.len(), b@.len()),
            has_shape(b@, b@.len(), c as nat),
        ensures
            m@ == product(self@, b@, c as nat),
            has_shape(m@, self@.len(), c as nat),
    {
        let r: usize = self.height();
        let f = |i: usize, j: usize| -> (v: W)
            requires
                i < r,
                j < c,
            ensures
                v == row_by_column(self@[i as int], b@, j as int, b@.len()),
            { self.entry_of_product(b, i, j) };
        tabulate(
            r,
            c,
            f,
            Ghost(|i: int, j: int| row_by_column(self@[i], b@, j, b@.len())),
        )
    }

    /// The matrix of zeros.
    pub fn zeros(r: usize, c: usize) -> (m: Mat<W>)
        ensures
            m@ == zeros_of::<W>(r as nat, c as nat),
            has_shape(m@, r as nat, c as nat),
    {
        let f = |i: usize, j: usize| -> (v: W)
            ensures
                v == zero::<W>(),
            { W::ratio(0, 1) };
        tabulate(r, c, f, Ghost(|i: int, j: int| zero::<W>()))
    }

    /// The identity of size `n`.
    pub fn identity(n: usize) -> (m: Mat<W>)
        ensures
            m@ == identity_of::<W>(n as nat),
            has_shape(m@, n as nat, n as nat),
    {
        let f = |i: usize, j: usize| -> (v: W)
            ensures
                v == if i == j {
                    W::ratio_spec(1, 1)
                } else {
                    zero::<W>()
                },
            {
                if i == j {
                    W::ratio(1, 1)
                } else {
                    W::ratio(0, 1)
                }
            };
        tabulate(
            n,
            n,
            f,
            Ghost(
                |i: int, j: int|
                    if i == j {
                        W::ratio_spec(1, 1)
                    } else {
                        zero::<W>()
                    },
            ),
        )
    }

    /// The matrix of `c` columns with rows and columns exchanged.
    pub fn transpose(&self, c: usize) -> (m: Mat<W>)
        requires
            has_shape(self@, self@.len(), c as nat),
        ensures
            m@ == transposed(self@, c as nat),
            has_shape(m@, c as nat, self@.len()),
    {
        let r: usize = self.height();
        let f = |i: usize, j: usize| -> (v: W)
            requires
                i < c,
                j < r,
            ensures
                v == self@[j as int][i as int],
            { self.at(j, i) };
        tabulate(c, r, f, Ghost(|i: int, j: int| self@[j][i]))
    }

    /// The sum of two matrices of `c` columns.
    pub fn plus(&self, b: &Mat<W>, c: usize) -> (m: Mat<W>)
        requires
            has_shape(self@, self@.len(), c as nat),
            has_shape(b@, self@.len(), c as nat),
        ensures
            m@ == sum_of(self@, b@, c as nat),
            has_shape(m@, self@.len(), c as nat),
    {
        let r: usize = self.height();
        let f = |i: usize, j: usize| -> (v: W)
            requires
                i < r,
                j < c,
            ensures
                v == self@[i as int][j as int].plus_spec(b@[i as int][j as int]),
            { self.at(i, j).plus(b.at(i, j)) };
        tabulate(r, c, f, Ghost(|i: int, j: int| self@[i][j].plus_spec(b@[i][j])))
    }

    /// The difference of two matrices of `c` columns.
    pub fn minus(&self, b: &Mat<W>, c: usize) -> (m: Mat<W>)
        requires
            has_shape(self@, self@.len(), c as nat),
            has_shape(b@, self@.len(), c as nat),
        ensures
            m@ == difference_of(self@, b@, c as nat),
            has_shape(m@, self@.len(), c as nat),
    {
        let r: usize = self.height();
        let f = |i: usize, j: usize| -> (v: W)
            requires
                i < r,
                j < c,
            ensures
                v == self@[i as int][j as int].minus_spec(b@[i as int][j as int]),
            { self.at(i, j).minus(b.at(i, j)) };
        tabulate(r, c, f, Ghost(|i: int, j: int| self@[i][j].minus_spec(b@[i][j])))
    }

    /// The matrix of `c` columns times a number.
    pub fn scaled(&self, k: W, c: usize) -> (m: Mat<W>)
        requires
            has_shape(self@, self@.len(), c as nat),
        ensures
            m@ == multiple_of(self@, k, c as nat),
            has_shape(m@, self@.len(), c as nat),
    {
        let r: usize = self.height();
        let f = |i: usize, j: usize| -> (v: W)
            requires
                i < r,
                j < c,
            ensures
                v == self@[i as int][j as int].times_spec(k),
            { self.at(i, j).times(k) };
        tabulate(r, c, f, Ghost(|i: int, j: int| self@[i][j].times_spec(k)))
    }

    /// The matrix of `c` columns divided by a number.
    pub fn shared(&self, k: W, c: usize) -> (m: Mat<W>)
        requires
            has_shape(self@, self@.len(), c as nat),
        ensures
            m@ == share_of(self@, k, c as nat),
            has_shape(m@, self@.len(), c as nat),
    {
        let r: usize = self.height();
        let f = |i: usize, j: usize| -> (v: W)
            requires
                i < r,
                j < c,
            ensures
                v == self@[i as int][j as int].over_spec(k),
            { self.at(i, j).over(k) };
        tabulate(r, c, f, Ghost(|i: int, j: int| self@[i][j].over_spec(k)))
    }

    /// The first `r` rows and `c` columns of a matrix of `w` columns.
    pub fn corner(&self, r: usize, c: usize, w: usize) -> (m: Mat<W>)
        requires
            has_shape(self@, self@.len(), w as nat),
            r <= self@.len(),
            c <= w,
        ensures
            m@ == corner_of(self@, r as nat, c as nat),
            has_shape(m@, r as nat, c as nat),
    {
        let f = |i: usize, j: usize| -> (v: W)
            requires
                i < r,
                j < c,
            ensures
                v == self@[i as int][j as int],
            { self.at(i, j) };
        tabulate(r, c, f, Ghost(|i: int, j: int| self@[i][j]))
    }

    /// The first `k` columns, with columns of zeros up to `c`.
    pub fn padded(&self, k: usize, c: usize) -> (m: Mat<W>)
        requires
            has_shape(self@, self@.len(), k as nat),
            k <= c,
        ensures
            m@ == padded(self@, k as nat, c as nat),
            has_shape(m@, self@.len(), c as nat),
    {
        let r: usize = self.height();
        let f = |i: usize, j: usize| -> (v: W)
            requires
                i < r,
                j < c,
            ensures
                v == if j < k {
                    self@[i as int][j as int]
                } else {
                    zero::<W>()
                },
            {
                if j < k {
                    self.at(i, j)
                } else {
                    W::ratio(0, 1)
                }
            };
        tabulate(
            r,
            c,
            f,
            Ghost(
                |i: int, j: int|
                    if j < k {
                        self@[i][j]
                    } else {
                        zero::<W>()
                    },
            ),
        )
    }

    /// The matrix of `c` columns with a square of size `k` added to its first
    /// entries.
    pub fn corner_raised(&self, b: &Mat<W>, k: usize, c: usize) -> (m: Mat<W>)
        requires
            has_shape(self@, self@.len(), c as nat),
            has_shape(b@, k as nat, k as nat),
        ensures
            m@ == corner_raised(self@, b@, k as nat, c as nat),
            has_shape(m@, self@.len(), c as nat),
    {
        let r: usize = self.height();
        let f = |i: usize, j: usize| -> (v: W)
            requires
                i < r,
                j < c,
            ensures
                v == self@[i as int][j as int].plus_spec(
                    if i < k && j < k {
                        b@[i as int][j as int]
                    } else {
                        zero::<W>()
                    },
                ),
            {
                let rise: W = if i < k && j < k {
                    b.at(i, j)
                } else {
                    W::ratio(0, 1)
                };
                self.at(i, j).plus(rise)
            };
        tabulate(
            r,
            c,
            f,
            Ghost(
                |i: int, j: int|
                    self@[i][j].plus_spec(
                        if i < k && j < k {
                            b@[i][j]
                        } else {
                            zero::<W>()
                        },
                    ),
            ),
        )
    }

    /// The matrix whose three rows from `s` on are replaced by `t` times those of
    /// `p`, in the first `w` columns.
    pub fn rows_turned(&self, p: &Mat<W>, s: usize, t: M3<W>, w: usize, c: usize) -> (m: Mat<W>)
        requires
            has_shape(self@, self@.len(), c as nat),
            has_shape(p@, self@.len(), c as nat),
            s + 3 <= self@.len(),
        ensures
            m@ == rows_turned(self@, p@, s as int, t, w as nat, c as nat),
            has_shape(m@, self@.len(), c as nat),
    {
        let r: usize = self.height();
        let f = |i: usize, j: usize| -> (v: W)
            requires
                i < r,
                j < c,
            ensures
                v == if s <= i < s + 3 && j < w {
                    row3(t, i - s).dot(column3(p@, s as int, j as int))
                } else {
                    self@[i as int][j as int]
                },
            {
                if s <= i && i < s + 3 && j < w {
                    pick3(t, i - s).dot(V3::new(p.at(s, j), p.at(s + 1, j), p.at(s + 2, j)))
                } else {
                    self.at(i, j)
                }
            };
        tabulate(
            r,
            c,
            f,
            Ghost(
                |i: int, j: int|
                    if s <= i < s + 3 && j < w {
                        row3(t, i - s).dot(column3(p@, s as int, j))
                    } else {
                        self@[i][j]
                    },
            ),
        )
    }

    /// The matrix whose two rows from `s` on are replaced by `t` times those of `p`,
    /// in the first `w` columns.
    pub fn rows_bent(&self, p: &Mat<W>, s: usize, t: M2<W>, w: usize, c: usize) -> (m: Mat<W>)
        requires
            has_shape(self@, self@.len(), c as nat),
            has_shape(p@, self@.len(), c as nat),
            s + 2 <= self@.len(),
        ensures
            m@ == rows_bent(self@, p@, s as int, t, w as nat, c as nat),
            has_shape(m@, self@.len(), c as nat),
    {
        let r: usize = self.height();
        let f = |i: usize, j: usize| -> (v: W)
            requires
                i < r,
                j < c,
            ensures
                v == if s <= i < s + 2 && j < w {
                    row2(t, i - s).dot(column2(p@, s as int, j as int))
                } else {
                    self@[i as int][j as int]
                },
            {
                if s <= i && i < s + 2 && j < w {
                    pick2(t, i - s).dot(V2::new(p.at(s, j), p.at(s + 1, j)))
                } else {
                    self.at(i, j)
                }
            };
        tabulate(
            r,
            c,
            f,
            Ghost(
                |i: int, j: int|
                    if s <= i < s + 2 && j < w {
                        row2(t, i - s).dot(column2(p@, s as int, j))
                    } else {
                        self@[i][j]
                    },
            ),
        )
    }

    /// The matrix whose three columns from `s` on are multiplied by the transposed
    /// `t`.
    pub fn columns_turned(&self, s: usize, t: M3<W>, c: usize) -> (m: Mat<W>)
        requires
            has_shape(self@, self@.len(), c as nat),
            s + 3 <= c,
        ensures
            m@ == columns_turned(self@, s as int, t, c as nat),
            has_shape(m@, self@.len(), c as nat),
    {
        let r: usize = self.height();
        let f = |i: usize, j: usize| -> (v: W)
            requires
                i < r,
                j < c,
            ensures
                v == if s <= j < s + 3 {
                    slice3(self@, i as int, s as int).dot(row3(t, j - s))
                } else {
                    self@[i as int][j as int]
                },
            {
                if s <= j && j < s + 3 {
                    V3::new(self.at(i, s), self.at(i, s + 1), self.at(i, s + 2)).dot(pick3(t, j - s))
                } else {
                    self.at(i, j)
                }
            };
        tabulate(
            r,
            c,
            f,
            Ghost(
                |i: int, j: int|
                    if s <= j < s + 3 {
                        slice3(self@, i, s as int).dot(row3(t, j - s))
                    } else {
                        self@[i][j]
                    },
            ),
        )
    }

    /// The matrix whose two columns from `s` on are multiplied by the transposed `t`.
    pub fn columns_bent(&self, s: usize, t: M2<W>, c: usize) -> (m: Mat<W>)
        requires
            has_shape(self@, self@.len(), c as nat),
            s + 2 <= c,
        ensures
            m@ == columns_bent(self@, s as int, t, c as nat),
            has_shape(m@, self@.len(), c as nat),
    {
        let r: usize = self.height();
        let f = |i: usize, j: usize| -> (v: W)
            requires
                i < r,
                j < c,
            ensures
                v == if s <= j < s + 2 {
                    slice2(self@, i as int, s as int).dot(row2(t, j - s))
                } else {
                    self@[i as int][j as int]
                },
            {
                if s <= j && j < s + 2 {
                    V2::new(self.at(i, s), self.at(i, s + 1)).dot(pick2(t, j - s))
                } else {
                    self.at(i, j)
                }
            };
        tabulate(
            r,
            c,
            f,
            Ghost(
                |i: int, j: int|
                    if s <= j < s + 2 {
                        slice2(self@, i, s as int).dot(row2(t, j - s))
                    } else {
                        self@[i][j]
                    },
            ),
        )
    }

    /// The image of a vector.
    pub fn apply(&self, v: &[W]) -> (r: Vec<W>)
        requires
            has_shape(self@, self@.len(), v@.len()),
        ensures
            r@ == image(self@, v@),
    {
        let n: usize = self.height();
        let len: usize = v.len();
        let mut r: Vec<W> = Vec::new();
        let mut i: usize = 0;
        while i < n
            invariant
                i <= n == self@.len(),
                len == v@.len(),
                has_shape(self@, self@.len(), v@.len()),
                r@ == image(self@, v@).take(i as int),
            decreases n - i,
        {
            let mut sum: W = W::ratio(0, 1);
            let mut k: usize = 0;
            while k < len
                invariant
                    i < n == self@.len(),
                    k <= len == v@.len(),
                    has_shape(self@, self@.len(), v@.len()),
                    sum == inner(self@[i as int], v@, k as nat),
                decreases len - k,
            {
                sum = sum.plus(self.at(i, k).times(v[k]));
                k = k + 1;
            }
            r.push(sum);
            i = i + 1;
            assert(r@ =~= image(self@, v@).take(i as int));
        }
        assert(r@ =~= image(self@, v@));
        r
    }
}

} // verus!
