//! A fixed-point number.
use crate::scalar::{gap_square, lawful, zero, Scalar, Widen};
use vstd::prelude::*;

verus! {

/// Units per whole number.
pub const ONE: i64 = 65536;

/// A number in units of `1 / 65536`, saturating at the ends of its range.
#[derive(Clone, Copy, Debug, PartialEq, Eq, Structural)]
pub struct Fixed {
    /// The number of units.
    pub raw: i64,
}

/// `v` moved into the range of `i64`.
pub open spec fn clip(v: int) -> i64 {
    if v < i64::MIN {
        i64::MIN
    } else if v > i64::MAX {
        i64::MAX
    } else {
        v as i64
    }
}

/// The largest `r` with `r * r <= n`.
pub open spec fn is_floor_root(n: int, r: int) -> bool {
    0 <= r && r * r <= n && n < (r + 1) * (r + 1)
}

/// The integer square root of `n`, zero for a negative `n`.
pub open spec fn floor_root(n: int) -> int {
    if n < 0 {
        0
    } else {
        choose|r: int| is_floor_root(n, r)
    }
}

/// `num / den` in units: the quotient rounded down, the end of the range on the
/// side of `num` when `den` is zero.
pub open spec fn quotient(num: int, den: int) -> i64 {
    if den == 0 {
        if num < 0 {
            i64::MIN
        } else if num > 0 {
            i64::MAX
        } else {
            0
        }
    } else if den > 0 {
        clip((num * ONE) / den)
    } else {
        clip(((-num) * ONE) / (-den))
    }
}

fn clip_wide(v: i128) -> (r: i64)
    ensures
        r == clip(v as int),
{
    if v < i64::MIN as i128 {
        i64::MIN
    } else if v > i64::MAX as i128 {
        i64::MAX
    } else {
        v as i64
    }
}

/// Division that rounds down.
fn floor_div(n: i128, d: i128) -> (r: i128)
    requires
        d > 0,
        n > i128::MIN + d,
    ensures
        r == n as int / d as int,
{
    if n >= 0 {
        (n as u128 / d as u128) as i128
    } else {
        let m: u128 = ((-n) + (d - 1)) as u128;
        let q: u128 = m / d as u128;
        proof {
            let a = -n as int;
            let b = d as int;
            let t = (a + b - 1) / b;
            assert(q == t);
            assert(t <= a + b - 1) by (nonlinear_arith)
                requires
                    t == (a + b - 1) / b,
                    b > 0,
                    a > 0,
            ;
            assert((-a) / b == -t) by (nonlinear_arith)
                requires
                    t == (a + b - 1) / b,
                    b > 0,
                    a > 0,
            ;
        }
        -(q as i128)
    }
}

fn quotient_exec(num: i64, den: i64) -> (r: i64)
    ensures
        r == quotient(num as int, den as int),
{
    if den == 0 {
        if num < 0 {
            i64::MIN
        } else if num > 0 {
            i64::MAX
        } else {
            0
        }
    } else if den > 0 {
        let n: i128 = num as i128 * 65536;
        assert(n == num * ONE);
        clip_wide(floor_div(n, den as i128))
    } else {
        let n: i128 = -(num as i128) * 65536;
        assert(n == (-num) * ONE);
        clip_wide(floor_div(n, -(den as i128)))
    }
}

proof fn lemma_floor_root_unique(n: int, r: int, s: int)
    requires
        is_floor_root(n, r),
        is_floor_root(n, s),
    ensures
        r == s,
{
    if r < s {
        assert((r + 1) * (r + 1) <= s * s) by (nonlinear_arith)
            requires
                0 <= r < s,
        ;
    } else if s < r {
        assert((s + 1) * (s + 1) <= r * r) by (nonlinear_arith)
            requires
                0 <= s < r,
        ;
    }
}

/// The integer square root by bisection.
fn floor_root_exec(n: u128) -> (r: u64)
    requires
        n < 0x1_0000_0000_0000_0000_0000_0000,
    ensures
        r == floor_root(n as int),
        is_floor_root(n as int, r as int),
{
    let mut lo: u64 = 0;
    let mut hi: u64 = 0x1_0000_0000_0000;
    assert(n < 0x1_0000_0000_0000 * 0x1_0000_0000_0000);
    while lo + 1 < hi
        invariant
            lo < hi <= 0x1_0000_0000_0000,
            lo * lo <= n,
            n < hi * hi,
        decreases hi - lo,
    {
        let mid: u64 = lo + (hi - lo) / 2;
        assert(mid * mid <= 0x1_0000_0000_0000 * 0x1_0000_0000_0000) by (nonlinear_arith)
            requires
                mid <= 0x1_0000_0000_0000,
        ;
        if mid as u128 * mid as u128 <= n {
            lo = mid;
        } else {
            hi = mid;
        }
    }
    proof {
        assert(is_floor_root(n as int, lo as int));
        lemma_floor_root_unique(n as int, lo as int, floor_root(n as int));
    }
    lo
}

proof fn lemma_rem(a: int, b: int, d: int, r: int)
    requires
        b != 0,
        d == if b < 0 {
            -b
        } else {
            b
        },
        r == if a >= 0 {
            a % d
        } else if (-a) % d == 0 {
            0
        } else {
            d - (-a) % d
        },
    ensures
        r == a % b,
        0 <= r < d,
{
    let q = a / b;
    let m = a % b;
    assert(a == b * q + m && 0 <= m < d) by (nonlinear_arith)
        requires
            b != 0,
            q == a / b,
            m == a % b,
            d == if b < 0 {
                -b
            } else {
                b
            },
    ;
    let s = if b < 0 {
        -q
    } else {
        q
    };
    assert(b * q == d * s) by (nonlinear_arith)
        requires
            d == if b < 0 {
                -b
            } else {
                b
            },
            s == if b < 0 {
                -q
            } else {
                q
            },
    ;
    if a >= 0 {
        vstd::arithmetic::div_mod::lemma_fundamental_div_mod_converse(a, d, s, m);
    } else if m == 0 {
        assert(-a == d * (-s)) by (nonlinear_arith)
            requires
                a == d * s,
        ;
        vstd::arithmetic::div_mod::lemma_fundamental_div_mod_converse(-a, d, -s, 0);
    } else {
        assert(-a == d * (-s - 1) + (d - m)) by (nonlinear_arith)
            requires
                a == d * s + m,
        ;
        vstd::arithmetic::div_mod::lemma_fundamental_div_mod_converse(-a, d, -s - 1, d - m);
    }
}

/// `v` squared `n` times over.
pub open spec fn squared(v: Fixed, n: nat) -> Fixed
    decreases n,
{
    if n == 0 {
        v
    } else {
        squared(v.times_spec(v), (n - 1) as nat)
    }
}

/// `1 - v / den * inner`, a factor of a series.
pub open spec fn series_factor(v: Fixed, den: int, inner: Fixed) -> Fixed {
    Fixed { raw: ONE }.minus_spec(v.over_spec(Fixed { raw: clip(den * ONE) }).times_spec(inner))
}

/// The inverse tangent of a ratio between -1 and 1.
pub open spec fn small_atan(z: Fixed) -> Fixed {
    z.over_spec(
        Fixed { raw: ONE }.plus_spec(Fixed::ratio_spec(7, 25).times_spec(z.times_spec(z))),
    )
}

/// A quarter turn.
pub open spec fn quarter() -> Fixed {
    Fixed::ratio_spec(3141592653589793, 2000000000000000)
}

/// Half a turn.
pub open spec fn half_turn() -> Fixed {
    Fixed::ratio_spec(3141592653589793, 1000000000000000)
}

fn one() -> (r: Fixed)
    ensures
        r == (Fixed { raw: ONE }),
{
    Fixed { raw: ONE }
}

fn series_factor_exec(v: Fixed, den: i64, inner: Fixed) -> (r: Fixed)
    requires
        0 < den < 1000,
    ensures
        r == series_factor(v, den as int, inner),
{
    let d: Fixed = Fixed { raw: den * ONE };
    one().minus(v.over(d).times(inner))
}

fn small_atan_exec(z: Fixed) -> (r: Fixed)
    ensures
        r == small_atan(z),
{
    z.over(one().plus(Fixed::ratio(7, 25).times(z.times(z))))
}

impl Scalar for Fixed {
    open spec fn is_num(self) -> bool {
        true
    }

    open spec fn is_finite(self) -> bool {
        true
    }

    open spec fn key(self) -> int {
        self.raw as int
    }

    open spec fn plus_spec(self, other: Self) -> Self {
        Fixed { raw: clip(self.raw + other.raw) }
    }

    open spec fn minus_spec(self, other: Self) -> Self {
        Fixed { raw: clip(self.raw - other.raw) }
    }

    open spec fn times_spec(self, other: Self) -> Self {
        Fixed { raw: clip((self.raw * other.raw) / (ONE as int)) }
    }

    open spec fn over_spec(self, other: Self) -> Self {
        Fixed { raw: quotient(self.raw as int, other.raw as int) }
    }

    open spec fn negate_spec(self) -> Self {
        Fixed { raw: clip(-self.raw) }
    }

    open spec fn magnitude_spec(self) -> Self {
        Fixed {
            raw: if self.raw < 0 {
                clip(-self.raw)
            } else {
                self.raw
            },
        }
    }

    open spec fn root_spec(self) -> Self {
        Fixed { raw: floor_root(self.raw * ONE) as i64 }
    }

    open spec fn floor_spec(self) -> Self {
        Fixed { raw: clip((self.raw as int / ONE as int) * ONE) }
    }

    open spec fn ceil_spec(self) -> Self {
        Fixed { raw: clip(-(((-self.raw) / ONE as int) * ONE)) }
    }

    /// `(1 + x / 256)` to the power of 256.
    open spec fn exp_spec(self) -> Self {
        squared(Fixed { raw: ONE }.plus_spec(self.over_spec(Fixed { raw: clip(256 * ONE) })), 8)
    }

    /// The first four terms of the power series.
    open spec fn sin_spec(self) -> Self {
        let v = self.times_spec(self);
        self.times_spec(
            series_factor(v, 6, series_factor(v, 20, series_factor(v, 42, Fixed { raw: ONE }))),
        )
    }

    /// The first four terms of the power series.
    open spec fn cos_spec(self) -> Self {
        let v = self.times_spec(self);
        series_factor(v, 2, series_factor(v, 12, series_factor(v, 30, Fixed { raw: ONE })))
    }

    open spec fn atan2_spec(self, x: Self) -> Self {
        if self.magnitude_spec().raw <= x.magnitude_spec().raw {
            let a = small_atan(self.over_spec(x));
            if x.raw >= 0 {
                a
            } else if self.raw < 0 {
                a.minus_spec(half_turn())
            } else {
                a.plus_spec(half_turn())
            }
        } else {
            let a = small_atan(x.over_spec(self));
            if self.raw > 0 {
                quarter().minus_spec(a)
            } else {
                quarter().negate_spec().minus_spec(a)
            }
        }
    }

    open spec fn asin_spec(self) -> Self {
        self.atan2_spec(
            Self::ratio_spec(1, 1).minus_spec(self.times_spec(self)).root_spec(),
        )
    }

    open spec fn acos_spec(self) -> Self {
        Self::ratio_spec(1, 1).minus_spec(self.times_spec(self)).root_spec().atan2_spec(self)
    }

    open spec fn hypot_spec(self, other: Self) -> Self {
        self.times_spec(self).plus_spec(other.times_spec(other)).root_spec()
    }

    open spec fn rem_spec(self, other: Self) -> Self {
        Fixed {
            raw: if other.raw == 0 {
                0
            } else {
                (self.raw as int % other.raw as int) as i64
            },
        }
    }

    open spec fn to_index_spec(self) -> i64 {
        if self.raw < 0 {
            (-((-self.raw) / ONE as int)) as i64
        } else {
            (self.raw as int / ONE as int) as i64
        }
    }

    open spec fn ratio_spec(num: int, den: int) -> Self {
        Fixed { raw: quotient(num, den) }
    }

    fn plus(self, other: Self) -> Self {
        Fixed { raw: clip_wide(self.raw as i128 + other.raw as i128) }
    }

    fn minus(self, other: Self) -> Self {
        Fixed { raw: clip_wide(self.raw as i128 - other.raw as i128) }
    }

    fn times(self, other: Self) -> Self {
        let ghost a = self.raw as int;
        let ghost b = other.raw as int;
        assert(-0x4000_0000_0000_0000_0000_0000_0000_0000 <= a * b
            <= 0x4000_0000_0000_0000_0000_0000_0000_0000) by (nonlinear_arith)
            requires
                -0x8000_0000_0000_0000 <= a <= 0x7fff_ffff_ffff_ffff,
                -0x8000_0000_0000_0000 <= b <= 0x7fff_ffff_ffff_ffff,
        ;
        Fixed { raw: clip_wide(floor_div(self.raw as i128 * other.raw as i128, ONE as i128)) }
    }

    fn over(self, other: Self) -> Self {
        Fixed { raw: quotient_exec(self.raw, other.raw) }
    }

    fn negate(self) -> Self {
        Fixed { raw: clip_wide(-(self.raw as i128)) }
    }

    fn magnitude(self) -> Self {
        if self.raw < 0 {
            Fixed { raw: clip_wide(-(self.raw as i128)) }
        } else {
            self
        }
    }

    fn root(self) -> Self {
        if self.raw < 0 {
            Fixed { raw: 0 }
        } else {
            let n: u128 = self.raw as u128 * ONE as u128;
            let r: u64 = floor_root_exec(n);
            proof {
                let rr = r as int;
                assert(rr < 0x8000_0000_0000_0000) by (nonlinear_arith)
                    requires
                        rr * rr <= n as int,
                        n < 0x1_0000_0000_0000_0000_0000_0000,
                        0 <= rr,
                ;
            }
            Fixed { raw: r as i64 }
        }
    }

    fn floor(self) -> Self {
        let q: i128 = floor_div(self.raw as i128, ONE as i128);
        Fixed { raw: clip_wide(q * ONE as i128) }
    }

    fn ceil(self) -> Self {
        let q: i128 = floor_div(-(self.raw as i128), ONE as i128);
        Fixed { raw: clip_wide(-(q * ONE as i128)) }
    }

    fn exp(self) -> Self {
        let mut r: Fixed = one().plus(self.over(Fixed { raw: 256 * ONE }));
        let mut n: u32 = 8;
        while n > 0
            invariant
                squared(r, n as nat) == self.exp_spec(),
            decreases n,
        {
            r = r.times(r);
            n = n - 1;
        }
        r
    }

    fn sin(self) -> Self {
        let v: Fixed = self.times(self);
        let c: Fixed = series_factor_exec(v, 42, one());
        let b: Fixed = series_factor_exec(v, 20, c);
        self.times(series_factor_exec(v, 6, b))
    }

    fn cos(self) -> Self {
        let v: Fixed = self.times(self);
        let c: Fixed = series_factor_exec(v, 30, one());
        let b: Fixed = series_factor_exec(v, 12, c);
        series_factor_exec(v, 2, b)
    }

    fn atan2(self, x: Self) -> Self {
        if self.magnitude().raw <= x.magnitude().raw {
            let a: Fixed = small_atan_exec(self.over(x));
            let half: Fixed = Fixed::ratio(3141592653589793, 1000000000000000);
            if x.raw >= 0 {
                a
            } else if self.raw < 0 {
                a.minus(half)
            } else {
                a.plus(half)
            }
        } else {
            let a: Fixed = small_atan_exec(x.over(self));
            let quarter: Fixed = Fixed::ratio(3141592653589793, 2000000000000000);
            if self.raw > 0 {
                quarter.minus(a)
            } else {
                quarter.negate().minus(a)
            }
        }
    }

    fn asin(self) -> Self {
        self.atan2(one().minus(self.times(self)).root())
    }

    fn acos(self) -> Self {
        one().minus(self.times(self)).root().atan2(self)
    }

    fn hypot(self, other: Self) -> Self {
        self.times(self).plus(other.times(other)).root()
    }

    fn rem_euclid(self, other: Self) -> Self {
        if other.raw == 0 {
            return Fixed { raw: 0 };
        }
        let d: u128 = if other.raw < 0 {
            (-(other.raw as i128)) as u128
        } else {
            other.raw as u128
        };
        let a: i128 = self.raw as i128;
        let r: u128 = if a >= 0 {
            a as u128 % d
        } else {
            let m: u128 = (-a) as u128 % d;
            if m == 0 {
                0
            } else {
                d - m
            }
        };
        proof {
            lemma_rem(self.raw as int, other.raw as int, d as int, r as int);
        }
        Fixed { raw: r as i64 }
    }

    fn finite(self) -> bool {
        true
    }

    fn to_index(self) -> i64 {
        if self.raw < 0 {
            let q: i128 = floor_div(-(self.raw as i128), ONE as i128);
            (-q) as i64
        } else {
            (self.raw as u64 / ONE as u64) as i64
        }
    }

    fn ratio(num: i64, den: i64) -> Self {
        Fixed { raw: quotient_exec(num, den) }
    }

    fn count(n: u64) -> Self {
        Fixed { raw: clip_wide(n as i128 * 65536) }
    }

    fn less(self, other: Self) -> bool {
        self.raw < other.raw
    }

    fn at_most(self, other: Self) -> bool {
        self.raw <= other.raw
    }
}

/// The arithmetic of [`Fixed`] keeps the order of distances.
pub proof fn law_fixed_lawful()
    ensures
        lawful::<Fixed>(),
{
    reveal(lawful);
    assert forall|a: Fixed, b: Fixed| 0 <= (#[trigger] gap_square(a, b)).key() by {
        let d = a.minus_spec(b).raw as int;
        assert(0 <= (d * d) / (ONE as int)) by (nonlinear_arith);
    }
    assert forall|a: Fixed| (#[trigger] gap_square(a, a)).key() == zero::<Fixed>().key() by {
        let d = a.minus_spec(a).raw as int;
        assert((d * d) / (ONE as int) == 0) by (nonlinear_arith)
            requires
                d == 0,
        ;
    }
    assert forall|a: Fixed, near: Fixed, far: Fixed|
        (a.key() <= near.key() <= far.key()) || (a.key() >= near.key() >= far.key()) implies (
    #[trigger] gap_square(a, near)).key() <= (#[trigger] gap_square(a, far)).key() by {
        let d = a.minus_spec(near).raw as int;
        let e = a.minus_spec(far).raw as int;
        assert((d * d) / (ONE as int) <= (e * e) / (ONE as int)) by (nonlinear_arith)
            requires
                (0 <= d <= e) || (e <= d <= 0),
        ;
    }
}

/// A number squared at least once is not negative.
pub proof fn lemma_squared(v: Fixed, n: nat)
    requires
        n > 0 || v.raw >= 0,
    ensures
        squared(v, n).raw >= 0,
    decreases n,
{
    if n > 0 {
        let r = v.raw as int;
        assert((r * r) / (ONE as int) >= 0) by (nonlinear_arith);
        lemma_squared(v.times_spec(v), (n - 1) as nat);
    }
}

/// One stays one when it is squared.
pub proof fn lemma_one_squared(n: nat)
    ensures
        squared((Fixed { raw: ONE }), n) == (Fixed { raw: ONE }),
    decreases n,
{
    if n > 0 {
        let e = Fixed { raw: ONE };
        assert(e.times_spec(e) == e);
        lemma_one_squared((n - 1) as nat);
    }
}

impl Widen<Fixed> for Fixed {
    open spec fn widen_spec(self) -> Fixed {
        self
    }

    open spec fn narrow_spec(w: Fixed) -> Self {
        w
    }

    fn widen(self) -> Fixed {
        self
    }

    fn narrow(w: Fixed) -> Self {
        w
    }
}

} // verus!
