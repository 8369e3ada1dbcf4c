//! Exact sums of ones and square roots of two.
//!
//! The length of a path on a grid is `a + b * sqrt(2)` for the number `a` of its
//! straight and the number `b` of its diagonal steps. Such lengths are added and
//! compared without rounding.
use vstd::prelude::*;

verus! {

/// The number `a + b * sqrt(2)`.
#[derive(Clone, Copy, Debug, PartialEq, Eq, Structural)]
pub struct Root2 {
    pub a: i64,
    pub b: i64,
}

/// `a + b * sqrt(2)` is positive.
#[verifier::opaque]
pub open spec fn positive(a: int, b: int) -> bool {
    if a >= 0 && b >= 0 {
        a > 0 || b > 0
    } else if a > 0 {
        a * a > 2 * (b * b)
    } else if b > 0 {
        a * a < 2 * (b * b)
    } else {
        false
    }
}

/// `a + b * sqrt(2) < c + d * sqrt(2)`.
pub open spec fn below(a: int, b: int, c: int, d: int) -> bool {
    positive(c - a, d - b)
}

/// `a + b * sqrt(2) <= c + d * sqrt(2)`.
pub open spec fn upto(a: int, b: int, c: int, d: int) -> bool {
    below(a, b, c, d) || (a == c && b == d)
}

/// The square root of two is not a fraction.
proof fn lemma_irrational(a: int, b: int)
    requires
        a >= 0,
        b >= 0,
        a * a == 2 * (b * b),
    ensures
        a == 0,
        b == 0,
    decreases a,
{
    if a == 0 {
        assert(b == 0) by (nonlinear_arith)
            requires
                b >= 0,
                0 == 2 * (b * b),
        ;
    } else {
        let c = a / 2;
        assert(a == 2 * c) by {
            if a == 2 * c + 1 {
                assert(a * a == 2 * (2 * (c * c) + 2 * c) + 1) by (nonlinear_arith)
                    requires
                        a == 2 * c + 1,
                ;
            }
        }
        assert(b * b == 2 * (c * c)) by (nonlinear_arith)
            requires
                a == 2 * c,
                a * a == 2 * (b * b),
        ;
        assert(b < a) by (nonlinear_arith)
            requires
                a > 0,
                b >= 0,
                a * a == 2 * (b * b),
        ;
        lemma_irrational(b, c);
        assert(false) by (nonlinear_arith)
            requires
                a > 0,
                b == 0,
                a * a == 2 * (b * b),
        ;
    }
}

/// A number is positive, zero or the opposite of a positive one.
pub proof fn lemma_trichotomy(a: int, b: int)
    ensures
        positive(a, b) || positive(-a, -b) || (a == 0 && b == 0),
        !(positive(a, b) && positive(-a, -b)),
        positive(a, b) ==> !(a == 0 && b == 0),
{
    reveal(positive);
    let a2 = if a < 0 {
        -a
    } else {
        a
    };
    let b2 = if b < 0 {
        -b
    } else {
        b
    };
    assert((-a) * (-a) == a * a && (-b) * (-b) == b * b && a2 * a2 == a * a && b2 * b2 == b * b)
        by (nonlinear_arith)
        requires
            a2 == a || a2 == -a,
            b2 == b || b2 == -b,
    ;
    if a * a == 2 * (b * b) {
        lemma_irrational(a2, b2);
    }
}

/// Adding up `e <= f * sqrt(2)` and `c <= d * sqrt(2)`.
proof fn lemma_root_sum(e: int, f: int, c: int, d: int)
    requires
        e >= 0,
        f >= 0,
        c >= 0,
        d >= 0,
        e * e <= 2 * (f * f),
        c * c <= 2 * (d * d),
    ensures
        (e + c) * (e + c) <= 2 * ((f + d) * (f + d)),
{
    let x = e * c;
    let y = 2 * (f * d);
    assert(x * x <= y * y) by (nonlinear_arith)
        requires
            x == e * c,
            y == 2 * (f * d),
            0 <= e * e <= 2 * (f * f),
            0 <= c * c <= 2 * (d * d),
    {
        assert(x * x == (e * e) * (c * c));
        assert(y * y == (2 * (f * f)) * (2 * (d * d)));
        assert((e * e) * (c * c) <= (2 * (f * f)) * (2 * (d * d)));
    }
    assert(x <= y) by (nonlinear_arith)
        requires
            x * x <= y * y,
            y >= 0,
            y == 2 * (f * d),
            f >= 0,
            d >= 0,
    ;
    assert((e + c) * (e + c) == e * e + 2 * (e * c) + c * c) by (nonlinear_arith);
    assert((f + d) * (f + d) == f * f + 2 * (f * d) + d * d) by (nonlinear_arith);
}

/// Adding up `e >= f * sqrt(2)` and `c >= d * sqrt(2)`.
proof fn lemma_root_sum_above(e: int, f: int, c: int, d: int)
    requires
        e >= 0,
        f >= 0,
        c >= 0,
        d >= 0,
        e * e >= 2 * (f * f),
        c * c >= 2 * (d * d),
    ensures
        (e + c) * (e + c) >= 2 * ((f + d) * (f + d)),
{
    let x = e * c;
    let y = 2 * (f * d);
    assert(x * x >= y * y) by (nonlinear_arith)
        requires
            x == e * c,
            y == 2 * (f * d),
            e * e >= 2 * (f * f) >= 0,
            c * c >= 2 * (d * d) >= 0,
    {
        assert(x * x == (e * e) * (c * c));
        assert(y * y == (2 * (f * f)) * (2 * (d * d)));
        assert((e * e) * (c * c) >= (2 * (f * f)) * (2 * (d * d)));
    }
    assert(x >= y) by (nonlinear_arith)
        requires
            x * x >= y * y,
            x >= 0,
            y >= 0,
            x == e * c,
            e >= 0,
            c >= 0,
            y == 2 * (f * d),
            f >= 0,
            d >= 0,
    ;
    assert((e + c) * (e + c) == e * e + 2 * (e * c) + c * c) by (nonlinear_arith);
    assert((f + d) * (f + d) == f * f + 2 * (f * d) + d * d) by (nonlinear_arith);
}

/// The number is positive or zero, case by case without division by sign.
proof fn lemma_sign(a: int, b: int)
    ensures
        a >= 0 && b <= 0 && !positive(a, b) && !(a == 0 && b == 0) ==> a * a < 2 * (b * b),
        a <= 0 && b >= 0 && !positive(a, b) && !(a == 0 && b == 0) ==> a * a > 2 * (b * b),
        a >= 0 && b <= 0 && positive(a, b) ==> a * a > 2 * (b * b),
        a <= 0 && b >= 0 && positive(a, b) ==> a * a < 2 * (b * b),
{
    reveal(positive);
    lemma_trichotomy(a, b);
    assert((-a) * (-a) == a * a && (-b) * (-b) == b * b) by (nonlinear_arith);
    assert(a > 0 ==> a * a > 0) by (nonlinear_arith);
    assert(a < 0 ==> a * a > 0) by (nonlinear_arith);
    assert(b > 0 ==> b * b > 0) by (nonlinear_arith);
    assert(b < 0 ==> b * b > 0) by (nonlinear_arith);
    assert(b == 0 ==> b * b == 0) by (nonlinear_arith);
    assert(a == 0 ==> a * a == 0) by (nonlinear_arith);
}

/// Sums of positive numbers are positive.
pub proof fn lemma_positive_sum(a: int, b: int, c: int, d: int)
    requires
        positive(a, b),
        positive(c, d),
    ensures
        positive(a + c, b + d),
{
    reveal(positive);
    let s = a + c;
    let t = b + d;
    lemma_sign(a, b);
    lemma_sign(c, d);
    lemma_sign(s, t);
    assert((-a) * (-a) == a * a && (-b) * (-b) == b * b && (-c) * (-c) == c * c && (-d) * (-d) == d
        * d && (-s) * (-s) == s * s && (-t) * (-t) == t * t) by (nonlinear_arith);
    if !positive(s, t) {
        lemma_trichotomy(s, t);
        if a >= 0 && b >= 0 && c >= 0 && d >= 0 {
            assert(false);
        } else if s >= 0 && t <= 0 {
            // s <= -t * sqrt(2) although both terms are above
            if b <= 0 && d <= 0 {
                lemma_root_sum_above(a, -b, c, -d);
                lemma_irrational_eq(s, -t);
                if s == 0 && t == 0 {
                    assert(false);
                }
            } else if b <= 0 {
                // c + d * sqrt(2) > 0 with d > 0
                if c >= 0 {
                    // a == s - c, -b == -t + d
                    lemma_monotone_square(a, s);
                    lemma_monotone_square(-t, -b);
                } else {
                    lemma_root_sum(s, -t, -c, d);
                }
            } else {
                if a >= 0 {
                    lemma_monotone_square(c, s);
                    lemma_monotone_square(-t, -d);
                } else {
                    lemma_root_sum(s, -t, -a, b);
                }
            }
        } else if s <= 0 && t >= 0 {
            if a <= 0 && c <= 0 {
                lemma_root_sum(-a, b, -c, d);
                lemma_irrational_eq(-s, t);
                if s == 0 && t == 0 {
                    assert(false);
                }
            } else if a <= 0 {
                if d >= 0 {
                    lemma_monotone_square(-s, -a);
                    lemma_monotone_square(b, t);
                } else {
                    lemma_root_sum_above(-s, t, c, -d);
                }
            } else {
                if b >= 0 {
                    lemma_monotone_square(-s, -c);
                    lemma_monotone_square(d, t);
                } else {
                    lemma_root_sum_above(-s, t, a, -b);
                }
            }
        } else if s < 0 && t < 0 {
            // one term has its first part negative and the other its second
            if a < 0 && d < 0 {
                lemma_monotone_square(c, -a);
                lemma_monotone_square(b, -d);
            } else if b < 0 && c < 0 {
                lemma_monotone_square(a, -c);
                lemma_monotone_square(d, -b);
            }
        }
    }
}

proof fn lemma_irrational_eq(a: int, b: int)
    requires
        a >= 0,
        b >= 0,
    ensures
        a * a == 2 * (b * b) ==> a == 0 && b == 0,
{
    if a * a == 2 * (b * b) {
        lemma_irrational(a, b);
    }
}

proof fn lemma_monotone_square(a: int, b: int)
    requires
        0 <= a <= b,
    ensures
        a * a <= b * b,
        a < b ==> a * a < b * b,
{
    assert(a * a <= b * b) by (nonlinear_arith)
        requires
            0 <= a <= b,
    ;
    assert(a < b ==> a * a < b * b) by (nonlinear_arith)
        requires
            0 <= a <= b,
    ;
}

/// The order is transitive.
pub proof fn lemma_below_trans(a: int, b: int, c: int, d: int, e: int, f: int)
    requires
        upto(a, b, c, d),
        upto(c, d, e, f),
    ensures
        upto(a, b, e, f),
        below(a, b, c, d) || below(c, d, e, f) ==> below(a, b, e, f),
{
    if below(a, b, c, d) && below(c, d, e, f) {
        lemma_positive_sum(c - a, d - b, e - c, f - d);
    }
}

/// Limit of the two parts of a number that can be compared.
pub const PART_LIMIT: i64 = 0x4000_0000_0000_0000;

impl Root2 {
    /// The parts are small enough for comparisons.
    pub open spec fn small(self) -> bool {
        -PART_LIMIT < self.a < PART_LIMIT && -PART_LIMIT < self.b < PART_LIMIT
    }

    /// `self < other`.
    pub open spec fn lt(self, other: Root2) -> bool {
        below(self.a as int, self.b as int, other.a as int, other.b as int)
    }

    /// `self <= other`.
    pub open spec fn le(self, other: Root2) -> bool {
        self.lt(other) || self == other
    }

    /// Any two numbers are in order one way or the other.
    pub proof fn lemma_total(self, other: Root2)
        ensures
            self.le(other) || other.le(self),
            self.lt(other) <==> !other.le(self),
    {
        lemma_trichotomy(other.a - self.a, other.b - self.b);
    }

    /// The order is transitive.
    pub proof fn lemma_trans(self, other: Root2, third: Root2)
        requires
            self.le(other),
            other.le(third),
        ensures
            self.le(third),
            self.lt(other) || other.lt(third) ==> self.lt(third),
    {
        lemma_below_trans(
            self.a as int,
            self.b as int,
            other.a as int,
            other.b as int,
            third.a as int,
            third.b as int,
        );
    }

    /// Compares two numbers.
    pub fn less(self, other: Root2) -> (r: bool)
        requires
            self.small(),
            other.small(),
        ensures
            r == self.lt(other),
    {
        proof {
            reveal(positive);
        }
        let a: i128 = other.a as i128 - self.a as i128;
        let b: i128 = other.b as i128 - self.b as i128;
        assert(a * a < 0x4000_0000_0000_0000_0000_0000_0000_0000 && 2 * (b * b)
            < 0x8000_0000_0000_0000_0000_0000_0000_0000 && 0 <= a * a && 0 <= b * b)
            by (nonlinear_arith)
            requires
                -0x8000_0000_0000_0000 < a < 0x8000_0000_0000_0000,
                -0x8000_0000_0000_0000 < b < 0x8000_0000_0000_0000,
        ;
        if a >= 0 && b >= 0 {
            a > 0 || b > 0
        } else if a > 0 {
            a * a > 2 * (b * b)
        } else if b > 0 {
            a * a < 2 * (b * b)
        } else {
            false
        }
    }
}

} // verus!
