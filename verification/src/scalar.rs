//! The numbers that the library computes with.
//!
//! Every algorithm of the crate is generic over [`Scalar`], an ordered number
//! type with the arithmetic of a machine number: each operation is total,
//! deterministic and possibly inexact. The contracts of the library name the
//! result of each operation (`plus_spec`, `times_spec`, ...). Where a contract
//! rests on more than the order, it says so by [`lawful`], a few monotonicity
//! laws that hold of rounded arithmetic too; [`crate::fixed::Fixed`] is proved
//! to have them.
use vstd::prelude::*;

verus! {

/// An ordered machine number.
///
/// `key` maps the numbers to the integers in order; two numbers with the same
/// key are equal in every comparison. A value that is not a number (`is_num`
/// is false) compares false with everything.
///
/// The specification functions are left open here, so that a type from outside
/// verified code is described by its executable methods alone.
pub trait Scalar: Sized + Copy {
    /// The value takes part in the order.
    open spec fn is_num(self) -> bool {
        arbitrary()
    }

    /// The value is a number and bounded: differences of such values are numbers.
    open spec fn is_finite(self) -> bool {
        arbitrary()
    }

    /// The position of a number in the order.
    open spec fn key(self) -> int {
        arbitrary()
    }

    /// The sum.
    open spec fn plus_spec(self, other: Self) -> Self {
        arbitrary()
    }

    /// The difference.
    open spec fn minus_spec(self, other: Self) -> Self {
        arbitrary()
    }

    /// The product.
    open spec fn times_spec(self, other: Self) -> Self {
        arbitrary()
    }

    /// The quotient.
    open spec fn over_spec(self, other: Self) -> Self {
        arbitrary()
    }

    /// The number with the opposite sign.
    open spec fn negate_spec(self) -> Self {
        arbitrary()
    }

    /// The absolute value.
    open spec fn magnitude_spec(self) -> Self {
        arbitrary()
    }

    /// The square root.
    open spec fn root_spec(self) -> Self {
        arbitrary()
    }

    /// The largest integral value that is not above the number.
    open spec fn floor_spec(self) -> Self {
        arbitrary()
    }

    /// The smallest integral value that is not below the number.
    open spec fn ceil_spec(self) -> Self {
        arbitrary()
    }

    /// The exponential function.
    open spec fn exp_spec(self) -> Self {
        arbitrary()
    }

    /// The sine of an angle in radians.
    open spec fn sin_spec(self) -> Self {
        arbitrary()
    }

    /// The cosine of an angle in radians.
    open spec fn cos_spec(self) -> Self {
        arbitrary()
    }

    /// The angle of the point at `x`, `self`, in radians.
    open spec fn atan2_spec(self, x: Self) -> Self {
        arbitrary()
    }

    /// The angle whose sine is the number.
    open spec fn asin_spec(self) -> Self {
        arbitrary()
    }

    /// The angle whose cosine is the number.
    open spec fn acos_spec(self) -> Self {
        arbitrary()
    }

    /// The distance of the point at `self`, `other` from the origin.
    open spec fn hypot_spec(self, other: Self) -> Self {
        arbitrary()
    }

    /// The remainder of Euclidean division.
    open spec fn rem_spec(self, other: Self) -> Self {
        arbitrary()
    }

    /// The number without its fractional part, as an integer.
    open spec fn to_index_spec(self) -> i64 {
        arbitrary()
    }

    /// The number that stands for `num / den`.
    open spec fn ratio_spec(num: int, den: int) -> Self {
        arbitrary()
    }

    /// `self + other`.
    fn plus(self, other: Self) -> (r: Self)
        ensures
            r == self.plus_spec(other),
    ;

    /// `self - other`.
    fn minus(self, other: Self) -> (r: Self)
        ensures
            r == self.minus_spec(other),
    ;

    /// `self * other`.
    fn times(self, other: Self) -> (r: Self)
        ensures
            r == self.times_spec(other),
    ;

    /// `self / other`.
    fn over(self, other: Self) -> (r: Self)
        ensures
            r == self.over_spec(other),
    ;

    /// `-self`.
    fn negate(self) -> (r: Self)
        ensures
            r == self.negate_spec(),
    ;

    /// `|self|`.
    fn magnitude(self) -> (r: Self)
        ensures
            r == self.magnitude_spec(),
    ;

    /// The square root of `self`.
    fn root(self) -> (r: Self)
        ensures
            r == self.root_spec(),
    ;

    /// Rounds down to an integral value.
    fn floor(self) -> (r: Self)
        ensures
            r == self.floor_spec(),
    ;

    /// Rounds up to an integral value.
    fn ceil(self) -> (r: Self)
        ensures
            r == self.ceil_spec(),
    ;

    /// The exponential of `self`.
    fn exp(self) -> (r: Self)
        ensures
            r == self.exp_spec(),
    ;

    /// The sine of `self` radians.
    fn sin(self) -> (r: Self)
        ensures
            r == self.sin_spec(),
    ;

    /// The cosine of `self` radians.
    fn cos(self) -> (r: Self)
        ensures
            r == self.cos_spec(),
    ;

    /// The angle of the point at `x`, `self`, in radians.
    fn atan2(self, x: Self) -> (r: Self)
        ensures
            r == self.atan2_spec(x),
    ;

    /// The angle whose sine is `self`, in radians.
    fn asin(self) -> (r: Self)
        ensures
            r == self.asin_spec(),
    ;

    /// The angle whose cosine is `self`, in radians.
    fn acos(self) -> (r: Self)
        ensures
            r == self.acos_spec(),
    ;

    /// The length of the hypotenuse over `self` and `other`.
    fn hypot(self, other: Self) -> (r: Self)
        ensures
            r == self.hypot_spec(other),
    ;

    /// The remainder of `self / other` that is not negative.
    fn rem_euclid(self, other: Self) -> (r: Self)
        ensures
            r == self.rem_spec(other),
    ;

    /// Tests for a finite number.
    fn finite(self) -> (r: bool)
        ensures
            r == self.is_finite(),
    ;

    /// Drops the fractional part and saturates to the range of `i64`.
    fn to_index(self) -> (r: i64)
        ensures
            r == self.to_index_spec(),
    ;

    /// The number nearest to `num / den`.
    fn ratio(num: i64, den: i64) -> (r: Self)
        ensures
            r == Self::ratio_spec(num as int, den as int),
    ;

    /// The number nearest to `n`.
    fn count(n: u64) -> (r: Self)
        ensures
            r == Self::ratio_spec(n as int, 1),
    ;

    /// `self < other`.
    fn less(self, other: Self) -> (r: bool)
        ensures
            r == (self.is_num() && other.is_num() && self.key() < other.key()),
    ;

    /// `self <= other`.
    fn at_most(self, other: Self) -> (r: bool)
        ensures
            r == (self.is_num() && other.is_num() && self.key() <= other.key()),
    ;
}

/// A narrow number type with a wider companion, as single and double precision
/// are.
pub trait Widen<W: Scalar>: Scalar {
    /// The wide number of the same value.
    open spec fn widen_spec(self) -> W {
        arbitrary()
    }

    /// The narrow number that stands for a wide one.
    open spec fn narrow_spec(w: W) -> Self {
        arbitrary()
    }

    /// Converts to the wide type.
    fn widen(self) -> (r: W)
        ensures
            r == self.widen_spec(),
    ;

    /// Rounds a wide number to the narrow type.
    fn narrow(w: W) -> (r: Self)
        ensures
            r == Self::narrow_spec(w),
    ;
}

/// The arithmetic of `S` keeps the order of distances: differences of finite
/// values have squares that are numbers, not negative, and grow with the gap,
/// and sums of such squares grow with their terms.
#[verifier::opaque]
pub open spec fn lawful<S: Scalar>() -> bool {
    &&& zero::<S>().is_num()
    &&& forall|a: S| #[trigger] a.is_finite() ==> a.is_num()
    &&& forall|a: S, b: S, c: S|
        #[trigger] a.is_finite() && #[trigger] c.is_finite() && b.is_num() && a.key() <= (
        #[trigger] b.key()) <= c.key() ==> b.is_finite()
    &&& forall|a: S, b: S|
        a.is_finite() && b.is_finite() ==> (#[trigger] gap_square(a, b)).is_num() && zero::<S>().key()
            <= gap_square(a, b).key()
    &&& forall|a: S| a.is_finite() ==> (#[trigger] gap_square(a, a)).key() == zero::<S>().key()
    &&& forall|a: S, near: S, far: S|
        a.is_finite() && near.is_finite() && far.is_finite() && ((a.key() <= near.key() <= far.key())
            || (a.key() >= near.key() >= far.key())) ==> (#[trigger] gap_square(a, near)).key() <= (
        #[trigger] gap_square(a, far)).key()
    &&& forall|a: S, b: S, c: S, d: S|
        is_amount(a) && is_amount(b) && is_amount(c) && is_amount(d) && a.key() <= c.key() && b.key()
            <= d.key() ==> is_amount(#[trigger] a.plus_spec(b)) && is_amount(
            #[trigger] c.plus_spec(d),
        ) && a.plus_spec(b).key() <= c.plus_spec(d).key()
    &&& forall|a: S|
        is_amount(a) ==> (#[trigger] zero::<S>().plus_spec(a)).key() == a.key()
    &&& forall|a: S| is_amount(a) ==> (#[trigger] a.plus_spec(zero::<S>())).key() == a.key()
}

/// A number that is not negative.
pub open spec fn is_amount<S: Scalar>(a: S) -> bool {
    a.is_num() && zero::<S>().key() <= a.key()
}

/// Finite values are numbers.
pub proof fn law_finite_is_num<S: Scalar>(a: S)
    requires
        lawful::<S>(),
        a.is_finite(),
    ensures
        a.is_num(),
{
    reveal(lawful);
}

/// A number between finite values is finite.
pub proof fn law_finite_between<S: Scalar>(a: S, b: S, c: S)
    requires
        lawful::<S>(),
        a.is_finite(),
        b.is_num(),
        c.is_finite(),
        a.key() <= b.key() <= c.key(),
    ensures
        b.is_finite(),
{
    reveal(lawful);
}

/// The squared difference of finite values is a number that is not negative.
pub proof fn law_gap_square<S: Scalar>(a: S, b: S)
    requires
        lawful::<S>(),
        a.is_finite(),
        b.is_finite(),
    ensures
        is_amount(gap_square(a, b)),
{
    reveal(lawful);
}

/// A value has no gap from itself.
pub proof fn law_no_gap<S: Scalar>(a: S)
    requires
        lawful::<S>(),
        a.is_finite(),
    ensures
        gap_square(a, a).key() == zero::<S>().key(),
{
    reveal(lawful);
}

/// Moving the far end of a gap away does not shrink its square.
pub proof fn law_gap_monotone<S: Scalar>(a: S, near: S, far: S)
    requires
        lawful::<S>(),
        a.is_finite(),
        near.is_finite(),
        far.is_finite(),
        (a.key() <= near.key() <= far.key()) || (a.key() >= near.key() >= far.key()),
    ensures
        gap_square(a, near).key() <= gap_square(a, far).key(),
{
    reveal(lawful);
}

/// Sums of numbers that are not negative grow with their terms.
pub proof fn law_plus_monotone<S: Scalar>(a: S, b: S, c: S, d: S)
    requires
        lawful::<S>(),
        is_amount(a),
        is_amount(b),
        is_amount(c),
        is_amount(d),
        a.key() <= c.key(),
        b.key() <= d.key(),
    ensures
        is_amount(a.plus_spec(b)),
        is_amount(c.plus_spec(d)),
        a.plus_spec(b).key() <= c.plus_spec(d).key(),
{
    reveal(lawful);
}

/// Adding zero changes nothing.
pub proof fn law_plus_zero<S: Scalar>(a: S)
    requires
        lawful::<S>(),
        is_amount(a),
    ensures
        zero::<S>().plus_spec(a).key() == a.key(),
        a.plus_spec(zero::<S>()).key() == a.key(),
        is_amount(zero::<S>()),
{
    reveal(lawful);
}

/// `a < b`: false when either value is not a number.
pub open spec fn lt<S: Scalar>(a: S, b: S) -> bool {
    a.is_num() && b.is_num() && a.key() < b.key()
}

/// `a <= b`: false when either value is not a number.
pub open spec fn le<S: Scalar>(a: S, b: S) -> bool {
    a.is_num() && b.is_num() && a.key() <= b.key()
}

/// Tests for `a < b`.
#[verifier::allow_in_spec]
pub fn is_less<S: Scalar>(a: S, b: S) -> bool
    returns
        lt(a, b),
{
    a.less(b)
}

/// Tests for `a <= b`.
#[verifier::allow_in_spec]
pub fn is_at_most<S: Scalar>(a: S, b: S) -> bool
    returns
        le(a, b),
{
    a.at_most(b)
}

/// The number zero.
pub open spec fn zero<S: Scalar>() -> S {
    S::ratio_spec(0, 1)
}

/// The square of `a - b`.
pub open spec fn gap_square<S: Scalar>(a: S, b: S) -> S {
    a.minus_spec(b).times_spec(a.minus_spec(b))
}

/// The smaller of two values, the first when neither is smaller.
pub open spec fn min_spec<S: Scalar>(a: S, b: S) -> S {
    if lt(b, a) {
        b
    } else {
        a
    }
}

/// The larger of two values, the first when neither is larger.
pub open spec fn max_spec<S: Scalar>(a: S, b: S) -> S {
    if lt(a, b) {
        b
    } else {
        a
    }
}

/// The smaller of two values.
pub fn min_of<S: Scalar>(a: S, b: S) -> (r: S)
    ensures
        r == min_spec(a, b),
{
    if b.less(a) {
        b
    } else {
        a
    }
}

/// The larger of two values.
pub fn max_of<S: Scalar>(a: S, b: S) -> (r: S)
    ensures
        r == max_spec(a, b),
{
    if a.less(b) {
        b
    } else {
        a
    }
}

/// The smaller of two values; a value that is not a number gives way.
pub open spec fn lesser_spec<S: Scalar>(a: S, b: S) -> S {
    if !a.is_num() || lt(b, a) {
        b
    } else {
        a
    }
}

/// The larger of two values; a value that is not a number gives way.
pub open spec fn greater_spec<S: Scalar>(a: S, b: S) -> S {
    if !a.is_num() || lt(a, b) {
        b
    } else {
        a
    }
}

/// The smaller of two values, the other one for a value that is not a number.
pub fn lesser_of<S: Scalar>(a: S, b: S) -> (r: S)
    ensures
        r == lesser_spec(a, b),
{
    if !a.at_most(a) || b.less(a) {
        b
    } else {
        a
    }
}

/// The larger of two values, the other one for a value that is not a number.
pub fn greater_of<S: Scalar>(a: S, b: S) -> (r: S)
    ensures
        r == greater_spec(a, b),
{
    if !a.at_most(a) || a.less(b) {
        b
    } else {
        a
    }
}

/// `v` moved into the range from `lo` to `hi`.
pub open spec fn clamp_spec<S: Scalar>(v: S, lo: S, hi: S) -> S {
    if lt(v, lo) {
        lo
    } else if lt(hi, v) {
        hi
    } else {
        v
    }
}

/// Moves `v` into the range from `lo` to `hi`.
pub fn clamp_to<S: Scalar>(v: S, lo: S, hi: S) -> (r: S)
    requires
        le(lo, hi),
    ensures
        r == clamp_spec(v, lo, hi),
        v.is_num() ==> le(lo, r) && le(r, hi),
{
    bring_within(v, lo, hi)
}

/// Moves `v` up to `lo`, or down to `hi` when it is not below `lo`.
pub fn bring_within<S: Scalar>(v: S, lo: S, hi: S) -> (r: S)
    ensures
        r == clamp_spec(v, lo, hi),
{
    if v.less(lo) {
        lo
    } else if hi.less(v) {
        hi
    } else {
        v
    }
}

/// Half the circumference of the unit circle.
pub open spec fn pi<S: Scalar>() -> S {
    S::ratio_spec(3141592653589793, 1000000000000000)
}

/// The circumference of the unit circle.
pub open spec fn tau<S: Scalar>() -> S {
    S::ratio_spec(6283185307179586, 1000000000000000)
}

/// Half the circumference of the unit circle.
pub fn get_pi<S: Scalar>() -> (r: S)
    ensures
        r == pi::<S>(),
{
    S::ratio(3141592653589793, 1000000000000000)
}

/// The circumference of the unit circle.
pub fn get_tau<S: Scalar>() -> (r: S)
    ensures
        r == tau::<S>(),
{
    S::ratio(6283185307179586, 1000000000000000)
}

/// An angle in degrees as radians.
pub open spec fn radians<S: Scalar>(deg: S) -> S {
    deg.times_spec(pi::<S>().over_spec(S::ratio_spec(180, 1)))
}

/// Converts an angle from degrees to radians.
pub fn to_radians<S: Scalar>(deg: S) -> (r: S)
    ensures
        r == radians(deg),
{
    deg.times(get_pi::<S>().over(S::ratio(180, 1)))
}

/// The laws of a commutative ring at three numbers.
pub open spec fn ring_laws<S: Scalar>(a: S, b: S, c: S) -> bool {
    &&& a.plus_spec(b) == b.plus_spec(a)
    &&& a.plus_spec(b).plus_spec(c) == a.plus_spec(b.plus_spec(c))
    &&& a.plus_spec(zero()) == a
    &&& a.times_spec(b) == b.times_spec(a)
    &&& a.times_spec(b).times_spec(c) == a.times_spec(b.times_spec(c))
    &&& a.times_spec(whole(1)) == a
    &&& a.times_spec(zero()) == zero::<S>()
    &&& a.plus_spec(b).times_spec(c) == a.times_spec(c).plus_spec(b.times_spec(c))
    &&& a.minus_spec(b) == a.plus_spec(b.negate_spec())
    &&& a.plus_spec(a.negate_spec()) == zero::<S>()
}

/// Under `value` the numbers of `S` are real numbers, each number another, and sums,
/// differences and products are those of the reals.
#[verifier::opaque]
pub open spec fn is_reading<S: Scalar>(value: spec_fn(S) -> real) -> bool {
    &&& forall|a: S, b: S| value(#[trigger] a.plus_spec(b)) == value(a) + value(b)
    &&& forall|a: S, b: S| value(#[trigger] a.minus_spec(b)) == value(a) - value(b)
    &&& forall|a: S, b: S| value(#[trigger] a.times_spec(b)) == value(a) * value(b)
    &&& forall|a: S| value(#[trigger] a.negate_spec()) == -value(a)
    &&& forall|n: int| value(#[trigger] S::ratio_spec(n, 1)) == n as real
    &&& forall|a: S, b: S| #[trigger] value(a) == #[trigger] value(b) ==> a == b
}

/// The arithmetic of `S` is exact. Rounded arithmetic is so up to rounding only.
#[verifier::opaque]
pub open spec fn exact_arithmetic<S: Scalar>() -> bool {
    exists|value: spec_fn(S) -> real| #[trigger] is_reading(value)
}

/// Exact arithmetic has the laws of a ring at any three numbers.
pub proof fn law_exact_is_ring<S: Scalar>(a: S, b: S, c: S)
    requires
        exact_arithmetic::<S>(),
    ensures
        ring_laws(a, b, c),
{
    reveal(exact_arithmetic);
    reveal(is_reading);
    let value = choose|value: spec_fn(S) -> real| #[trigger] is_reading(value);
    let x = value(a);
    let y = value(b);
    let z = value(c);
    assert(x * y == y * x) by (nonlinear_arith);
    assert((x * y) * z == x * (y * z)) by (nonlinear_arith);
    assert((x + y) * z == x * z + y * z) by (nonlinear_arith);
    let one = 1int as real;
    let none = 0int as real;
    assert(x * one == x && x * none == none) by (nonlinear_arith)
        requires
            one == 1int as real,
            none == 0int as real,
    ;
    assert(value(a.plus_spec(b)) == value(b.plus_spec(a)));
    assert(value(a.plus_spec(b).plus_spec(c)) == value(a.plus_spec(b.plus_spec(c))));
    assert(value(a.plus_spec(zero())) == value(a));
    assert(value(a.times_spec(b)) == value(b.times_spec(a)));
    assert(value(a.times_spec(b).times_spec(c)) == value(a.times_spec(b.times_spec(c))));
    assert(value(a.times_spec(whole(1))) == value(a));
    assert(value(a.times_spec(zero())) == value(zero::<S>()));
    assert(value(a.plus_spec(b).times_spec(c)) == value(
        a.times_spec(c).plus_spec(b.times_spec(c)),
    ));
    assert(value(a.minus_spec(b)) == value(a.plus_spec(b.negate_spec())));
    assert(value(a.plus_spec(a.negate_spec())) == value(zero::<S>()));
}

/// In exact arithmetic a difference takes back what a sum added.
pub proof fn law_exact_undone<S: Scalar>(a: S, b: S)
    requires
        exact_arithmetic::<S>(),
    ensures
        a.plus_spec(b).minus_spec(a) == b,
{
    law_exact_is_ring(a.plus_spec(b), a, a);
    law_exact_is_ring(a, b, a.negate_spec());
    law_exact_is_ring(b, a, a.negate_spec());
    law_exact_is_ring(b, a, a);
}

/// The number of an integer.
pub open spec fn whole<S: Scalar>(n: int) -> S {
    S::ratio_spec(n, 1)
}

} // verus!
