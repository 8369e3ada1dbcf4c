//! What fixed-point arithmetic does in units.
use crate::fixed::{floor_root, is_floor_root, Fixed, ONE};
use crate::scalar::Scalar;
use vstd::prelude::*;

verus! {

/// Every number that is not negative has an integer root.
proof fn lemma_root_exists(n: int) -> (r: int)
    requires
        n >= 0,
    ensures
        is_floor_root(n, r),
    decreases n,
{
    if n == 0 {
        assert((0int + 1) * (0int + 1) == 1) by (nonlinear_arith);
        0
    } else {
        let r = lemma_root_exists(n - 1);
        assert((r + 1) * (r + 1) == r * r + 2 * r + 1) by (nonlinear_arith);
        let t = r + 1;
        assert((t + 1) * (t + 1) == t * t + 2 * t + 1) by (nonlinear_arith);
        if t * t <= n {
            t
        } else {
            r
        }
    }
}

/// The root of a number, in units.
pub proof fn law_root_in_units(a: Fixed)
    requires
        a.raw >= 0,
    ensures
        a.root_spec().raw >= 0,
        a.root_spec().raw * a.root_spec().raw <= a.raw * ONE,
        a.raw * ONE < (a.root_spec().raw + 1) * (a.root_spec().raw + 1),
{
    let n = a.raw * ONE;
    let w = lemma_root_exists(n);
    let r = floor_root(n);
    assert(is_floor_root(n, r));
    assert(r < 0x1_0000_0000_0000) by (nonlinear_arith)
        requires
            r * r <= n,
            r >= 0,
            n <= 0x7fff_ffff_ffff_ffff * 65536,
    ;
}

/// The square of a number, in units: rounded down, and never more.
proof fn lemma_square(a: Fixed)
    ensures
        0 <= a.times_spec(a).raw,
        a.times_spec(a).raw * ONE <= a.raw * a.raw,
        -0x40_0000_0000 <= a.raw <= 0x40_0000_0000 ==> a.raw * a.raw < a.times_spec(a).raw * ONE
            + ONE && a.times_spec(a).raw <= 0x1000_0000_0000_0000,
{
    let n = a.raw * a.raw;
    assert(n >= 0) by (nonlinear_arith)
        requires
            n == a.raw * a.raw,
    ;
    assert(-0x40_0000_0000 <= a.raw <= 0x40_0000_0000 ==> n <= 0x40_0000_0000 * 0x40_0000_0000)
        by (nonlinear_arith)
        requires
            n == a.raw * a.raw,
    ;
    assert(0x40_0000_0000 * 0x40_0000_0000 == 0x1000_0000_0000_0000 * 65536);
}

/// The root of a sum of two squares, in units: never more than the distance, and short of
/// it by the rounding only.
pub proof fn law_distance_in_units(a: Fixed, b: Fixed)
    ensures
        ({
            let d = a.times_spec(a).plus_spec(b.times_spec(b)).root_spec().raw as int;
            &&& 0 <= d
            &&& d * d <= a.raw * a.raw + b.raw * b.raw
            &&& -0x40_0000_0000 <= a.raw <= 0x40_0000_0000 && -0x40_0000_0000 <= b.raw
                <= 0x40_0000_0000 ==> a.raw * a.raw + b.raw * b.raw < (d + 1) * (d + 1) + 2 * ONE
        }),
{
    lemma_square(a);
    lemma_square(b);
    law_root_in_units(a.times_spec(a).plus_spec(b.times_spec(b)));
}

/// Products with a number that is not negative keep the order.
pub proof fn law_times_in_order(w: Fixed, a: Fixed, b: Fixed)
    requires
        w.raw >= 0,
        a.raw <= b.raw,
    ensures
        w.times_spec(a).raw <= w.times_spec(b).raw,
        a.times_spec(w).raw <= b.times_spec(w).raw,
        a.raw >= 0 ==> w.times_spec(a).raw >= 0 && a.times_spec(w).raw >= 0,
{
    let (x, y, z) = (w.raw as int, a.raw as int, b.raw as int);
    assert(x * y <= x * z && y * x == x * y && z * x == x * z) by (nonlinear_arith)
        requires
            x >= 0,
            y <= z,
    ;
    assert(y >= 0 ==> x * y >= 0) by (nonlinear_arith)
        requires
            x >= 0,
    ;
}

/// Quotients by a positive number keep the order.
pub proof fn law_over_in_order(a: Fixed, b: Fixed, d: Fixed)
    requires
        d.raw > 0,
        a.raw <= b.raw,
    ensures
        a.over_spec(d).raw <= b.over_spec(d).raw,
        a.raw >= 0 ==> a.over_spec(d).raw >= 0,
{
    let (x, y, z) = (a.raw as int, b.raw as int, d.raw as int);
    assert((x * ONE) / z <= (y * ONE) / z) by (nonlinear_arith)
        requires
            x <= y,
            z > 0,
            ONE == 65536,
    ;
    assert(x >= 0 ==> (x * ONE) / z >= 0) by (nonlinear_arith)
        requires
            z > 0,
            ONE == 65536,
    ;
}

} // verus!
