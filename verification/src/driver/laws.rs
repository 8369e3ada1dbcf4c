//! Laws of the times of points.
use super::{micros, packet_points, point_offset, RawPoint, INVALID_REFLECTIVITY};
use crate::scalar::{Scalar, Widen};
use vstd::prelude::*;

verus! {

/// The points of a packet are equally far apart in time, the first at its begin, as long as
/// the times fit.
pub proof fn law_points_evenly_timed(base: u32, interval: u16, k: int)
    requires
        k >= 0,
        base + (interval as int / 10) * (k + 1) <= u32::MAX,
    ensures
        point_offset(base, interval, 0) == base,
        point_offset(base, interval, k + 1) - point_offset(base, interval, k) == interval as int / 10,
{
    let s = interval as int / 10;
    assert(s * (k + 1) == s * k + s && s * 0 == 0 && s * k >= 0) by (nonlinear_arith)
        requires
            s >= 0,
            k >= 0,
    ;
}

/// The microseconds of a time that fits are within a microsecond of it.
pub proof fn law_microseconds(ns: u64)
    requires
        ns < 0x1_0000_0000 * 1000,
    ensures
        micros(ns) * 1000 <= ns < micros(ns) * 1000 + 1000,
{
}

/// Every valid point of a packet is in the frame, with its place and its time.
pub proof fn law_valid_points_are_kept<N: Widen<W>, W: Scalar>(
    pts: Seq<RawPoint<W>>,
    base: u32,
    interval: u16,
    n: nat,
    k: int,
) -> (i: int)
    requires
        n <= pts.len(),
        0 <= k < n,
        pts[k].reflectivity != INVALID_REFLECTIVITY,
    ensures
        ({
            let out = packet_points::<N, W>(pts, base, interval, n);
            &&& 0 <= i < out.len()
            &&& out[i].x == N::narrow_spec(pts[k].x)
            &&& out[i].y == N::narrow_spec(pts[k].y)
            &&& out[i].z == N::narrow_spec(pts[k].z)
            &&& out[i].reflectivity == pts[k].reflectivity
            &&& out[i].tag == pts[k].tag
            &&& out[i].offset_time == point_offset(base, interval, k)
        }),
    decreases n,
{
    if k == n - 1 {
        packet_points::<N, W>(pts, base, interval, (n - 1) as nat).len() as int
    } else {
        law_valid_points_are_kept::<N, W>(pts, base, interval, (n - 1) as nat, k)
    }
}

} // verus!
