//! Laws of start-up and of the track through a scan.
use super::{
    acc_of, cov_with, gravity, gyr_of, mean_input, mean_with, noise_with, span_of, start_state,
    tail_span,
    track_after, track_step, ImuState, Track,
};
use crate::exact::{
    exact_angles, has_angles, is_unit, law_exact_angles, lemma_commutes,
    lemma_spread_two, lemma_trade,
};
use crate::fixed::Fixed;
use crate::frames::{lemma_less_times, lemma_pulled, lemma_two_times};
use crate::linear::V3;
use crate::manifold::{grav_length, StateIkfom};
use crate::matrix::Rows;
use crate::model::{entry_of, get_f};
use crate::places::lemma_axis_of;
use crate::scalar::{exact_arithmetic, is_less, is_reading, lt, whole, zero, Scalar};
use crate::slopes::law_step_is_motion;
use crate::sphere::{lemma_norm_value, lemma_nothing, lemma_signs};
use crate::types::ImuRaw;
use vstd::prelude::*;

verus! {

/// In exact arithmetic a mean with a value taken in is the mean of one more value: `n`
/// times it is `n - 1` times the mean before, and the value.
pub proof fn law_mean_takes_in<W: Scalar>(mean: V3<W>, v: V3<W>, n: int)
    requires
        exact_angles::<W>(),
        n > 0,
    ensures
        mean_with(mean, v, whole(n)).scaled(whole(n)) == mean.scaled(whole(n - 1)).sum(v),
{
    reveal(exact_angles);
    let value = choose|value: spec_fn(W) -> real| #[trigger] is_reading(value) && has_angles(value);
    lemma_mean_part(value, mean.x, v.x, n);
    lemma_mean_part(value, mean.y, v.y, n);
    lemma_mean_part(value, mean.z, v.z, n);
}

proof fn lemma_mean_part<W: Scalar>(value: spec_fn(W) -> real, a: W, v: W, n: int)
    requires
        is_reading(value),
        has_angles(value),
        n > 0,
    ensures
        a.plus_spec(v.minus_spec(a).over_spec(whole(n))).times_spec(whole(n)) == a.times_spec(
            whole(n - 1),
        ).plus_spec(v),
{
    let all = whole::<W>(n);
    let d = v.minus_spec(a).over_spec(all);
    let m = value(all);
    assert(m == n as real && value(whole::<W>(n - 1)) == (n - 1) as real && value(
        v.minus_spec(a),
    ) == value(v) - value(a)) by {
        reveal(is_reading);
    }
    assert(value(d) * m == value(v) - value(a)) by {
        reveal(has_angles);
    }
    let less = (n - 1) as real;
    assert(m == less + 1int as real);
    lemma_two_times(value(a), value(d), m);
    lemma_spread_two(value(a), less, 1int as real);
    lemma_nothing(value(a));
    reveal(is_reading);
    let l = a.plus_spec(d).times_spec(all);
    let r = a.times_spec(whole(n - 1)).plus_spec(v);
    assert(value(l) == value(r));
}

/// In exact arithmetic a variance with a value taken in is the sum of what it was, for one
/// value less, and of the square of how far the value is off the mean.
pub proof fn law_variance_takes_in<W: Scalar>(cov: V3<W>, mean: V3<W>, v: V3<W>, n: int)
    requires
        exact_angles::<W>(),
        n > 0,
    ensures
        ({
            let off = v.diff(mean);
            let square = V3::new(
                off.x.times_spec(off.x),
                off.y.times_spec(off.y),
                off.z.times_spec(off.z),
            );
            cov_with(cov, mean, v, whole(n)).scaled(whole(n * n)) == cov.scaled(whole(n)).sum(
                square,
            ).scaled(whole(n - 1))
        }),
{
    reveal(exact_angles);
    let value = choose|value: spec_fn(W) -> real| #[trigger] is_reading(value) && has_angles(value);
    let off = v.diff(mean);
    lemma_variance_part(value, cov.x, off.x, n);
    lemma_variance_part(value, cov.y, off.y, n);
    lemma_variance_part(value, cov.z, off.z, n);
}

proof fn lemma_variance_part<W: Scalar>(value: spec_fn(W) -> real, c: W, off: W, n: int)
    requires
        is_reading(value),
        has_angles(value),
        n > 0,
    ensures
        ({
            let all = whole::<W>(n);
            let less = all.minus_spec(W::ratio_spec(1, 1));
            let square = off.times_spec(off);
            c.times_spec(less).over_spec(all).plus_spec(
                square.times_spec(less).over_spec(all.times_spec(all)),
            ).times_spec(whole(n * n)) == c.times_spec(all).plus_spec(square).times_spec(
                whole(n - 1),
            )
        }),
{
    let all = whole::<W>(n);
    let less = all.minus_spec(W::ratio_spec(1, 1));
    let square = off.times_spec(off);
    let m = n as real;
    let k = (n - 1) as real;
    assert(value(all) == m && value(less) == k && value(whole::<W>(n - 1)) == k && value(
        whole::<W>(n * n),
    ) == (n * n) as real && value(all.times_spec(all)) == m * m) by {
        reveal(is_reading);
    }
    assert(m * m > 0int as real && m > 0int as real) by {
        assert(m > 0int as real);
        assert(m * m > 0int as real) by (nonlinear_arith)
            requires
                m > 0int as real,
        ;
    }
    assert((n * n) as real == m * m) by {
        assert((n * n) as real == (n as real) * (n as real)) by (nonlinear_arith);
    }
    let p = c.times_spec(less).over_spec(all);
    let q = square.times_spec(less).over_spec(all.times_spec(all));
    assert(value(p) * m == value(c.times_spec(less)) && value(q) * (m * m) == value(
        square.times_spec(less),
    )) by {
        reveal(has_angles);
    }
    assert(value(c.times_spec(less)) == value(c) * k && value(square.times_spec(less)) == value(
        square,
    ) * k) by {
        reveal(is_reading);
    }
    lemma_two_times(value(p), value(q), m * m);
    lemma_trade(value(p), m, m);
    lemma_pulled(value(c), k, m);
    lemma_two_times(value(c) * m, value(square), k);
    reveal(is_reading);
    let l = p.plus_spec(q).times_spec(whole(n * n));
    let r = c.times_spec(all).plus_spec(square).times_spec(whole(n - 1));
    assert(value(l) == value(r));
}

/// In exact arithmetic the input between two measurements is halfway between them,
/// whichever of them comes first.
pub proof fn law_input_is_halfway<W: Scalar>(s: ImuState<W>, a: ImuRaw<W>, b: ImuRaw<W>)
    requires
        exact_angles::<W>(),
        is_less(W::ratio_spec(1, 10000000), s.mean_acc.norm()),
    ensures
        mean_input(s, a, b) == mean_input(s, b, a),
        mean_input(s, a, b).gyro.scaled(whole(2)) == gyr_of(a).sum(gyr_of(b)),
        mean_input(s, a, b).acc.scaled(s.mean_acc.norm()).scaled(whole(2)) == acc_of(a).sum(
            acc_of(b),
        ).scaled(gravity()),
{
    reveal(exact_angles);
    let value = choose|value: spec_fn(W) -> real| #[trigger] is_reading(value) && has_angles(value);
    lemma_axis_of(value, s.mean_acc);
    let n = s.mean_acc.norm();
    let (aa, ab, ga, gb) = (acc_of(a), acc_of(b), gyr_of(a), gyr_of(b));
    lemma_halves(value, ga.x, gb.x, n);
    lemma_halves(value, ga.y, gb.y, n);
    lemma_halves(value, ga.z, gb.z, n);
    lemma_halves(value, aa.x, ab.x, n);
    lemma_halves(value, aa.y, ab.y, n);
    lemma_halves(value, aa.z, ab.z, n);
}

proof fn lemma_halves<W: Scalar>(value: spec_fn(W) -> real, a: W, b: W, n: W)
    requires
        is_reading(value),
        has_angles(value),
        value(n) > 0int as real,
    ensures
        ({
            let half = W::ratio_spec(1, 2);
            let h = a.plus_spec(b).times_spec(half);
            let s = h.times_spec(gravity()).over_spec(n);
            &&& a.plus_spec(b) == b.plus_spec(a)
            &&& h.times_spec(whole(2)) == a.plus_spec(b)
            &&& s.times_spec(n).times_spec(whole(2)) == a.plus_spec(b).times_spec(gravity())
        }),
{
    let half = W::ratio_spec(1, 2);
    let sum = a.plus_spec(b);
    let h = sum.times_spec(half);
    let g = gravity::<W>();
    let s = h.times_spec(g).over_spec(n);
    let two = 2int as real;
    assert(value(half) * two == 1int as real && value(s) * value(n) == value(h.times_spec(g))) by {
        reveal(has_angles);
    }
    reveal(is_reading);
    assert(value(sum) == value(b.plus_spec(a)));
    lemma_trade(value(sum), value(half), two);
    lemma_nothing(value(sum));
    assert(value(h.times_spec(whole(2))) == value(sum));
    lemma_pulled(value(h), value(g), two);
    assert(value(s.times_spec(n).times_spec(whole(2))) == value(sum.times_spec(g)));
}

/// Two numbers with the same square, one of them positive and the other not negative.
proof fn lemma_same_root(a: real, b: real)
    requires
        a >= 0int as real,
        b > 0int as real,
        a * a == b * b,
    ensures
        a == b,
{
    assert(a == b) by (nonlinear_arith)
        requires
            a >= 0int as real,
            b > 0int as real,
            a * a == b * b,
    ;
}

proof fn lemma_same_share(a: real, b: real, n: real)
    requires
        n > 0int as real,
        a * n == b * n,
    ensures
        a == b,
{
    lemma_less_times(a, b, n);
    let c = a - b;
    assert(c == 0int as real) by (nonlinear_arith)
        requires
            c * n == 0int as real,
            n > 0int as real,
    ;
}

/// In exact arithmetic a sensor that goes on to measure the means of start-up rests: gravity
/// is against the acceleration that is put in, in the ratio of the two gravities of the
/// model, and the angular velocity without its bias is nothing.
pub proof fn law_rests_after_start<W: Scalar>(
    g: ImuState<W>,
    x: StateIkfom<W>,
    a: ImuRaw<W>,
    b: ImuRaw<W>,
)
    requires
        exact_angles::<W>(),
        is_less(W::ratio_spec(1, 10000000), g.mean_acc.norm()),
        is_less(
            W::ratio_spec(0, 1),
            g.mean_acc.opposite().shared(g.mean_acc.norm()).scaled(gravity()).norm(),
        ),
        acc_of(a) == g.mean_acc,
        acc_of(b) == g.mean_acc,
        gyr_of(a) == g.mean_gyr,
        gyr_of(b) == g.mean_gyr,
    ensures
        ({
            let start = start_state(g, x);
            let input = mean_input(g, a, b);
            &&& start.grav.vec.scaled(gravity()) == input.acc.opposite().scaled(grav_length())
            &&& input.gyro.diff(start.bg) == V3::<W>::zeros()
        }),
{
    reveal(exact_angles);
    let value = choose|value: spec_fn(W) -> real| #[trigger] is_reading(value) && has_angles(value);
    let m = g.mean_acc;
    let norm = m.norm();
    let n = value(norm);
    lemma_axis_of(value, m);
    let k = m.opposite().shared(norm);
    let axis = m.shared(norm);
    let v = k.scaled(gravity());
    let big = value(gravity::<W>());
    assert(big > 0int as real) by {
        assert(big * (100int as real) == 981int as real) by {
            reveal(has_angles);
        }
        assert(big > 0int as real) by (nonlinear_arith)
            requires
                big * (100int as real) == 981int as real,
        ;
    }
    let o = m.opposite();
    assert(value(o.x) == -value(m.x) && value(o.y) == -value(m.y) && value(o.z) == -value(m.z)) by {
        reveal(is_reading);
    }
    assert(value(k.x) * n == -value(m.x) && value(k.y) * n == -value(m.y) && value(k.z) * n
        == -value(m.z)) by {
        reveal(has_angles);
    }
    lemma_against(value(k.x), value(axis.x), n);
    lemma_against(value(k.y), value(axis.y), n);
    lemma_against(value(k.z), value(axis.z), n);
    lemma_signs(value(axis.x), value(axis.x));
    lemma_signs(value(axis.y), value(axis.y));
    lemma_signs(value(axis.z), value(axis.z));
    let (p, q, r) = (value(k.x), value(k.y), value(k.z));
    assert(p * p + q * q + r * r == 1int as real);
    lemma_norm_value(value, v);
    assert(value(v.x) == p * big && value(v.y) == q * big && value(v.z) == r * big) by {
        reveal(is_reading);
    }
    lemma_square_of(p, big);
    lemma_square_of(q, big);
    lemma_square_of(r, big);
    lemma_two_times(p * p, q * q, big * big);
    lemma_two_times(p * p + q * q, r * r, big * big);
    lemma_commutes(1int as real, big * big);
    lemma_nothing(big * big);
    let l = value(v.norm());
    lemma_same_root(l, big);
    let unit = v.shared(v.norm());
    assert(value(unit.x) * l == value(v.x) && value(unit.y) * l == value(v.y) && value(unit.z) * l
        == value(v.z)) by {
        reveal(has_angles);
    }
    lemma_same_share(value(unit.x), p, big);
    lemma_same_share(value(unit.y), q, big);
    lemma_same_share(value(unit.z), r, big);
    let start = start_state(g, x);
    let input = mean_input(g, a, b);
    let far = grav_length::<W>();
    assert(start.grav.vec == unit.scaled(far));
    lemma_rest_part(value, m.x, norm, unit.x);
    lemma_rest_part(value, m.y, norm, unit.y);
    lemma_rest_part(value, m.z, norm, unit.z);
    lemma_no_turn_left(value, g.mean_gyr.x);
    lemma_no_turn_left(value, g.mean_gyr.y);
    lemma_no_turn_left(value, g.mean_gyr.z);
}

proof fn lemma_against(k: real, a: real, n: real)
    requires
        n > 0int as real,
        k * n == -(a * n),
    ensures
        k == -a,
{
    lemma_signs(a, n);
    lemma_same_share(k, -a, n);
}

proof fn lemma_square_of(p: real, b: real)
    ensures
        (p * b) * (p * b) == (p * p) * (b * b),
{
    assert((p * b) * (p * b) == (p * p) * (b * b)) by (nonlinear_arith);
}

/// Gravity against what is put in, in one direction.
proof fn lemma_rest_part<W: Scalar>(value: spec_fn(W) -> real, m: W, n: W, k: W)
    requires
        is_reading(value),
        has_angles(value),
        value(n) > 0int as real,
        value(k) * value(n) == -value(m),
    ensures
        ({
            let half = W::ratio_spec(1, 2);
            let put = m.plus_spec(m).times_spec(half).times_spec(gravity()).over_spec(n);
            k.times_spec(grav_length()).times_spec(gravity()) == put.negate_spec().times_spec(
                grav_length(),
            )
        }),
{
    let half = W::ratio_spec(1, 2);
    let g = gravity::<W>();
    let f = grav_length::<W>();
    let h = m.plus_spec(m).times_spec(half);
    let put = h.times_spec(g).over_spec(n);
    let two = 2int as real;
    assert(value(half) * two == 1int as real && value(put) * value(n) == value(h.times_spec(g))) by {
        reveal(has_angles);
    }
    reveal(is_reading);
    let (a, c, e, l) = (value(m), value(half), value(g), value(n));
    assert(value(h) == a) by {
        assert((a + a) * c == a * (c * two)) by (nonlinear_arith)
            requires
                two == 2int as real,
        ;
        lemma_nothing(a);
    }
    assert(value(put) * l == a * e);
    let b = value(k);
    // Both sides, times the length of the mean, are the same.
    lemma_signs(b * e, l);
    lemma_pulled(b, e, l);
    lemma_signs(a, e);
    lemma_against(value(put), b * e, l);
    lemma_pulled(b, value(f), e);
    lemma_signs(b * e, value(f));
    let left = k.times_spec(f).times_spec(g);
    let right = put.negate_spec().times_spec(f);
    assert(value(left) == value(right));
}

proof fn lemma_no_turn_left<W: Scalar>(value: spec_fn(W) -> real, a: W)
    requires
        is_reading(value),
        has_angles(value),
    ensures
        a.plus_spec(a).times_spec(W::ratio_spec(1, 2)).minus_spec(a) == zero::<W>(),
{
    let half = W::ratio_spec(1, 2);
    let two = 2int as real;
    assert(value(half) * two == 1int as real) by {
        reveal(has_angles);
    }
    let (x, c) = (value(a), value(half));
    assert((x + x) * c == x * (c * two)) by (nonlinear_arith)
        requires
            two == 2int as real,
    ;
    lemma_nothing(x);
    reveal(is_reading);
    let r = a.plus_spec(a).times_spec(half).minus_spec(a);
    assert(value(r) == value(zero::<W>()));
}

/// In fixed point, the time to the end of a scan has no sign: it is how far the end and the
/// last measurement are apart.
pub proof fn law_tail_has_no_sign(scan_end: Fixed, imu_end: Fixed)
    requires
        -0x4000_0000_0000_0000 <= scan_end.raw <= 0x3fff_ffff_ffff_ffff,
        -0x4000_0000_0000_0000 <= imu_end.raw <= 0x3fff_ffff_ffff_ffff,
    ensures
        tail_span(scan_end, imu_end).raw >= 0,
        tail_span(scan_end, imu_end).raw == scan_end.raw - imu_end.raw || tail_span(
            scan_end,
            imu_end,
        ).raw == imu_end.raw - scan_end.raw,
{
    let d = scan_end.raw - imu_end.raw;
    assert(Fixed::ratio_spec(1, 1).raw == 65536);
    assert(Fixed::ratio_spec(-1, 1).raw == -65536);
    assert((65536 * d) / 65536 == d);
    assert((-65536 * d) / 65536 == -d);
}

/// In exact arithmetic the time of a step of a track ends with the later measurement and
/// begins with the earlier one, or with the end of the last scan if that is later.
pub proof fn law_span_ends_at_measurement<W: Scalar>(s: ImuState<W>, a: ImuRaw<W>, b: ImuRaw<W>)
    requires
        exact_arithmetic::<W>(),
    ensures
        span_of(s, a, b).plus_spec(
            if lt(a.stamp, s.last_lidar_end_time) {
                s.last_lidar_end_time
            } else {
                a.stamp
            },
        ) == b.stamp,
{
    reveal(exact_arithmetic);
    let value = choose|value: spec_fn(W) -> real| #[trigger] is_reading(value);
    reveal(is_reading);
    let from = if lt(a.stamp, s.last_lidar_end_time) {
        s.last_lidar_end_time
    } else {
        a.stamp
    };
    assert(value(b.stamp.minus_spec(from).plus_spec(from)) == value(b.stamp));
}

/// In exact arithmetic a step of a track moves the state on over its time and notes the
/// pose where it then is: the noted acceleration and angular velocity are the rates there.
pub proof fn law_track_notes_poses<W: Scalar>(
    s: ImuState<W>,
    beg: W,
    t: Track<W>,
    a: ImuRaw<W>,
    b: ImuRaw<W>,
)
    requires
        exact_angles::<W>(),
        is_unit(t.x.rot),
        !lt(b.stamp, s.last_lidar_end_time),
    ensures
        ({
            let after = track_step(s, beg, t, a, b);
            let pose = after.poses.last();
            let rate = get_f(after.x, after.input);
            let dt = span_of(s, a, b);
            &&& after.poses.len() == t.poses.len() + 1
            &&& after.x.pos == t.x.pos.sum(t.x.vel.scaled(dt))
            &&& after.x.bg == t.x.bg && after.x.ba == t.x.ba && after.x.grav == t.x.grav
            &&& pose.pos == after.x.pos && pose.vel == after.x.vel && pose.rot
                == after.x.rot.matrix()
            &&& pose.acc == V3::new(rate[12], rate[13], rate[14])
            &&& pose.gyr == V3::new(rate[3], rate[4], rate[5])
            &&& pose.offset_time.plus_spec(beg) == b.stamp
            &&& after.acc == pose.acc && after.angvel == pose.gyr
        }),
{
    let input = mean_input(s, a, b);
    let dt = span_of(s, a, b);
    law_step_is_motion(t.x, input, dt);
    law_exact_angles::<W>();
    reveal(exact_arithmetic);
    let value = choose|value: spec_fn(W) -> real| #[trigger] is_reading(value);
    assert(b.stamp.minus_spec(beg).plus_spec(beg) == b.stamp) by {
        reveal(is_reading);
        assert(value(b.stamp.minus_spec(beg).plus_spec(beg)) == value(b.stamp));
    }
    let after = track_step(s, beg, t, a, b);
    assert(after.poses.last() == super::pose_of(
        after.x,
        after.acc,
        after.angvel,
        b.stamp.minus_spec(beg),
    ));
}

/// A track begins with the state that it is given, and notes one pose more for every pair
/// that does not end before the last scan did.
pub proof fn law_track_starts_at_state<W: Scalar>(
    s: ImuState<W>,
    beg: W,
    x: StateIkfom<W>,
    p: Rows<W>,
    imu: Seq<ImuRaw<W>>,
    k: nat,
)
    ensures
        ({
            let t = track_after(s, beg, x, p, imu, k);
            &&& 1 <= t.poses.len() <= k + 1
            &&& t.poses[0].pos == x.pos
            &&& t.poses[0].vel == x.vel
            &&& t.poses[0].rot == x.rot.matrix()
            &&& t.poses[0].offset_time == zero::<W>()
            &&& (forall|i: int|
                0 < i <= k ==> !lt((#[trigger] imu[i]).stamp, s.last_lidar_end_time))
                ==> t.poses.len() == k + 1
        }),
    decreases k,
{
    if k > 0 {
        law_track_starts_at_state(s, beg, x, p, imu, (k - 1) as nat);
        if forall|i: int| 0 < i <= k ==> !lt((#[trigger] imu[i]).stamp, s.last_lidar_end_time) {
            assert(!lt(imu[k as int].stamp, s.last_lidar_end_time));
        }
    }
}

/// The process noise is that of the gyroscope, of the accelerometer and of their biases, in
/// the order in which they drive the rates, and what goes together between them stays.
pub proof fn law_noise_in_order<W: Scalar>(
    q: Rows<W>,
    gyr: V3<W>,
    acc: V3<W>,
    bg: V3<W>,
    ba: V3<W>,
    k: int,
)
    requires
        0 <= k < 3,
    ensures
        ({
            let n = noise_with(q, gyr, acc, bg, ba);
            &&& n[k][k] == entry_of(gyr, k)
            &&& n[3 + k][3 + k] == entry_of(acc, k)
            &&& n[6 + k][6 + k] == entry_of(bg, k)
            &&& n[9 + k][9 + k] == entry_of(ba, k)
            &&& forall|i: int, j: int|
                0 <= i < 12 && 0 <= j < 12 && i != j ==> #[trigger] n[i][j] == q[i][j]
        }),
{
}

} // verus!
