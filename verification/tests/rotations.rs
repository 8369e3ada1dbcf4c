//! Rotations, directions and the state manifold.
use fast_lio::linear::{M3, M32, Quat, V2, V3};
use fast_lio::manifold::{
    grav_length, quat_exp, quat_log, StateIkfom, StateVec, S2_GRAV_TYP, STATE_DOF,
};
use fast_lio::s2::S2;
use fast_lio::scalar::Scalar;
use fast_lio::so3::{a_matrix, exp, exp_scaled, log, rot_m_to_euler, skew};

/// A double-precision number.
#[derive(Clone, Copy, Debug, PartialEq)]
struct R64(f64);

impl Scalar for R64 {
    fn plus(self, o: Self) -> Self {
        R64(self.0 + o.0)
    }
    fn minus(self, o: Self) -> Self {
        R64(self.0 - o.0)
    }
    fn times(self, o: Self) -> Self {
        R64(self.0 * o.0)
    }
    fn over(self, o: Self) -> Self {
        R64(self.0 / o.0)
    }
    fn negate(self) -> Self {
        R64(-self.0)
    }
    fn magnitude(self) -> Self {
        R64(self.0.abs())
    }
    fn root(self) -> Self {
        R64(self.0.sqrt())
    }
    fn floor(self) -> Self {
        R64(self.0.floor())
    }
    fn ceil(self) -> Self {
        R64(self.0.ceil())
    }
    fn exp(self) -> Self {
        R64(self.0.exp())
    }
    fn sin(self) -> Self {
        R64(self.0.sin())
    }
    fn cos(self) -> Self {
        R64(self.0.cos())
    }
    fn atan2(self, x: Self) -> Self {
        R64(self.0.atan2(x.0))
    }
    fn asin(self) -> Self {
        R64(self.0.asin())
    }
    fn acos(self) -> Self {
        R64(self.0.acos())
    }
    fn hypot(self, o: Self) -> Self {
        R64(self.0.hypot(o.0))
    }
    fn rem_euclid(self, o: Self) -> Self {
        R64(self.0.rem_euclid(o.0))
    }
    fn finite(self) -> bool {
        self.0.is_finite()
    }
    fn to_index(self) -> i64 {
        self.0 as i64
    }
    fn ratio(num: i64, den: i64) -> Self {
        R64(num as f64 / den as f64)
    }
    fn count(n: u64) -> Self {
        R64(n as f64)
    }
    fn less(self, o: Self) -> bool {
        self.0 < o.0
    }
    fn at_most(self, o: Self) -> bool {
        self.0 <= o.0
    }
}

const TOL: f64 = 1e-9;

fn v3(x: f64, y: f64, z: f64) -> V3<R64> {
    V3::new(R64(x), R64(y), R64(z))
}

fn v2(x: f64, y: f64) -> V2<R64> {
    V2::new(R64(x), R64(y))
}

fn less(a: M3<R64>, b: M3<R64>) -> M3<R64> {
    a.sum(b.opposite())
}

fn magnitude(m: M3<R64>) -> f64 {
    let square = |v: V3<R64>| v.dot(v).0;
    (square(m.a) + square(m.b) + square(m.c)).sqrt()
}

fn determinant(m: M3<R64>) -> f64 {
    m.a.dot(m.b.cross(m.c)).0
}

fn columns(m: M32<R64>) -> [V3<R64>; 2] {
    [m.apply(v2(1.0, 0.0)), m.apply(v2(0.0, 1.0))]
}

fn rand_vec() -> V3<R64> {
    v3(0.73, -1.21, 2.45)
}

#[test]
fn skew_is_antisymmetric() {
    let v = rand_vec();
    let m = skew(v);
    assert!(magnitude(m) > 0.0);
    let x = v3(0.5, -0.3, 1.1);
    let cross = v.cross(x);
    let mv = m.apply(x);
    assert!((cross.x.0 - mv.x.0).abs() < TOL);
    assert!((cross.y.0 - mv.y.0).abs() < TOL);
    assert!((cross.z.0 - mv.z.0).abs() < TOL);
}

#[test]
fn exp_zero_is_identity() {
    assert!(magnitude(less(exp(V3::<R64>::zeros()), M3::identity())) < TOL);
}

#[test]
fn exp_log_roundtrip() {
    let v = rand_vec();
    let r = exp(v);
    let l = log(r);
    assert!(l.diff(v).norm().0 < TOL);
}

#[test]
fn exp_is_rotation() {
    let v = rand_vec();
    let r = exp(v);
    assert!(magnitude(less(r.transpose().compose(r), M3::identity())) < TOL);
    assert!((determinant(r) - 1.0).abs() < TOL);
}

#[test]
fn log_near_identity() {
    let small = v3(1e-5, -2e-5, 3e-5);
    let r = exp(small);
    let l = log(r);
    assert!(l.diff(small).norm().0 < 1e-8);
}

#[test]
fn exp_scaled_matches_exp() {
    let v = rand_vec();
    let dt = R64(0.5);
    assert!(magnitude(less(exp_scaled(v, dt), exp(v.scaled(dt)))) < TOL);
}

#[test]
fn a_matrix_small_angle() {
    let tiny = v3(1e-13, 1e-13, 1e-13);
    assert!(magnitude(less(a_matrix(tiny), M3::identity())) < 1e-6);
    let small = v3(1e-4, 0.0, 0.0);
    let d = magnitude(less(a_matrix(small), M3::identity()));
    assert!(d > 1e-6 && d < 1e-3);
}

#[test]
fn a_matrix_commutes_with_exp_for_small() {
    let v = v3(0.05, -0.03, 0.02);
    let a = a_matrix(v);
    let e = exp(v);
    assert!(magnitude(less(a.compose(e), e.compose(a))) < 1e-3);
}

#[test]
fn rot_to_euler_identity() {
    let e = rot_m_to_euler(M3::<R64>::identity());
    assert!(e.norm().0 < TOL);
}

#[test]
fn quarter_turns_have_known_angles() {
    let half_pi = std::f64::consts::FRAC_PI_2;
    let r = exp(v3(0.0, 0.0, half_pi));
    let image = r.apply(v3(1.0, 0.0, 0.0));
    assert!(image.diff(v3(0.0, 1.0, 0.0)).norm().0 < TOL);
    let e = rot_m_to_euler(r);
    assert!((e.z.0 - half_pi).abs() < TOL);
    assert!(e.x.0.abs() < TOL && e.y.0.abs() < TOL);
}

fn s2() -> S2<R64> {
    S2::from_vec(v3(0.1, -0.2, 9.8), R64(9.809), 1)
}

#[test]
fn norm_is_length() {
    let s = s2();
    assert!((s.vec.norm().0 - 9.809).abs() < TOL);
}

#[test]
fn boxplus_preserves_norm() {
    let mut s = s2();
    s.boxplus(v2(0.3, -0.2));
    assert!((s.vec.norm().0 - 9.809).abs() < 1e-6);
}

#[test]
fn boxplus_boxminus_roundtrip() {
    let mut s = s2();
    let delta = v2(0.4, -0.1);
    s.boxplus(delta);
    let back = s.boxminus(s2());
    assert!((back.x.0 - delta.x.0).hypot(back.y.0 - delta.y.0) < 1e-3);
}

#[test]
fn s2_bx_orthogonal_to_vec() {
    let s = s2();
    for col in columns(s.s2_bx()) {
        assert!(s.vec.dot(col).0.abs() < 1e-6);
    }
}

#[test]
fn s2_hat_is_skew() {
    let s = s2();
    assert!(magnitude(s.s2_hat().sum(s.s2_hat().transpose())) < TOL);
}

#[test]
fn s2_nx_yy_shape() {
    let s = s2();
    let nx = s.s2_nx_yy();
    let image: V2<R64> = nx.apply(v3(1.0, 0.0, 0.0));
    assert!(image.x.0.is_finite() && image.y.0.is_finite());
    let [a, b] = columns(s.s2_bx());
    let off = [a.dot(a).0 - 1.0, a.dot(b).0, b.dot(a).0, b.dot(b).0 - 1.0];
    let norm = off.iter().map(|e| e * e).sum::<f64>().sqrt();
    assert!(norm < 1e-6);
}

#[test]
fn s2_mx_zero_delta() {
    let s = s2();
    let mx = columns(s.s2_mx(V2::zeros()));
    let bx = columns(s.s2_bx());
    for (m, b) in mx.into_iter().zip(bx) {
        let expected = s.s2_hat().opposite().apply(b);
        assert!(m.diff(expected).norm().0 < TOL);
    }
}

#[test]
fn directions_start_on_their_axis() {
    let y = S2::new_with_type(R64(2.0), 2);
    assert_eq!((y.vec.x, y.vec.y, y.vec.z), (R64(0.0), R64(2.0), R64(0.0)));
    let z = S2::new_with_type(R64(2.0), 3);
    assert_eq!((z.vec.x, z.vec.y, z.vec.z), (R64(0.0), R64(0.0), R64(2.0)));
}

#[test]
fn opposite_direction_has_a_basis() {
    for typ in [1, 2, 3] {
        let start = S2::new_with_type(R64(9.809), typ);
        let back = S2::from_vec(start.vec.opposite(), R64(9.809), typ);
        let [a, b] = columns(back.s2_bx());
        assert!((a.norm().0 - 1.0).abs() < 1e-6 && (b.norm().0 - 1.0).abs() < 1e-6);
        assert!(a.dot(b).0.abs() < 1e-6);
        assert!(a.dot(back.vec).0.abs() < 1e-6 && b.dot(back.vec).0.abs() < 1e-6);
    }
}

fn rand_state() -> StateIkfom<R64> {
    let mut s = StateIkfom::default();
    s.pos = v3(1.0, 2.0, 3.0);
    s.vel = v3(0.5, -0.5, 0.1);
    s.bg = v3(0.01, -0.02, 0.03);
    s.ba = v3(0.1, 0.05, -0.05);
    s.rot = quat_exp(v3(0.3, -0.2, 0.1));
    s.offset_r_l_i = quat_exp(v3(0.1, 0.2, -0.3));
    s.offset_t_l_i = v3(0.04, 0.02, -0.03);
    s.grav = S2::from_vec(v3(0.2, -0.3, 9.79), grav_length(), S2_GRAV_TYP);
    s
}

fn error(values: [f64; STATE_DOF]) -> StateVec<R64> {
    values.map(R64)
}

fn quat_norm(q: Quat<R64>) -> f64 {
    (q.w.0 * q.w.0 + q.i.0 * q.i.0 + q.j.0 * q.j.0 + q.k.0 * q.k.0).sqrt()
}

#[test]
fn default_state_layout() {
    let s: StateIkfom<R64> = StateIkfom::default();
    assert!((s.grav.vec.norm().0 - 9.809).abs() < 1e-6);
    assert!(s.grav.vec.x.0 > 0.0);
    assert_eq!(s.grav.vec.y.0, 0.0);
    assert_eq!(s.grav.vec.z.0, 0.0);
}

#[test]
fn boxplus_updates_fields() {
    let mut s = rand_state();
    let dx = error([
        0.1, 0.2, 0.3, 0.01, 0.02, 0.03, 0.0, 0.0, 0.0, 0.1, 0.0, 0.0, 0.0, 0.0, 0.0, 0.0, 0.0, 0.0,
        0.0, 0.0, 0.0, 0.0, 0.0,
    ]);
    let before_pos = s.pos;
    s.boxplus(dx);
    assert!(s.pos.diff(before_pos.sum(v3(0.1, 0.2, 0.3))).norm().0 < 1e-6);
    assert!(s.offset_t_l_i.x.0 > 0.099);
}

#[test]
fn boxplus_rot_has_unit_norm() {
    let mut s = rand_state();
    s.boxplus(error([
        0.5, 0.4, 0.3, 0.0, 0.0, 0.0, 0.0, 0.0, 0.0, 0.0, 0.0, 0.0, 0.0, 0.0, 0.0, 0.0, 0.0, 0.0,
        0.0, 0.0, 0.0, 0.0, 0.0,
    ]));
    assert!((quat_norm(s.rot) - 1.0).abs() < 1e-6);
}

#[test]
fn boxminus_after_boxplus_roundtrip() {
    let base = rand_state();
    let mut moved = base;
    let dx = error([
        0.1, -0.2, 0.3, 0.05, 0.02, -0.01, 0.0, 0.0, 0.0, 0.02, 0.0, -0.01, 0.0, 0.1, 0.0, 0.0, 0.0,
        0.0, 0.0, 0.0, 0.0, 0.1, -0.05,
    ]);
    moved.boxplus(dx);
    let back = moved.boxminus(base);
    for i in 0..STATE_DOF {
        assert!(
            (back[i].0 - dx[i].0).abs() < 1e-3,
            "mismatch at {}: {} vs {}",
            i,
            back[i].0,
            dx[i].0
        );
    }
}

#[test]
fn quat_exp_log_roundtrip() {
    let v = v3(0.4, -0.3, 0.2);
    let q = quat_exp(v);
    let back = quat_log(q);
    assert!(back.diff(v).norm().0 < 1e-6);
}

#[test]
fn rot_quat_rotation_matrix_consistent() {
    let v = v3(0.6, -0.4, 0.3);
    let q = quat_exp(v);
    let direct = exp(v);
    assert!(magnitude(less(q.matrix(), direct)) < 1e-6);
}

#[test]
fn quaternions_agree_with_nalgebra() {
    let v = nalgebra::Vector3::new(0.6, -0.4, 0.3);
    let theirs = nalgebra::UnitQuaternion::from_scaled_axis(v);
    let ours = quat_exp(v3(0.6, -0.4, 0.3));
    assert!((theirs.w - ours.w.0).abs() < TOL && (theirs.i - ours.i.0).abs() < TOL);
    assert!((theirs.j - ours.j.0).abs() < TOL && (theirs.k - ours.k.0).abs() < TOL);
    let other = nalgebra::UnitQuaternion::from_scaled_axis(nalgebra::Vector3::new(-0.2, 0.5, 1.1));
    let mine = quat_exp(v3(-0.2, 0.5, 1.1));
    let p = theirs * other;
    let q = ours.compose(mine);
    assert!((p.w - q.w.0).abs() < TOL && (p.i - q.i.0).abs() < TOL);
    assert!((p.j - q.j.0).abs() < TOL && (p.k - q.k.0).abs() < TOL);
    let image = theirs * nalgebra::Vector3::new(1.0, 2.0, 3.0);
    let turned = ours.rotate(v3(1.0, 2.0, 3.0));
    assert!((image.x - turned.x.0).abs() < TOL);
    assert!((image.y - turned.y.0).abs() < TOL);
    assert!((image.z - turned.z.0).abs() < TOL);
}

#[test]
fn dim24_holds_gravity_as_a_vector() {
    let s = rand_state();
    let all = s.to_dim24();
    assert_eq!(all[0], s.pos.x);
    assert_eq!(all[23], s.grav.vec.z);
}

#[test]
fn matrices_turn_into_quaternions() {
    for v in [[0.1, 0.2, 0.3], [3.0, 0.1, 0.1], [0.1, 3.0, 0.1], [0.1, 0.1, 3.0]] {
        let axis = nalgebra::Vector3::new(v[0], v[1], v[2]);
        let theirs = nalgebra::UnitQuaternion::from_rotation_matrix(
            &nalgebra::Rotation3::from_scaled_axis(axis),
        );
        let ours = Quat::from_matrix(exp(v3(v[0], v[1], v[2])));
        assert!((theirs.w - ours.w.0).abs() < TOL && (theirs.i - ours.i.0).abs() < TOL);
        assert!((theirs.j - ours.j.0).abs() < TOL && (theirs.k - ours.k.0).abs() < TOL);
    }
}
