//! The motion model and the filter.
use fast_lio::esekf::{DynShareData, EseKf};
use fast_lio::linear::{Quat, V3};
use fast_lio::manifold::{
    grav_length, quat_exp, StateIkfom, StateVec, S2_GRAV_TYP, STATE_DIM, STATE_DOF,
};
use fast_lio::matrix::Mat;
use fast_lio::model::{
    df_dw, df_dx, get_f, process_noise_cov, quat_to_euler, so3_to_euler, InputIkfom,
};
use fast_lio::s2::S2;
use fast_lio::scalar::Scalar;
use fast_lio::update::IteratedUpdate;
use nalgebra::DMatrix;

/// A double-precision number.
#[derive(Clone, Copy, Debug, PartialEq)]
struct R64(f64);

impl Scalar for R64 {
    fn plus(self, o: Self) -> Self {
        R64(self.0 + o.0)
    }
    fn minus(self, o: Self) -> Self {
        R64(self.0 - o.0)
    }
    fn times(self, o: Self) -> Self {
        R64(self.0 * o.0)
    }
    fn over(self, o: Self) -> Self {
        R64(self.0 / o.0)
    }
    fn negate(self) -> Self {
        R64(-self.0)
    }
    fn magnitude(self) -> Self {
        R64(self.0.abs())
    }
    fn root(self) -> Self {
        R64(self.0.sqrt())
    }
    fn floor(self) -> Self {
        R64(self.0.floor())
    }
    fn ceil(self) -> Self {
        R64(self.0.ceil())
    }
    fn exp(self) -> Self {
        R64(self.0.exp())
    }
    fn sin(self) -> Self {
        R64(self.0.sin())
    }
    fn cos(self) -> Self {
        R64(self.0.cos())
    }
    fn atan2(self, x: Self) -> Self {
        R64(self.0.atan2(x.0))
    }
    fn asin(self) -> Self {
        R64(self.0.asin())
    }
    fn acos(self) -> Self {
        R64(self.0.acos())
    }
    fn hypot(self, o: Self) -> Self {
        R64(self.0.hypot(o.0))
    }
    fn rem_euclid(self, o: Self) -> Self {
        R64(self.0.rem_euclid(o.0))
    }
    fn finite(self) -> bool {
        self.0.is_finite()
    }
    fn to_index(self) -> i64 {
        self.0 as i64
    }
    fn ratio(num: i64, den: i64) -> Self {
        R64(num as f64 / den as f64)
    }
    fn count(n: u64) -> Self {
        R64(n as f64)
    }
    fn less(self, o: Self) -> bool {
        self.0 < o.0
    }
    fn at_most(self, o: Self) -> bool {
        self.0 <= o.0
    }
}

const TOL: f64 = 1e-9;

fn v3(x: f64, y: f64, z: f64) -> V3<R64> {
    V3::new(R64(x), R64(y), R64(z))
}

fn sample() -> (StateIkfom<R64>, InputIkfom<R64>) {
    let mut s = StateIkfom::default();
    s.pos = v3(1.0, 2.0, 3.0);
    s.vel = v3(0.5, -0.5, 0.1);
    s.bg = v3(0.01, -0.02, 0.03);
    s.ba = v3(0.1, 0.05, -0.05);
    s.rot = quat_exp(v3(0.3, -0.2, 0.1));
    s.offset_t_l_i = v3(0.04, 0.02, -0.03);
    s.grav = S2::from_vec(v3(0.2, -0.3, 9.79), grav_length(), S2_GRAV_TYP);
    let input = InputIkfom { acc: v3(1.1, -0.4, 9.2), gyro: v3(0.2, -0.1, 0.3) };
    (s, input)
}

fn to_dense(m: &Mat<R64>) -> DMatrix<f64> {
    DMatrix::from_fn(m.cells.len(), m.cells[0].len(), |i, j| m.cells[i][j].0)
}

fn from_dense(m: &DMatrix<f64>) -> Mat<R64> {
    Mat {
        cells: (0..m.nrows()).map(|i| (0..m.ncols()).map(|j| R64(m[(i, j)])).collect()).collect(),
    }
}

fn asymmetry(m: &Mat<R64>) -> f64 {
    let d = to_dense(m);
    (&d - d.transpose()).norm()
}

fn trace(m: &Mat<R64>) -> f64 {
    to_dense(m).trace()
}

/// Runs an update to its end; counts the measurements that it asked for.
fn run_update(
    kf: &mut EseKf<R64>,
    r: f64,
    measure: impl Fn(&StateIkfom<R64>) -> DynShareData<R64>,
) -> usize {
    let mut u: IteratedUpdate<R64> = kf.update_iterated_dyn_share_modified(R64(r));
    let mut calls = 0;
    while !u.is_finished() {
        let inverse = u
            .pending()
            .map(|m| from_dense(&to_dense(m).try_inverse().expect("a regular matrix")));
        match inverse {
            Some(inverse) => u.inverted(inverse),
            None => {
                calls += 1;
                let share = measure(&u.x);
                u.measured(share);
            }
        }
    }
    kf.accept(u);
    calls
}

fn entries(rows: usize, ones: &[(usize, usize)]) -> Mat<R64> {
    let mut m = Mat::zeros(rows, 12);
    for &(i, j) in ones {
        m.cells[i][j] = R64(1.0);
    }
    m
}

fn position_measurement(x: &StateIkfom<R64>) -> DynShareData<R64> {
    DynShareData {
        valid: true,
        h: vec![x.pos.x.negate(), x.pos.y.negate(), x.pos.z.negate()],
        h_x: entries(3, &[(0, 0), (1, 1), (2, 2)]),
    }
}

#[test]
fn process_noise_cov_diagonal() {
    let q: Mat<R64> = process_noise_cov();
    assert_eq!((q.cells.len(), q.cells[0].len()), (12, 12));
    for i in 0..12 {
        assert!(q.cells[i][i].0 > 0.0);
    }
    assert_eq!(q.cells[0][0].0, 0.0001);
    assert_eq!(q.cells[3][3].0, 0.0001);
    assert_eq!(q.cells[6][6].0, 0.00001);
    assert_eq!(q.cells[9][9].0, 0.00001);
}

#[test]
fn get_f_layout() {
    let (s, input) = sample();
    let f = get_f(s, input);
    assert!(V3::new(f[0], f[1], f[2]).diff(s.vel).norm().0 < TOL);
    let omega = input.gyro.diff(s.bg);
    assert!(V3::new(f[3], f[4], f[5]).diff(omega).norm().0 < TOL);
    let a = s.rot.rotate(input.acc.diff(s.ba)).sum(s.grav.vec);
    assert!(V3::new(f[12], f[13], f[14]).diff(a).norm().0 < TOL);
    for i in [6, 7, 8, 9, 10, 11, 15, 16, 17, 18, 19, 20, 21, 22, 23] {
        assert_eq!(f[i].0, 0.0);
    }
}

#[test]
fn df_dx_numeric_check() {
    let (s, input) = sample();
    let jac = df_dx(s, input);
    let h = 1e-6;
    for k in 0..STATE_DOF {
        let mut dx: StateVec<R64> = [R64(0.0); STATE_DOF];
        dx[k] = R64(h);
        let mut sp = s;
        sp.boxplus(dx);
        let mut sm = s;
        let mut dxn = dx;
        dxn[k] = R64(-h);
        sm.boxplus(dxn);
        let fp = get_f(sp, input);
        let fm = get_f(sm, input);
        for i in 0..STATE_DIM {
            let num = (fp[i].0 - fm[i].0) / (2.0 * h);
            let ana = jac.cells[i][k].0;
            assert!((num - ana).abs() < 1e-6, "dfdx[{i},{k}] num={num} ana={ana}");
        }
    }
}

#[test]
fn df_dw_numeric_check() {
    let (s, _input) = sample();
    let jac = df_dw(s);
    for i in 0..3 {
        for j in 0..3 {
            let expected = if i == j { -1.0 } else { 0.0 };
            assert!((jac.cells[3 + i][j].0 - expected).abs() < TOL);
        }
    }
    for i in 0..3 {
        for j in 0..3 {
            let expected = if i == j { 1.0 } else { 0.0 };
            assert!((jac.cells[15 + i][6 + j].0 - expected).abs() < TOL);
        }
    }
    for i in 0..3 {
        for j in 0..3 {
            let expected = if i == j { 1.0 } else { 0.0 };
            assert!((jac.cells[18 + i][9 + j].0 - expected).abs() < TOL);
        }
    }
}

#[test]
fn so3_to_euler_identity() {
    let e = so3_to_euler(Quat::<R64>::identity());
    assert!(e.norm().0 < 1e-9);
}

#[test]
fn so3_to_euler_known() {
    let q = quat_exp(v3(0.0, 0.0, std::f64::consts::PI / 2.0));
    let e = so3_to_euler(q);
    assert!(e.x.0.abs() < 0.1, "euler={e:?}");
    assert!(e.y.0.abs() < 0.1, "euler={e:?}");
    assert!((e.z.0 - 90.0).abs() < 0.1, "euler={e:?}");
}

#[test]
fn euler_angles_at_the_pole() {
    let up = quat_exp(v3(0.0, std::f64::consts::FRAC_PI_2, 0.0));
    let e = quat_to_euler(up);
    assert_eq!((e.y.0, e.z.0), (90.0, 0.0));
    let down = quat_exp(v3(0.0, -std::f64::consts::FRAC_PI_2, 0.0));
    let e = quat_to_euler(down);
    assert_eq!((e.y.0, e.z.0), (-90.0, 0.0));
}

#[test]
fn predict_zero_input_keeps_state() {
    let mut kf: EseKf<R64> = EseKf::default();
    let q = process_noise_cov();
    let input = InputIkfom::default();
    let pos_before = kf.x.pos;
    let vel_before = kf.x.vel;
    kf.predict(R64(0.1), &q, input);
    assert!(kf.x.pos.diff(pos_before).norm().0 < 1e-12);
    let expected = vel_before.sum(v3(9.809, 0.0, 0.0).scaled(R64(0.1)));
    assert!(kf.x.vel.diff(expected).norm().0 < 1e-9);
    assert!(asymmetry(&kf.p) < 1e-9);
}

#[test]
fn predict_gravity_noop() {
    let mut kf: EseKf<R64> = EseKf::default();
    let q = process_noise_cov();
    let input = InputIkfom::default();
    let grav_before = kf.x.grav.vec;
    kf.predict(R64(0.5), &q, input);
    assert!(kf.x.grav.vec.diff(grav_before).norm().0 < 1e-12);
}

#[test]
fn predict_updates_covariance_formula() {
    let mut kf: EseKf<R64> = EseKf::default();
    let q = process_noise_cov();
    let input = InputIkfom::default();
    let p_before = trace(&kf.p);
    kf.predict(R64(0.01), &q, input);
    assert!(asymmetry(&kf.p) < 1e-9);
    assert!(trace(&kf.p) > 0.0);
    assert!(trace(&kf.p) >= p_before - 1e-12);
}

#[test]
fn predict_keeps_the_covariance_symmetric_and_semidefinite() {
    let (s, input) = sample();
    let root = DMatrix::from_fn(STATE_DOF, 7, |i, j| ((i * 7 + j) as f64).sin());
    let mut kf = EseKf::new(s, from_dense(&(&root * root.transpose())));
    for _ in 0..20 {
        kf.predict(R64(0.01), &process_noise_cov(), input);
        assert!(asymmetry(&kf.p) < TOL);
        let least = to_dense(&kf.p).symmetric_eigenvalues().min();
        assert!(least > -TOL, "{least}");
    }
}

#[test]
fn update_pulls_position_to_zero() {
    let mut kf: EseKf<R64> = EseKf::default();
    kf.x.pos = v3(1.0, 2.0, 3.0);
    run_update(&mut kf, 0.001, position_measurement);
    assert!(kf.x.pos.norm().0 < 0.05, "pos = {:?}", kf.x.pos);
    assert!(asymmetry(&kf.p) < 1e-9);
    let q = kf.x.rot;
    let norm = (q.w.0 * q.w.0 + q.i.0 * q.i.0 + q.j.0 * q.j.0 + q.k.0 * q.k.0).sqrt();
    assert!((norm - 1.0).abs() < 1e-9);
}

#[test]
fn update_does_not_touch_grav() {
    let mut kf: EseKf<R64> = EseKf::default();
    kf.x.pos = v3(0.5, -0.5, 0.5);
    let grav_before = kf.x.grav.vec;
    run_update(&mut kf, 0.001, position_measurement);
    assert!(kf.x.grav.vec.diff(grav_before).norm().0 < 1e-9);
}

#[test]
fn invalid_measurement_is_skipped() {
    let mut kf: EseKf<R64> = EseKf::default();
    kf.x.pos = v3(1.0, 0.0, 0.0);
    let calls = run_update(&mut kf, 0.001, |_x| DynShareData {
        valid: false,
        h: vec![],
        h_x: Mat { cells: vec![] },
    });
    assert_eq!(calls, kf.maximum_iter + 1);
    assert!(kf.x.pos.diff(v3(1.0, 0.0, 0.0)).norm().0 < 1e-12);
    assert_eq!(trace(&kf.p), 23.0);
}

#[test]
fn measurement_rotation_jacobian_moves_rot() {
    let mut kf: EseKf<R64> = EseKf::default();
    kf.x.rot = quat_exp(v3(0.0, 0.0, 0.5));
    run_update(&mut kf, 0.001, |x| {
        let e = so3_to_euler(x.rot);
        DynShareData {
            valid: true,
            h: vec![R64(-e.z.0 * std::f64::consts::PI / 180.0)],
            h_x: entries(1, &[(0, 5)]),
        }
    });
    let e = so3_to_euler(kf.x.rot);
    assert!(e.z.0.abs() < 10.0, "yaw = {}", e.z.0);
}

#[test]
fn a_single_direction_is_learnt_in_few_rounds() {
    let mut kf: EseKf<R64> = EseKf::default();
    kf.x.rot = quat_exp(v3(0.0, 0.0, 0.5));
    kf.maximum_iter = 3;
    run_update(&mut kf, 0.001, |x| {
        let e = so3_to_euler(x.rot);
        DynShareData {
            valid: true,
            h: vec![R64(-e.z.0 * std::f64::consts::PI / 180.0)],
            h_x: entries(1, &[(0, 5)]),
        }
    });
    let e = so3_to_euler(kf.x.rot);
    assert!(e.z.0.abs() < 10.0, "yaw = {}", e.z.0);
    assert!(kf.p.cells[5][5].0 < 0.01, "variance = {}", kf.p.cells[5][5].0);
    assert!((kf.p.cells[0][0].0 - 1.0).abs() < 1e-9);
}

/// With at least as many residuals as degrees of freedom the update goes through
/// the information matrix; it has to give what the innovation covariance gives.
#[test]
fn both_forms_of_the_gain_agree() {
    let mut few: EseKf<R64> = EseKf::default();
    few.x.pos = v3(1.0, -2.0, 0.5);
    let mut many: EseKf<R64> = EseKf::default();
    many.x.pos = few.x.pos;
    run_update(&mut few, 0.001, position_measurement);
    run_update(&mut many, 0.024, |x| {
        let rows = 24;
        let one: Vec<(usize, usize)> = (0..rows).map(|i| (i, i % 3)).collect();
        let at = [x.pos.x, x.pos.y, x.pos.z];
        DynShareData {
            valid: true,
            h: (0..rows).map(|i| at[i % 3].negate()).collect(),
            h_x: entries(rows, &one),
        }
    });
    assert!(many.x.pos.norm().0 < 0.05);
    assert!(asymmetry(&many.p) < 1e-6);
    assert!((few.x.pos.norm().0 - many.x.pos.norm().0).abs() < 0.01);
}
