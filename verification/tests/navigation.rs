//! Planning, tasks and driving.
use fast_lio::astar::{astar, AStarOptions, Waypoint};
use fast_lio::dwa::{dwa_step, DwaCmd, DwaGoal, DwaParams, DwaState, Obstacle, Pose};
use fast_lio::fixed::Fixed;
use fast_lio::grid::{GridMap, GridMapParams, Point3};
use fast_lio::laser_mapping::LioResult;
use fast_lio::linear::V3;
use fast_lio::nav::{
    chassis_pose, drive, front_obstacle, guard, live_obstacle, yaw_from_quat, Alarm, DriveAction,
    Margins, Velocity,
};
use fast_lio::scalar::{Scalar, Widen};
use fast_lio::task::{
    norm_angle, resample, Control, Phase, TaskExecutor, TaskParams, TaskWaypoint,
};
use fast_lio::task_file::{load_task, parse_yaml, MapMeta};
use fast_lio::text::TextNumber;
use fast_lio::types::{AviaMsg, AviaPointMsg};

/// A double-precision number.
#[derive(Clone, Copy, Debug, PartialEq)]
struct R64(f64);

impl Scalar for R64 {
    fn plus(self, o: Self) -> Self {
        R64(self.0 + o.0)
    }
    fn minus(self, o: Self) -> Self {
        R64(self.0 - o.0)
    }
    fn times(self, o: Self) -> Self {
        R64(self.0 * o.0)
    }
    fn over(self, o: Self) -> Self {
        R64(self.0 / o.0)
    }
    fn negate(self) -> Self {
        R64(-self.0)
    }
    fn magnitude(self) -> Self {
        R64(self.0.abs())
    }
    fn root(self) -> Self {
        R64(self.0.sqrt())
    }
    fn floor(self) -> Self {
        R64(self.0.floor())
    }
    fn ceil(self) -> Self {
        R64(self.0.ceil())
    }
    fn exp(self) -> Self {
        R64(self.0.exp())
    }
    fn sin(self) -> Self {
        R64(self.0.sin())
    }
    fn cos(self) -> Self {
        R64(self.0.cos())
    }
    fn atan2(self, x: Self) -> Self {
        R64(self.0.atan2(x.0))
    }
    fn asin(self) -> Self {
        R64(self.0.asin())
    }
    fn acos(self) -> Self {
        R64(self.0.acos())
    }
    fn hypot(self, o: Self) -> Self {
        R64(self.0.hypot(o.0))
    }
    fn rem_euclid(self, o: Self) -> Self {
        R64(self.0.rem_euclid(o.0))
    }
    fn finite(self) -> bool {
        self.0.is_finite()
    }
    fn to_index(self) -> i64 {
        self.0 as i64
    }
    fn ratio(num: i64, den: i64) -> Self {
        R64(num as f64 / den as f64)
    }
    fn count(n: u64) -> Self {
        R64(n as f64)
    }
    fn less(self, o: Self) -> bool {
        self.0 < o.0
    }
    fn at_most(self, o: Self) -> bool {
        self.0 <= o.0
    }
}

impl TextNumber for R64 {
    fn read(s: &[char]) -> Option<Self> {
        s.iter().collect::<String>().parse().ok().map(R64)
    }
    fn show(self, out: &mut String) {
        out.push_str(&self.0.to_string());
    }
}
/// A single-precision number.
#[derive(Clone, Copy, Debug, PartialEq)]
struct R32(f32);

impl Scalar for R32 {
    fn plus(self, o: Self) -> Self {
        R32(self.0 + o.0)
    }
    fn minus(self, o: Self) -> Self {
        R32(self.0 - o.0)
    }
    fn times(self, o: Self) -> Self {
        R32(self.0 * o.0)
    }
    fn over(self, o: Self) -> Self {
        R32(self.0 / o.0)
    }
    fn negate(self) -> Self {
        R32(-self.0)
    }
    fn magnitude(self) -> Self {
        R32(self.0.abs())
    }
    fn root(self) -> Self {
        R32(self.0.sqrt())
    }
    fn floor(self) -> Self {
        R32(self.0.floor())
    }
    fn ceil(self) -> Self {
        R32(self.0.ceil())
    }
    fn exp(self) -> Self {
        R32(self.0.exp())
    }
    fn sin(self) -> Self {
        R32(self.0.sin())
    }
    fn cos(self) -> Self {
        R32(self.0.cos())
    }
    fn atan2(self, x: Self) -> Self {
        R32(self.0.atan2(x.0))
    }
    fn asin(self) -> Self {
        R32(self.0.asin())
    }
    fn acos(self) -> Self {
        R32(self.0.acos())
    }
    fn hypot(self, o: Self) -> Self {
        R32(self.0.hypot(o.0))
    }
    fn rem_euclid(self, o: Self) -> Self {
        R32(self.0.rem_euclid(o.0))
    }
    fn finite(self) -> bool {
        self.0.is_finite()
    }
    fn to_index(self) -> i64 {
        self.0 as i64
    }
    fn ratio(num: i64, den: i64) -> Self {
        R32((num as f64 / den as f64) as f32)
    }
    fn count(n: u64) -> Self {
        R32(n as f32)
    }
    fn less(self, o: Self) -> bool {
        self.0 < o.0
    }
    fn at_most(self, o: Self) -> bool {
        self.0 <= o.0
    }
}

impl Widen<R64> for R32 {
    fn widen(self) -> R64 {
        R64(self.0 as f64)
    }
    fn narrow(w: R64) -> Self {
        R32(w.0 as f32)
    }
}

const PI: f64 = std::f64::consts::PI;

fn empty_grid() -> GridMap<R64> {
    GridMap::new(GridMapParams {
        resolution: R64(1.0),
        min_x: R64(-10.0),
        min_y: R64(-10.0),
        max_x: R64(10.0),
        max_y: R64(10.0),
        ..Default::default()
    })
}

fn at(x: f64, y: f64) -> Waypoint<R64> {
    Waypoint { x: R64(x), y: R64(y) }
}

fn spot(x: f64, y: f64) -> Point3<R64> {
    [R64(x), R64(y), R64(0.0)]
}

fn bare() -> AStarOptions<R64> {
    AStarOptions { inflation: R64(0.0), ..Default::default() }
}

#[test]
fn straight_path_in_empty_map() {
    let grid = empty_grid();
    let path = astar(&grid, at(-5.0, 0.0), at(5.0, 0.0), &AStarOptions::default()).unwrap();
    assert!(path.len() >= 2);
    assert!((path[0].x.0 + 5.0).abs() < 1.0);
    assert!((path[path.len() - 1].x.0 - 5.0).abs() < 1.0);
    for w in &path {
        assert!(w.y.0.abs() < 1.0, "waypoint off line: {w:?}");
    }
}

#[test]
fn wall_diverts_path() {
    let mut grid = empty_grid();
    let wall: Vec<Point3<R64>> = (0..7).map(|i| spot(0.0, -3.0 + i as f64)).collect();
    grid.mark_occupied(&wall);
    let path = astar(&grid, at(-5.0, 0.0), at(5.0, 0.0), &bare()).unwrap();
    assert!(path.iter().any(|w| w.y.0.abs() > 1.0), "path did not avoid wall: {path:?}");
}

#[test]
fn unreachable_goal_returns_none() {
    let mut grid = empty_grid();
    let blob: Vec<Point3<R64>> =
        (-9..9).flat_map(|i| (-9..9).map(move |j| spot(i as f64, j as f64))).collect();
    grid.mark_occupied(&blob);
    let res = astar(&grid, at(-5.0, -5.0), at(5.0, 5.0), &bare());
    assert!(res.is_none());
}

#[test]
fn goal_on_obstacle_snaps_to_free() {
    let mut grid = empty_grid();
    grid.mark_occupied(&[spot(3.0, 3.0)]);
    let res = astar(&grid, at(0.0, 0.0), at(3.0, 3.0), &AStarOptions::default());
    assert!(res.is_some(), "goal on a single obstacle cell should snap to a free neighbour");
}

#[test]
fn start_on_noise_snaps_to_free() {
    let mut grid = empty_grid();
    grid.mark_occupied(&[spot(0.0, 0.0)]);
    let path = astar(&grid, at(0.0, 0.0), at(5.0, 5.0), &bare())
        .expect("snapped start should still plan");
    assert!(path.len() >= 2);
}

#[test]
fn start_fully_blocked_returns_none() {
    let mut grid = empty_grid();
    let blob: Vec<Point3<R64>> =
        (-5..=5).flat_map(|i| (-5..=5).map(move |j| spot(i as f64, j as f64))).collect();
    grid.mark_occupied(&blob);
    let res = astar(&grid, at(0.0, 0.0), at(5.0, 5.0), &bare());
    assert!(res.is_none());
}

#[test]
fn ends_off_the_grid_have_no_path() {
    let grid = empty_grid();
    assert!(astar(&grid, at(-50.0, 0.0), at(5.0, 0.0), &bare()).is_none());
    assert!(astar(&grid, at(0.0, 0.0), at(5.0, 50.0), &bare()).is_none());
}

#[test]
fn path_in_an_empty_map_has_the_fewest_cells() {
    let grid = empty_grid();
    let path = astar(&grid, at(-5.0, 0.5), at(5.0, 0.5), &bare()).unwrap();
    assert_eq!(path.len(), 11);
    let diagonal = astar(&grid, at(-4.5, -4.5), at(4.5, 4.5), &bare()).unwrap();
    assert_eq!(diagonal.len(), 10);
    assert_eq!((diagonal[0].x.0, diagonal[0].y.0), (-4.5, -4.5));
}

#[test]
fn search_gives_up_after_its_budget() {
    let grid = empty_grid();
    let opts = AStarOptions { inflation: R64(0.0), max_expansions: 3 };
    assert!(astar(&grid, at(-5.0, 0.5), at(5.0, 0.5), &opts).is_none());
}

#[test]
fn a_search_may_have_no_budget() {
    let grid = empty_grid();
    let opts = AStarOptions { inflation: R64(0.0), max_expansions: usize::MAX };
    let path = astar(&grid, at(-4.5, -4.5), at(4.5, 4.5), &opts).unwrap();
    assert_eq!((path[0].x.0, path[0].y.0), (-4.5, -4.5));
}

#[test]
fn fixed_point_planning_works() {
    let n = |v: i64| Fixed::ratio(v, 1);
    let grid = GridMap::new(GridMapParams {
        resolution: n(1),
        min_x: n(0),
        min_y: n(0),
        max_x: n(8),
        max_y: n(8),
        ..Default::default()
    });
    let start = Waypoint { x: n(1), y: n(1) };
    let goal = Waypoint { x: n(6), y: n(1) };
    let opts = AStarOptions { inflation: n(0), ..Default::default() };
    let path = astar(&grid, start, goal, &opts).unwrap();
    assert_eq!(path.len(), 6);
}

fn at_rest() -> DwaState<R64> {
    DwaState { pose: Pose { x: R64(0.0), y: R64(0.0), theta: R64(0.0) }, ..Default::default() }
}

fn goal(x: f64, y: f64, tolerance: f64) -> DwaGoal<R64> {
    DwaGoal { x: R64(x), y: R64(y), tolerance: R64(tolerance) }
}

#[test]
fn reaches_goal_stops() {
    let p = DwaParams::default();
    let state = DwaState::default();
    let cmd = dwa_step(&p, &state, goal(0.1, 0.0, 0.5), &[]).unwrap();
    assert!(cmd.linear.0.abs() < 1e-6 && cmd.angular.0.abs() < 1e-6);
}

#[test]
fn moves_toward_goal() {
    let p = DwaParams::default();
    let cmd = dwa_step(&p, &at_rest(), goal(5.0, 0.0, 0.4), &[]).unwrap();
    assert!(cmd.linear.0 > 0.0, "should move forward, got {cmd:?}");
    assert!(cmd.angular.0.abs() < 0.5, "should steer roughly straight, got {cmd:?}");
}

#[test]
fn blocked_returns_none_or_slow() {
    let p = DwaParams::default();
    let obstacles = vec![Obstacle::new(R64(0.6), R64(0.0), R64(0.2))];
    let cmd = dwa_step(&p, &at_rest(), goal(5.0, 0.0, 0.4), &obstacles)
        .unwrap_or(DwaCmd { linear: R64(0.0), angular: R64(0.0) });
    assert!(cmd.linear.0 < p.max_v.0, "should slow down or stop near obstacle: {cmd:?}");
}

#[test]
fn turns_toward_goal() {
    let p = DwaParams::default();
    let cmd = dwa_step(&p, &at_rest(), goal(0.0, 5.0, 0.4), &[]).unwrap();
    assert!(cmd.angular.0 > 0.0, "should turn left (ccw), got {cmd:?}");
}

#[test]
fn obstacle_helper() {
    let o = Obstacle::new(R64(1.0), R64(2.0), R64(0.3));
    assert_eq!((o.x.0, o.y.0, o.radius.0), (1.0, 2.0, 0.3));
}

#[test]
fn surrounded_robot_has_no_command() {
    let p = DwaParams::default();
    let here = [Obstacle::new(R64(0.0), R64(0.0), R64(5.0))];
    assert!(dwa_step(&p, &at_rest(), goal(9.0, 0.0, 0.4), &here).is_none());
}

fn norm(v: f64) -> f64 {
    let mut v = v;
    while v > PI {
        v -= 2.0 * PI;
    }
    while v < -PI {
        v += 2.0 * PI;
    }
    v
}

#[test]
fn norm_angle_contract() {
    assert!((norm_angle(R64(PI * 3.0)).0 - norm(PI * 3.0)).abs() < 1e-9);
    assert!((norm_angle(R64(-PI * 3.0)).0 - norm(-PI * 3.0)).abs() < 1e-9);
    assert!(norm_angle(R64(0.0)).0.abs() < 1e-9);
}

#[test]
fn angles_within_half_a_turn_stay() {
    assert_eq!(norm_angle(R64(-PI)).0, PI);
    assert_eq!(norm_angle(R64(-3.0)).0, -3.0);
    assert_eq!(norm_angle(R64(PI)).0, PI);
    assert_eq!(norm_angle(R64(1.0)).0, 1.0);
}

fn same(a: &TaskWaypoint<R64>, x: f64, y: f64, yaw: Option<f64>, dwell: f64) -> bool {
    a.x.0 == x && a.y.0 == y && a.yaw_deg.map(|v| v.0) == yaw && a.dwell_s.0 == dwell
}

#[test]
fn load_task_parses_yaw_and_dwell() {
    let wps: Vec<TaskWaypoint<R64>> = load_task(
        "fast_lio_test_task.txt",
        "# comment\n1.0 2.0 90 5\n3.0 4.0\n\n5.0 6.0 180\n",
    )
    .unwrap();
    assert_eq!(wps.len(), 3);
    assert!(same(&wps[0], 1.0, 2.0, Some(90.0), 5.0));
    assert!(same(&wps[1], 3.0, 4.0, None, 0.0));
    assert!(same(&wps[2], 5.0, 6.0, Some(180.0), 0.0));
}

#[test]
fn load_task_rejects_empty() {
    let r = load_task::<R64>("fast_lio_test_task_empty.txt", "# only a comment\n");
    assert!(r.is_err());
}

#[test]
fn task_errors_name_the_line() {
    let error = |text: &str| load_task::<R64>("t.txt", text).err().unwrap();
    assert_eq!(error("1 2\nx 2\n"), "t.txt:2: bad x");
    assert_eq!(error("# go\n1\n"), "t.txt:2: bad y");
    assert_eq!(error("\n"), "t.txt: no waypoints");
}

#[test]
fn negative_waits_and_wild_headings_are_dropped() {
    let wps = load_task::<R64>("t.txt", "1 2 inf -3\r\n").unwrap();
    assert!(same(&wps[0], 1.0, 2.0, None, 0.0));
}

#[test]
fn map_metadata_is_read() {
    let m: MapMeta<R64> =
        parse_yaml("image: map.pgm\nresolution: 0.1\norigin: [-3.5, 4, 0.0]\n").unwrap();
    assert_eq!((m.resolution.0, m.origin_x.0, m.origin_y.0), (0.1, -3.5, 4.0));
    let d: MapMeta<R64> = parse_yaml("").unwrap();
    assert_eq!((d.resolution.0, d.origin_x.0, d.origin_y.0), (0.05, 0.0, 0.0));
    assert_eq!(parse_yaml::<R64>("resolution: wide\n").err().unwrap(), "bad resolution");
}

fn task_map() -> GridMap<R64> {
    GridMap::new(GridMapParams {
        resolution: R64(1.0),
        min_x: R64(-20.0),
        min_y: R64(-20.0),
        max_x: R64(20.0),
        max_y: R64(20.0),
        ..Default::default()
    })
}

fn task_params() -> TaskParams<R64> {
    TaskParams {
        lookahead: R64(0.6),
        max_vx: R64(0.4),
        max_wz: R64(1.0),
        arrive: R64(0.15),
        yaw_tol: R64(5f64.to_radians()),
        inflation: R64(0.3),
    }
}

fn waypoint(x: f64, y: f64, yaw: Option<f64>, dwell: f64) -> TaskWaypoint<R64> {
    TaskWaypoint { x: R64(x), y: R64(y), yaw_deg: yaw.map(R64), dwell_s: R64(dwell) }
}

/// The pose after a tick of the command.
fn moved(pose: [f64; 3], c: &Control<R64>, dt: f64) -> [f64; 3] {
    let yaw = norm_angle(R64(pose[2] + c.wz.0 * dt)).0;
    [pose[0] + c.vx.0 * yaw.cos() * dt, pose[1] + c.vx.0 * yaw.sin() * dt, yaw]
}

/// Drives the executor with a simple model of the robot until it is done.
fn drive_to_done(
    exec: &mut TaskExecutor<'_, R64>,
    start: [f64; 3],
    dt: f64,
    max_steps: usize,
) -> Vec<Control<R64>> {
    let mut pose = start;
    let mut out = Vec::new();
    for i in 0..max_steps {
        let c = exec.step(pose.map(R64), R64(i as f64 * dt));
        out.push(c);
        if c.phase == Phase::Done {
            break;
        }
        pose = moved(pose, &c, dt);
    }
    out
}

#[test]
fn task_reaches_waypoint_and_dwells() {
    let map = task_map();
    let task = vec![waypoint(3.0, 0.0, None, 2.0), waypoint(3.0, 3.0, None, 0.0)];
    let mut exec = TaskExecutor::new(&map, task, task_params());
    let controls = drive_to_done(&mut exec, [0.0, 0.0, 0.0], 0.1, 5000);
    let done = controls.last().unwrap();
    assert_eq!(done.phase, Phase::Done);
    assert!(controls.iter().any(|c| c.phase == Phase::Dwelling));
    let mut pose = [0.0f64, 0.0, 0.0];
    for c in &controls {
        pose = moved(pose, c, 0.1);
    }
    assert!((pose[0] - 3.0).abs() < 0.5, "final x = {}", pose[0]);
    assert!((pose[1] - 3.0).abs() < 0.5, "final y = {}", pose[1]);
}

#[test]
fn task_faces_heading_before_done() {
    let map = task_map();
    let task = vec![waypoint(3.0, 0.0, Some(90.0), 0.0)];
    let mut exec = TaskExecutor::new(&map, task, task_params());
    let controls = drive_to_done(&mut exec, [0.0, 0.0, 0.0], 0.1, 5000);
    let done = controls.last().unwrap();
    assert_eq!(done.phase, Phase::Done);
    let mut yaw = 0.0f64;
    for c in &controls {
        yaw = norm_angle(R64(yaw + c.wz.0 * 0.1)).0;
    }
    assert!((yaw - std::f64::consts::FRAC_PI_2).abs() < 0.2, "final yaw = {yaw}");
}

#[test]
fn a_wait_lasts_as_long_as_asked() {
    let map = task_map();
    let task = vec![waypoint(3.0, 0.0, None, 2.0)];
    let mut exec = TaskExecutor::new(&map, task, task_params());
    let controls = drive_to_done(&mut exec, [0.0, 0.0, 0.0], 0.1, 5000);
    let waiting = controls.iter().filter(|c| c.phase == Phase::Dwelling).count();
    assert!((19..=21).contains(&waiting), "waited for {waiting} ticks");
    assert!(controls.iter().all(|c| c.vx.0 <= 0.4 && c.wz.0.abs() <= 1.0));
    assert_eq!(controls.last().unwrap().waypoint, None);
    assert!(exec.current_waypoint().is_none());
    assert_eq!(exec.phase(), Phase::Done);
}

#[test]
fn unreachable_waypoints_are_skipped() {
    let map = task_map();
    let task = vec![waypoint(300.0, 0.0, None, 0.0), waypoint(3.0, 0.0, None, 0.0)];
    let mut exec = TaskExecutor::new(&map, task, task_params());
    let c = exec.step([R64(0.0), R64(0.0), R64(0.0)], R64(0.0));
    assert_eq!(c.waypoint, Some(1));
}

#[test]
fn resampled_paths_have_short_steps() {
    let path = [at(0.0, 0.0), at(1.0, 0.0)];
    let fine = resample(&path, R64(0.25));
    assert_eq!(fine.len(), 5);
    assert_eq!((fine[1].x.0, fine[1].y.0), (0.25, 0.0));
    assert_eq!((fine[4].x.0, fine[4].y.0), (1.0, 0.0));
}

fn odometry(x: f64, y: f64, quat: [f64; 4]) -> LioResult<R64> {
    let o = V3::zeros();
    LioResult {
        time: R64(0.0),
        pos: V3::new(R64(x), R64(y), R64(0.0)),
        quat: quat.map(R64),
        vel: o,
        bg: o,
        ba: o,
        map_points: 0,
        effct_feat_num: 0,
        res_mean: R64(0.0),
    }
}

#[test]
fn the_rotation_centre_is_behind_the_lidar() {
    let half = std::f64::consts::FRAC_PI_4;
    let left = [half.cos(), 0.0, 0.0, half.sin()];
    assert!((yaw_from_quat(left.map(R64)).0 - PI / 2.0).abs() < 1e-12);
    let p = chassis_pose(&odometry(1.0, 2.0, left), R64(0.3), R64(0.1));
    assert!((p[0].0 - 1.0).abs() < 1e-12);
    assert!((p[1].0 - 1.8).abs() < 1e-12);
}

fn frame(points: &[(f32, f32, f32)]) -> AviaMsg<R32, R64> {
    AviaMsg {
        stamp: R64(0.0),
        points: points
            .iter()
            .map(|&(x, y, z)| AviaPointMsg {
                x: R32(x),
                y: R32(y),
                z: R32(z),
                reflectivity: 10,
                tag: 0,
                line: 0,
                offset_time: 0,
            })
            .collect(),
    }
}

#[test]
fn only_points_in_the_way_are_obstacles() {
    let see = |points: &[(f32, f32, f32)]| {
        front_obstacle(&frame(points), R64(0.5), R64(0.6)).map(|d| d.0)
    };
    assert_eq!(see(&[]), None);
    assert_eq!(see(&[(2.0, 0.0, 0.0), (1.0, 0.0, 0.0), (3.0, 0.0, 0.0)]), Some(1.0));
    let aside = see(&[(1.0, 0.5, 0.0)]).unwrap();
    assert!((aside - 1.118034).abs() < 1e-6);
    assert_eq!(see(&[(1.0, 0.7, 0.0)]), None);
    assert_eq!(see(&[(0.01, 0.0, 0.0)]), None);
    assert_eq!(see(&[(1.0, 0.0, -0.48)]), None);
    assert_eq!(see(&[(1.0, 0.0, 0.7)]), None);
    assert_eq!(see(&[(f32::INFINITY, 0.0, 0.0)]), None);
}

#[test]
fn old_frames_show_no_obstacle() {
    let f = frame(&[(1.0, 0.0, 0.0)]);
    assert_eq!(live_obstacle(Some(&f), 499, R64(0.5), R64(0.6)).map(|d| d.0), Some(1.0));
    assert!(live_obstacle(Some(&f), 500, R64(0.5), R64(0.6)).is_none());
    assert!(live_obstacle::<R32, R64>(None, 0, R64(0.5), R64(0.6)).is_none());
}

#[test]
fn obstacles_slow_and_stop_the_robot() {
    let m = Margins { stop_dist: R64(0.5), slow_dist: R64(1.5) };
    let v = Velocity { vx: R64(0.4), wz: R64(0.2) };
    let (far, alarm) = guard(v, Some(R64(2.0)), m);
    assert_eq!((far.vx.0, far.wz.0, alarm), (0.4, 0.2, Alarm::Clear));
    let (near, alarm) = guard(v, Some(R64(1.0)), m);
    assert_eq!((near.vx.0, near.wz.0, alarm), (0.2, 0.2, Alarm::Slow));
    let (close, alarm) = guard(v, Some(R64(0.4)), m);
    assert_eq!((close.vx.0, close.wz.0, alarm), (0.0, 0.0, Alarm::Stop));
    let turning = Velocity { vx: R64(0.0), wz: R64(0.2) };
    let (still, alarm) = guard(turning, Some(R64(0.4)), m);
    assert_eq!((still.wz.0, alarm), (0.2, Alarm::Clear));
}

#[test]
fn chassis_actions_follow_the_task() {
    let m = Margins { stop_dist: R64(0.5), slow_dist: R64(1.5) };
    assert!(matches!(drive::<R64>(None, None, m).0, DriveAction::Hold));
    let c = |phase| Control { vx: R64(0.4), wz: R64(0.0), phase, waypoint: Some(0) };
    assert!(matches!(drive(Some(c(Phase::Done)), None, m).0, DriveAction::Finish));
    let (action, alarm) = drive(Some(c(Phase::Navigating)), Some(R64(0.1)), m);
    assert!(matches!(action, DriveAction::Drive(v) if v.vx.0 == 0.0));
    assert_eq!(alarm, Alarm::Stop);
}
