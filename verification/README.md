# fast_lio

Lidar-inertial odometry, mapping and navigation as a verified library.

- `src/` is the library, verified with Verus. Its algorithms are generic over the
  number type (`scalar`): every contract names the result of each operation, so the
  same code runs on single and double precision or on the fixed-point numbers of
  `fixed`, for which the laws of `scalar` are proved.
- `tests/` runs the library on machine numbers.
- `app/` holds the programs: `map` builds a map from live or synthetic data, `nav`
  drives a robot through a task. What is floating point by nature (singular values,
  matrix inverses) and all input and output are there.

| Part | Modules |
|---|---|
| Numbers and text | `scalar`, `fixed`, `fixed_text`, `text`, `root2` |
| Geometry | `linear`, `matrix`, `so3`, `s2`, `manifold` |
| Laws of exact arithmetic | `forms`, `exact`, `turns`, `sphere` |
| Filter | `model`, `esekf`, `update` |
| Scans | `types`, `preprocess`, `imu_processing`, `sync`, `voxel` |
| Map | `ikdtree`, `local_map`, `measure`, `laser_mapping`, `export` |
| Sources | `data_source`, `driver` |
| Occupancy and planning | `cell_map`, `grid`, `grid_file`, `open_set`, `astar`, `dwa` |
| Tasks | `task`, `task_file`, `nav` |

The dense linear algebra of a scan goes through a small protocol: `run_once` starts a
scan, `take_planes` and `take_inverse` hand in what the filter asks for, and `finish`
gives the pose.
