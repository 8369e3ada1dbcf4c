//! Lidar-inertial odometry, mapping and navigation.
pub mod angles;
pub mod astar;
pub mod carry;
pub mod cell_map;
pub mod data_source;
pub mod driver;
pub mod dwa;
pub mod esekf;
pub mod exact;
pub mod export;
pub mod fixed;
pub mod fixed_text;
pub mod forms;
pub mod frames;
pub mod grid;
pub mod grid_file;
pub mod ikdtree;
pub mod imu_processing;
pub mod kalman;
pub mod laser_mapping;
pub mod linear;
pub mod local_map;
pub mod manifold;
pub mod matrix;
pub mod measure;
pub mod model;
pub mod nav;
pub mod open_set;
pub mod places;
pub mod planes;
pub mod preprocess;
pub mod reset;
pub mod root2;
pub mod s2;
pub mod scalar;
pub mod slopes;
pub mod so3;
pub mod sphere;
pub mod sync;
pub mod task;
pub mod task_file;
pub mod text;
pub mod turns;
pub mod types;
pub mod units;
pub mod update;
pub mod voxel;
