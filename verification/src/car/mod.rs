//! The car: its safety decisions, its command lines and its sensors.

pub mod actuate;
pub mod arm;
pub mod bench;
pub mod cli;
pub mod config;
pub mod control_loop;
pub mod imu;
pub mod lidar;
pub mod raceline;
pub mod sonar;
pub mod source;
pub mod state;
pub mod time;
pub mod tune;
pub mod watchdog;
