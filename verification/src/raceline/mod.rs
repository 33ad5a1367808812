//! From an occupancy grid to a racing line.

pub mod contour;
pub mod drivable;
pub mod edt;
pub mod geometry;
pub mod grid;
pub mod marching;
pub mod min_curvature;
pub mod plateau;
pub mod qp;
pub mod reference;
pub mod savgol;
pub mod solver;
pub mod velocity;
pub mod watershed;
