//! From a scan to where the corridor lies.

use vstd::prelude::*;

pub mod apex;
pub mod corridor;
pub mod ransac;

verus! {

/// Where the car stands in the corridor.
#[derive(Clone, Copy, Debug, PartialEq, Eq, Structural)]
pub struct CorridorEstimate {
    pub lateral_error_m: crate::scalar::Single,
    pub lateral_rate_m_s: crate::scalar::Single,
    pub heading_error_rad: crate::scalar::Single,
    pub nearest_obstacle_m: crate::scalar::Single,
    pub confidence: crate::scalar::Single,
}

/// An observer that asks for nothing.
#[derive(Clone, Copy, Debug, PartialEq, Eq, Structural)]
pub struct NoopPerceptionObserver;

impl NoopPerceptionObserver {
    /// Whether the fitted walls are to be shown.
    pub fn wants_ransac_walls(&self) -> (out: bool)
        ensures
            !out,
    {
        false
    }

    /// Whether the apex is to be shown.
    pub fn wants_apex(&self) -> (out: bool)
        ensures
            !out,
    {
        false
    }
}

} // verus!
