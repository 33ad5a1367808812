//! The decision logic of a small autonomous race car.
//!
//! Numbers measured or computed in floating point enter this library by their
//! bit patterns (see [`scalar`]): the library classifies and orders them, picks
//! among them and remembers them, and leaves arithmetic on them to its callers.

pub mod car;
pub mod control;
pub mod estimation;
pub mod localization;
pub mod mapping;
pub mod order;
pub mod perception;
pub mod raceline;
pub mod reach;
pub mod rng;
pub mod scalar;
pub mod supervisor;
pub mod text;
