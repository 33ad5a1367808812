//! Localization against a map.

pub mod correlative;
pub mod particle;
pub mod scan_match;
