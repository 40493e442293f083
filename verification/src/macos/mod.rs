//! The rules of the macOS services. Coordinates use top-left desktop points.

pub mod capture;
pub mod input;
