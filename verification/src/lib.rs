//! Builds layered relief-model data from point elevations.
//!
//! Coordinates are carried as fixed-point microdegrees (millionths of a
//! degree), so every computation on them is exact integer arithmetic.

pub mod coords;
pub mod csv_out;
pub mod error;
pub mod grid;
pub mod lattice;
pub mod quantize;
pub mod response;
