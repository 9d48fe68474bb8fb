//! A verified signal-routing and evaluation engine for a grid of logic
//! blocks. Blocks sit on integer coordinates and carry a connection role on
//! each of their four sides; relay blocks redirect a resolution walk across
//! the grid, and arithmetic blocks sum two resolved inputs into a resolved
//! output once per evaluation pass.

pub mod engine;
pub mod grid;
pub mod laws;
