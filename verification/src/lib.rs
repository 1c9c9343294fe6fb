//! Lazy portfolio rebalancing: direct a new cash contribution into a
//! multi-asset portfolio so the holdings move toward target allocation
//! fractions without ever selling an existing position.
//!
//! All money and percentage values are exact rationals; decimal strings
//! with two fractional digits exist only at the display and persistence
//! boundary.

pub mod laws;
pub mod model;
pub mod project;
pub mod rational;
pub mod session;
pub mod solver;
pub mod text;
