//! Convex hulls of finite point sets in the plane.
//!
//! Points live on an exact integer coordinate grid, so every geometric
//! predicate (turn direction, collinearity, the lexicographic sweep order)
//! is computed exactly and carries a proof.  A caller working with
//! fractional coordinates picks a grid resolution and scales its values
//! onto the grid before calling in.

pub mod chain;
pub mod hull;
pub mod point;
pub mod sort;

pub use hull::convex_hull;
pub use point::Point;
