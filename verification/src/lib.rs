//! Greedy construction of a closed tour through a set of points in the plane.
//!
//! A tour visits every point of a pool exactly once and returns to its start.
//! The builder walks from point to point, always moving to the nearest point
//! that may still take an edge, and never reconsiders a choice.

pub mod distance;
pub mod ledger;
pub mod point;
pub mod selection;
pub mod shape;
pub mod walk;

pub use distance::DistanceKey;
pub use ledger::{Connection, Ledger};
pub use point::Point;
pub use shape::Shape;
