//! Two-dimensional vectors over IEEE 754 single-precision numbers, and
//! rectangle normalisation built on them.
//!
//! Numbers are held as their 32-bit patterns and every operation on them is
//! carried out in integer arithmetic, so that each result can be stated, and
//! is proved, against the mathematical value the pattern denotes.
//!
//! - `binary32`: the patterns, what they denote, and their order;
//! - `rounding`: what it is to round an exact result to the nearest number;
//! - `pack`: the rounding as it is computed;
//! - `arith`, `quotient`: the operations of arithmetic;
//! - `tolerance`: how far a rounded result lies from the exact one;
//! - `math`: vectors and rectangles;
//! - `laws`: what holds of vectors up to rounding.

pub mod binary32;
pub mod rounding;
pub mod pack;
pub mod arith;
pub mod quotient;
pub mod tolerance;
pub mod laws;
pub mod math;

pub use binary32::{Binary32, Number};
pub use math::{
    rect_ensure_in_bounds, rect_ensure_positive_size, rect_round, snap_tangent_angle,
    snapped_angle_15deg, text_form, Vec2D,
};
