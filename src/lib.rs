//! Slide-rule scales: tick layout for linear and logarithmic scales.
//!
//! Domain values and positions on the drawing surface are exact rationals
//! ([`Ratio`]); a logarithmic position is kept in symbolic form
//! ([`Offset::Log`]) for the renderer to evaluate.
pub mod ratio;
pub mod scale;
pub mod layout;

pub use ratio::Ratio;
pub use scale::{Offset, Scale, Transform, MAX_COORD, MAX_DEN, MAX_NUM};
pub use layout::{Division, Primitive, BASE_TICK_LENGTH, MAX_TICKS, SECONDARY_TICKS};
