//! The frame pipeline: readings of the UI elements, and housing status resolution across
//! frames.
pub mod interpolation;
pub mod readings;
