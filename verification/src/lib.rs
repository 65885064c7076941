//! A looping morph-animation pipeline: correspondence points are loaded and
//! validated, blend ratios and interpolated point configurations are computed,
//! warped endpoint images are alpha-composited per ratio, and the resulting
//! frame sequence is assembled into an infinitely looping animated container.

pub mod cli;
pub mod fixed;
pub mod frames;
pub mod pipeline;
pub mod points;
pub mod raster;

use vstd::prelude::*;

verus! {

/// The failures the pipeline can report.
#[derive(Debug, PartialEq, Eq)]
pub enum MorphError {
    /// A point record could not be parsed; carries the offending text.
    MalformedInput(Vec<u8>),
    /// The two endpoint images differ in size.
    DimensionMismatch,
    /// A configuration value is unusable (for example fewer than two steps).
    InvalidConfiguration,
    /// The container encoder failed; carries its message.
    EncodeError(Vec<u8>),
}

} // verus!
