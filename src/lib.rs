//! A bounded cache of resolved gradient ramps.
//!
//! A gradient is an ordered list of color stops. The cache hands out a small
//! integer slot for each gradient it has seen; slot `i` addresses the `i`-th
//! strip of `N_SAMPLES` samples in one shared buffer.
pub mod color;
pub mod laws;
pub mod ramp_cache;

pub use color::{ColorStop, Rgba};
pub use ramp_cache::{RampCache, Ramps, N_SAMPLES, RETAINED_COUNT};
