//! A live audio waveform pipeline: a bounded sample ring between the capture
//! callback and the render loop, a reducer that averages a batch into a fixed
//! number of columns, a scaler that maps column magnitudes to pixels, and the
//! reconnect policy of the capture stream.
//!
//! Samples are fixed-point amplitudes: `UNIT` stands for a full-scale 1.0.
use vstd::prelude::*;

pub mod link;
pub mod reduce;
pub mod render;
pub mod ring;
pub mod scale;

verus! {

/// Capacity of the sample ring and of a sample batch.
pub const MAX_SAMPLES: usize = 1000;

/// Number of columns in one rendered frame.
pub const RENDERED_SAMPLES: usize = 128;

/// Fixed-point value of a full-scale amplitude of 1.0.
pub const UNIT: i32 = 1000000;

} // verus!
