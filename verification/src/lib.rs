//! Decode-to-audio streaming core for a discrete neural-codec explorer.
//!
//! The library covers the pieces of the pipeline whose correctness is provable:
//! the user-edited code grid, the fragment-stitching and seam-smoothing math,
//! the rate-converting resampler, the looping realtime playback state machine,
//! and the decode worker's coalescing and shutdown decisions.
//!
//! Audio samples are carried as fixed-point integers (`i64`); the scale factor
//! is chosen by the embedding program and never matters to the algorithms here,
//! which are all scale-free (blending, mean removal, and copying).

pub mod codes;
pub mod resample;
pub mod samples;
pub mod stitch;
pub mod synth;
pub mod worker;

use vstd::prelude::*;

verus! {

/// Number of PCM samples the decoder produces per fragment at its native rate.
pub const FRAGMENT_SIZE: usize = 320;

/// Fixed sample rate, in Hz, of the decoder's raw PCM output.
pub const NATIVE_SAMPLE_RATE: u32 = 24000;

/// Largest code value a grid cell may hold.
pub const MAX_CODE: u32 = 1023;

} // verus!
