//! Verified core of a small voice-journal audio pipeline.
//!
//! The library holds the logic that is worth proving: a linear-interpolation
//! resampler, the self-describing compressed-frame wire format together with
//! the raw big-endian sample format that preceded it, and the state machines
//! that a capture or playback session drives from a real-time callback.
//!
//! Audio samples are 32-bit IEEE-754 floats, but all the verified logic is
//! structural: it moves samples around without ever computing on their
//! values.  A sample therefore travels through this crate as the `u32` bit
//! pattern of its float (`f32::to_bits`); the unverified host converts at the
//! boundary and performs the few genuinely numeric steps (the interpolation
//! blend and the per-frame compression), which the contracts here leave to it
//! frame by frame.

pub mod bytes;
pub mod clip;
pub mod codec;
pub mod legacy;
pub mod resample;
pub mod session;
