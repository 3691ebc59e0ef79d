//! The in-memory unit of data: one mono recording.

use vstd::prelude::*;

verus! {

/// Raw mono audio data together with its identity metadata.
///
/// Each entry of `samples` is the bit pattern of one 32-bit float sample
/// (amplitude nominally in [-1.0, 1.0]); the host converts with
/// `f32::to_bits` / `f32::from_bits` at the boundary.  `id` stays `None`
/// until the persistence collaborator assigns one on first save.
/// `created_at` is an opaque timestamp (seconds); the core never reads it.
pub struct AudioClip {
    pub samples: Vec<u32>,
    pub sample_rate: u32,
    pub id: Option<u64>,
    pub name: String,
    pub created_at: i64,
}

impl AudioClip {
    pub fn new(
        sample_rate: u32,
        samples: Vec<u32>,
        id: Option<u64>,
        name: String,
        created_at: i64,
    ) -> (c: AudioClip)
        ensures
            c.sample_rate == sample_rate,
            c.samples@ == samples@,
            c.id == id,
            c.name@ == name@,
            c.created_at == created_at,
    {
        AudioClip { samples, sample_rate, id, name, created_at }
    }
}

} // verus!
