//! The uncompressed legacy sample format: raw big-endian 32-bit float
//! samples, one after another, with no framing and no header.  The codec
//! keeps decoding it for backward data compatibility; the caller selects
//! this format explicitly, it is never auto-detected.
//!
//! Samples are handled as float bit patterns (see the crate root), so both
//! directions are pure byte shuffling and round-trip losslessly.

use vstd::prelude::*;
use crate::bytes::{be32, u32_of_be, lemma_be32_round_trip, push_u32_be, read_u32_be};

verus! {

/// The legacy byte stream for a sample sequence: the four big-endian bytes
/// of each sample in order.
pub open spec fn v0_bytes(s: Seq<u32>) -> Seq<u8> {
    Seq::new((s.len() * 4) as nat, |i: int| be32(s[i / 4])[i % 4])
}

/// The sample sequence spelled by a legacy byte stream whose length is a
/// multiple of four.
pub open spec fn v0_samples(b: Seq<u8>) -> Seq<u32> {
    Seq::new((b.len() / 4) as nat, |i: int| u32_of_be(b[4 * i], b[4 * i + 1], b[4 * i + 2], b[4 * i + 3]))
}

/// Encodes samples into the legacy raw big-endian format.
pub fn encode_v0(samples: &Vec<u32>) -> (out: Vec<u8>)
    requires
        samples.len() * 4 <= usize::MAX,
    ensures
        out@ == v0_bytes(samples@),
{
    let mut out: Vec<u8> = Vec::new();
    let mut i: usize = 0;
    while i < samples.len()
        invariant
            i <= samples@.len(),
            samples@.len() * 4 <= usize::MAX,
            out@.len() == 4 * i as int,
            forall|j: int| 0 <= j < out@.len() ==> out@[j] == be32(samples@[j / 4])[j % 4],
        decreases samples@.len() - i,
    {
        push_u32_be(&mut out, samples[i]);
        i = i + 1;
    }
    assert(out@ =~= v0_bytes(samples@));
    out
}

/// Decodes the legacy raw big-endian format back into samples.  The stream
/// must hold whole samples: its length must be a multiple of four.
pub fn decode_v0(bytes: &Vec<u8>) -> (samples: Vec<u32>)
    requires
        bytes.len() % 4 == 0,
    ensures
        samples@ == v0_samples(bytes@),
{
    let n = bytes.len() / 4;
    let mut samples: Vec<u32> = Vec::new();
    let mut i: usize = 0;
    while i < n
        invariant
            i <= n,
            n == bytes.len() / 4,
            bytes.len() % 4 == 0,
            samples@.len() == i as int,
            forall|j: int|
                0 <= j < i as int ==> samples@[j] == u32_of_be(
                    bytes@[4 * j],
                    bytes@[4 * j + 1],
                    bytes@[4 * j + 2],
                    bytes@[4 * j + 3],
                ),
        decreases n - i,
    {
        let x = read_u32_be(bytes, 4 * i);
        samples.push(x);
        i = i + 1;
    }
    assert(samples@ =~= v0_samples(bytes@));
    samples
}

/// The legacy format is lossless: decoding the bytes built from any sample
/// sequence returns exactly that sequence, bit for bit.
pub proof fn lemma_v0_round_trip(s: Seq<u32>)
    ensures
        v0_samples(v0_bytes(s)) == s,
{
    let b = v0_bytes(s);
    assert forall|i: int| 0 <= i < s.len() implies v0_samples(b)[i] == s[i] by {
        assert(b[4 * i] == be32(s[i])[0]);
        assert(b[4 * i + 1] == be32(s[i])[1]);
        assert(b[4 * i + 2] == be32(s[i])[2]);
        assert(b[4 * i + 3] == be32(s[i])[3]);
        lemma_be32_round_trip(s[i]);
    }
    assert(v0_samples(v0_bytes(s)) =~= s);
}

} // verus!
