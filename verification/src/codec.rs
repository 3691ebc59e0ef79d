//! The compressed-frame wire format and the stateful encoder and decoder
//! that process one clip each.
//!
//! A blob is a 4-byte big-endian count of real (unpadded) samples followed
//! by frame records, each a 2-byte big-endian length prefix and that many
//! bytes of compressed payload.  Frames cover a fixed 20 ms, so the encoder
//! zero-pads the final partial frame; only the real sample count is stored,
//! and decoding truncates the padding away.
//!
//! Compressing or decompressing one frame is float work the verified core
//! cannot perform on bit patterns, so the encoder hands out padded frames
//! and takes payloads back, and the decoder hands out payloads and takes
//! decoded frames back; everything structural in between is proved here.

use vstd::prelude::*;
use vstd::arithmetic::div_mod::{
    lemma_div_pos_is_pos, lemma_fundamental_div_mod, lemma_mod_division_less_than_divisor,
};
use vstd::arithmetic::mul::lemma_mul_inequality;
use crate::bytes::{
    be16, be32, lemma_be16_round_trip, lemma_u16_be_bytes, push_u16_be, push_u32_be, read_u16_be, read_u32_be,
    u16_of_be, u32_of_be,
};

verus! {

/// Why an encode or decode call failed.
///
/// `UnsupportedRate`: the codec was asked to work at a rate outside its
/// fixed set.  `TruncatedInput`: the byte stream ended before the header,
/// before a promised payload, or held more frames than the stored sample
/// count allows.  `FormatError`: a payload decompressed to something other
/// than exactly one frame.
#[derive(Clone, Copy, Debug, PartialEq, Eq, Structural)]
pub enum CodecError {
    UnsupportedRate,
    TruncatedInput,
    FormatError,
}

/// The codec's fixed set of supported sample rates, in Hz.
pub open spec fn rate_supported(rate: u32) -> bool {
    rate == 8000 || rate == 12000 || rate == 16000 || rate == 24000 || rate == 48000
}

/// Whether `rate` is one of the codec's supported rates.
pub fn supported_rate(rate: u32) -> (b: bool)
    ensures
        b == rate_supported(rate),
{
    rate == 8000 || rate == 12000 || rate == 16000 || rate == 24000 || rate == 48000
}

/// Samples in one 20 ms frame at `rate`.
pub open spec fn spec_frame_size(rate: u32) -> int {
    rate as int / 1000 * 20
}

/// Samples in one 20 ms frame at a supported `rate`.
pub fn frame_size(rate: u32) -> (n: usize)
    requires
        rate_supported(rate),
    ensures
        n == spec_frame_size(rate),
        160 <= n <= 960,
{
    (rate / 1000 * 20) as usize
}

/// The rate the encoder actually uses for a clip at `rate`: the rate itself
/// when supported, otherwise 48000 Hz, to which the clip is resampled
/// before encoding.
pub fn encode_rate(rate: u32) -> (r: u32)
    ensures
        r == if rate_supported(rate) {
            rate as int
        } else {
            48000int
        },
        rate_supported(r),
{
    if supported_rate(rate) {
        rate
    } else {
        48000
    }
}

/// Number of frames that cover `len` samples at `fsize` samples per frame,
/// the last frame partial.
pub open spec fn frame_count(len: int, fsize: int) -> int {
    (len + fsize - 1) / fsize
}

/// Frame `j` of the sample sequence, zero-padded to full length past the
/// end of the input.
pub open spec fn frame_seq(s: Seq<u32>, fsize: int, j: int) -> Seq<u32> {
    Seq::new(fsize as nat, |k: int| if j * fsize + k < s.len() {
        s[j * fsize + k]
    } else {
        0u32
    })
}

/// Basic bounds of the frame count: frames never outnumber samples, and
/// together they cover the input with strictly less than one frame of
/// padding.
pub proof fn lemma_frame_count_bounds(len: int, fsize: int)
    requires
        0 <= len,
        1 <= fsize,
    ensures
        0 <= frame_count(len, fsize) <= len,
        len <= frame_count(len, fsize) * fsize < len + fsize,
        len == 0 ==> frame_count(len, fsize) == 0,
{
    lemma_fundamental_div_mod(len + fsize - 1, fsize);
    lemma_mod_division_less_than_divisor(len + fsize - 1, fsize);
    let q = frame_count(len, fsize);
    let r = (len + fsize - 1) % fsize;
    assert(len + fsize - 1 == fsize * q + r);
    assert(q * fsize == fsize * q) by (nonlinear_arith);
    assert(q <= len) by (nonlinear_arith)
        requires
            len + fsize - 1 == fsize * q + r,
            0 <= r < fsize,
            1 <= fsize,
            0 <= len,
    ;
    assert(0 <= q) by (nonlinear_arith)
        requires
            len + fsize - 1 == fsize * q + r,
            0 <= r < fsize,
            1 <= fsize,
            0 <= len,
    ;
}

/// The byte stream of a sequence of frame records: each payload behind its
/// 2-byte big-endian length prefix, in order.
pub open spec fn records_bytes(payloads: Seq<Seq<u8>>) -> Seq<u8>
    decreases payloads.len(),
{
    if payloads.len() == 0 {
        Seq::empty()
    } else {
        be16(payloads[0].len() as u16) + payloads[0] + records_bytes(payloads.drop_first())
    }
}

/// A whole blob: the big-endian real sample count, then the frame records.
pub open spec fn blob_bytes(count: u32, payloads: Seq<Seq<u8>>) -> Seq<u8> {
    be32(count) + records_bytes(payloads)
}

/// A payload fits behind its 16-bit length prefix.
pub open spec fn payload_fits(p: Seq<u8>) -> bool {
    p.len() <= 0xFFFF
}

/// Appending one record extends the record byte stream by exactly that
/// record's prefix and payload.
pub proof fn lemma_records_bytes_push(ps: Seq<Seq<u8>>, p: Seq<u8>)
    ensures
        records_bytes(ps.push(p)) == records_bytes(ps) + be16(p.len() as u16) + p,
    decreases ps.len(),
{
    let whole = ps.push(p);
    if ps.len() == 0 {
        assert(whole.drop_first() =~= Seq::<Seq<u8>>::empty());
        assert(whole[0] == p);
        assert(records_bytes(whole.drop_first()) == Seq::<u8>::empty());
        assert(records_bytes(whole) == be16(p.len() as u16) + p + Seq::<u8>::empty());
        assert(records_bytes(whole) =~= records_bytes(ps) + be16(p.len() as u16) + p);
    } else {
        assert(whole.drop_first() =~= ps.drop_first().push(p));
        assert(whole[0] == ps[0]);
        lemma_records_bytes_push(ps.drop_first(), p);
        assert(records_bytes(whole) =~= records_bytes(ps) + be16(p.len() as u16) + p);
    }
}

/// The short-lived encoder for one clip.
///
/// It partitions the samples into padded frames, hands them out in order,
/// and appends each compressed payload the host gives back behind its
/// length prefix, so that `out` is at every moment exactly the blob of the
/// payloads accepted so far.  `scratch` is the capacity the host should
/// give the compressor for the next payload; when a payload does not fit,
/// the host calls `grow_scratch` and retries the same frame, which neither
/// touches the bytes already written nor skips or repeats a frame.
pub struct FrameEncoder {
    pub samples: Vec<u32>,
    pub rate: u32,
    pub fsize: usize,
    pub next_frame: usize,
    pub scratch: usize,
    pub out: Vec<u8>,
    pub payloads: Ghost<Seq<Seq<u8>>>,
}

impl FrameEncoder {
    /// The encoder's invariant: the frame geometry matches the rate, one
    /// payload has been accepted per finished frame, and the output holds
    /// exactly the blob of those payloads.
    pub open spec fn wf(self) -> bool {
        &&& rate_supported(self.rate)
        &&& self.fsize == spec_frame_size(self.rate)
        &&& self.samples@.len() <= u32::MAX
        &&& 0 <= self.next_frame as int <= frame_count(self.samples@.len() as int, self.fsize as int)
        &&& self.payloads@.len() == self.next_frame as int
        &&& (forall|j: int|
            0 <= j < self.payloads@.len() ==> payload_fits(#[trigger] self.payloads@[j]))
        &&& self.out@ == blob_bytes(self.samples@.len() as u32, self.payloads@)
        &&& self.scratch >= 1
    }

    /// How many frames the whole clip takes.
    pub open spec fn total_frames(self) -> int {
        frame_count(self.samples@.len() as int, self.fsize as int)
    }

    /// Starts encoding `samples` at the supported rate `rate`.  The scratch
    /// capacity starts at the sample count, and at least 128.
    pub fn new(samples: Vec<u32>, rate: u32) -> (e: FrameEncoder)
        requires
            rate_supported(rate),
            samples.len() <= u32::MAX,
        ensures
            e.wf(),
            e.samples@ == samples@,
            e.rate == rate,
            e.next_frame == 0,
            e.payloads@ == Seq::<Seq<u8>>::empty(),
            e.scratch == if samples@.len() >= 128 {
                samples@.len() as int
            } else {
                128int
            },
    {
        let fsize = frame_size(rate);
        let mut out: Vec<u8> = Vec::new();
        let count: u32 = samples.len() as u32;
        push_u32_be(&mut out, count);
        let scratch = if samples.len() >= 128 {
            samples.len()
        } else {
            128
        };
        proof {
            lemma_frame_count_bounds(samples@.len() as int, fsize as int);
            assert(out@ =~= blob_bytes(count, Seq::<Seq<u8>>::empty()));
        }
        FrameEncoder {
            samples,
            rate,
            fsize,
            next_frame: 0,
            scratch,
            out,
            payloads: Ghost(Seq::empty()),
        }
    }

    /// How many frames have been compressed and accepted so far.
    pub fn frames_done(&self) -> (n: usize)
        ensures
            n == self.next_frame,
    {
        self.next_frame
    }

    /// Whether every frame has been accepted.
    pub fn is_done(&self) -> (b: bool)
        requires
            self.wf(),
        ensures
            b == (self.next_frame as int == self.total_frames()),
    {
        let len = self.samples.len() as u64;
        let fs = self.fsize as u64;
        proof {
            lemma_frame_count_bounds(self.samples@.len() as int, self.fsize as int);
        }
        let total = ((len + fs - 1) / fs) as usize;
        self.next_frame == total
    }

    /// The capacity the host should give the compressor for the next
    /// payload.
    pub fn scratch_capacity(&self) -> (n: usize)
        ensures
            n == self.scratch,
    {
        self.scratch
    }

    /// The next frame owed to the compressor, zero-padded to full length,
    /// or `None` once every frame has been accepted.
    pub fn current_frame(&self) -> (f: Option<Vec<u32>>)
        requires
            self.wf(),
        ensures
            match f {
                Some(v) => {
                    &&& (self.next_frame as int) < self.total_frames()
                    &&& v@ == frame_seq(self.samples@, self.fsize as int, self.next_frame as int)
                },
                None => self.next_frame as int == self.total_frames(),
            },
    {
        if self.is_done() {
            return None;
        }
        proof {
            lemma_frame_count_bounds(self.samples@.len() as int, self.fsize as int);
            lemma_mul_inequality(
                self.next_frame as int,
                self.total_frames() - 1,
                self.fsize as int,
            );
            assert((self.total_frames() - 1) * self.fsize as int == self.total_frames()
                * self.fsize as int - self.fsize as int) by (nonlinear_arith);
        }
        let base: u64 = self.next_frame as u64 * self.fsize as u64;
        let mut frame: Vec<u32> = Vec::new();
        let mut k: usize = 0;
        while k < self.fsize
            invariant
                k <= self.fsize,
                frame@.len() == k as int,
                base == self.next_frame as int * self.fsize as int,
                base + self.fsize <= u64::MAX,
                self.samples@.len() <= u32::MAX,
                forall|t: int|
                    0 <= t < k as int ==> frame@[t] == frame_seq(
                        self.samples@,
                        self.fsize as int,
                        self.next_frame as int,
                    )[t],
            decreases self.fsize - k,
        {
            let pos: u64 = base + k as u64;
            if pos < self.samples.len() as u64 {
                frame.push(self.samples[pos as usize]);
            } else {
                frame.push(0);
            }
            k = k + 1;
        }
        assert(frame@ =~= frame_seq(self.samples@, self.fsize as int, self.next_frame as int));
        Some(frame)
    }

    /// Doubles the scratch capacity after a payload did not fit.  Nothing
    /// else moves: the bytes already written stay exactly as they are and
    /// the same frame stays current, so a retry neither skips nor repeats
    /// a frame.
    pub fn grow_scratch(&mut self)
        requires
            old(self).wf(),
            old(self).scratch <= usize::MAX / 2,
        ensures
            final(self).wf(),
            final(self).scratch == 2 * old(self).scratch,
            final(self).samples@ == old(self).samples@,
            final(self).rate == old(self).rate,
            final(self).fsize == old(self).fsize,
            final(self).next_frame == old(self).next_frame,
            final(self).out@ == old(self).out@,
            final(self).payloads@ == old(self).payloads@,
    {
        self.scratch = 2 * self.scratch;
    }

    /// Accepts the compressed payload of the current frame: appends its
    /// 2-byte big-endian length prefix and the payload itself, and moves to
    /// the next frame.
    pub fn push_payload(&mut self, payload: Vec<u8>)
        requires
            old(self).wf(),
            (old(self).next_frame as int) < old(self).total_frames(),
            payload.len() <= 0xFFFF,
        ensures
            final(self).wf(),
            final(self).samples@ == old(self).samples@,
            final(self).rate == old(self).rate,
            final(self).fsize == old(self).fsize,
            final(self).scratch == old(self).scratch,
            final(self).next_frame == old(self).next_frame + 1,
            final(self).payloads@ == old(self).payloads@.push(payload@),
            final(self).out@ == old(self).out@ + be16(payload.len() as u16) + payload@,
    {
        proof {
            lemma_frame_count_bounds(self.samples@.len() as int, self.fsize as int);
        }
        let ghost pv = payload@;
        let n: u16 = payload.len() as u16;
        push_u16_be(&mut self.out, n);
        let mut p = payload;
        self.out.append(&mut p);
        self.next_frame = self.next_frame + 1;
        proof {
            let ghost old_payloads = self.payloads@;
            lemma_records_bytes_push(old_payloads, pv);
        }
        self.payloads = Ghost(self.payloads@.push(pv));
        proof {
            assert(self.out@ =~= blob_bytes(
                self.samples@.len() as u32,
                self.payloads@,
            ));
        }
    }

    /// Ends the run and hands back the rate used and the finished blob: the
    /// sample count header followed by one record per accepted payload.
    pub fn finish(self) -> (r: (u32, Vec<u8>))
        requires
            self.wf(),
            self.next_frame as int == self.total_frames(),
        ensures
            r.0 == self.rate,
            r.1@ == blob_bytes(self.samples@.len() as u32, self.payloads@),
            self.payloads@.len() == self.total_frames(),
    {
        (self.rate, self.out)
    }
}

/// What walking the record bytes yields: the payloads in order, or nothing
/// when the stream is cut short.  `budget` is how many sample slots remain
/// (the stored count plus one frame of padding, as the decoder allocates);
/// a record is only accepted while a whole frame still fits, which bounds
/// how many records a blob may carry for its stored count.
pub open spec fn parse_records(b: Seq<u8>, budget: int, fsize: int) -> Option<Seq<Seq<u8>>>
    decreases b.len(),
{
    if b.len() == 0 {
        Option::Some(Seq::empty())
    } else if b.len() < 2 {
        Option::None
    } else {
        let n = u16_of_be(b[0], b[1]) as int;
        if 2 + n > b.len() {
            Option::None
        } else if budget < fsize {
            Option::None
        } else {
            match parse_records(b.skip(2 + n), budget - fsize, fsize) {
                Option::None => Option::None,
                Option::Some(rest) => Option::Some(seq![b.subrange(2, 2 + n)] + rest),
            }
        }
    }
}

/// The payload byte sequences held by a vector of payload buffers.
pub open spec fn payload_views(v: Seq<Vec<u8>>) -> Seq<Seq<u8>> {
    Seq::new(v.len(), |j: int| v[j]@)
}

/// Prefixes every successful parse with the records already taken.
spec fn opt_prepend(pre: Seq<Seq<u8>>, o: Option<Seq<Seq<u8>>>) -> Option<Seq<Seq<u8>>> {
    match o {
        Option::None => Option::None,
        Option::Some(r) => Option::Some(pre + r),
    }
}

/// A blob split into its stored sample count and its frame payloads.
#[derive(Debug, PartialEq, Eq)]
pub struct ParsedBlob {
    pub sample_count: u32,
    pub payloads: Vec<Vec<u8>>,
}

/// Splits a blob into its stored sample count and its payloads.
///
/// Fails with `UnsupportedRate` when `rate` is outside the codec's set,
/// and with `TruncatedInput` exactly when the header is shorter than four
/// bytes, a length prefix promises more payload than remains, or more
/// records arrive than the stored sample count leaves room for — that is,
/// whenever the spec-level walk `parse_records` yields nothing.
pub fn parse_blob(rate: u32, bytes: &Vec<u8>) -> (r: Result<ParsedBlob, CodecError>)
    ensures
        !rate_supported(rate) ==> r == Result::<ParsedBlob, CodecError>::Err(
            CodecError::UnsupportedRate,
        ),
        rate_supported(rate) && bytes@.len() < 4 ==> r == Result::<ParsedBlob, CodecError>::Err(
            CodecError::TruncatedInput,
        ),
        rate_supported(rate) && bytes@.len() >= 4 ==> {
            let count = u32_of_be(bytes@[0], bytes@[1], bytes@[2], bytes@[3]);
            let fs = spec_frame_size(rate);
            match parse_records(bytes@.skip(4), count + fs, fs) {
                Option::Some(ps) => (r matches Result::Ok(pb) && pb.sample_count == count
                    && payload_views(pb.payloads@) == ps),
                Option::None => r == Result::<ParsedBlob, CodecError>::Err(
                    CodecError::TruncatedInput,
                ),
            }
        },
{
    if !supported_rate(rate) {
        return Result::Err(CodecError::UnsupportedRate);
    }
    if bytes.len() < 4 {
        return Result::Err(CodecError::TruncatedInput);
    }
    let count = read_u32_be(bytes, 0);
    let fs = frame_size(rate);
    let ghost whole = bytes@.skip(4);
    let ghost budget0 = count as int + fs as int;
    let mut remaining: u64 = count as u64 + fs as u64;
    let mut i: usize = 4;
    let mut payloads: Vec<Vec<u8>> = Vec::new();
    while i < bytes.len()
        invariant
            rate_supported(rate),
            fs == spec_frame_size(rate),
            160 <= fs <= 960,
            4 <= i as int <= bytes@.len(),
            bytes@.len() >= 4,
            count == u32_of_be(bytes@[0], bytes@[1], bytes@[2], bytes@[3]),
            whole == bytes@.skip(4),
            budget0 == count as int + fs as int,
            remaining as int <= budget0,
            parse_records(whole, budget0, fs as int) == opt_prepend(
                payload_views(payloads@),
                parse_records(bytes@.skip(i as int), remaining as int, fs as int),
            ),
        decreases bytes@.len() - i,
    {
        if bytes.len() - i < 2 {
            assert(bytes@.skip(i as int).len() == 1);
            return Result::Err(CodecError::TruncatedInput);
        }
        let n = read_u16_be(bytes, i) as usize;
        proof {
            assert(bytes@.skip(i as int)[0] == bytes@[i as int]);
            assert(bytes@.skip(i as int)[1] == bytes@[i as int + 1]);
        }
        if n > bytes.len() - i - 2 {
            return Result::Err(CodecError::TruncatedInput);
        }
        if remaining < fs as u64 {
            return Result::Err(CodecError::TruncatedInput);
        }
        let mut p: Vec<u8> = Vec::new();
        let mut k: usize = 0;
        while k < n
            invariant
                k <= n,
                i as int + 2 + n as int <= bytes.len(),
                p@.len() == k as int,
                forall|t: int| 0 <= t < k as int ==> p@[t] == bytes@[i as int + 2 + t],
            decreases n - k,
        {
            p.push(bytes[i + 2 + k]);
            k = k + 1;
        }
        let ghost old_pv = payload_views(payloads@);
        let ghost old_i = i as int;
        let ghost old_rem = remaining as int;
        payloads.push(p);
        i = i + 2 + n;
        remaining = remaining - fs as u64;
        proof {
            let b = bytes@.skip(old_i);
            assert(p@ =~= b.subrange(2, 2 + n as int));
            assert(b.skip(2 + n as int) =~= bytes@.skip(i as int));
            assert(payload_views(payloads@) =~= old_pv.push(p@));
            let tail = parse_records(bytes@.skip(i as int), remaining as int, fs as int);
            assert(parse_records(b, old_rem, fs as int) == match tail {
                Option::None => Option::<Seq<Seq<u8>>>::None,
                Option::Some(rest) => Option::Some(seq![p@] + rest),
            });
            match tail {
                Option::None => {}
                Option::Some(rest) => {
                    assert(old_pv + (seq![p@] + rest) =~= old_pv.push(p@) + rest);
                },
            }
        }
    }
    proof {
        assert(bytes@.skip(i as int) =~= Seq::<u8>::empty());
        assert(parse_records(bytes@.skip(i as int), remaining as int, fs as int)
            == Option::Some(Seq::<Seq<u8>>::empty()));
        assert(payload_views(payloads@) + Seq::<Seq<u8>>::empty() =~= payload_views(payloads@));
    }
    Result::Ok(ParsedBlob { sample_count: count, payloads })
}

/// The samples of a sequence of decoded frames, concatenated in order.
pub open spec fn concat_frames(fr: Seq<Seq<u32>>) -> Seq<u32>
    decreases fr.len(),
{
    if fr.len() == 0 {
        Seq::empty()
    } else {
        fr[0] + concat_frames(fr.drop_first())
    }
}

/// Appending one frame extends the concatenation by exactly that frame.
pub proof fn lemma_concat_frames_push(fr: Seq<Seq<u32>>, f: Seq<u32>)
    ensures
        concat_frames(fr.push(f)) == concat_frames(fr) + f,
    decreases fr.len(),
{
    let whole = fr.push(f);
    if fr.len() == 0 {
        assert(whole.drop_first() =~= Seq::<Seq<u32>>::empty());
        assert(whole[0] == f);
        assert(concat_frames(whole.drop_first()) == Seq::<u32>::empty());
        assert(concat_frames(whole) =~= concat_frames(fr) + f);
    } else {
        assert(whole.drop_first() =~= fr.drop_first().push(f));
        assert(whole[0] == fr[0]);
        lemma_concat_frames_push(fr.drop_first(), f);
        assert(concat_frames(whole) =~= concat_frames(fr) + f);
    }
}

/// The sample sequences held by a vector of frame buffers.
pub open spec fn frame_views(v: Seq<Vec<u32>>) -> Seq<Seq<u32>> {
    Seq::new(v.len(), |j: int| v[j]@)
}

/// Reassembles a clip from its decoded frames: checks that every frame
/// came back at exactly the frame size — anything else is a
/// `FormatError` — concatenates them, and truncates to the stored real
/// sample count, discarding the zero padding added at encode time.
pub fn rebuild_samples(count: u32, fsize: usize, frames: &Vec<Vec<u32>>) -> (r: Result<
    Vec<u32>,
    CodecError,
>)
    requires
        1 <= fsize,
        frames@.len() * fsize <= usize::MAX,
    ensures
        match r {
            Result::Ok(s) => {
                &&& forall|j: int|
                    0 <= j < frames@.len() ==> (#[trigger] frames@[j])@.len() == fsize as int
                &&& s@ == {
                    let all = concat_frames(frame_views(frames@));
                    if count as int <= all.len() {
                        all.take(count as int)
                    } else {
                        all
                    }
                }
            },
            Result::Err(e) => {
                &&& e == CodecError::FormatError
                &&& exists|j: int|
                    0 <= j < frames@.len() && (#[trigger] frames@[j])@.len() != fsize as int
            },
        },
{
    let mut out: Vec<u32> = Vec::new();
    let mut j: usize = 0;
    while j < frames.len()
        invariant
            1 <= fsize,
            j <= frames@.len(),
            frames@.len() * fsize <= usize::MAX,
            out@ == concat_frames(frame_views(frames@).take(j as int)),
            out@.len() == j as int * fsize as int,
            forall|t: int| 0 <= t < j as int ==> (#[trigger] frames@[t])@.len() == fsize as int,
        decreases frames@.len() - j,
    {
        let frame = &frames[j];
        if frame.len() != fsize {
            return Result::Err(CodecError::FormatError);
        }
        proof {
            lemma_mul_inequality(j as int + 1, frames@.len() as int, fsize as int);
            assert((j as int + 1) * fsize as int == j as int * fsize as int + fsize as int)
                by (nonlinear_arith);
        }
        let mut k: usize = 0;
        while k < fsize
            invariant
                k <= fsize,
                j < frames@.len(),
                frames@[j as int]@.len() == fsize as int,
                j as int * fsize as int + fsize <= usize::MAX,
                out@.len() == j as int * fsize as int + k as int,
                out@.take(j as int * fsize as int) == concat_frames(
                    frame_views(frames@).take(j as int),
                ),
                forall|t: int|
                    0 <= t < k as int ==> out@[j as int * fsize as int + t] == frames@[j as int]@[t],
            decreases fsize - k,
        {
            out.push(frames[j][k]);
            proof {
                assert(out@.take(j as int * fsize as int) =~= out@.drop_last().take(
                    j as int * fsize as int,
                ));
            }
            k = k + 1;
        }
        proof {
            lemma_concat_frames_push(frame_views(frames@).take(j as int), frames@[j as int]@);
            assert(frame_views(frames@).take(j as int + 1) =~= frame_views(frames@).take(
                j as int,
            ).push(frames@[j as int]@));
            assert(out@ =~= concat_frames(frame_views(frames@).take(j as int)) + frames@[
                j as int
            ]@);
        }
        j = j + 1;
    }
    proof {
        assert(frame_views(frames@).take(j as int) =~= frame_views(frames@));
    }
    if (count as u64) < (out.len() as u64) {
        let _padding = out.split_off(count as usize);
        assert(out@ =~= concat_frames(frame_views(frames@)).take(count as int));
    }
    Result::Ok(out)
}

/// Parsing the record bytes built from any payloads returns exactly those
/// payloads, as long as the sample budget leaves room for one frame per
/// record.
pub proof fn lemma_records_round_trip(ps: Seq<Seq<u8>>, budget: int, fsize: int)
    requires
        1 <= fsize,
        forall|j: int| 0 <= j < ps.len() ==> payload_fits(#[trigger] ps[j]),
        ps.len() * fsize <= budget,
    ensures
        parse_records(records_bytes(ps), budget, fsize) == Option::Some(ps),
    decreases ps.len(),
{
    if ps.len() == 0 {
    } else {
        let p0 = ps[0];
        let b = records_bytes(ps);
        let rest_bytes = records_bytes(ps.drop_first());
        lemma_be16_round_trip(p0.len() as u16);
        assert(b[0] == be16(p0.len() as u16)[0]);
        assert(b[1] == be16(p0.len() as u16)[1]);
        assert(u16_of_be(b[0], b[1]) == p0.len());
        assert(b.len() == 2 + p0.len() + rest_bytes.len());
        assert(ps.len() * fsize == (ps.len() - 1) * fsize + fsize) by (nonlinear_arith);
        assert((ps.len() - 1) * fsize >= 0) by (nonlinear_arith)
            requires
                ps.len() >= 1,
                fsize >= 1,
        ;
        assert(b.subrange(2, 2 + p0.len() as int) =~= p0);
        assert(b.skip(2 + p0.len() as int) =~= rest_bytes);
        lemma_records_round_trip(ps.drop_first(), budget - fsize, fsize);
        assert(seq![p0] + ps.drop_first() =~= ps);
    }
}

/// A successful parse pins the stream down completely: the bytes are
/// exactly the record bytes of the returned payloads, and every payload
/// fits its length prefix.  A corrupted blob can therefore never parse to
/// the framing of the blob it was corrupted from.
pub proof fn lemma_parse_exact(b: Seq<u8>, budget: int, fsize: int, ps: Seq<Seq<u8>>)
    requires
        parse_records(b, budget, fsize) == Option::Some(ps),
    ensures
        b == records_bytes(ps),
        forall|j: int| 0 <= j < ps.len() ==> payload_fits(#[trigger] ps[j]),
    decreases b.len(),
{
    if b.len() == 0 {
        assert(records_bytes(ps) =~= b);
    } else {
        let n = u16_of_be(b[0], b[1]) as int;
        let rest = parse_records(b.skip(2 + n), budget - fsize, fsize);
        let rest_ps = rest->Some_0;
        lemma_parse_exact(b.skip(2 + n), budget - fsize, fsize, rest_ps);
        assert(ps == seq![b.subrange(2, 2 + n)] + rest_ps);
        assert(ps[0] == b.subrange(2, 2 + n));
        assert(ps.drop_first() =~= rest_ps);
        lemma_u16_be_bytes(b[0], b[1]);
        assert(ps[0].len() == n);
        assert(be16(ps[0].len() as u16) == seq![b[0], b[1]]);
        assert(b =~= records_bytes(ps));
    }
}

/// Records pass through unharmed and a failing tail keeps the whole walk
/// failing.
proof fn lemma_parse_prefix_none(ps: Seq<Seq<u8>>, t: Seq<u8>, budget: int, fsize: int)
    requires
        1 <= fsize,
        forall|j: int| 0 <= j < ps.len() ==> payload_fits(#[trigger] ps[j]),
        parse_records(t, budget - ps.len() * fsize, fsize) is None,
    ensures
        parse_records(records_bytes(ps) + t, budget, fsize) is None,
    decreases ps.len(),
{
    if ps.len() == 0 {
        assert(records_bytes(ps) + t =~= t);
    } else {
        let p0 = ps[0];
        let whole = records_bytes(ps) + t;
        lemma_be16_round_trip(p0.len() as u16);
        assert(whole[0] == be16(p0.len() as u16)[0]);
        assert(whole[1] == be16(p0.len() as u16)[1]);
        assert(u16_of_be(whole[0], whole[1]) == p0.len());
        assert(whole.len() == 2 + p0.len() + records_bytes(ps.drop_first()).len() + t.len());
        if budget < fsize {
        } else {
            assert(ps.len() * fsize == (ps.len() - 1) * fsize + fsize) by (nonlinear_arith);
            assert(whole.skip(2 + p0.len() as int) =~= records_bytes(ps.drop_first()) + t);
            lemma_parse_prefix_none(ps.drop_first(), t, budget - fsize, fsize);
        }
    }
}

/// Framing integrity under prefix corruption: take a valid record stream
/// and overwrite the length prefix of its last record with any two bytes
/// that spell a larger length.  The walk then fails — the enlarged prefix
/// promises more payload than remains — so, through `parse_blob`, such a
/// corrupted blob is refused as `TruncatedInput` rather than reframed
/// behind the caller's back.
pub proof fn lemma_corrupt_last_prefix(ps: Seq<Seq<u8>>, budget: int, fsize: int, c0: u8, c1: u8)
    requires
        1 <= fsize,
        ps.len() >= 1,
        forall|j: int| 0 <= j < ps.len() ==> payload_fits(#[trigger] ps[j]),
        u16_of_be(c0, c1) > ps.last().len(),
    ensures
        parse_records(
            records_bytes(ps.drop_last()) + (seq![c0, c1] + ps.last()),
            budget,
            fsize,
        ) is None,
{
    let t = seq![c0, c1] + ps.last();
    assert(t[0] == c0);
    assert(t[1] == c1);
    assert(t.len() == 2 + ps.last().len());
    assert(parse_records(t, budget - ps.drop_last().len() * fsize, fsize) is None);
    assert(forall|j: int|
        0 <= j < ps.drop_last().len() ==> payload_fits(#[trigger] ps.drop_last()[j]));
    lemma_parse_prefix_none(ps.drop_last(), t, budget, fsize);
}

/// Concatenating frames of one uniform size lines them up back to back.
pub proof fn lemma_concat_uniform(fv: Seq<Seq<u32>>, fsize: int)
    requires
        1 <= fsize,
        forall|j: int| 0 <= j < fv.len() ==> (#[trigger] fv[j]).len() == fsize,
    ensures
        concat_frames(fv).len() == fv.len() * fsize,
        forall|i: int|
            0 <= i < fv.len() * fsize ==> #[trigger] concat_frames(fv)[i] == fv[i / fsize][i
                % fsize],
    decreases fv.len(),
{
    if fv.len() == 0 {
        assert(concat_frames(fv).len() == 0);
    } else {
        let rest = fv.drop_first();
        lemma_concat_uniform(rest, fsize);
        assert(rest.len() == fv.len() - 1);
        assert(fv.len() * fsize == fsize + (fv.len() - 1) * fsize) by (nonlinear_arith);
        assert(concat_frames(fv).len() == fv.len() * fsize);
        assert forall|i: int| 0 <= i < fv.len() * fsize implies #[trigger] concat_frames(fv)[i]
            == fv[i / fsize][i % fsize] by {
            if i < fsize {
                lemma_div_pos_is_pos(i, fsize);
                vstd::arithmetic::div_mod::lemma_basic_div(i, fsize);
                vstd::arithmetic::div_mod::lemma_small_mod(i as nat, fsize as nat);
                assert(concat_frames(fv)[i] == fv[0][i]);
            } else {
                let q = (i - fsize) / fsize;
                let r = (i - fsize) % fsize;
                lemma_fundamental_div_mod(i - fsize, fsize);
                lemma_mod_division_less_than_divisor(i - fsize, fsize);
                lemma_div_pos_is_pos(i - fsize, fsize);
                assert(i - fsize < rest.len() * fsize);
                assert(q < rest.len()) by (nonlinear_arith)
                    requires
                        i - fsize == fsize * q + r,
                        0 <= r < fsize,
                        0 <= q,
                        i - fsize < rest.len() * fsize,
                ;
                assert(i == (q + 1) * fsize + r) by (nonlinear_arith)
                    requires
                        i - fsize == fsize * q + r,
                ;
                vstd::arithmetic::div_mod::lemma_fundamental_div_mod_converse_div(
                    i,
                    fsize,
                    q + 1,
                    r,
                );
                vstd::arithmetic::div_mod::lemma_fundamental_div_mod_converse_mod(
                    i,
                    fsize,
                    q + 1,
                    r,
                );
                assert(concat_frames(fv)[i] == concat_frames(rest)[i - fsize]);
                assert(concat_frames(rest)[i - fsize] == rest[q][r]);
                assert(rest[q] == fv[q + 1]);
            }
        }
    }
}

/// The padded frames that cover a sample sequence, in order.
pub open spec fn clip_frames(s: Seq<u32>, fsize: int) -> Seq<Seq<u32>> {
    Seq::new(frame_count(s.len() as int, fsize) as nat, |j: int| frame_seq(s, fsize, j))
}

/// Padding never leaks: concatenating the padded frames of any sample
/// sequence and keeping only the stored count returns exactly the
/// sequence, whatever zeros the last frame was padded with.
pub proof fn lemma_padding_never_leaks(s: Seq<u32>, fsize: int)
    requires
        1 <= fsize,
    ensures
        concat_frames(clip_frames(s, fsize)).len() >= s.len(),
        concat_frames(clip_frames(s, fsize)).take(s.len() as int) == s,
{
    lemma_frame_count_bounds(s.len() as int, fsize);
    let fv = clip_frames(s, fsize);
    let count = frame_count(s.len() as int, fsize);
    lemma_concat_uniform(fv, fsize);
    assert forall|i: int| 0 <= i < s.len() implies concat_frames(fv)[i] == s[i] by {
        lemma_fundamental_div_mod(i, fsize);
        lemma_mod_division_less_than_divisor(i, fsize);
        lemma_div_pos_is_pos(i, fsize);
        let q = i / fsize;
        let r = i % fsize;
        assert(q < count) by (nonlinear_arith)
            requires
                i == fsize * q + r,
                0 <= r < fsize,
                0 <= q,
                i < count * fsize,
                1 <= fsize,
        ;
        assert(fv[q] == frame_seq(s, fsize, q));
        assert(q * fsize + r == i) by (nonlinear_arith)
            requires
                i == fsize * q + r,
        ;
        assert(concat_frames(fv)[i] == frame_seq(s, fsize, q)[r]);
    }
    assert(concat_frames(fv).take(s.len() as int) =~= s);
}

/// The structural half of the codec round trip, connecting the encoder to
/// the decoder: the blob the encoder finishes with parses back to exactly
/// the payloads that were pushed, and frames that decompress exactly
/// reassemble the original samples with the padding truncated away.  What
/// remains to the host is only the per-frame compression itself.
pub proof fn lemma_codec_round_trip(s: Seq<u32>, rate: u32, ps: Seq<Seq<u8>>)
    requires
        rate_supported(rate),
        s.len() <= u32::MAX,
        ps.len() == frame_count(s.len() as int, spec_frame_size(rate)),
        forall|j: int| 0 <= j < ps.len() ==> payload_fits(#[trigger] ps[j]),
    ensures
        blob_bytes(s.len() as u32, ps).len() >= 4,
        blob_bytes(s.len() as u32, ps).skip(4) == records_bytes(ps),
        u32_of_be(
            blob_bytes(s.len() as u32, ps)[0],
            blob_bytes(s.len() as u32, ps)[1],
            blob_bytes(s.len() as u32, ps)[2],
            blob_bytes(s.len() as u32, ps)[3],
        ) == s.len(),
        parse_records(
            records_bytes(ps),
            s.len() + spec_frame_size(rate),
            spec_frame_size(rate),
        ) == Option::Some(ps),
        concat_frames(clip_frames(s, spec_frame_size(rate))).take(s.len() as int) == s,
{
    let fs = spec_frame_size(rate);
    let count = s.len() as u32;
    lemma_frame_count_bounds(s.len() as int, fs);
    lemma_records_round_trip(ps, s.len() + fs, fs);
    lemma_padding_never_leaks(s, fs);
    crate::bytes::lemma_be32_round_trip(count);
    assert(blob_bytes(count, ps)[0] == be32(count)[0]);
    assert(blob_bytes(count, ps)[1] == be32(count)[1]);
    assert(blob_bytes(count, ps)[2] == be32(count)[2]);
    assert(blob_bytes(count, ps)[3] == be32(count)[3]);
    assert(blob_bytes(count, ps).skip(4) =~= records_bytes(ps));
}

} // verus!
