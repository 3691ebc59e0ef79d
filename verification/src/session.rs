//! Capture and playback sessions: the state shared between the control
//! thread and one real-time audio callback thread, and the exact work the
//! callback performs on it.
//!
//! The callback must never block, so the host acquires the shared state
//! with a non-blocking lock and reports the outcome here as `acquired`.
//! On contention the callback's whole batch is skipped — an explicit,
//! documented data-loss policy — and the contracts prove that a skipped
//! batch changes nothing: already-written samples are never corrupted.
//! Device enumeration, stream setup and the one-shot signalling channels
//! stay with the host, which maps their failures onto `SessionError`.

use vstd::prelude::*;
use vstd::arithmetic::mul::lemma_mul_inequality;
use crate::clip::AudioClip;
use crate::codec::{frame_count, lemma_frame_count_bounds};

verus! {

/// Why a session could not run.
///
/// `NoInputDevice` / `NoOutputDevice`: no default device is available.
/// `UnsupportedSampleFormat`: the device's native sample representation is
/// none of the floating-point, 16-bit or 8-bit integer families.
/// `DeviceError`: the platform failed to open or start the stream.
#[derive(Clone, Copy, Debug, PartialEq, Eq, Structural)]
pub enum SessionError {
    NoInputDevice,
    NoOutputDevice,
    UnsupportedSampleFormat,
    DeviceError,
}

/// The lifecycle of a capture session.
#[derive(Clone, Copy, Debug, PartialEq, Eq, Structural)]
pub enum SessionPhase {
    Idle,
    Recording,
    Stopped,
}

/// The first channel of each interleaved device frame: the mono downmix is
/// "take the first channel", deliberately not an average.  A final partial
/// frame still contributes its first sample.
pub open spec fn mono_firsts(input: Seq<u32>, channels: int) -> Seq<u32> {
    Seq::new(frame_count(input.len() as int, channels) as nat, |k: int| input[k * channels])
}

/// A capture session: accumulates the clip's sample buffer for the
/// session's duration.  `Idle` until the host opens a device stream,
/// `Recording` while the callback appends, `Stopped` once the control
/// thread takes the buffer back.
pub struct CaptureSession {
    pub phase: SessionPhase,
    pub name: String,
    pub created_at: i64,
    pub sample_rate: u32,
    pub samples: Vec<u32>,
}

impl CaptureSession {
    /// A session waiting for a device, with an empty buffer.
    pub fn new(name: String, created_at: i64) -> (s: CaptureSession)
        ensures
            s.phase == SessionPhase::Idle,
            s.name@ == name@,
            s.created_at == created_at,
            s.sample_rate == 0,
            s.samples@ == Seq::<u32>::empty(),
    {
        CaptureSession {
            phase: SessionPhase::Idle,
            name,
            created_at,
            sample_rate: 0,
            samples: Vec::new(),
        }
    }

    /// The host opened an input stream at the device's native rate: the
    /// session starts recording.
    pub fn start(&mut self, sample_rate: u32)
        requires
            old(self).phase == SessionPhase::Idle,
            sample_rate >= 1,
        ensures
            final(self).phase == SessionPhase::Recording,
            final(self).sample_rate == sample_rate,
            final(self).name@ == old(self).name@,
            final(self).created_at == old(self).created_at,
            final(self).samples@ == old(self).samples@,
    {
        self.phase = SessionPhase::Recording;
        self.sample_rate = sample_rate;
    }

    /// One invocation of the real-time input callback: `input` is a batch
    /// of interleaved device frames (as float bit patterns) and `acquired`
    /// says whether the non-blocking acquisition of the shared buffer
    /// succeeded.  On success the first channel of every frame is
    /// appended; on contention the batch is dropped whole and the session
    /// is left exactly as it was — nothing already written moves.
    pub fn on_input(&mut self, acquired: bool, input: &Vec<u32>, channels: usize)
        requires
            old(self).phase == SessionPhase::Recording,
            1 <= channels,
            input.len() + channels <= usize::MAX,
        ensures
            final(self).phase == SessionPhase::Recording,
            final(self).name@ == old(self).name@,
            final(self).created_at == old(self).created_at,
            final(self).sample_rate == old(self).sample_rate,
            acquired ==> final(self).samples@ == old(self).samples@ + mono_firsts(
                input@,
                channels as int,
            ),
            !acquired ==> *final(self) == *old(self),
    {
        if !acquired {
            return ;
        }
        proof {
            lemma_frame_count_bounds(input@.len() as int, channels as int);
        }
        let count = (input.len() + channels - 1) / channels;
        let ghost entry_samples = self.samples@;
        let mut k: usize = 0;
        while k < count
            invariant
                k <= count,
                1 <= channels,
                input.len() + channels <= usize::MAX,
                count == frame_count(input@.len() as int, channels as int),
                count * channels < input@.len() + channels,
                self.phase == old(self).phase,
                self.name@ == old(self).name@,
                self.created_at == old(self).created_at,
                self.sample_rate == old(self).sample_rate,
                self.samples@.len() == entry_samples.len() + k,
                self.samples@.take(entry_samples.len() as int) == entry_samples,
                forall|t: int|
                    0 <= t < k as int ==> #[trigger] self.samples@[entry_samples.len() + t]
                        == input@[t * channels],
            decreases count - k,
        {
            proof {
                lemma_mul_inequality(k as int, count - 1, channels as int);
                assert((count - 1) * channels as int == count * channels as int - channels as int)
                    by (nonlinear_arith);
            }
            let sample = input[k * channels];
            self.samples.push(sample);
            proof {
                assert(self.samples@.take(entry_samples.len() as int) =~= entry_samples);
            }
            k = k + 1;
        }
        proof {
            let mono = mono_firsts(input@, channels as int);
            assert forall|j: int| 0 <= j < self.samples@.len() implies self.samples@[j]
                == (entry_samples + mono)[j] by {
                if j < entry_samples.len() {
                    assert(self.samples@.take(entry_samples.len() as int)[j] == self.samples@[j]);
                } else {
                    let t = j - entry_samples.len();
                    assert(self.samples@[entry_samples.len() + t] == input@[t * channels]);
                }
            }
            assert(self.samples@ =~= entry_samples + mono);
        }
    }

    /// The stop signal arrived: the control thread halts the stream and
    /// takes exclusive, final ownership of the accumulated buffer, from
    /// which the clip is built at the device's reported rate.  The clip
    /// has no persistent id yet.
    pub fn stop(&mut self) -> (c: AudioClip)
        requires
            old(self).phase == SessionPhase::Recording,
        ensures
            final(self).phase == SessionPhase::Stopped,
            c.samples@ == old(self).samples@,
            c.sample_rate == old(self).sample_rate,
            c.name@ == old(self).name@,
            c.created_at == old(self).created_at,
            c.id is None,
    {
        self.phase = SessionPhase::Stopped;
        let mut samples: Vec<u32> = Vec::new();
        core::mem::swap(&mut self.samples, &mut samples);
        let mut name = String::new();
        core::mem::swap(&mut self.name, &mut name);
        AudioClip::new(self.sample_rate, samples, None, name, self.created_at)
    }
}

/// The value the playback callback writes at interleaved position `k` of
/// its output batch: the cursor's sample, duplicated across the frame's
/// channels, and silence once the buffer is exhausted.
pub open spec fn rendered(s: Seq<u32>, cursor: int, channels: int, k: int) -> u32 {
    if cursor + k / channels < s.len() {
        s[cursor + k / channels]
    } else {
        0u32
    }
}

/// A playback session: the (already resampled) sample buffer, a read
/// cursor, and whether the one-shot completion notification has been sent.
/// The cursor saturates at the buffer length.
pub struct PlaybackSession {
    pub samples: Vec<u32>,
    pub cursor: usize,
    pub done_sent: bool,
}

impl PlaybackSession {
    /// The cursor never passes the end of the buffer.
    pub open spec fn wf(self) -> bool {
        self.cursor as int <= self.samples@.len()
    }

    /// A session about to play `samples` from the start.
    pub fn new(samples: Vec<u32>) -> (s: PlaybackSession)
        ensures
            s.wf(),
            s.samples@ == samples@,
            s.cursor == 0,
            s.done_sent == false,
    {
        PlaybackSession { samples, cursor: 0, done_sent: false }
    }

    /// One invocation of the real-time output callback, asked to fill
    /// `frames` interleaved frames of `channels` samples each.
    ///
    /// On contention (`acquired` false) it returns `None` and the session
    /// is left exactly as it was.  Otherwise it returns the rendered batch
    /// — the mono sample duplicated across the channels of its frame, and
    /// silence (bit pattern zero) past the end of the buffer instead of
    /// stopping the stream abruptly — together with `signal`, true exactly
    /// when this call first brings the cursor to the end of the buffer, so
    /// that the host sends the one-shot completion notification once.
    pub fn on_output(&mut self, acquired: bool, frames: usize, channels: usize) -> (r: Option<
        (Vec<u32>, bool),
    >)
        requires
            old(self).wf(),
            1 <= channels,
            frames * channels <= usize::MAX,
        ensures
            final(self).wf(),
            final(self).samples@ == old(self).samples@,
            (r is None) == !acquired,
            r is None ==> *final(self) == *old(self),
            (r matches Some((out, signal)) ==> {
                &&& out@.len() == frames * channels
                &&& forall|k: int|
                    0 <= k < out@.len() ==> out@[k] == rendered(
                        old(self).samples@,
                        old(self).cursor as int,
                        channels as int,
                        k,
                    )
                &&& final(self).cursor as int == if old(self).cursor + frames
                    <= old(self).samples@.len() {
                    old(self).cursor + frames
                } else {
                    old(self).samples@.len() as int
                }
                &&& signal == (!old(self).done_sent && final(self).cursor
                    == final(self).samples@.len())
                &&& final(self).done_sent == (old(self).done_sent || final(self).cursor
                    == final(self).samples@.len())
            }),
    {
        if !acquired {
            return None;
        }
        let len = self.samples.len();
        let ghost entry_cursor = self.cursor as int;
        let mut out: Vec<u32> = Vec::new();
        let mut f: usize = 0;
        while f < frames
            invariant
                f <= frames,
                1 <= channels,
                frames * channels <= usize::MAX,
                len == self.samples@.len(),
                self.samples@ == old(self).samples@,
                self.done_sent == old(self).done_sent,
                0 <= entry_cursor <= len,
                self.cursor as int == if entry_cursor + f <= len {
                    entry_cursor + f
                } else {
                    len as int
                },
                out@.len() == f * channels as int,
                forall|k: int|
                    0 <= k < out@.len() ==> out@[k] == rendered(
                        self.samples@,
                        entry_cursor,
                        channels as int,
                        k,
                    ),
            decreases frames - f,
        {
            proof {
                lemma_mul_inequality(f as int + 1, frames as int, channels as int);
                assert((f as int + 1) * channels as int == f as int * channels as int
                    + channels as int) by (nonlinear_arith);
            }
            let val = if self.cursor < len {
                self.samples[self.cursor]
            } else {
                0
            };
            let ghost out_before = out@;
            let mut c: usize = 0;
            while c < channels
                invariant
                    c <= channels,
                    out@.len() == out_before.len() + c,
                    out@.take(out_before.len() as int) == out_before,
                    forall|t: int|
                        0 <= t < c as int ==> #[trigger] out@[out_before.len() + t] == val,
                decreases channels - c,
            {
                out.push(val);
                proof {
                    assert(out@.take(out_before.len() as int) =~= out_before);
                }
                c = c + 1;
            }
            proof {
                assert forall|k: int| 0 <= k < (f as int + 1) * channels as int implies out@[k]
                    == rendered(self.samples@, entry_cursor, channels as int, k) by {
                    if k < f as int * channels as int {
                        assert(out@.take(out_before.len() as int)[k] == out_before[k]);
                    } else {
                        let t = k - f as int * channels as int;
                        assert(out@[out_before.len() + t] == val);
                        vstd::arithmetic::div_mod::lemma_fundamental_div_mod_converse_div(
                            k,
                            channels as int,
                            f as int,
                            t,
                        );
                    }
                }
            }
            if self.cursor < len {
                self.cursor = self.cursor + 1;
            }
            f = f + 1;
        }
        let signal = !self.done_sent && self.cursor == len;
        if self.cursor == len {
            self.done_sent = true;
        }
        Some((out, signal))
    }

    /// Whether playback has rendered the whole buffer.
    pub fn is_done(&self) -> (b: bool)
        ensures
            b == (self.cursor as int == self.samples@.len()),
    {
        self.cursor == self.samples.len()
    }
}

} // verus!
