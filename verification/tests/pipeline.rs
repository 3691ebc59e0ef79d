//! End to end: capture a synthetic two-second 16 kHz tone through the
//! session state machine, run it through the frame codec, resample the
//! decoded clip to 48 kHz, and check length and dominant frequency.
//!
//! The per-frame compressor is a lossless stand-in (raw big-endian
//! bytes); the real deployment plugs a lossy one into exactly the same
//! seams, which changes sample values within tolerance but none of the
//! structure checked here.

use oxygen::codec::{encode_rate, frame_size, parse_blob, rebuild_samples, FrameEncoder};
use oxygen::resample::{resample_plan, ResamplePlan};
use oxygen::session::CaptureSession;

const TONE_HZ: f64 = 440.0;
const CAPTURE_RATE: u32 = 16000;
const SECONDS: usize = 2;

fn sine_tone(rate: u32, len: usize) -> Vec<f32> {
    (0..len)
        .map(|i| {
            let t = i as f64 / rate as f64;
            (0.8 * (2.0 * std::f64::consts::PI * TONE_HZ * t).sin()) as f32
        })
        .collect()
}

/// Energy of the signal at `freq`, by correlation against one quadrature
/// pair — enough to compare candidate frequencies.
fn energy_at(samples: &[f32], rate: u32, freq: f64) -> f64 {
    let mut re = 0.0f64;
    let mut im = 0.0f64;
    for (i, s) in samples.iter().enumerate() {
        let phase = 2.0 * std::f64::consts::PI * freq * i as f64 / rate as f64;
        re += *s as f64 * phase.cos();
        im += *s as f64 * phase.sin();
    }
    re * re + im * im
}

#[test]
fn record_encode_decode_resample_preserves_length_and_tone() {
    // "Record": the callback delivers the synthetic tone in batches, with
    // one contended callback in the middle that must change nothing.
    let tone = sine_tone(CAPTURE_RATE, SECONDS * CAPTURE_RATE as usize);
    let tone_bits: Vec<u32> = tone.iter().map(|s| s.to_bits()).collect();
    let mut capture = CaptureSession::new("tone".to_string(), 0);
    capture.start(CAPTURE_RATE);
    for batch in tone_bits.chunks(1024) {
        capture.on_input(true, &batch.to_vec(), 1);
        capture.on_input(false, &vec![0; 64], 1);
    }
    let clip = capture.stop();
    assert_eq!(clip.sample_rate, CAPTURE_RATE);
    assert_eq!(clip.samples.len(), 32000);

    // Encode: 16 kHz is supported, so no resampling happens first.
    let rate_used = encode_rate(clip.sample_rate);
    assert_eq!(rate_used, CAPTURE_RATE);
    let mut enc = FrameEncoder::new(clip.samples.clone(), rate_used);
    while let Some(frame) = enc.current_frame() {
        let payload = oxygen::legacy::encode_v0(&frame);
        while payload.len() > enc.scratch_capacity() {
            enc.grow_scratch();
        }
        enc.push_payload(payload);
    }
    let (blob_rate, blob) = enc.finish();
    assert_eq!(blob_rate, CAPTURE_RATE);

    // Decode.
    let parsed = parse_blob(blob_rate, &blob).expect("own blob parses");
    assert_eq!(parsed.sample_count, 32000);
    assert_eq!(parsed.payloads.len(), 100);
    let frames: Vec<Vec<u32>> = parsed.payloads.iter().map(|p| oxygen::legacy::decode_v0(p)).collect();
    let decoded_bits =
        rebuild_samples(parsed.sample_count, frame_size(blob_rate), &frames).expect("exact frames");
    assert_eq!(decoded_bits.len(), tone.len());

    // Resample the decoded clip to 48 kHz.
    let resampled: Vec<f32> = match resample_plan(&decoded_bits, blob_rate, 48000) {
        ResamplePlan::Unchanged => decoded_bits.iter().map(|b| f32::from_bits(*b)).collect(),
        ResamplePlan::Interp(steps) => steps
            .iter()
            .map(|st| {
                let lo = f32::from_bits(st.lo);
                let hi = f32::from_bits(st.hi);
                lo + (hi - lo) * (st.frac_num as f32 / st.frac_den as f32)
            })
            .collect(),
    };
    assert_eq!(resampled.len(), 2 * 48000);

    // The tone survives: its energy dominates every other candidate.
    let at_tone = energy_at(&resampled, 48000, TONE_HZ);
    for other in [110.0, 220.0, 880.0, 1760.0, 3520.0] {
        assert!(at_tone > 100.0 * energy_at(&resampled, 48000, other));
    }
}

#[test]
fn clip_at_unsupported_rate_is_resampled_to_48000_before_encoding() {
    // A tenth of a second at 44.1 kHz, a rate the codec does not support.
    let clip: Vec<u32> = sine_tone(44100, 4410).iter().map(|s| s.to_bits()).collect();
    let rate_used = encode_rate(44100);
    assert_eq!(rate_used, 48000);

    let at_48k: Vec<u32> = match resample_plan(&clip, 44100, rate_used) {
        ResamplePlan::Unchanged => clip.clone(),
        ResamplePlan::Interp(steps) => steps
            .iter()
            .map(|st| {
                let lo = f32::from_bits(st.lo);
                let hi = f32::from_bits(st.hi);
                (lo + (hi - lo) * (st.frac_num as f32 / st.frac_den as f32)).to_bits()
            })
            .collect(),
    };
    assert_eq!(at_48k.len(), 4410 * 48000 / 44100);

    let mut enc = FrameEncoder::new(at_48k.clone(), rate_used);
    while let Some(frame) = enc.current_frame() {
        enc.push_payload(oxygen::legacy::encode_v0(&frame));
    }
    let (blob_rate, blob) = enc.finish();
    // The caller is told which rate the blob really uses.
    assert_eq!(blob_rate, 48000);

    let parsed = parse_blob(48000, &blob).expect("own blob parses");
    assert_eq!(parsed.sample_count as usize, at_48k.len());
}
