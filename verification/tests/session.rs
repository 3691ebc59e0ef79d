//! Capture and playback sessions: the state machine, the mono downmix,
//! the contention-skip policy, and the one-shot completion signal.

use oxygen::session::{CaptureSession, PlaybackSession, SessionPhase};

fn bits(samples: &[f32]) -> Vec<u32> {
    samples.iter().map(|s| s.to_bits()).collect()
}

#[test]
fn capture_walks_idle_recording_stopped() {
    let mut session = CaptureSession::new("morning note".to_string(), 1700000000);
    assert_eq!(session.phase, SessionPhase::Idle);
    session.start(48000);
    assert_eq!(session.phase, SessionPhase::Recording);
    session.on_input(true, &bits(&[0.5, -0.5]), 1);
    let clip = session.stop();
    assert_eq!(session.phase, SessionPhase::Stopped);
    assert_eq!(clip.sample_rate, 48000);
    assert_eq!(clip.name, "morning note");
    assert_eq!(clip.created_at, 1700000000);
    assert!(clip.id.is_none());
    assert_eq!(clip.samples, bits(&[0.5, -0.5]));
}

#[test]
fn capture_takes_first_channel_of_each_frame() {
    let mut session = CaptureSession::new("stereo".to_string(), 0);
    session.start(44100);
    // Interleaved stereo: left, right, left, right...
    let interleaved = bits(&[0.1, 0.9, 0.2, 0.8, 0.3, 0.7]);
    session.on_input(true, &interleaved, 2);
    assert_eq!(session.samples, bits(&[0.1, 0.2, 0.3]));
}

#[test]
fn capture_partial_final_frame_still_contributes() {
    let mut session = CaptureSession::new("ragged".to_string(), 0);
    session.start(8000);
    session.on_input(true, &vec![10, 11, 12, 13, 14], 2);
    assert_eq!(session.samples, vec![10, 12, 14]);
}

#[test]
fn capture_contention_skips_the_batch_and_corrupts_nothing() {
    let mut session = CaptureSession::new("contended".to_string(), 7);
    session.start(16000);
    session.on_input(true, &vec![1, 2, 3], 1);
    let written = session.samples.clone();

    // The control thread holds the lock: this callback must drop its
    // batch whole and leave every already-written sample alone.
    session.on_input(false, &vec![100, 200, 300], 1);
    assert_eq!(session.phase, SessionPhase::Recording);
    assert_eq!(session.samples, written);

    // The next uncontended callback appends as if nothing happened.
    session.on_input(true, &vec![4], 1);
    assert_eq!(session.samples, vec![1, 2, 3, 4]);
}

#[test]
fn playback_duplicates_mono_across_channels_and_pads_silence() {
    let mut session = PlaybackSession::new(vec![41, 42]);
    let (out, signal) = session.on_output(true, 3, 2).expect("lock acquired");
    assert_eq!(out, vec![41, 41, 42, 42, 0, 0]);
    assert!(signal);
    assert!(session.is_done());
    assert_eq!(f32::from_bits(out[4]), 0.0);
}

#[test]
fn playback_contention_returns_nothing_and_moves_nothing() {
    let mut session = PlaybackSession::new(vec![1, 2, 3]);
    assert!(session.on_output(false, 2, 1).is_none());
    assert_eq!(session.cursor, 0);
    let (out, signal) = session.on_output(true, 3, 1).expect("lock acquired");
    assert_eq!(out, vec![1, 2, 3]);
    assert!(signal);
}

#[test]
fn playback_signals_completion_exactly_once() {
    let mut session = PlaybackSession::new(vec![9; 4]);
    let (_, first) = session.on_output(true, 4, 1).expect("lock acquired");
    assert!(first);
    let (out, again) = session.on_output(true, 2, 1).expect("lock acquired");
    assert_eq!(out, vec![0, 0]);
    assert!(!again);
}

#[test]
fn playback_of_empty_buffer_is_silence_and_immediate_completion() {
    let mut session = PlaybackSession::new(Vec::new());
    let (out, signal) = session.on_output(true, 2, 2).expect("lock acquired");
    assert_eq!(out, vec![0, 0, 0, 0]);
    assert!(signal);
}

#[test]
fn playback_cursor_advances_across_callbacks() {
    let mut session = PlaybackSession::new(vec![1, 2, 3, 4, 5]);
    let (first, s1) = session.on_output(true, 2, 1).expect("lock acquired");
    assert_eq!(first, vec![1, 2]);
    assert!(!s1);
    let (second, s2) = session.on_output(true, 2, 1).expect("lock acquired");
    assert_eq!(second, vec![3, 4]);
    assert!(!s2);
    let (third, s3) = session.on_output(true, 2, 1).expect("lock acquired");
    assert_eq!(third, vec![5, 0]);
    assert!(s3);
}
