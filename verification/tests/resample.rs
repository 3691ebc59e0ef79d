//! The resampler: identity fast path, the output length law, and the
//! interpolation steps it plans.

use oxygen::resample::{resample_plan, LerpStep, ResamplePlan};

/// Blends one planned step in float arithmetic, as a host does.
fn blend(step: &LerpStep) -> f32 {
    let lo = f32::from_bits(step.lo);
    let hi = f32::from_bits(step.hi);
    let t = step.frac_num as f32 / step.frac_den as f32;
    lo + (hi - lo) * t
}

/// Runs the whole conversion: identity when the plan says so, otherwise
/// one blend per step.
fn run(samples: &[f32], src: u32, dst: u32) -> Vec<f32> {
    let bits: Vec<u32> = samples.iter().map(|s| s.to_bits()).collect();
    match resample_plan(&bits, src, dst) {
        ResamplePlan::Unchanged => samples.to_vec(),
        ResamplePlan::Interp(steps) => steps.iter().map(blend).collect(),
    }
}

#[test]
fn identity_same_rate_returns_identical_sequence() {
    let input = vec![0.25f32, -0.75, 0.5, -0.0, 1.0];
    let bits: Vec<u32> = input.iter().map(|s| s.to_bits()).collect();
    assert!(matches!(resample_plan(&bits, 44100, 44100), ResamplePlan::Unchanged));
    let out = run(&input, 44100, 44100);
    assert_eq!(out.len(), input.len());
    for (a, b) in out.iter().zip(input.iter()) {
        assert_eq!(a.to_bits(), b.to_bits());
    }
}

#[test]
fn length_law_over_supported_rate_pairs() {
    let rates = [8000u32, 12000, 16000, 24000, 48000];
    let input: Vec<f32> = (0..997).map(|i| (i as f32 / 997.0) - 0.5).collect();
    for &r1 in &rates {
        for &r2 in &rates {
            let out = run(&input, r1, r2);
            let expected = input.len() * r2 as usize / r1 as usize;
            assert_eq!(out.len(), expected, "{} -> {}", r1, r2);
        }
    }
}

#[test]
fn length_law_unsupported_source_rate() {
    let input: Vec<f32> = (0..4410).map(|i| (i % 7) as f32 * 0.1).collect();
    let out = run(&input, 44100, 48000);
    assert_eq!(out.len(), 4410 * 48000 / 44100);
    assert_eq!(out.len(), 4800);
}

#[test]
fn planned_steps_interpolate_linearly() {
    let out = run(&[0.0f32, 1.0], 16000, 48000);
    assert_eq!(out.len(), 6);
    assert_eq!(out[0], 0.0);
    assert_eq!(out[1], 1.0 / 3.0);
    assert_eq!(out[2], 2.0 / 3.0);
    assert_eq!(out[3], 1.0);
    // Past the last source sample the missing bracketing sample equals the
    // last one, so the tail holds it steady.
    assert_eq!(out[4], 1.0);
    assert_eq!(out[5], 1.0);
}

#[test]
fn single_sample_input_holds_its_value() {
    let out = run(&[0.625f32], 16000, 48000);
    assert_eq!(out.len(), 3);
    for v in &out {
        assert_eq!(v.to_bits(), 0.625f32.to_bits());
    }
}

#[test]
fn empty_input_yields_empty_output() {
    let out = run(&[], 8000, 48000);
    assert!(out.is_empty());
}

#[test]
fn downsampling_by_integer_factor_picks_exact_samples() {
    let input = vec![0.1f32, 0.2, 0.3, 0.4, 0.5, 0.6];
    let out = run(&input, 48000, 16000);
    assert_eq!(out.len(), 2);
    assert_eq!(out[0].to_bits(), input[0].to_bits());
    assert_eq!(out[1].to_bits(), input[3].to_bits());
}
