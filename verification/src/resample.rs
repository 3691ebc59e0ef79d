//! Sample-rate conversion by linear interpolation over a piecewise-linear
//! signal model.
//!
//! The verified part plans the conversion exactly: it advances a rational
//! read cursor through the source at step `src_rate / dst_rate` and records,
//! for every output tick, the two bracketing source samples and the
//! fractional cursor position between them.  Blending the two float values
//! is the one numeric step the library cannot perform on bit patterns, so
//! the plan hands it to the host one self-contained step at a time.

use vstd::prelude::*;
use vstd::arithmetic::div_mod::{
    lemma_div_is_ordered, lemma_div_pos_is_pos, lemma_fundamental_div_mod,
    lemma_fundamental_div_mod_converse_div, lemma_mod_division_less_than_divisor,
};
use vstd::arithmetic::mul::{lemma_mul_inequality, lemma_mul_nonnegative, lemma_mul_upper_bound};

verus! {

/// One output tick of the resampler: the bracketing source samples `lo` and
/// `hi` (float bit patterns) and the fractional cursor position
/// `frac_num / frac_den` between them.  `frac_num == 0` means the tick falls
/// exactly on `lo`.  The host blends with
/// `lo + (hi - lo) * (frac_num / frac_den)` in float arithmetic.
pub struct LerpStep {
    pub lo: u32,
    pub hi: u32,
    pub frac_num: u32,
    pub frac_den: u32,
}

/// What one resampling run asks of the host: keep the input sequence as it
/// is (the rates were equal), or blend the listed steps in order.
pub enum ResamplePlan {
    Unchanged,
    Interp(Vec<LerpStep>),
}

/// Number of output samples when `len` samples at rate `src` are converted
/// to rate `dst`.
pub open spec fn resampled_len(len: int, src: int, dst: int) -> int {
    len * dst / src
}

/// Index of the source sample at or just before output tick `i`.
pub open spec fn cursor_index(i: int, src: int, dst: int) -> int {
    i * src / dst
}

/// Numerator of the fractional cursor position at output tick `i`; the
/// denominator is `dst`.
pub open spec fn cursor_frac(i: int, src: int, dst: int) -> int {
    i * src % dst
}

/// The step owed at output tick `i`.  When the cursor sits on the last
/// source sample, the missing second bracketing sample is treated as equal
/// to the first.
pub open spec fn step_at(s: Seq<u32>, src: int, dst: int, i: int) -> LerpStep {
    let idx = cursor_index(i, src, dst);
    LerpStep {
        lo: s[idx],
        hi: if idx + 1 < s.len() { s[idx + 1] } else { s[idx] },
        frac_num: cursor_frac(i, src, dst) as u32,
        frac_den: dst as u32,
    }
}

/// Every output tick reads a cursor position that lies inside the source:
/// the integer part indexes a real sample and the fraction stays below the
/// denominator.
proof fn lemma_cursor_in_range(len: int, src: int, dst: int, i: int)
    requires
        1 <= src,
        1 <= dst,
        0 <= len,
        0 <= i < resampled_len(len, src, dst),
    ensures
        0 <= cursor_index(i, src, dst) < len,
        0 <= cursor_frac(i, src, dst) < dst,
{
    let q = resampled_len(len, src, dst);
    lemma_mul_nonnegative(i, src);
    lemma_div_pos_is_pos(i * src, dst);
    lemma_mod_division_less_than_divisor(i * src, dst);
    // q >= 1 forces len >= 1.
    if len == 0 {
        assert(q == 0);
    }
    // i * src <= (q - 1) * src
    lemma_mul_inequality(i, q - 1, src);
    // q * src <= len * dst, because q = (len * dst) / src.
    lemma_fundamental_div_mod(len * dst, src);
    lemma_mod_division_less_than_divisor(len * dst, src);
    assert((q - 1) * src == q * src - src) by (nonlinear_arith);
    assert(src * q == q * src) by (nonlinear_arith);
    assert(i * src <= len * dst - src);
    // Hence the cursor index is at most (len * dst - 1) / dst == len - 1.
    lemma_div_is_ordered(i * src, len * dst - 1, dst);
    assert(len * dst - 1 == (len - 1) * dst + (dst - 1)) by (nonlinear_arith);
    lemma_fundamental_div_mod_converse_div(len * dst - 1, dst, len - 1, dst - 1);
}

/// Plans a conversion of `samples` from `src_rate` to `dst_rate`.
///
/// Equal rates take the identity fast path: the plan says `Unchanged` and
/// the caller keeps the input sequence untouched, so no interpolation error
/// is introduced.  Otherwise the plan lists exactly
/// `floor(len * dst_rate / src_rate)` steps, and step `i` carries the source
/// samples bracketing cursor position `i * src_rate / dst_rate` together
/// with the fractional remainder.  A zero-length input always yields a
/// zero-length plan.
pub fn resample_plan(samples: &Vec<u32>, src_rate: u32, dst_rate: u32) -> (p: ResamplePlan)
    requires
        src_rate >= 1,
        dst_rate >= 1,
        resampled_len(samples.len() as int, src_rate as int, dst_rate as int) <= usize::MAX,
    ensures
        (p is Unchanged) <==> src_rate == dst_rate,
        (p matches ResamplePlan::Interp(steps) ==> {
            &&& steps@.len() == resampled_len(
                samples@.len() as int,
                src_rate as int,
                dst_rate as int,
            )
            &&& forall|i: int|
                0 <= i < steps@.len() ==> steps@[i] == step_at(
                    samples@,
                    src_rate as int,
                    dst_rate as int,
                    i,
                )
        }),
{
    if src_rate == dst_rate {
        return ResamplePlan::Unchanged;
    }
    let len = samples.len();
    let src_wide = src_rate as u128;
    let dst_wide = dst_rate as u128;
    proof {
        lemma_mul_nonnegative(len as int, dst_rate as int);
        lemma_mul_upper_bound(len as int, usize::MAX as int, dst_rate as int, u32::MAX as int);
        lemma_div_pos_is_pos(len as int * dst_rate as int, src_rate as int);
    }
    let out_wide: u128 = (len as u128) * dst_wide / src_wide;
    let out_len: usize = out_wide as usize;
    let mut steps: Vec<LerpStep> = Vec::new();
    let mut i: usize = 0;
    while i < out_len
        invariant
            src_rate >= 1,
            dst_rate >= 1,
            src_wide == src_rate as u128,
            dst_wide == dst_rate as u128,
            len == samples@.len(),
            out_len == resampled_len(len as int, src_rate as int, dst_rate as int),
            i <= out_len,
            steps@.len() == i as int,
            forall|j: int|
                0 <= j < i as int ==> steps@[j] == step_at(
                    samples@,
                    src_rate as int,
                    dst_rate as int,
                    j,
                ),
        decreases out_len - i,
    {
        proof {
            lemma_cursor_in_range(len as int, src_rate as int, dst_rate as int, i as int);
            lemma_mul_upper_bound(i as int, usize::MAX as int, src_rate as int, u32::MAX as int);
        }
        let pos: u128 = (i as u128) * src_wide;
        let idx: usize = (pos / dst_wide) as usize;
        let num: u32 = (pos % dst_wide) as u32;
        let lo = samples[idx];
        let hi = if idx + 1 < len {
            samples[idx + 1]
        } else {
            lo
        };
        steps.push(LerpStep { lo, hi, frac_num: num, frac_den: dst_rate });
        i = i + 1;
    }
    ResamplePlan::Interp(steps)
}

} // verus!
