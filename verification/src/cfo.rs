//! Carrier-frequency-offset (CFO) estimation and correction.
//!
//! The estimator is the standard delay-and-correlate scheme: identical
//! repeats of a training sequence, rotated by a per-sample phase `phi`, make
//! `sum conj(s[i]) * s[i + gap]` a complex number of argument `gap * phi`.
//! A coarse stage over the ten STS repeats resolves the ambiguity; a fine
//! stage over the two LTS repeats (de-rotated by the coarse estimate)
//! delivers precision.  The corrector multiplies each sample by the unit
//! phasor of `-phi * i`.

use vstd::prelude::*;

use crate::config::{ChannelEstConfig, SEQ_LEN_MAX};
use crate::cplx::{
    all_valid, conj_mul_wide, cx_add, cx_bounded, cx_conj_mul, cx_mul, cx_zero, div_trunc,
    div_trunc_i128, lemma_div_trunc_bound, lemma_mul_bound, seq_bounded, Cplx, CplxI, PH_SCALE,
};
use crate::lts_align::CORR_TERM_MAX;
use crate::trig::{atan2_spec, atan2_scaled, cos_sin, cos_sin_spec, PI_SC};
use vstd::arithmetic::mul::lemma_mul_inequality;

verus! {

/// Largest admitted sample-component magnitude of the corrector's input.
pub const CORR_IN_MAX: i64 = 0x100_0000_0000;

/// Largest sample-component magnitude a rotation accepts.
pub const ROT_ARG_MAX: i64 = 0x200_0000_0000;

/// Largest per-sample CFO magnitude admitted (about 16 radians per sample;
/// far beyond anything physical, forced only by machine limits).
pub const CFO_MAX: i64 = 0x4000_0000;

/// Delay-and-correlate sum:
/// `sum over i in [0, k) of conj(s[lo + i]) * s[lo + i + gap]`.
pub open spec fn delay_corr(s: Seq<Cplx>, lo: int, gap: int, k: int) -> CplxI
    decreases k,
{
    if k <= 0 {
        cx_zero()
    } else {
        cx_add(delay_corr(s, lo, gap, k - 1), cx_conj_mul(s[lo + k - 1]@, s[lo + k - 1 + gap]@))
    }
}

/// Components of a delay-and-correlate sum grow at most linearly.
pub proof fn lemma_delay_corr_bound(s: Seq<Cplx>, lo: int, gap: int, k: int)
    requires
        all_valid(s),
        0 <= lo,
        0 <= gap,
        0 <= k,
        lo + k + gap <= s.len(),
    ensures
        cx_bounded(delay_corr(s, lo, gap, k), k * CORR_TERM_MAX),
    decreases k,
{
    if k > 0 {
        lemma_delay_corr_bound(s, lo, gap, k - 1);
        let a = s[lo + k - 1]@;
        let b = s[lo + k - 1 + gap]@;
        crate::cplx::lemma_mul_bound(a.re, b.re, crate::cplx::AMP_MAX as int, crate::cplx::AMP_MAX as int);
        crate::cplx::lemma_mul_bound(a.im, b.im, crate::cplx::AMP_MAX as int, crate::cplx::AMP_MAX as int);
        crate::cplx::lemma_mul_bound(a.re, b.im, crate::cplx::AMP_MAX as int, crate::cplx::AMP_MAX as int);
        crate::cplx::lemma_mul_bound(a.im, b.re, crate::cplx::AMP_MAX as int, crate::cplx::AMP_MAX as int);
        assert((k - 1) * CORR_TERM_MAX + CORR_TERM_MAX == k * CORR_TERM_MAX) by (nonlinear_arith);
    }
}

/// The two-stage CFO estimate, in `ANGLE_SCALE` units per sample:
/// `coarse = arg(sum conj(short[i]) short[i+S]) / S` over the first `9 S`
/// short-preamble samples, then
/// `fine = arg(sum conj(long[i]) long[i+L] * exp(-j coarse L)) / L` over the
/// LTS span `[L/2, 3L/2)`, and the estimate is `coarse + fine`.
pub open spec fn estimate_cfo_spec(short: Seq<Cplx>, long: Seq<Cplx>, s_len: int, l_len: int) -> int {
    let cs = delay_corr(short, 0, s_len, 9 * s_len);
    let coarse = div_trunc(atan2_spec(cs.im, cs.re), s_len);
    let ph = cos_sin_spec(-coarse * l_len);
    let fs = delay_corr(long, l_len / 2, l_len, l_len);
    let rot = cx_mul(fs, CplxI { re: ph.0, im: ph.1 });
    coarse + div_trunc(atan2_spec(rot.im, rot.re), l_len)
}

/// Estimate the CFO from the short and long preambles.  Returns the
/// per-sample phase shift due to CFO (so correction is in the opposite
/// direction), in `ANGLE_SCALE` units, bounded by `2 * pi`.
pub fn estimate_cfo(short: &Vec<Cplx>, long: &Vec<Cplx>, config: &ChannelEstConfig) -> (cfo: i64)
    requires
        config.wf(),
        config.sts is Some,
        config.lts is Some,
        all_valid(short@),
        all_valid(long@),
        short@.len() == 10 * config.spec_sts_len(),
        long@.len() == 5 * config.spec_lts_len() / 2,
    ensures
        cfo == estimate_cfo_spec(short@, long@, config.spec_sts_len(), config.spec_lts_len()),
        -2 * PI_SC <= cfo <= 2 * PI_SC,
{
    let s_len = config.sts.as_ref().unwrap().len();
    let l_len = config.lts.as_ref().unwrap().0.len();
    // Coarse stage over the short preamble.
    let n9 = 9 * s_len;
    let mut cr: i128 = 0;
    let mut ci: i128 = 0;
    let mut i: usize = 0;
    while i < n9
        invariant
            0 <= i <= n9,
            n9 == 9 * s_len,
            1 <= s_len <= SEQ_LEN_MAX,
            short@.len() == 10 * s_len,
            all_valid(short@),
            cr == delay_corr(short@, 0, s_len as int, i as int).re,
            ci == delay_corr(short@, 0, s_len as int, i as int).im,
            -(i * CORR_TERM_MAX) <= cr <= i * CORR_TERM_MAX,
            -(i * CORR_TERM_MAX) <= ci <= i * CORR_TERM_MAX,
        decreases n9 - i,
    {
        let t = conj_mul_wide(short[i], short[i + s_len]);
        proof {
            lemma_mul_inequality(i as int, 9 * SEQ_LEN_MAX as int, CORR_TERM_MAX as int);
            lemma_mul_inequality(i as int + 1, 9 * SEQ_LEN_MAX as int, CORR_TERM_MAX as int);
            assert((i + 1) * CORR_TERM_MAX == i * CORR_TERM_MAX + CORR_TERM_MAX)
                by (nonlinear_arith);
        }
        cr = cr + t.0;
        ci = ci + t.1;
        i += 1;
    }
    proof {
        lemma_mul_inequality(n9 as int, 9 * SEQ_LEN_MAX as int, CORR_TERM_MAX as int);
    }
    let coarse_angle = atan2_scaled(ci, cr);
    let coarse = div_trunc_i128(coarse_angle as i128, s_len as i128) as i64;
    // De-rotation phasor for one LTS length at the coarse estimate.
    proof {
        lemma_mul_bound(coarse as int, l_len as int, PI_SC as int, SEQ_LEN_MAX as int);
        assert(-(coarse as int) * (l_len as int) == -((coarse as int) * (l_len as int)))
            by (nonlinear_arith);
    }
    let ph = cos_sin(-(coarse * (l_len as i64)));
    // Fine stage over the two LTS repeats.
    let half = l_len / 2;
    let mut fr: i128 = 0;
    let mut fi: i128 = 0;
    let mut k: usize = 0;
    while k < l_len
        invariant
            0 <= k <= l_len,
            4 <= l_len <= SEQ_LEN_MAX,
            half == l_len / 2,
            l_len % 4 == 0,
            long@.len() == 5 * l_len / 2,
            all_valid(long@),
            fr == delay_corr(long@, half as int, l_len as int, k as int).re,
            fi == delay_corr(long@, half as int, l_len as int, k as int).im,
            -(k * CORR_TERM_MAX) <= fr <= k * CORR_TERM_MAX,
            -(k * CORR_TERM_MAX) <= fi <= k * CORR_TERM_MAX,
        decreases l_len - k,
    {
        let t = conj_mul_wide(long[half + k], long[half + k + l_len]);
        proof {
            lemma_mul_inequality(k as int, SEQ_LEN_MAX as int, CORR_TERM_MAX as int);
            lemma_mul_inequality(k as int + 1, SEQ_LEN_MAX as int, CORR_TERM_MAX as int);
            assert((k + 1) * CORR_TERM_MAX == k * CORR_TERM_MAX + CORR_TERM_MAX)
                by (nonlinear_arith);
        }
        fr = fr + t.0;
        fi = fi + t.1;
        k += 1;
    }
    proof {
        lemma_mul_inequality(l_len as int, SEQ_LEN_MAX as int, CORR_TERM_MAX as int);
        let fb: int = SEQ_LEN_MAX as int * CORR_TERM_MAX as int;
        lemma_mul_bound(fr as int, ph.0 as int, fb, PH_SCALE as int);
        lemma_mul_bound(fr as int, ph.1 as int, fb, PH_SCALE as int);
        lemma_mul_bound(fi as int, ph.0 as int, fb, PH_SCALE as int);
        lemma_mul_bound(fi as int, ph.1 as int, fb, PH_SCALE as int);
    }
    let rot_re = fr * (ph.0 as i128) - fi * (ph.1 as i128);
    let rot_im = fr * (ph.1 as i128) + fi * (ph.0 as i128);
    let fine_angle = atan2_scaled(rot_im, rot_re);
    let fine = div_trunc_i128(fine_angle as i128, l_len as i128) as i64;
    coarse + fine
}

/// One sample rotated by a phasor `(pc, ps)` at scale `PH_SCALE`, rounded
/// toward zero.
pub open spec fn rotate_sample(s: CplxI, pc: int, ps: int) -> CplxI {
    CplxI {
        re: div_trunc(s.re * pc - s.im * ps, PH_SCALE as int),
        im: div_trunc(s.re * ps + s.im * pc, PH_SCALE as int),
    }
}

/// What the corrector produces at index `i`: the sample rotated by the unit
/// phasor of `-cfo * i`.
pub open spec fn correct_cfo_at(s: Seq<Cplx>, cfo: int, i: int) -> CplxI {
    let ph = cos_sin_spec(-cfo * i);
    rotate_sample(s[i]@, ph.0, ph.1)
}

/// A rotated sample is no more than twice as large as its input.
pub proof fn lemma_rotate_bound(s: CplxI, pc: int, ps: int, m: int)
    requires
        0 <= m,
        cx_bounded(s, m),
        -PH_SCALE <= pc <= PH_SCALE,
        -PH_SCALE <= ps <= PH_SCALE,
    ensures
        cx_bounded(rotate_sample(s, pc, ps), 2 * m),
{
    lemma_mul_bound(s.re, pc, m, PH_SCALE as int);
    lemma_mul_bound(s.re, ps, m, PH_SCALE as int);
    lemma_mul_bound(s.im, pc, m, PH_SCALE as int);
    lemma_mul_bound(s.im, ps, m, PH_SCALE as int);
    assert(2 * m * (PH_SCALE as int) == (2 * m) * (PH_SCALE as int)) by (nonlinear_arith);
    lemma_div_trunc_bound(s.re * pc - s.im * ps, PH_SCALE as int, 2 * m);
    lemma_div_trunc_bound(s.re * ps + s.im * pc, PH_SCALE as int, 2 * m);
}

/// Multiply a bounded sample by a phasor, exactly as `rotate_sample`.
pub fn rotate_exec(s: Cplx, pc: i64, ps: i64) -> (r: Cplx)
    requires
        cx_bounded(s@, ROT_ARG_MAX as int),
        -PH_SCALE <= pc <= PH_SCALE,
        -PH_SCALE <= ps <= PH_SCALE,
    ensures
        r@ == rotate_sample(s@, pc as int, ps as int),
{
    proof {
        lemma_rotate_bound(s@, pc as int, ps as int, ROT_ARG_MAX as int);
        lemma_mul_bound(s.re as int, pc as int, ROT_ARG_MAX as int, PH_SCALE as int);
        lemma_mul_bound(s.re as int, ps as int, ROT_ARG_MAX as int, PH_SCALE as int);
        lemma_mul_bound(s.im as int, pc as int, ROT_ARG_MAX as int, PH_SCALE as int);
        lemma_mul_bound(s.im as int, ps as int, ROT_ARG_MAX as int, PH_SCALE as int);
    }
    let sr = s.re as i128;
    let si = s.im as i128;
    let pcw = pc as i128;
    let psw = ps as i128;
    let re = div_trunc_i128(sr * pcw - si * psw, PH_SCALE as i128);
    let im = div_trunc_i128(sr * psw + si * pcw, PH_SCALE as i128);
    Cplx { re: re as i64, im: im as i64 }
}

/// Correct a buffer for a given CFO: `out[i] = s[i] * exp(-j * cfo * i)`,
/// with `i` indexed from the start of the slice.
pub fn correct_cfo(samps: &Vec<Cplx>, cfo: i64) -> (out: Vec<Cplx>)
    requires
        seq_bounded(samps@, CORR_IN_MAX as int),
        -CFO_MAX <= cfo <= CFO_MAX,
        samps@.len() <= 0x1_0000_0000,
    ensures
        out@.len() == samps@.len(),
        forall|i: int| 0 <= i < out@.len() ==> #[trigger] out@[i]@ == correct_cfo_at(samps@, cfo as int, i),
        seq_bounded(out@, 2 * CORR_IN_MAX as int),
{
    let mut out: Vec<Cplx> = Vec::new();
    let mut i: usize = 0;
    while i < samps.len()
        invariant
            0 <= i <= samps@.len(),
            out@.len() == i,
            samps@.len() <= 0x1_0000_0000,
            seq_bounded(samps@, CORR_IN_MAX as int),
            -CFO_MAX <= cfo <= CFO_MAX,
            forall|j: int| 0 <= j < i ==> #[trigger] out@[j]@ == correct_cfo_at(samps@, cfo as int, j),
            seq_bounded(out@, 2 * CORR_IN_MAX as int),
        decreases samps@.len() - i,
    {
        proof {
            lemma_mul_bound(cfo as int, i as int, CFO_MAX as int, 0x1_0000_0000);
            assert(-(cfo as int) * (i as int) == -((cfo as int) * (i as int)))
                by (nonlinear_arith);
        }
        let angle = -(cfo * (i as i64));
        let ph = cos_sin(angle);
        proof {
            lemma_rotate_bound(samps@[i as int]@, ph.0 as int, ph.1 as int, CORR_IN_MAX as int);
        }
        let r = rotate_exec(samps[i], ph.0, ph.1);
        out.push(r);
        i += 1;
    }
    out
}

} // verus!
