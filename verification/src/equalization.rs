//! Per-subcarrier channel estimation and symbol equalization.
//!
//! From the CFO-corrected long preamble, the estimator averages the two LTS
//! repeats, takes the inverse-direction DFT (the same direction used to build
//! the LTS frequency reference), and divides reference by received value on
//! every active subcarrier: multiplying a received subcarrier by the result
//! recovers the transmitted value.  `equalize_symbol` applies the vector to
//! one OFDM symbol and keeps only the active subcarriers.

use vstd::prelude::*;

use crate::config::{ChannelEstConfig, REF_MAX, SEQ_LEN_MAX};
use crate::cplx::{
    cx_bounded, cx_nsq, div_trunc, div_trunc_i128, lemma_div_trunc_bound, lemma_mul_bound,
    seq_bounded, Cplx, CplxI, SAMP_SCALE,
};
use crate::dft::{idft, idft_point, DFT_IN_MAX, DFT_TERM_MAX};
use vstd::arithmetic::mul::lemma_mul_inequality;

verus! {

/// Largest admitted channel-gain component (`1024.0` at sample scale is far
/// beyond any meaningful equalization; larger quotients are zeroed).
pub const GAIN_MAX: i64 = 0x4_0000_0000;

/// Largest spectrum-component magnitude the gain division accepts.
pub const SPEC_MAX: i64 = 0x8_0000_0000_0000;

/// Largest component magnitude of an equalized constellation point.
pub const POINT_MAX: i64 = 0x20_0000_0000_0000;

/// An integer pair as a sample, exact whenever the pair is in range.
pub open spec fn cplx_from(c: CplxI) -> Cplx {
    Cplx { re: c.re as i64, im: c.im as i64 }
}

/// The average of the two LTS repeats inside a corrected long preamble
/// (layout: `L/2` guard, then LTS, then LTS): elementwise
/// `(long[L/2 + i] + long[3L/2 + i]) / 2`, rounded toward zero.
pub open spec fn avg_pair(a: CplxI, b: CplxI) -> CplxI {
    CplxI { re: div_trunc(a.re + b.re, 2), im: div_trunc(a.im + b.im, 2) }
}

pub open spec fn avg_lts_seq(long: Seq<Cplx>, l: int) -> Seq<Cplx> {
    Seq::new(l as nat, |i: int| cplx_from(avg_pair(long[l / 2 + i]@, long[3 * l / 2 + i]@)))
}

/// The equalization gain of one subcarrier: `reference / received`, i.e.
/// `r * conj(f) * SAMP_SCALE / |f|^2` rounded toward zero.  A dead or absurd
/// subcarrier (zero received power, or a quotient beyond `GAIN_MAX`) gets
/// gain zero.
pub open spec fn eq_gain(r: CplxI, f: CplxI) -> CplxI {
    let den = cx_nsq(f);
    if den == 0 {
        CplxI { re: 0, im: 0 }
    } else {
        let gre = div_trunc((r.re * f.re + r.im * f.im) * SAMP_SCALE, den);
        let gim = div_trunc((r.im * f.re - r.re * f.im) * SAMP_SCALE, den);
        if -GAIN_MAX <= gre <= GAIN_MAX && -GAIN_MAX <= gim <= GAIN_MAX {
            CplxI { re: gre, im: gim }
        } else {
            CplxI { re: 0, im: 0 }
        }
    }
}

/// Executable mirror of `eq_gain`.
fn eq_gain_exec(r: Cplx, f: Cplx) -> (g: Cplx)
    requires
        cx_bounded(r@, REF_MAX as int),
        cx_bounded(f@, SPEC_MAX as int),
    ensures
        g@ == eq_gain(r@, f@),
        cx_bounded(g@, GAIN_MAX as int),
{
    proof {
        lemma_mul_bound(f.re as int, f.re as int, SPEC_MAX as int, SPEC_MAX as int);
        lemma_mul_bound(f.im as int, f.im as int, SPEC_MAX as int, SPEC_MAX as int);
        assert(f.re as int * f.re as int >= 0) by (nonlinear_arith);
        assert(f.im as int * f.im as int >= 0) by (nonlinear_arith);
        lemma_mul_bound(r.re as int, f.re as int, REF_MAX as int, SPEC_MAX as int);
        lemma_mul_bound(r.im as int, f.im as int, REF_MAX as int, SPEC_MAX as int);
        lemma_mul_bound(r.im as int, f.re as int, REF_MAX as int, SPEC_MAX as int);
        lemma_mul_bound(r.re as int, f.im as int, REF_MAX as int, SPEC_MAX as int);
        lemma_mul_bound(
            r.re as int * (f.re as int) + r.im as int * (f.im as int),
            SAMP_SCALE as int,
            2 * (REF_MAX as int) * (SPEC_MAX as int),
            SAMP_SCALE as int,
        );
        lemma_mul_bound(
            r.im as int * (f.re as int) - r.re as int * (f.im as int),
            SAMP_SCALE as int,
            2 * (REF_MAX as int) * (SPEC_MAX as int),
            SAMP_SCALE as int,
        );
    }
    let fre = f.re as i128;
    let fim = f.im as i128;
    let den = fre * fre + fim * fim;
    if den == 0 {
        Cplx { re: 0, im: 0 }
    } else {
        let rre = r.re as i128;
        let rim = r.im as i128;
        let nr = (rre * fre + rim * fim) * (SAMP_SCALE as i128);
        let ni = (rim * fre - rre * fim) * (SAMP_SCALE as i128);
        let gre = div_trunc_i128(nr, den);
        let gim = div_trunc_i128(ni, den);
        if -0x4_0000_0000i128 <= gre && gre <= 0x4_0000_0000i128 && -0x4_0000_0000i128 <= gim
            && gim <= 0x4_0000_0000i128 {
            Cplx { re: gre as i64, im: gim as i64 }
        } else {
            Cplx { re: 0, im: 0 }
        }
    }
}

/// Estimate the equalization vector from the CFO-corrected long preamble.
///
/// Entry `k` is `None` exactly where the LTS frequency reference marks the
/// subcarrier absent; on every present subcarrier it is the gain
/// `eq_gain(reference[k], F[k])`, where `F` is the inverse-direction DFT of
/// the averaged received LTS.
pub fn estimate_subcarrier_equalization(long: &Vec<Cplx>, config: &ChannelEstConfig) -> (eq: Vec<
    Option<Cplx>,
>)
    requires
        config.wf(),
        config.lts is Some,
        long@.len() == 5 * config.spec_lts_len() / 2,
        seq_bounded(long@, DFT_IN_MAX as int),
    ensures
        eq@.len() == config.spec_lts_len(),
        forall|k: int|
            0 <= k < eq@.len() ==> ((#[trigger] eq@[k]) is None <==> config.lts->Some_0.1@[k]
                is None),
        forall|k: int|
            0 <= k < eq@.len() ==> (config.lts->Some_0.1@[k] matches Some(r) ==> #[trigger] eq@[k]
                matches Some(g) && g@ == eq_gain(
                r@,
                idft_point(avg_lts_seq(long@, config.spec_lts_len()), k),
            )),
        forall|k: int|
            0 <= k < eq@.len() ==> (#[trigger] eq@[k] matches Some(g) ==> cx_bounded(
                g@,
                GAIN_MAX as int,
            )),
{
    let l = config.lts.as_ref().unwrap().0.len();
    let half = l / 2;
    // Average the two LTS repeats.
    let mut avg: Vec<Cplx> = Vec::new();
    let mut i: usize = 0;
    while i < l
        invariant
            0 <= i <= l,
            avg@.len() == i,
            4 <= l <= SEQ_LEN_MAX,
            l % 4 == 0,
            half == l / 2,
            long@.len() == 5 * l / 2,
            seq_bounded(long@, DFT_IN_MAX as int),
            forall|j: int| 0 <= j < i ==> #[trigger] avg@[j] == avg_lts_seq(long@, l as int)[j],
            seq_bounded(avg@, DFT_IN_MAX as int),
        decreases l - i,
    {
        let a = long[half + i];
        let b = long[half + l + i];
        proof {
            assert(cx_bounded(long@[(half + i) as int]@, DFT_IN_MAX as int));
            assert(cx_bounded(long@[(half + l + i) as int]@, DFT_IN_MAX as int));
            lemma_div_trunc_bound(a.re as int + b.re as int, 2, DFT_IN_MAX as int);
            lemma_div_trunc_bound(a.im as int + b.im as int, 2, DFT_IN_MAX as int);
            assert(3 * (l as int) / 2 + i == half + l + i);
        }
        let re = div_trunc_i128(a.re as i128 + b.re as i128, 2);
        let im = div_trunc_i128(a.im as i128 + b.im as i128, 2);
        avg.push(Cplx { re: re as i64, im: im as i64 });
        i += 1;
    }
    proof {
        assert(avg@ =~= avg_lts_seq(long@, l as int));
    }
    // Inverse-direction DFT of the averaged LTS (the direction that built
    // the reference).
    let spectrum = idft(&avg);
    proof {
        lemma_mul_inequality(l as int, SEQ_LEN_MAX as int, DFT_TERM_MAX as int);
    }
    // Divide reference by received value on every active subcarrier.
    let lts_ref = &config.lts.as_ref().unwrap().1;
    let mut eq: Vec<Option<Cplx>> = Vec::new();
    let mut k: usize = 0;
    while k < l
        invariant
            0 <= k <= l,
            eq@.len() == k,
            4 <= l <= SEQ_LEN_MAX,
            config.wf(),
            config.lts is Some,
            l == config.spec_lts_len(),
            lts_ref@ == config.lts->Some_0.1@,
            lts_ref@.len() == l,
            spectrum@.len() == l,
            forall|j: int|
                0 <= j < l ==> #[trigger] spectrum@[j]@ == idft_point(avg_lts_seq(long@, l as int), j),
            seq_bounded(spectrum@, SPEC_MAX as int),
            forall|j: int|
                0 <= j < k ==> ((#[trigger] eq@[j]) is None <==> lts_ref@[j] is None),
            forall|j: int|
                0 <= j < k ==> (lts_ref@[j] matches Some(r) ==> #[trigger] eq@[j] matches Some(g)
                    && g@ == eq_gain(r@, idft_point(avg_lts_seq(long@, l as int), j))),
            forall|j: int|
                0 <= j < k ==> (#[trigger] eq@[j] matches Some(g) ==> cx_bounded(
                    g@,
                    GAIN_MAX as int,
                )),
        decreases l - k,
    {
        match &lts_ref[k] {
            Some(r) => {
                let g = eq_gain_exec(*r, spectrum[k]);
                eq.push(Some(g));
            },
            None => {
                eq.push(None);
            },
        }
        k += 1;
    }
    eq
}

/// The equalized constellation point of one subcarrier:
/// `F[k] * gain / (L * SAMP_SCALE)` (the division normalizes the
/// unnormalized DFT and removes the gain's scale).
pub open spec fn eq_point(f: CplxI, g: CplxI, scale: int) -> CplxI {
    CplxI {
        re: div_trunc(f.re * g.re - f.im * g.im, scale),
        im: div_trunc(f.re * g.im + f.im * g.re, scale),
    }
}

/// The equalized points of the first `m` subcarriers, in subcarrier order,
/// skipping absent ones.
pub open spec fn eq_points(x: Seq<Cplx>, eq: Seq<Option<Cplx>>, m: int) -> Seq<Cplx>
    decreases m,
{
    if m <= 0 {
        Seq::empty()
    } else {
        let p = eq_points(x, eq, m - 1);
        if eq[m - 1] is Some {
            p.push(cplx_from(eq_point(idft_point(x, m - 1), eq[m - 1]->0@, x.len() * SAMP_SCALE)))
        } else {
            p
        }
    }
}

/// How many of the first `m` subcarriers are present.
pub open spec fn count_present(eq: Seq<Option<Cplx>>, m: int) -> int
    decreases m,
{
    if m <= 0 {
        0
    } else {
        count_present(eq, m - 1) + if eq[m - 1] is Some {
            1int
        } else {
            0int
        }
    }
}

/// `eq_points` yields exactly one point per present subcarrier.
pub proof fn lemma_eq_points_len(x: Seq<Cplx>, eq: Seq<Option<Cplx>>, m: int)
    requires
        m >= 0,
    ensures
        eq_points(x, eq, m).len() == count_present(eq, m),
    decreases m,
{
    if m > 0 {
        lemma_eq_points_len(x, eq, m - 1);
    }
}

/// Every gain in an equalization vector is bounded.
pub open spec fn eq_vec_bounded(eq: Seq<Option<Cplx>>) -> bool {
    forall|k: int|
        0 <= k < eq.len() ==> (#[trigger] eq[k] matches Some(g) ==> cx_bounded(g@, GAIN_MAX as int))
}

/// Equalize one OFDM symbol (its `L` samples, cyclic prefix removed):
/// inverse-direction DFT, then one constellation point per present
/// subcarrier.  The output length is the number of present subcarriers.
pub fn equalize_symbol(samps: &Vec<Cplx>, equalization: &Vec<Option<Cplx>>) -> (out: Vec<Cplx>)
    requires
        samps@.len() == equalization@.len(),
        1 <= samps@.len() <= SEQ_LEN_MAX,
        seq_bounded(samps@, DFT_IN_MAX as int),
        eq_vec_bounded(equalization@),
    ensures
        out@ == eq_points(samps@, equalization@, samps@.len() as int),
        out@.len() == count_present(equalization@, equalization@.len() as int),
        seq_bounded(out@, POINT_MAX as int),
{
    let l = samps.len();
    let spectrum = idft(samps);
    proof {
        lemma_mul_inequality(l as int, SEQ_LEN_MAX as int, DFT_TERM_MAX as int);
    }
    let scale = (l as i128) * (SAMP_SCALE as i128);
    let mut out: Vec<Cplx> = Vec::new();
    let mut k: usize = 0;
    while k < l
        invariant
            0 <= k <= l,
            1 <= l <= SEQ_LEN_MAX,
            l == samps@.len(),
            equalization@.len() == l,
            spectrum@.len() == l,
            scale == (l as int) * (SAMP_SCALE as int),
            seq_bounded(samps@, DFT_IN_MAX as int),
            eq_vec_bounded(equalization@),
            forall|j: int| 0 <= j < l ==> #[trigger] spectrum@[j]@ == idft_point(samps@, j),
            seq_bounded(spectrum@, (l as int) * (DFT_TERM_MAX as int)),
            out@ == eq_points(samps@, equalization@, k as int),
            seq_bounded(out@, POINT_MAX as int),
        decreases l - k,
    {
        match &equalization[k] {
            Some(g) => {
                let f = spectrum[k];
                proof {
                    let fb: int = (l as int) * (DFT_TERM_MAX as int);
                    assert(cx_bounded(spectrum@[k as int]@, fb));
                    assert(equalization@[k as int] matches Some(gg) && gg == *g);
                    assert(cx_bounded(g@, GAIN_MAX as int));
                    lemma_mul_bound(f.re as int, g.re as int, fb, GAIN_MAX as int);
                    lemma_mul_bound(f.im as int, g.im as int, fb, GAIN_MAX as int);
                    lemma_mul_bound(f.re as int, g.im as int, fb, GAIN_MAX as int);
                    lemma_mul_bound(f.im as int, g.re as int, fb, GAIN_MAX as int);
                    assert(2 * ((l as int) * (DFT_TERM_MAX as int)) * (GAIN_MAX as int) == (
                    POINT_MAX as int) * ((l as int) * (SAMP_SCALE as int))) by (nonlinear_arith)
                        requires
                            DFT_TERM_MAX == 0x400_0000_0000,
                            GAIN_MAX == 0x4_0000_0000,
                            POINT_MAX == 0x20_0000_0000_0000,
                            SAMP_SCALE == 16777216,
                    ;
                    lemma_div_trunc_bound(
                        f.re as int * g.re as int - f.im as int * g.im as int,
                        (l as int) * (SAMP_SCALE as int),
                        POINT_MAX as int,
                    );
                    lemma_div_trunc_bound(
                        f.re as int * g.im as int + f.im as int * g.re as int,
                        (l as int) * (SAMP_SCALE as int),
                        POINT_MAX as int,
                    );
                }
                let fre = f.re as i128;
                let fim = f.im as i128;
                let gre = g.re as i128;
                let gim = g.im as i128;
                let re = div_trunc_i128(fre * gre - fim * gim, scale);
                let im = div_trunc_i128(fre * gim + fim * gre, scale);
                out.push(Cplx { re: re as i64, im: im as i64 });
            },
            None => {},
        }
        k += 1;
    }
    proof {
        lemma_eq_points_len(samps@, equalization@, l as int);
    }
    out
}

} // verus!
