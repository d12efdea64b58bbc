//! Long-training-sequence aligner.
//!
//! Cross-correlates a window of the packet with the known LTS and returns the
//! offset of the start of the long preamble (the beginning of the guard
//! interval before the first of the two LTS repeats).  To pick the first of
//! the two correlation peaks, the metric maximized is the product of the
//! correlation energies one LTS length apart; ties keep the earliest index.

use vstd::prelude::*;

use crate::config::SEQ_LEN_MAX;
use crate::cplx::{
    all_valid, conj_mul_wide, cx_add, cx_bounded, cx_conj_mul, cx_nsq, cx_zero, Cplx, CplxI,
};
use crate::widemul::{wide_gt, wide_mul, wide_val, P126};
use vstd::arithmetic::mul::lemma_mul_inequality;

verus! {

/// Largest component magnitude of `conj(a) * b` for well-formed samples
/// (`2 * AMP_MAX^2`).
pub const CORR_TERM_MAX: i64 = 0x20_0000_0000_0000;

/// Partial correlation sum: `sum over j in [0, k) of conj(lts[j]) * pkt[i+j]`.
pub open spec fn corr_sum(pkt: Seq<Cplx>, lts: Seq<Cplx>, i: int, k: int) -> CplxI
    decreases k,
{
    if k <= 0 {
        cx_zero()
    } else {
        cx_add(corr_sum(pkt, lts, i, k - 1), cx_conj_mul(lts[k - 1]@, pkt[i + k - 1]@))
    }
}

/// Correlation energy at candidate start `i`:
/// `|sum over j of conj(lts[j]) * pkt[i+j]|^2`.
pub open spec fn corr(pkt: Seq<Cplx>, lts: Seq<Cplx>, i: int) -> int {
    cx_nsq(corr_sum(pkt, lts, i, lts.len() as int))
}

/// The two-peak metric: correlation energies one LTS length apart multiplied,
/// so that the first of the two LTS repeats wins over single spurious peaks.
pub open spec fn peak_metric(pkt: Seq<Cplx>, lts: Seq<Cplx>, i: int) -> int {
    corr(pkt, lts, i) * corr(pkt, lts, i + lts.len())
}

/// Index of the maximal peak metric over `[0, n)`; the earliest index wins
/// ties.
pub open spec fn peak_argmax(pkt: Seq<Cplx>, lts: Seq<Cplx>, n: int) -> int
    decreases n,
{
    if n <= 1 {
        0
    } else {
        let prev = peak_argmax(pkt, lts, n - 1);
        if peak_metric(pkt, lts, n - 1) > peak_metric(pkt, lts, prev) {
            n - 1
        } else {
            prev
        }
    }
}

/// The argmax stays within its range.
pub proof fn lemma_peak_argmax_in_range(pkt: Seq<Cplx>, lts: Seq<Cplx>, n: int)
    requires
        n >= 1,
    ensures
        0 <= peak_argmax(pkt, lts, n) < n,
    decreases n,
{
    if n > 1 {
        lemma_peak_argmax_in_range(pkt, lts, n - 1);
    }
}

/// Components of a partial correlation sum grow at most linearly.
pub proof fn lemma_corr_sum_bound(pkt: Seq<Cplx>, lts: Seq<Cplx>, i: int, k: int)
    requires
        all_valid(pkt),
        all_valid(lts),
        0 <= k <= lts.len(),
        0 <= i,
        i + k <= pkt.len(),
    ensures
        cx_bounded(corr_sum(pkt, lts, i, k), k * CORR_TERM_MAX),
    decreases k,
{
    if k > 0 {
        lemma_corr_sum_bound(pkt, lts, i, k - 1);
        let a = lts[k - 1]@;
        let b = pkt[i + k - 1]@;
        crate::cplx::lemma_mul_bound(a.re, b.re, crate::cplx::AMP_MAX as int, crate::cplx::AMP_MAX as int);
        crate::cplx::lemma_mul_bound(a.im, b.im, crate::cplx::AMP_MAX as int, crate::cplx::AMP_MAX as int);
        crate::cplx::lemma_mul_bound(a.re, b.im, crate::cplx::AMP_MAX as int, crate::cplx::AMP_MAX as int);
        crate::cplx::lemma_mul_bound(a.im, b.re, crate::cplx::AMP_MAX as int, crate::cplx::AMP_MAX as int);
        assert((k - 1) * CORR_TERM_MAX + CORR_TERM_MAX == k * CORR_TERM_MAX) by (nonlinear_arith);
    }
}

/// `|re + j im|^2` of a correlation sum, exactly, as a `u128` below `2^126`.
fn nsq_wide(re: i128, im: i128) -> (r: u128)
    requires
        -0x4000_0000_0000_0000 <= re <= 0x4000_0000_0000_0000,
        -0x4000_0000_0000_0000 <= im <= 0x4000_0000_0000_0000,
    ensures
        r == cx_nsq(CplxI { re: re as int, im: im as int }),
        r < P126,
{
    proof {
        let b: int = 0x4000_0000_0000_0000;
        assert(re * re <= b * b && re * re >= 0) by (nonlinear_arith)
            requires
                -b <= re <= b,
        ;
        assert(im * im <= b * b && im * im >= 0) by (nonlinear_arith)
            requires
                -b <= im <= b,
        ;
    }
    let n = re * re + im * im;
    n as u128
}

/// Find the offset of the long preamble in `pkt` by LTS cross-correlation.
///
/// Returns `argmax_i corr(i) * corr(i + L) - L/2`: the index of the first LTS
/// repeat, shifted back by the guard interval.  The caller passes a window
/// known to contain the LTS and large enough that the peak does not sit in
/// the first `L/2` candidates (excessive data causes spurious peaks).
pub fn lts_align(pkt: &Vec<Cplx>, lts: &Vec<Cplx>) -> (r: usize)
    requires
        all_valid(pkt@),
        all_valid(lts@),
        2 <= lts@.len() <= SEQ_LEN_MAX,
        pkt@.len() > 2 * lts@.len(),
        peak_argmax(pkt@, lts@, pkt@.len() - 2 * lts@.len()) >= lts@.len() / 2,
    ensures
        r == peak_argmax(pkt@, lts@, pkt@.len() - 2 * lts@.len()) - lts@.len() / 2,
{
    let best = peak_search(pkt, lts);
    best - lts.len() / 2
}

/// Like `lts_align`, but for callers that cannot promise where the peak
/// lies: `None` when the peak sits inside the first `L/2` candidates (no
/// room for the guard interval), `Some` of the aligned offset otherwise.
pub fn lts_align_checked(pkt: &Vec<Cplx>, lts: &Vec<Cplx>) -> (r: Option<usize>)
    requires
        all_valid(pkt@),
        all_valid(lts@),
        2 <= lts@.len() <= SEQ_LEN_MAX,
        pkt@.len() > 2 * lts@.len(),
    ensures
        r matches Some(v) ==> peak_argmax(pkt@, lts@, pkt@.len() - 2 * lts@.len()) >= lts@.len()
            / 2 && v == peak_argmax(pkt@, lts@, pkt@.len() - 2 * lts@.len()) - lts@.len() / 2,
        r is None ==> peak_argmax(pkt@, lts@, pkt@.len() - 2 * lts@.len()) < lts@.len() / 2,
{
    let best = peak_search(pkt, lts);
    if best >= lts.len() / 2 {
        Some(best - lts.len() / 2)
    } else {
        None
    }
}

/// The index maximizing the two-peak metric over all candidate starts.
fn peak_search(pkt: &Vec<Cplx>, lts: &Vec<Cplx>) -> (r: usize)
    requires
        all_valid(pkt@),
        all_valid(lts@),
        2 <= lts@.len() <= SEQ_LEN_MAX,
        pkt@.len() > 2 * lts@.len(),
    ensures
        r == peak_argmax(pkt@, lts@, pkt@.len() - 2 * lts@.len()),
        0 <= r < pkt@.len() - 2 * lts@.len(),
{
    proof {
        lemma_peak_argmax_in_range(pkt@, lts@, pkt@.len() - 2 * lts@.len());
    }
    let l = lts.len();
    let n_corr = pkt.len() - l;
    let mut corrv: Vec<u128> = Vec::new();
    let mut i: usize = 0;
    while i < n_corr
        invariant
            0 <= i <= n_corr,
            corrv@.len() == i,
            n_corr == pkt@.len() - l,
            l == lts@.len(),
            2 <= l <= SEQ_LEN_MAX,
            pkt@.len() > 2 * l,
            pkt@.len() <= usize::MAX,
            all_valid(pkt@),
            all_valid(lts@),
            forall|j: int|
                0 <= j < i ==> #[trigger] corrv@[j] == corr(pkt@, lts@, j) && corrv@[j] < P126,
        decreases n_corr - i,
    {
        let mut sr: i128 = 0;
        let mut si: i128 = 0;
        let mut k: usize = 0;
        while k < l
            invariant
                0 <= k <= l,
                l == lts@.len(),
                2 <= l <= SEQ_LEN_MAX,
                0 <= i,
                i + l <= pkt@.len(),
                pkt@.len() <= usize::MAX,
                all_valid(pkt@),
                all_valid(lts@),
                sr == corr_sum(pkt@, lts@, i as int, k as int).re,
                si == corr_sum(pkt@, lts@, i as int, k as int).im,
                -(k * CORR_TERM_MAX) <= sr <= k * CORR_TERM_MAX,
                -(k * CORR_TERM_MAX) <= si <= k * CORR_TERM_MAX,
            decreases l - k,
        {
            let t = conj_mul_wide(lts[k], pkt[i + k]);
            proof {
                lemma_mul_inequality(k as int, SEQ_LEN_MAX as int, CORR_TERM_MAX as int);
                lemma_mul_inequality(k as int + 1, SEQ_LEN_MAX as int, CORR_TERM_MAX as int);
                assert((k + 1) * CORR_TERM_MAX == k * CORR_TERM_MAX + CORR_TERM_MAX)
                    by (nonlinear_arith);
            }
            sr = sr + t.0;
            si = si + t.1;
            k += 1;
        }
        proof {
            lemma_mul_inequality(l as int, SEQ_LEN_MAX as int, CORR_TERM_MAX as int);
        }
        let c = nsq_wide(sr, si);
        corrv.push(c);
        i += 1;
    }
    // Find the earliest index maximizing `corr(i) * corr(i + L)`.
    let n_pk = pkt.len() - 2 * l;
    let first = wide_mul(corrv[0], corrv[l]);
    let mut best: usize = 0;
    let mut bh = first.0;
    let mut bl = first.1;
    let mut t: usize = 1;
    while t < n_pk
        invariant
            1 <= t <= n_pk,
            n_pk == pkt@.len() - 2 * l,
            l == lts@.len(),
            2 <= l <= SEQ_LEN_MAX,
            pkt@.len() <= usize::MAX,
            corrv@.len() == pkt@.len() - l,
            forall|j: int|
                0 <= j < corrv@.len() ==> #[trigger] corrv@[j] == corr(pkt@, lts@, j) && corrv@[j]
                    < P126,
            0 <= best < t,
            best == peak_argmax(pkt@, lts@, t as int),
            wide_val(bh, bl) == peak_metric(pkt@, lts@, best as int),
            bl < P126,
            bh < P126,
        decreases n_pk - t,
    {
        let m = wide_mul(corrv[t], corrv[t + l]);
        if wide_gt(m.0, m.1, bh, bl) {
            best = t;
            bh = m.0;
            bl = m.1;
        }
        t += 1;
    }
    best
}

} // verus!
