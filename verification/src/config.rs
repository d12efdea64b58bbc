//! Shared configuration: numeric parameters and the immutable training
//! sequences (STS, LTS, and the LTS frequency-domain reference).

use vstd::prelude::*;

use crate::cplx::{all_valid, cx_bounded, cx_nsq, lemma_all_valid_bounded, lemma_mul_bound, Cplx};
use crate::dft::{idft, idft_point, DFT_TERM_MAX};
use vstd::arithmetic::mul::lemma_mul_inequality;

verus! {

/// `0.01` in scaled-energy units (`SAMP_SCALE` squared).
pub const DEFAULT_POWER_TRIG: i64 = 2814749767107;

/// Largest component magnitude of an LTS frequency-reference entry.
pub const REF_MAX: i64 = 2199023255552;

/// Largest admitted training-sequence length.
pub const SEQ_LEN_MAX: usize = 512;

pub struct ChannelEstConfig {
    /// Samples discarded at startup, so the front-end can stabilize.
    pub stabilize_samps: u64,
    /// Scaled-energy (`|s|^2`) threshold that marks a packet start.
    pub power_trig: i64,
    /// Minimum quiet samples between packets; also the guard-window size.
    pub pkt_spacing: u64,
    /// The short training sequence, repeated 10 times in the short preamble.
    pub sts: Option<Vec<Cplx>>,
    /// The long training sequence and its frequency-domain reference.
    /// A reference entry is `None` where the subcarrier is unused.
    pub lts: Option<(Vec<Cplx>, Vec<Option<Cplx>>)>,
}

impl ChannelEstConfig {
    /// Well-formedness: bounded samples, consistent lengths, and an LTS
    /// length that is a positive multiple of four (802.11 layout).
    pub open spec fn wf(&self) -> bool {
        &&& self.power_trig >= 0
        &&& (self.sts matches Some(v) ==> {
            &&& 1 <= v@.len() <= SEQ_LEN_MAX
            &&& all_valid(v@)
        })
        &&& (self.lts matches Some(p) ==> {
            &&& 4 <= p.0@.len() <= SEQ_LEN_MAX
            &&& p.0@.len() % 4 == 0
            &&& all_valid(p.0@)
            &&& p.1@.len() == p.0@.len()
            &&& forall|k: int|
                0 <= k < p.1@.len() ==> (#[trigger] p.1@[k] matches Some(c) ==> cx_bounded(
                    c@,
                    REF_MAX as int,
                ))
        })
    }

    /// The LTS length, for a configuration that has an LTS.
    pub open spec fn spec_lts_len(&self) -> int {
        self.lts->Some_0.0@.len() as int
    }

    /// The STS length, for a configuration that has an STS.
    pub open spec fn spec_sts_len(&self) -> int {
        self.sts->Some_0@.len() as int
    }
}

impl Default for ChannelEstConfig {
    /// The numeric defaults of the estimator; training sequences are
    /// installed by the caller before the pipeline runs.
    fn default() -> (c: ChannelEstConfig)
        ensures
            c.stabilize_samps == 0,
            c.power_trig == DEFAULT_POWER_TRIG,
            c.pkt_spacing == 20,
            c.sts is None,
            c.lts is None,
            c.wf(),
    {
        ChannelEstConfig {
            stabilize_samps: 0,
            power_trig: DEFAULT_POWER_TRIG,
            pkt_spacing: 20,
            sts: None,
            lts: None,
        }
    }
}

/// Squared magnitude of subcarrier `k` in the spectrum of an LTS.
pub open spec fn spectrum_nsq(lts: Seq<Cplx>, k: int) -> int {
    cx_nsq(idft_point(lts, k))
}

/// The largest squared subcarrier magnitude among the first `m`.
pub open spec fn max_spectrum_nsq(lts: Seq<Cplx>, m: int) -> int
    decreases m,
{
    if m <= 0 {
        0
    } else {
        let p = max_spectrum_nsq(lts, m - 1);
        if spectrum_nsq(lts, m - 1) > p {
            spectrum_nsq(lts, m - 1)
        } else {
            p
        }
    }
}

/// Whether subcarrier `k` of the LTS spectrum counts as absent: its
/// magnitude is below one percent of the maximum.  The second disjunct can
/// never decide for a well-formed LTS: each spectrum component is a sum of
/// at most `SEQ_LEN_MAX` rotated samples, below `512 * 2 * AMP_MAX = 2^36`,
/// far under `REF_MAX = 2^41`; it only keeps the reference's stored bound
/// unconditional.
pub open spec fn subcarrier_absent(lts: Seq<Cplx>, k: int) -> bool {
    ||| 10000 * spectrum_nsq(lts, k) < max_spectrum_nsq(lts, lts.len() as int)
    ||| !cx_bounded(idft_point(lts, k), REF_MAX as int)
}

/// Derive the frequency-domain reference from a time-domain LTS: the
/// inverse-direction DFT with every subcarrier below one percent of the
/// maximum magnitude marked absent.
pub fn derive_lts_reference(lts: &Vec<Cplx>) -> (r: Vec<Option<Cplx>>)
    requires
        1 <= lts@.len() <= SEQ_LEN_MAX,
        all_valid(lts@),
    ensures
        r@.len() == lts@.len(),
        forall|k: int|
            0 <= k < r@.len() ==> ((#[trigger] r@[k]) is None <==> subcarrier_absent(lts@, k)),
        forall|k: int|
            0 <= k < r@.len() ==> (#[trigger] r@[k] matches Some(c) ==> c@ == idft_point(lts@, k)
                && cx_bounded(c@, REF_MAX as int)),
{
    let l = lts.len();
    proof {
        lemma_all_valid_bounded(lts@);
        assert(crate::cplx::seq_bounded(lts@, crate::dft::DFT_IN_MAX as int));
    }
    let spectrum = idft(lts);
    proof {
        lemma_mul_inequality(l as int, SEQ_LEN_MAX as int, DFT_TERM_MAX as int);
    }
    // The largest squared subcarrier magnitude.
    let mut maxn: i128 = 0;
    let mut i: usize = 0;
    while i < l
        invariant
            0 <= i <= l,
            1 <= l <= SEQ_LEN_MAX,
            l == lts@.len(),
            spectrum@.len() == l,
            forall|j: int| 0 <= j < l ==> #[trigger] spectrum@[j]@ == idft_point(lts@, j),
            crate::cplx::seq_bounded(spectrum@, (l as int) * (DFT_TERM_MAX as int)),
            maxn == max_spectrum_nsq(lts@, i as int),
            0 <= maxn <= 0x8000_0000_0000_0000_0000_0000_0000,
        decreases l - i,
    {
        let c = spectrum[i];
        proof {
            let fb: int = (l as int) * (DFT_TERM_MAX as int);
            assert(cx_bounded(spectrum@[i as int]@, fb));
            lemma_mul_bound(c.re as int, c.re as int, 0x8_0000_0000_0000, 0x8_0000_0000_0000);
            lemma_mul_bound(c.im as int, c.im as int, 0x8_0000_0000_0000, 0x8_0000_0000_0000);
            assert(c.re as int * (c.re as int) >= 0) by (nonlinear_arith);
            assert(c.im as int * (c.im as int) >= 0) by (nonlinear_arith);
        }
        let n = (c.re as i128) * (c.re as i128) + (c.im as i128) * (c.im as i128);
        if n > maxn {
            maxn = n;
        }
        i += 1;
    }
    // Mark subcarriers below one percent of the maximum as absent.
    let mut r: Vec<Option<Cplx>> = Vec::new();
    let mut k: usize = 0;
    while k < l
        invariant
            0 <= k <= l,
            r@.len() == k,
            1 <= l <= SEQ_LEN_MAX,
            l == lts@.len(),
            spectrum@.len() == l,
            forall|j: int| 0 <= j < l ==> #[trigger] spectrum@[j]@ == idft_point(lts@, j),
            crate::cplx::seq_bounded(spectrum@, (l as int) * (DFT_TERM_MAX as int)),
            maxn == max_spectrum_nsq(lts@, l as int),
            0 <= maxn <= 0x8000_0000_0000_0000_0000_0000_0000,
            forall|j: int|
                0 <= j < k ==> ((#[trigger] r@[j]) is None <==> subcarrier_absent(lts@, j)),
            forall|j: int|
                0 <= j < k ==> (#[trigger] r@[j] matches Some(c) ==> c@ == idft_point(lts@, j)
                    && cx_bounded(c@, REF_MAX as int)),
        decreases l - k,
    {
        let c = spectrum[k];
        proof {
            let fb: int = (l as int) * (DFT_TERM_MAX as int);
            assert(cx_bounded(spectrum@[k as int]@, fb));
            lemma_mul_bound(c.re as int, c.re as int, 0x8_0000_0000_0000, 0x8_0000_0000_0000);
            lemma_mul_bound(c.im as int, c.im as int, 0x8_0000_0000_0000, 0x8_0000_0000_0000);
            assert(c.re as int * (c.re as int) >= 0) by (nonlinear_arith);
            assert(c.im as int * (c.im as int) >= 0) by (nonlinear_arith);
        }
        let n = (c.re as i128) * (c.re as i128) + (c.im as i128) * (c.im as i128);
        let in_range = c.re <= REF_MAX && c.re >= -REF_MAX && c.im <= REF_MAX && c.im >= -REF_MAX;
        if 10000 * n < maxn || !in_range {
            r.push(None);
        } else {
            r.push(Some(c));
        }
        k += 1;
    }
    r
}

/// Assemble a well-formed configuration from numeric parameters and the
/// training sequences, deriving the LTS frequency reference.
pub fn with_training(
    stabilize_samps: u64,
    power_trig: i64,
    pkt_spacing: u64,
    sts: Vec<Cplx>,
    lts: Vec<Cplx>,
) -> (c: ChannelEstConfig)
    requires
        power_trig >= 0,
        1 <= sts@.len() <= SEQ_LEN_MAX,
        all_valid(sts@),
        4 <= lts@.len() <= SEQ_LEN_MAX,
        lts@.len() % 4 == 0,
        all_valid(lts@),
    ensures
        c.wf(),
        c.stabilize_samps == stabilize_samps,
        c.power_trig == power_trig,
        c.pkt_spacing == pkt_spacing,
        c.sts matches Some(v) && v@ == sts@,
        c.lts matches Some(p) && p.0@ == lts@ && p.1@.len() == lts@.len(),
        forall|k: int|
            0 <= k < lts@.len() ==> ((#[trigger] c.lts->Some_0.1@[k]) is None <==> subcarrier_absent(
                lts@,
                k,
            )),
        forall|k: int|
            0 <= k < lts@.len() ==> (#[trigger] c.lts->Some_0.1@[k] matches Some(g) ==> g@
                == idft_point(lts@, k)),
{
    let lts_ref = derive_lts_reference(&lts);
    ChannelEstConfig {
        stabilize_samps,
        power_trig,
        pkt_spacing,
        sts: Some(sts),
        lts: Some((lts, lts_ref)),
    }
}

} // verus!
