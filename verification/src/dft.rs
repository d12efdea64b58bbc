//! Verified fixed-point inverse-direction DFT.
//!
//! `idft` computes the unnormalized inverse discrete Fourier transform
//! `F[k] = sum over n of x[n] * exp(+j 2 pi n k / L)` with every twiddle
//! factor produced by the verified trigonometry and every product rounded
//! toward zero at phasor scale.  Both the LTS frequency reference and the
//! equalizer use this same direction, so their ratio recovers the channel.

use vstd::prelude::*;

use crate::cfo::{lemma_rotate_bound, rotate_exec, rotate_sample};
use crate::config::SEQ_LEN_MAX;
use crate::cplx::{cx_add, cx_bounded, cx_zero, seq_bounded, Cplx, CplxI};
use crate::trig::{cos_sin, cos_sin_spec, lemma_udiv_bound, TWO_PI_SC};
use vstd::arithmetic::div_mod::lemma_mod_bound;
use vstd::arithmetic::mul::lemma_mul_inequality;

verus! {

/// Largest admitted sample-component magnitude of a DFT input.
pub const DFT_IN_MAX: i64 = 0x200_0000_0000;

/// Largest component magnitude of one rotated DFT term.
pub const DFT_TERM_MAX: i64 = 0x400_0000_0000;

/// The angle of the twiddle factor `exp(+j 2 pi n k / L)`, in `ANGLE_SCALE`
/// units, reduced to one period.
pub open spec fn twiddle_angle(l: int, k: int, n: int) -> int {
    (TWO_PI_SC * ((n * k) % l)) / l
}

/// Partial inverse-DFT sum of point `k`: terms `n` in `[0, m)`.
pub open spec fn idft_sum(x: Seq<Cplx>, k: int, m: int) -> CplxI
    decreases m,
{
    if m <= 0 {
        cx_zero()
    } else {
        let ph = cos_sin_spec(twiddle_angle(x.len() as int, k, m - 1));
        cx_add(idft_sum(x, k, m - 1), rotate_sample(x[m - 1]@, ph.0, ph.1))
    }
}

/// Point `k` of the unnormalized inverse DFT of `x`.
pub open spec fn idft_point(x: Seq<Cplx>, k: int) -> CplxI {
    idft_sum(x, k, x.len() as int)
}

/// The unnormalized inverse DFT, pointwise exactly `idft_point`.
pub fn idft(x: &Vec<Cplx>) -> (out: Vec<Cplx>)
    requires
        1 <= x@.len() <= SEQ_LEN_MAX,
        seq_bounded(x@, DFT_IN_MAX as int),
    ensures
        out@.len() == x@.len(),
        forall|k: int| 0 <= k < out@.len() ==> #[trigger] out@[k]@ == idft_point(x@, k),
        seq_bounded(out@, x@.len() * DFT_TERM_MAX),
{
    let l = x.len();
    let mut out: Vec<Cplx> = Vec::new();
    let mut k: usize = 0;
    while k < l
        invariant
            0 <= k <= l,
            out@.len() == k,
            l == x@.len(),
            1 <= l <= SEQ_LEN_MAX,
            seq_bounded(x@, DFT_IN_MAX as int),
            forall|j: int| 0 <= j < k ==> #[trigger] out@[j]@ == idft_point(x@, j),
            forall|j: int| 0 <= j < k ==> cx_bounded(#[trigger] out@[j]@, l * DFT_TERM_MAX),
        decreases l - k,
    {
        let mut sr: i128 = 0;
        let mut si: i128 = 0;
        let mut n: usize = 0;
        while n < l
            invariant
                0 <= n <= l,
                0 <= k < l,
                l == x@.len(),
                1 <= l <= SEQ_LEN_MAX,
                seq_bounded(x@, DFT_IN_MAX as int),
                sr == idft_sum(x@, k as int, n as int).re,
                si == idft_sum(x@, k as int, n as int).im,
                -(n * DFT_TERM_MAX) <= sr <= n * DFT_TERM_MAX,
                -(n * DFT_TERM_MAX) <= si <= n * DFT_TERM_MAX,
            decreases l - n,
        {
            proof {
                vstd::arithmetic::mul::lemma_mul_upper_bound(
                    n as int,
                    SEQ_LEN_MAX as int,
                    k as int,
                    SEQ_LEN_MAX as int,
                );
            }
            let m = (n * k) % l;
            proof {
                lemma_mod_bound((n * k) as int, l as int);
                lemma_mul_inequality(m as int, l as int, TWO_PI_SC as int);
                assert((m as int) * (TWO_PI_SC as int) == (TWO_PI_SC as int) * (m as int))
                    by (nonlinear_arith);
                assert((l as int) * (TWO_PI_SC as int) == (TWO_PI_SC as int) * (l as int))
                    by (nonlinear_arith);
                lemma_udiv_bound(
                    (TWO_PI_SC as int) * (m as int),
                    l as int,
                    TWO_PI_SC as int,
                );
            }
            let a = ((421657428u64 * (m as u64)) / (l as u64)) as i64;
            let ph = cos_sin(a);
            proof {
                lemma_rotate_bound(x@[n as int]@, ph.0 as int, ph.1 as int, DFT_IN_MAX as int);
                lemma_mul_inequality(n as int, SEQ_LEN_MAX as int, DFT_TERM_MAX as int);
                lemma_mul_inequality(n as int + 1, SEQ_LEN_MAX as int, DFT_TERM_MAX as int);
                assert((n + 1) * DFT_TERM_MAX == n * DFT_TERM_MAX + DFT_TERM_MAX)
                    by (nonlinear_arith);
            }
            let t = rotate_exec(x[n], ph.0, ph.1);
            sr = sr + t.re as i128;
            si = si + t.im as i128;
            n += 1;
        }
        proof {
            lemma_mul_inequality(l as int, SEQ_LEN_MAX as int, DFT_TERM_MAX as int);
        }
        out.push(Cplx { re: sr as i64, im: si as i64 });
        k += 1;
    }
    out
}

} // verus!
