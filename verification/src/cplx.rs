//! Fixed-point complex samples and their mathematical model.
//!
//! A real value `x` is represented by the integer `round(x * SAMP_SCALE)`.
//! All contracts are stated over `CplxI`, the ideal (unbounded-integer)
//! image of a sample, reached through the `View` of `Cplx`.

use vstd::prelude::*;

verus! {

/// Fixed-point scale of sample components: one real unit.
pub const SAMP_SCALE: i64 = 16777216;

/// Largest component magnitude of a well-formed sample (4 real units).
pub const AMP_MAX: i64 = 67108864;

/// Fixed-point scale of angles: `ANGLE_SCALE` units per radian.
pub const ANGLE_SCALE: i64 = 67108864;

/// Fixed-point scale of unit phasors (cosine/sine values).
pub const PH_SCALE: i64 = 1073741824;

/// A complex baseband sample in fixed point.
#[derive(Clone, Copy, PartialEq, Eq, Structural, Debug)]
pub struct Cplx {
    pub re: i64,
    pub im: i64,
}

/// The mathematical image of a sample: a pair of unbounded integers.
pub ghost struct CplxI {
    pub re: int,
    pub im: int,
}

impl View for Cplx {
    type V = CplxI;

    open spec fn view(&self) -> CplxI {
        CplxI { re: self.re as int, im: self.im as int }
    }
}

impl Cplx {
    /// A well-formed sample: both components within `AMP_MAX`.
    pub open spec fn valid(self) -> bool {
        -AMP_MAX <= self.re <= AMP_MAX && -AMP_MAX <= self.im <= AMP_MAX
    }

}

/// Every sample in the sequence is well-formed.
pub open spec fn all_valid(s: Seq<Cplx>) -> bool {
    forall|i: int| 0 <= i < s.len() ==> (#[trigger] s[i]).valid()
}

pub open spec fn cx_zero() -> CplxI {
    CplxI { re: 0, im: 0 }
}

pub open spec fn cx_add(a: CplxI, b: CplxI) -> CplxI {
    CplxI { re: a.re + b.re, im: a.im + b.im }
}

/// `conj(a) * b`: the delay-and-correlate product used by every estimator.
pub open spec fn cx_conj_mul(a: CplxI, b: CplxI) -> CplxI {
    CplxI { re: a.re * b.re + a.im * b.im, im: a.re * b.im - a.im * b.re }
}

pub open spec fn cx_mul(a: CplxI, b: CplxI) -> CplxI {
    CplxI { re: a.re * b.re - a.im * b.im, im: a.re * b.im + a.im * b.re }
}

/// Squared magnitude `|a|^2`.
pub open spec fn cx_nsq(a: CplxI) -> int {
    a.re * a.re + a.im * a.im
}

/// Component magnitudes of `a` bounded by `m`.
pub open spec fn cx_bounded(a: CplxI, m: int) -> bool {
    -m <= a.re <= m && -m <= a.im <= m
}

/// Component magnitudes of every sample bounded by `m`.
pub open spec fn seq_bounded(s: Seq<Cplx>, m: int) -> bool {
    forall|i: int| 0 <= i < s.len() ==> cx_bounded(#[trigger] s[i]@, m)
}

/// A well-formed sequence is bounded by `AMP_MAX`.
pub proof fn lemma_all_valid_bounded(s: Seq<Cplx>)
    requires
        all_valid(s),
    ensures
        seq_bounded(s, AMP_MAX as int),
{
    assert forall|i: int| 0 <= i < s.len() implies cx_bounded(#[trigger] s[i]@, AMP_MAX as int) by {
        assert(s[i].valid());
    }
}

/// Division truncating toward zero (the semantics of hardware division),
/// defined for positive divisors.
pub open spec fn div_trunc(x: int, d: int) -> int {
    if x >= 0 {
        x / d
    } else {
        -((-x) / d)
    }
}

/// `|a * b| <= aa * bb` whenever `|a| <= aa` and `|b| <= bb`.
pub proof fn lemma_mul_bound(a: int, b: int, aa: int, bb: int)
    requires
        -aa <= a <= aa,
        -bb <= b <= bb,
    ensures
        -(aa * bb) <= a * b <= aa * bb,
{
    assert(-(aa * bb) <= a * b <= aa * bb) by (nonlinear_arith)
        requires
            -aa <= a <= aa,
            -bb <= b <= bb,
    ;
}

/// Truncating division shrinks magnitudes: `|div_trunc(x, d)| <= |x| / d <= bound` given `|x| <= bound * d`.
pub proof fn lemma_div_trunc_bound(x: int, d: int, bound: int)
    requires
        d > 0,
        bound >= 0,
        -(bound * d) <= x <= bound * d,
    ensures
        -bound <= div_trunc(x, d) <= bound,
{
    if x >= 0 {
        assert(x / d <= bound) by (nonlinear_arith)
            requires
                d > 0,
                0 <= x <= bound * d,
        ;
        assert(x / d >= 0) by (nonlinear_arith)
            requires
                d > 0,
                x >= 0,
        ;
    } else {
        assert((-x) / d <= bound) by (nonlinear_arith)
            requires
                d > 0,
                0 <= -x <= bound * d,
        ;
        assert((-x) / d >= 0) by (nonlinear_arith)
            requires
                d > 0,
                -x >= 0,
        ;
    }
}

/// Truncating division of an `i128` by a positive divisor.
pub fn div_trunc_i128(x: i128, d: i128) -> (r: i128)
    requires
        d > 0,
        x > i128::MIN,
    ensures
        r == div_trunc(x as int, d as int),
        -(if x >= 0 { x as int } else { -(x as int) }) <= r
            <= (if x >= 0 { x as int } else { -(x as int) }),
{
    if x >= 0 {
        let q: u128 = (x as u128) / (d as u128);
        proof {
            assert(x as u128 as int == x as int);
            assert((x as int) / (d as int) <= x as int) by (nonlinear_arith)
                requires
                    d as int > 0,
                    x as int >= 0,
            ;
            assert((x as int) / (d as int) >= 0) by (nonlinear_arith)
                requires
                    d as int > 0,
                    x as int >= 0,
            ;
        }
        q as i128
    } else {
        let m: i128 = -x;
        let q: u128 = (m as u128) / (d as u128);
        proof {
            assert(m as u128 as int == m as int);
            assert((m as int) / (d as int) <= m as int) by (nonlinear_arith)
                requires
                    d as int > 0,
                    m as int >= 0,
            ;
            assert((m as int) / (d as int) >= 0) by (nonlinear_arith)
                requires
                    d as int > 0,
                    m as int >= 0,
            ;
        }
        -(q as i128)
    }
}

/// `conj(a) * b` in wide arithmetic; exact for all well-formed inputs.
pub fn conj_mul_wide(a: Cplx, b: Cplx) -> (r: (i128, i128))
    requires
        a.valid(),
        b.valid(),
    ensures
        r.0 == cx_conj_mul(a@, b@).re,
        r.1 == cx_conj_mul(a@, b@).im,
        -0x20_0000_0000_0000 <= r.0 <= 0x20_0000_0000_0000,
        -0x20_0000_0000_0000 <= r.1 <= 0x20_0000_0000_0000,
{
    proof {
        lemma_mul_bound(a.re as int, b.re as int, AMP_MAX as int, AMP_MAX as int);
        lemma_mul_bound(a.im as int, b.im as int, AMP_MAX as int, AMP_MAX as int);
        lemma_mul_bound(a.re as int, b.im as int, AMP_MAX as int, AMP_MAX as int);
        lemma_mul_bound(a.im as int, b.re as int, AMP_MAX as int, AMP_MAX as int);
    }
    let ar = a.re as i128;
    let ai = a.im as i128;
    let br = b.re as i128;
    let bi = b.im as i128;
    (ar * br + ai * bi, ar * bi - ai * br)
}

/// `|a|^2` of a well-formed sample; always fits comfortably in `i64`.
pub fn energy(a: Cplx) -> (e: i64)
    requires
        a.valid(),
    ensures
        e == cx_nsq(a@),
        0 <= e <= 0x20_0000_0000_0000,
{
    proof {
        lemma_mul_bound(a.re as int, a.re as int, AMP_MAX as int, AMP_MAX as int);
        lemma_mul_bound(a.im as int, a.im as int, AMP_MAX as int, AMP_MAX as int);
        assert(a.re as int * a.re as int >= 0) by (nonlinear_arith);
        assert(a.im as int * a.im as int >= 0) by (nonlinear_arith);
    }
    a.re * a.re + a.im * a.im
}

/// Copy the samples in `[from, to)` into a fresh vector.
pub fn copy_range(v: &Vec<Cplx>, from: usize, to: usize) -> (out: Vec<Cplx>)
    requires
        from <= to <= v@.len(),
    ensures
        out@ == v@.subrange(from as int, to as int),
{
    let mut out: Vec<Cplx> = Vec::new();
    let mut i: usize = from;
    while i < to
        invariant
            from <= i <= to <= v@.len(),
            out@ == v@.subrange(from as int, i as int),
        decreases to - i,
    {
        out.push(v[i]);
        proof {
            assert(out@ =~= v@.subrange(from as int, i + 1 as int));
        }
        i += 1;
    }
    out
}

} // verus!
