//! Exact 256-bit products of `u128` values, used to compare products of
//! squared correlation magnitudes without rounding.
//!
//! A product `a * b` (with `a, b < 2^126`) is held as a normalized pair
//! `(hi, lo)` with value `hi * 2^126 + lo` and `lo < 2^126`, so products can
//! be compared lexicographically.

use vstd::prelude::*;

use vstd::arithmetic::div_mod::{lemma_fundamental_div_mod, lemma_mod_bound};
use vstd::arithmetic::mul::lemma_mul_inequality;

verus! {

/// `2^63`.
pub const P63: u128 = 0x8000_0000_0000_0000;

/// `2^126`.
pub const P126: u128 = 0x4000_0000_0000_0000_0000_0000_0000_0000;

/// The value represented by a normalized product pair.
pub open spec fn wide_val(hi: u128, lo: u128) -> int {
    hi * P126 + lo
}

/// Exact product of two `u128` values below `2^126`, as a normalized pair.
#[verifier::rlimit(100)]
pub fn wide_mul(a: u128, b: u128) -> (r: (u128, u128))
    requires
        a < P126,
        b < P126,
    ensures
        wide_val(r.0, r.1) == a * b,
        r.1 < P126,
        r.0 < P126,
{
    let ghost av: int = a as int;
    let ghost bv: int = b as int;
    let ghost p63: int = P63 as int;
    let ghost p126: int = P126 as int;
    proof {
        assert(p126 == p63 * p63) by (nonlinear_arith)
            requires
                p63 == 0x8000_0000_0000_0000,
                p126 == 0x4000_0000_0000_0000_0000_0000_0000_0000,
        ;
    }
    let a1 = a / P63;
    let a0 = a % P63;
    let b1 = b / P63;
    let b0 = b % P63;
    let ghost a1v: int = a1 as int;
    let ghost a0v: int = a0 as int;
    let ghost b1v: int = b1 as int;
    let ghost b0v: int = b0 as int;
    proof {
        lemma_fundamental_div_mod(av, p63);
        lemma_fundamental_div_mod(bv, p63);
        lemma_mod_bound(av, p63);
        lemma_mod_bound(bv, p63);
        assert(a1v < p63) by (nonlinear_arith)
            requires
                av == p63 * a1v + a0v,
                0 <= a0v,
                0 <= a1v,
                av < p126,
                p126 == p63 * p63,
                p63 > 0,
        ;
        assert(b1v < p63) by (nonlinear_arith)
            requires
                bv == p63 * b1v + b0v,
                0 <= b0v,
                0 <= b1v,
                bv < p126,
                p126 == p63 * p63,
                p63 > 0,
        ;
        assert(0 <= a1v * b1v < p126 && 0 <= a1v * b0v < p126 && 0 <= a0v * b1v < p126 && 0 <= a0v
            * b0v < p126) by (nonlinear_arith)
            requires
                0 <= a1v < p63,
                0 <= a0v < p63,
                0 <= b1v < p63,
                0 <= b0v < p63,
                p126 == p63 * p63,
        ;
    }
    let p11 = a1 * b1;
    let mid = a1 * b0 + a0 * b1;
    let p00 = a0 * b0;
    let m1 = mid / P63;
    let m0 = mid % P63;
    let ghost midv: int = mid as int;
    let ghost m1v: int = m1 as int;
    let ghost m0v: int = m0 as int;
    proof {
        lemma_fundamental_div_mod(midv, p63);
        lemma_mod_bound(midv, p63);
        assert(0 <= m0v * p63 < p126) by (nonlinear_arith)
            requires
                0 <= m0v < p63,
                p126 == p63 * p63,
                p63 > 0,
        ;
    }
    let lo_acc = m0 * P63 + p00;
    let la1 = lo_acc / P126;
    let la0 = lo_acc % P126;
    let ghost lav: int = lo_acc as int;
    let ghost la1v: int = la1 as int;
    let ghost la0v: int = la0 as int;
    proof {
        lemma_fundamental_div_mod(lav, p126);
        lemma_mod_bound(lav, p126);
        assert(lav < 2 * p126);
        assert(la1v <= 1) by (nonlinear_arith)
            requires
                lav == p126 * la1v + la0v,
                0 <= la0v,
                0 <= la1v,
                lav < 2 * p126,
                p126 > 0,
        ;
    }
    let hi = p11 + m1 + la1;
    proof {
        // The full 256-bit identity `a * b == hi * 2^126 + lo`, in steps.
        assert((p63 * a1v + a0v) * (p63 * b1v + b0v) == (p63 * a1v) * (p63 * b1v) + (p63 * a1v)
            * b0v + a0v * (p63 * b1v) + a0v * b0v) by (nonlinear_arith);
        assert((p63 * a1v) * (p63 * b1v) == p63 * p63 * (a1v * b1v)) by (nonlinear_arith);
        assert((p63 * a1v) * b0v == p63 * (a1v * b0v)) by (nonlinear_arith);
        assert(a0v * (p63 * b1v) == p63 * (a0v * b1v)) by (nonlinear_arith);
        assert(p63 * (a1v * b0v) + p63 * (a0v * b1v) == p63 * (a1v * b0v + a0v * b1v))
            by (nonlinear_arith);
        assert((p63 * a1v + a0v) * (p63 * b1v + b0v) == p63 * p63 * (a1v * b1v) + p63 * (a1v * b0v
            + a0v * b1v) + a0v * b0v);
        assert(p63 * midv == p63 * (p63 * m1v + m0v)) by (nonlinear_arith)
            requires
                midv == p63 * m1v + m0v,
        ;
        assert(p63 * (p63 * m1v + m0v) == p126 * m1v + p63 * m0v) by (nonlinear_arith)
            requires
                p126 == p63 * p63,
        ;
        assert(p63 * m0v == m0v * p63) by (nonlinear_arith);
        assert(av * bv == p126 * (a1v * b1v) + p126 * m1v + lav);
        assert(av * bv == p126 * (a1v * b1v) + p126 * m1v + p126 * la1v + la0v);
        assert(p126 * (a1v * b1v) + p126 * m1v + p126 * la1v == (a1v * b1v + m1v + la1v) * p126)
            by (nonlinear_arith);
        assert(av * bv == (p11 as int + m1v + la1v) * p126 + la0v);
        // `hi` stays below 2^126 because the product does.
        assert(av * bv < p126 * p126) by (nonlinear_arith)
            requires
                0 <= av < p126,
                0 <= bv < p126,
        ;
        assert(p11 as int + m1v + la1v < p126) by (nonlinear_arith)
            requires
                av * bv == (p11 as int + m1v + la1v) * p126 + la0v,
                0 <= la0v,
                0 <= p11 as int + m1v + la1v,
                p126 > 0,
                av * bv < p126 * p126,
        ;
    }
    (hi, la0)
}

/// Lexicographic comparison of normalized pairs decides the represented
/// values.
pub proof fn lemma_wide_cmp(h1: u128, l1: u128, h2: u128, l2: u128)
    requires
        l1 < P126,
        l2 < P126,
    ensures
        (wide_val(h1, l1) > wide_val(h2, l2)) <==> (h1 > h2 || (h1 == h2 && l1 > l2)),
{
    let h1v: int = h1 as int;
    let h2v: int = h2 as int;
    let p126: int = P126 as int;
    if h1 > h2 {
        lemma_mul_inequality(h2v + 1, h1v, p126);
        assert((h2v + 1) * p126 == h2v * p126 + p126) by (nonlinear_arith);
    } else if h1 < h2 {
        lemma_mul_inequality(h1v + 1, h2v, p126);
        assert((h1v + 1) * p126 == h1v * p126 + p126) by (nonlinear_arith);
    }
}

/// `h1 * 2^126 + l1 > h2 * 2^126 + l2`, exactly.
pub fn wide_gt(h1: u128, l1: u128, h2: u128, l2: u128) -> (r: bool)
    requires
        l1 < P126,
        l2 < P126,
    ensures
        r == (wide_val(h1, l1) > wide_val(h2, l2)),
{
    proof {
        lemma_wide_cmp(h1, l1, h2, l2);
    }
    h1 > h2 || (h1 == h2 && l1 > l2)
}

} // verus!
