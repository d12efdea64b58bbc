//! Verified fixed-point trigonometry.
//!
//! Angles are radians scaled by `ANGLE_SCALE` (2^26); sines and cosines are
//! scaled by `PH_SCALE` (2^30).  `cos_sin` reduces its argument by quadrant
//! symmetry and evaluates a truncated Taylor series in nested form whose
//! intermediate values are all provably nonnegative; `atan2_scaled` reduces
//! by octant and the tangent half-angle identity.  Every function's result
//! equals its spec-function mirror exactly.

use vstd::prelude::*;

use vstd::arithmetic::div_mod::{lemma_fundamental_div_mod, lemma_mod_bound};
use vstd::arithmetic::mul::lemma_mul_upper_bound;

verus! {

/// `2 * pi`, `pi`, `pi / 2` and `pi / 4` scaled by `ANGLE_SCALE`.
pub const TWO_PI_SC: i64 = 421657428;

pub const PI_SC: i64 = 210828714;

pub const HALF_PI_SC: i64 = 105414357;

pub const QPI_SC: i64 = 52707179;

/// `PH_SCALE` as the working scale of the polynomial stages.
pub const ONE30: u64 = 1073741824;

/// `ANGLE_SCALE` and `ANGLE_SCALE / 2` as ratio scales.
pub const ONE26: u64 = 67108864;

pub const HALF26: u64 = 33554432;

/// Largest polynomial argument (`pi / 4` at scale 2^30, rounded up).
pub const POLY_ARG_MAX: u64 = 843314865;

/// `0 <= x / d <= b` whenever `0 <= x <= b * d` and `d >= 1`.
pub proof fn lemma_udiv_bound(x: int, d: int, b: int)
    requires
        0 <= x,
        1 <= d,
        0 <= b,
        x <= b * d,
    ensures
        0 <= x / d <= b,
{
    lemma_fundamental_div_mod(x, d);
    lemma_mod_bound(x, d);
    assert(0 <= x / d && x / d <= b) by (nonlinear_arith)
        requires
            x == d * (x / d) + x % d,
            0 <= x % d,
            0 <= x,
            1 <= d,
            0 <= b,
            x <= b * d,
    ;
}

/// `(a * b) / 2^30`, exactly.
fn muldiv_one(a: u64, b: u64) -> (r: u64)
    requires
        a * b <= u64::MAX,
    ensures
        r == (a * b) / (ONE30 as int),
{
    (a * b) / 1073741824u64
}

/// Nested Taylor form of `sin(x / 2^30) * 2^30` for `0 <= x <= pi/4 * 2^30`:
/// `x * (1 - x^2/6 * (1 - x^2/20 * (1 - x^2/42 * (1 - x^2/72))))`.
pub open spec fn sin_poly_spec(x: int) -> int {
    let x2 = (x * x) / (ONE30 as int);
    let b3 = ONE30 - x2 / 72;
    let b2 = ONE30 - ((x2 * b3) / (ONE30 as int)) / 42;
    let b1 = ONE30 - ((x2 * b2) / (ONE30 as int)) / 20;
    let b0 = ONE30 - ((x2 * b1) / (ONE30 as int)) / 6;
    (x * b0) / (ONE30 as int)
}

/// Nested Taylor form of `cos(x / 2^30) * 2^30` for `0 <= x <= pi/4 * 2^30`:
/// `1 - x^2/2 * (1 - x^2/12 * (1 - x^2/30 * (1 - x^2/56)))`.
pub open spec fn cos_poly_spec(x: int) -> int {
    let x2 = (x * x) / (ONE30 as int);
    let b3 = ONE30 - x2 / 56;
    let b2 = ONE30 - ((x2 * b3) / (ONE30 as int)) / 30;
    let b1 = ONE30 - ((x2 * b2) / (ONE30 as int)) / 12;
    ONE30 - ((x2 * b1) / (ONE30 as int)) / 2
}

/// Shared head of both polynomials: `x2 = x^2 / 2^30`, with its bounds.
fn poly_square(x: u64) -> (x2: u64)
    requires
        x <= POLY_ARG_MAX,
    ensures
        x2 == (x * x) / (ONE30 as int),
        x2 <= POLY_ARG_MAX,
{
    proof {
        lemma_mul_upper_bound(x as int, POLY_ARG_MAX as int, x as int, POLY_ARG_MAX as int);
        lemma_udiv_bound(x as int * x as int, ONE30 as int, POLY_ARG_MAX as int);
        assert(x as int * (x as int) <= POLY_ARG_MAX as int * ONE30 as int) by (nonlinear_arith)
            requires
                0 <= (x as int) <= POLY_ARG_MAX as int,
                POLY_ARG_MAX < ONE30,
        ;
    }
    muldiv_one(x, x)
}

/// One nested step: `ONE30 - ((x2 * b) / 2^30) / d`, with range facts.
fn poly_step(x2: u64, b: u64, d: u64) -> (r: u64)
    requires
        x2 <= POLY_ARG_MAX,
        b <= ONE30,
        1 <= d,
        POLY_ARG_MAX < d * ONE30,
    ensures
        r == ONE30 - ((x2 * b) / (ONE30 as int)) / (d as int),
        r <= ONE30,
{
    proof {
        lemma_mul_upper_bound(x2 as int, POLY_ARG_MAX as int, b as int, ONE30 as int);
        lemma_udiv_bound(x2 as int * b as int, ONE30 as int, POLY_ARG_MAX as int);
        lemma_udiv_bound((x2 as int * b as int) / (ONE30 as int), d as int, POLY_ARG_MAX as int);
        assert(((x2 as int * b as int) / (ONE30 as int)) / (d as int) < ONE30) by {
            lemma_udiv_bound(x2 as int * b as int, ONE30 as int, POLY_ARG_MAX as int);
            assert((POLY_ARG_MAX as int) <= (ONE30 - 1) * (d as int)) by (nonlinear_arith)
                requires
                    (POLY_ARG_MAX as int) < (d as int) * (ONE30 as int),
                    1 <= d as int,
            ;
            lemma_udiv_bound((x2 as int * b as int) / (ONE30 as int), d as int, ONE30 as int - 1);
        }
    }
    let q = muldiv_one(x2, b) / d;
    1073741824u64 - q
}

fn sin_poly(x: u64) -> (s: u64)
    requires
        x <= POLY_ARG_MAX,
    ensures
        s == sin_poly_spec(x as int),
        s <= x,
{
    let x2 = poly_square(x);
    let b3 = poly_step(x2, 1073741824u64, 72);
    let b2 = poly_step(x2, b3, 42);
    let b1 = poly_step(x2, b2, 20);
    let b0 = poly_step(x2, b1, 6);
    proof {
        lemma_mul_upper_bound(x as int, x as int, b0 as int, ONE30 as int);
        lemma_udiv_bound(x as int * b0 as int, ONE30 as int, x as int);
        lemma_mul_upper_bound(x as int, POLY_ARG_MAX as int, b0 as int, ONE30 as int);
    }
    muldiv_one(x, b0)
}

fn cos_poly(x: u64) -> (c: u64)
    requires
        x <= POLY_ARG_MAX,
    ensures
        c == cos_poly_spec(x as int),
        c <= ONE30,
{
    let x2 = poly_square(x);
    let b3 = poly_step(x2, 1073741824u64, 56);
    let b2 = poly_step(x2, b3, 30);
    let b1 = poly_step(x2, b2, 12);
    poly_step(x2, b1, 2)
}

/// Cosine and sine on the first quadrant (`0 <= t <= pi/2`, angle scale
/// 2^26), by the co-function identity around `pi/4`.
pub open spec fn cos_sin_quarter_spec(t: int) -> (int, int) {
    if t <= QPI_SC {
        (cos_poly_spec(16 * t), sin_poly_spec(16 * t))
    } else {
        (sin_poly_spec(16 * (HALF_PI_SC - t)), cos_poly_spec(16 * (HALF_PI_SC - t)))
    }
}

fn cos_sin_quarter(t: u64) -> (p: (i64, i64))
    requires
        t <= HALF_PI_SC,
    ensures
        p.0 == cos_sin_quarter_spec(t as int).0,
        p.1 == cos_sin_quarter_spec(t as int).1,
        0 <= p.0 <= ONE30,
        0 <= p.1 <= ONE30,
{
    if t <= 52707179u64 {
        let x = 16 * t;
        let c = cos_poly(x);
        let s = sin_poly(x);
        (c as i64, s as i64)
    } else {
        let u = 105414357u64 - t;
        let x = 16 * u;
        let c = sin_poly(x);
        let s = cos_poly(x);
        (c as i64, s as i64)
    }
}

/// Cosine and sine for a nonnegative reduced angle `0 <= r < 2 * pi`
/// (angle scale 2^26), by quadrant symmetry.
pub open spec fn cos_sin_pos_spec(r: int) -> (int, int) {
    if r < HALF_PI_SC {
        cos_sin_quarter_spec(r)
    } else if r < PI_SC {
        let p = cos_sin_quarter_spec(PI_SC - r);
        (-p.0, p.1)
    } else if r < PI_SC + HALF_PI_SC {
        let p = cos_sin_quarter_spec(r - PI_SC);
        (-p.0, -p.1)
    } else {
        let p = cos_sin_quarter_spec(TWO_PI_SC - r);
        (p.0, -p.1)
    }
}

/// `(cos a, sin a) * PH_SCALE` for an angle `a` in `ANGLE_SCALE` units.
pub open spec fn cos_sin_spec(a: int) -> (int, int) {
    if a >= 0 {
        cos_sin_pos_spec(a % (TWO_PI_SC as int))
    } else {
        let p = cos_sin_pos_spec((-a) % (TWO_PI_SC as int));
        (p.0, -p.1)
    }
}

/// Compute `(cos a, sin a)` scaled by `PH_SCALE`, for any angle whose
/// magnitude stays below `2^62`.
pub fn cos_sin(a: i64) -> (p: (i64, i64))
    requires
        -0x4000_0000_0000_0000 <= a <= 0x4000_0000_0000_0000,
    ensures
        p.0 == cos_sin_spec(a as int).0,
        p.1 == cos_sin_spec(a as int).1,
        -ONE30 <= p.0 <= ONE30,
        -ONE30 <= p.1 <= ONE30,
{
    if a >= 0 {
        let r = (a as u64) % 421657428u64;
        proof {
            lemma_mod_bound(a as int, TWO_PI_SC as int);
        }
        cos_sin_reduced(r)
    } else {
        let m = (-a) as u64;
        let r = m % 421657428u64;
        proof {
            lemma_mod_bound(m as int, TWO_PI_SC as int);
        }
        let p = cos_sin_reduced(r);
        (p.0, -p.1)
    }
}

/// Quadrant dispatch for a reduced angle.
fn cos_sin_reduced(r: u64) -> (p: (i64, i64))
    requires
        r < TWO_PI_SC,
    ensures
        p.0 == cos_sin_pos_spec(r as int).0,
        p.1 == cos_sin_pos_spec(r as int).1,
        -ONE30 <= p.0 <= ONE30,
        -ONE30 <= p.1 <= ONE30,
{
    if r < 105414357u64 {
        cos_sin_quarter(r)
    } else if r < 210828714u64 {
        let p = cos_sin_quarter(210828714u64 - r);
        (-p.0, p.1)
    } else if r < 316243071u64 {
        let p = cos_sin_quarter(r - 210828714u64);
        (-p.0, -p.1)
    } else {
        let p = cos_sin_quarter(421657428u64 - r);
        (p.0, -p.1)
    }
}

/// Opposite angles give conjugate phasors: rotating by `a` and then by
/// `-a` multiplies by a phasor and by its conjugate, which is what makes
/// CFO correction invertible.
pub proof fn lemma_phasor_conjugate(a: int)
    ensures
        cos_sin_spec(-a).0 == cos_sin_spec(a).0,
        cos_sin_spec(-a).1 == -cos_sin_spec(a).1,
{
    if a == 0 {
        // `sin 0 == 0`: every stage of the polynomial collapses to zero.
        lemma_udiv_bound(0, TWO_PI_SC as int, 0);
        lemma_udiv_bound(0, ONE30 as int, 0);
        lemma_udiv_bound(0, 6, 0);
        assert(0int % (TWO_PI_SC as int) == 0) by {
            vstd::arithmetic::div_mod::lemma_fundamental_div_mod(0, TWO_PI_SC as int);
            vstd::arithmetic::div_mod::lemma_mod_bound(0, TWO_PI_SC as int);
            assert(0int / (TWO_PI_SC as int) == 0);
        }
        assert(cos_sin_spec(0).1 == sin_poly_spec(0));
        assert(sin_poly_spec(0) == 0) by {
            let one: int = ONE30 as int;
            assert((0 * 0) as int / one == 0);
            let x2: int = 0;
            let b3 = ONE30 - x2 / 72;
            let b2 = ONE30 - ((x2 * b3) / one) / 42;
            let b1 = ONE30 - ((x2 * b2) / one) / 20;
            let b0 = ONE30 - ((x2 * b1) / one) / 6;
            assert((0 * b0) as int / one == 0);
        }
    }
}

/// Magnitude of an integer.
pub open spec fn iabs(x: int) -> int {
    if x < 0 {
        -x
    } else {
        x
    }
}

/// Nested Taylor form of `atan(v / 2^26) * 2^26` for ratios `v <= 1/2`:
/// `z * (1 - z^2*(1/3 - z^2*(1/5 - z^2*(1/7 - z^2*(1/9 - z^2*(1/11 - z^2/13))))))`
/// evaluated at working scale 2^30.
pub open spec fn atan_poly_spec(v: int) -> int {
    let z = 16 * v;
    let z2 = (z * z) / (ONE30 as int);
    let h1 = 97612893 - (z2 * 82595524) / (ONE30 as int);
    let h2 = 119304647 - (z2 * h1) / (ONE30 as int);
    let h3 = 153391689 - (z2 * h2) / (ONE30 as int);
    let h4 = 214748364 - (z2 * h3) / (ONE30 as int);
    let h5 = 357913941 - (z2 * h4) / (ONE30 as int);
    let h6 = ONE30 - (z2 * h5) / (ONE30 as int);
    ((z * h6) / (ONE30 as int)) / 16
}

/// One atan step: `c - (z2 * h) / 2^30` with the range facts needed next.
fn atan_step(z2: u64, h: u64, c: u64) -> (r: u64)
    requires
        z2 <= 268435456,
        h <= 4 * (c as int),
        c <= ONE30,
    ensures
        r == c - (z2 * h) / (ONE30 as int),
        r <= c,
{
    proof {
        lemma_mul_upper_bound(z2 as int, 268435456, h as int, 4 * c as int);
        assert(268435456 * (4 * c as int) == c as int * ONE30 as int) by (nonlinear_arith);
        lemma_udiv_bound(z2 as int * h as int, ONE30 as int, c as int);
    }
    let q = muldiv_one(z2, h);
    c - q
}

fn atan_poly(v: u64) -> (r: u64)
    requires
        v <= HALF26,
    ensures
        r == atan_poly_spec(v as int),
        r <= v,
{
    let z = 16 * v;
    proof {
        lemma_mul_upper_bound(z as int, 536870912, z as int, 536870912);
        lemma_udiv_bound(z as int * z as int, ONE30 as int, 268435456);
        assert(536870912 * 536870912 == 268435456 * (ONE30 as int)) by (nonlinear_arith);
    }
    let z2 = muldiv_one(z, z);
    let h1 = atan_step(z2, 82595524u64, 97612893u64);
    let h2 = atan_step(z2, h1, 119304647u64);
    let h3 = atan_step(z2, h2, 153391689u64);
    let h4 = atan_step(z2, h3, 214748364u64);
    let h5 = atan_step(z2, h4, 357913941u64);
    let h6 = atan_step(z2, h5, 1073741824u64);
    proof {
        lemma_mul_upper_bound(z as int, 536870912, h6 as int, ONE30 as int);
        lemma_mul_upper_bound(z as int, z as int, h6 as int, ONE30 as int);
        lemma_udiv_bound(z as int * h6 as int, ONE30 as int, z as int);
        lemma_udiv_bound((z as int * h6 as int) / (ONE30 as int), 16, v as int);
    }
    let r30 = muldiv_one(z, h6);
    r30 / 16
}

/// `atan(n / d) * 2^26` for `0 <= n <= d`, reduced to the ratio grid and,
/// above one half, through `atan(q) = pi/4 - atan((1 - q) / (1 + q))`.
pub open spec fn atan_ratio_spec(n: int, d: int) -> int {
    let q = (n * ONE26) / d;
    if q <= HALF26 {
        atan_poly_spec(q)
    } else {
        QPI_SC - atan_poly_spec(((ONE26 - q) * ONE26) / (ONE26 + q))
    }
}

fn atan_ratio(n: u128, d: u128) -> (r: u64)
    requires
        n <= d,
        1 <= d,
        d < 0x10_0000_0000_0000_0000_0000_0000,
    ensures
        r == atan_ratio_spec(n as int, d as int),
        r <= QPI_SC,
{
    let num = n * 67108864u128;
    proof {
        lemma_mul_upper_bound(n as int, d as int, ONE26 as int, ONE26 as int);
        assert(n as int * (ONE26 as int) <= d as int * ONE26 as int);
        lemma_udiv_bound(n as int * ONE26 as int, d as int, ONE26 as int);
        assert(ONE26 as int * (d as int) == d as int * ONE26 as int) by (nonlinear_arith);
    }
    let q128 = num / d;
    let q = q128 as u64;
    if q <= 33554432u64 {
        atan_poly(q)
    } else {
        let u = ((67108864u64 - q) * 67108864u64) / (67108864u64 + q);
        proof {
            lemma_mul_upper_bound(ONE26 as int - q as int, HALF26 as int - 1, ONE26 as int, ONE26 as int);
            lemma_udiv_bound(
                (ONE26 as int - q as int) * ONE26 as int,
                ONE26 as int + q as int,
                HALF26 as int - 1,
            );
            assert((HALF26 as int - 1) * (ONE26 as int + q as int) >= (HALF26 as int - 1) * (ONE26 as int))
                by (nonlinear_arith)
                requires
                    (q as int) >= 0,
                    HALF26 as int - 1 >= 0,
            ;
            assert((HALF26 as int - 1) * (ONE26 as int) >= (ONE26 as int - q as int) * (ONE26 as int))
                by (nonlinear_arith)
                requires
                    ONE26 as int - (q as int) <= HALF26 as int - 1,
            ;
        }
        let t = atan_poly(u);
        52707179u64 - t
    }
}

/// `atan2(y, x) * ANGLE_SCALE`: the argument of the complex number
/// `x + j y`, in `(-pi, pi]` scaled by 2^26, with `atan2(0, 0) == 0`.
pub open spec fn atan2_spec(y: int, x: int) -> int {
    let ys = iabs(y);
    let xs = iabs(x);
    let base = if ys <= xs {
        if xs == 0 {
            0
        } else {
            atan_ratio_spec(ys, xs)
        }
    } else {
        HALF_PI_SC - atan_ratio_spec(xs, ys)
    };
    if x >= 0 {
        if y >= 0 {
            base
        } else {
            -base
        }
    } else {
        if y >= 0 {
            PI_SC - base
        } else {
            -(PI_SC - base)
        }
    }
}

/// Compute `atan2(y, x)` in `ANGLE_SCALE` units for wide fixed-point inputs
/// (correlation sums).  The result lies in `[-PI_SC, PI_SC]`.
pub fn atan2_scaled(y: i128, x: i128) -> (r: i64)
    requires
        -0x8_0000_0000_0000_0000_0000_0000 <= y <= 0x8_0000_0000_0000_0000_0000_0000,
        -0x8_0000_0000_0000_0000_0000_0000 <= x <= 0x8_0000_0000_0000_0000_0000_0000,
    ensures
        r == atan2_spec(y as int, x as int),
        -PI_SC <= r <= PI_SC,
{
    let ys: u128 = if y < 0 {
        (-y) as u128
    } else {
        y as u128
    };
    let xs: u128 = if x < 0 {
        (-x) as u128
    } else {
        x as u128
    };
    let base: u64 = if ys <= xs {
        if xs == 0 {
            0
        } else {
            atan_ratio(ys, xs)
        }
    } else {
        105414357u64 - atan_ratio(xs, ys)
    };
    let b = base as i64;
    if x >= 0 {
        if y >= 0 {
            b
        } else {
            -b
        }
    } else {
        if y >= 0 {
            210828714i64 - b
        } else {
            -(210828714i64 - b)
        }
    }
}

} // verus!
