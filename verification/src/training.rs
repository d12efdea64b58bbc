//! The training-sequence file format.
//!
//! A training file is text: one decimal number per line (an optional minus
//! sign, digits, an optional fraction, an optional exponent such as
//! `1.56e-1`), blank lines ignored.
//! Even-indexed values are real parts, odd-indexed ones imaginary parts, so
//! the number of values must be even.  Values are converted to fixed point
//! at `SAMP_SCALE`, rounding half away from zero, and must lie within the
//! sample range (`AMP_MAX`).

use vstd::prelude::*;

use crate::cplx::{all_valid, Cplx, AMP_MAX, SAMP_SCALE};

verus! {

/// Why a training file was rejected.
#[derive(Clone, Copy, PartialEq, Eq, Structural, Debug)]
pub enum TrainingParseError {
    /// Some non-blank line is not a plain decimal in range.
    BadNumber,
    /// The file holds an odd number of values.
    OddValueCount,
}

pub open spec fn is_digit(b: u8) -> bool {
    48 <= b <= 57
}

pub open spec fn all_digits(s: Seq<u8>) -> bool {
    forall|i: int| 0 <= i < s.len() ==> is_digit(#[trigger] s[i])
}

/// The integer named by a digit string, most significant digit first.
pub open spec fn digits_val(s: Seq<u8>) -> int
    decreases s.len(),
{
    if s.len() == 0 {
        0
    } else {
        10 * digits_val(s.drop_last()) + (s.last() - 48)
    }
}

/// `10^n`.
pub open spec fn pow10(n: nat) -> int
    decreases n,
{
    if n == 0 {
        1
    } else {
        10 * pow10((n - 1) as nat)
    }
}

/// The first position of `b` in `s` (or the length if it never occurs).
pub open spec fn first_byte(s: Seq<u8>, b: u8) -> int
    decreases s.len(),
{
    if s.len() == 0 {
        0
    } else if s[0] == b {
        0
    } else {
        1 + first_byte(s.skip(1), b)
    }
}

/// `first_byte` lies between zero and the length.
pub proof fn lemma_first_byte_range(s: Seq<u8>, b: u8)
    ensures
        0 <= first_byte(s, b) <= s.len(),
    decreases s.len(),
{
    if s.len() > 0 && s[0] != b {
        lemma_first_byte_range(s.skip(1), b);
    }
}

/// `first_byte` is the scan that stops at the first occurrence.
pub proof fn lemma_first_byte_at(s: Seq<u8>, b: u8, i: int)
    requires
        0 <= i <= s.len(),
        forall|j: int| 0 <= j < i ==> s[j] != b,
        i == s.len() || s[i] == b,
    ensures
        first_byte(s, b) == i,
    decreases i,
{
    if s.len() == 0 {
    } else if i == 0 {
    } else {
        assert(s[0] != b);
        lemma_first_byte_at(s.skip(1), b, i - 1);
    }
}

/// An exponent marker.
pub open spec fn is_exp_mark(b: u8) -> bool {
    b == 101 || b == 69
}

/// The first position of an exponent marker (or the length).
pub open spec fn first_exp(s: Seq<u8>) -> int
    decreases s.len(),
{
    if s.len() == 0 {
        0
    } else if is_exp_mark(s[0]) {
        0
    } else {
        1 + first_exp(s.skip(1))
    }
}

/// `first_exp` is the scan that stops at the first marker.
pub proof fn lemma_first_exp_at(s: Seq<u8>, i: int)
    requires
        0 <= i <= s.len(),
        forall|j: int| 0 <= j < i ==> !is_exp_mark(s[j]),
        i == s.len() || is_exp_mark(s[i]),
    ensures
        first_exp(s) == i,
    decreases i,
{
    if s.len() == 0 {
    } else if i == 0 {
    } else {
        assert(!is_exp_mark(s[0]));
        lemma_first_exp_at(s.skip(1), i - 1);
    }
}

/// A decimal mantissa `m` with a net power-of-ten shift, at `SAMP_SCALE`,
/// rounded half away from zero for downward shifts.
pub open spec fn scaled_value(m: int, shift: int) -> int {
    if shift >= 0 {
        m * pow10(shift as nat) * SAMP_SCALE
    } else {
        let d = pow10((-shift) as nat);
        (m * SAMP_SCALE + d / 2) / d
    }
}

/// The value of one non-blank line, already split around the sign: `None`
/// unless the body is digits with at most one dot and an optional exponent
/// (`e` or `E`, an optional sign, one to three digits), at most 24 mantissa
/// digits, at least one of them, and a scaled magnitude within the sample
/// range.  The value is the mantissa shifted by the exponent minus the
/// number of fraction digits, at scale `SAMP_SCALE`.
pub open spec fn parse_body(body: Seq<u8>) -> Option<int> {
    let ep = first_exp(body);
    let mant = body.subrange(0, ep);
    let dp = first_byte(mant, 46);
    let ip = mant.subrange(0, dp);
    let fp = if dp < mant.len() {
        mant.subrange(dp + 1, mant.len() as int)
    } else {
        Seq::empty()
    };
    let etail = if ep < body.len() {
        body.subrange(ep + 1, body.len() as int)
    } else {
        Seq::empty()
    };
    let esigned = etail.len() > 0 && (etail[0] == 45 || etail[0] == 43);
    let eds = if esigned {
        etail.skip(1)
    } else {
        etail
    };
    if ip.len() + fp.len() < 1 || ip.len() + fp.len() > 24 || !all_digits(ip) || !all_digits(fp) {
        None
    } else if ep < body.len() && (eds.len() < 1 || eds.len() > 3 || !all_digits(eds)) {
        None
    } else {
        let ex = if ep < body.len() {
            if esigned && etail[0] == 45 {
                -digits_val(eds)
            } else {
                digits_val(eds)
            }
        } else {
            0
        };
        let v = scaled_value(digits_val(ip + fp), ex - fp.len());
        if v > AMP_MAX {
            None
        } else {
            Some(v)
        }
    }
}

/// The scaled value of one non-blank line.
pub open spec fn parse_line(line: Seq<u8>) -> Option<int> {
    if line.len() > 0 && line[0] == 45 {
        match parse_body(line.skip(1)) {
            Some(v) => Some(-v),
            None => None,
        }
    } else {
        parse_body(line)
    }
}

/// The lines of a text: separated by newline bytes, separators dropped.
pub open spec fn split_lines(s: Seq<u8>) -> Seq<Seq<u8>>
    decreases s.len(),
    via split_lines_decreases
{
    let n = first_byte(s, 10);
    if n >= s.len() {
        seq![s]
    } else {
        seq![s.subrange(0, n)] + split_lines(s.skip(n + 1))
    }
}

#[via_fn]
proof fn split_lines_decreases(s: Seq<u8>) {
    lemma_first_byte_range(s, 10);
}

/// The non-blank lines.
pub open spec fn kept_lines(lines: Seq<Seq<u8>>) -> Seq<Seq<u8>> {
    lines.filter(|l: Seq<u8>| l.len() != 0)
}

/// Every non-blank line parses.
pub open spec fn all_parse(ls: Seq<Seq<u8>>) -> bool {
    forall|i: int| 0 <= i < ls.len() ==> parse_line(#[trigger] ls[i]) is Some
}

/// The values of the non-blank lines, in file order.
pub open spec fn parsed_vals(ls: Seq<Seq<u8>>) -> Seq<i64> {
    Seq::new(ls.len(), |i: int| parse_line(ls[i])->0 as i64)
}

/// Consecutive value pairs as complex samples: even index real, odd
/// imaginary.
pub open spec fn paired(v: Seq<i64>) -> Seq<Cplx> {
    Seq::new((v.len() / 2) as nat, |i: int| Cplx { re: v[2 * i], im: v[2 * i + 1] })
}

/// What a whole training file denotes.
pub open spec fn training_spec(text: Seq<u8>) -> Result<Seq<Cplx>, TrainingParseError> {
    let ls = kept_lines(split_lines(text));
    if !all_parse(ls) {
        Err(TrainingParseError::BadNumber)
    } else if ls.len() % 2 != 0 {
        Err(TrainingParseError::OddValueCount)
    } else {
        Ok(paired(parsed_vals(ls)))
    }
}

/// Parse one line body (the part after any sign): mirror of `parse_body`
/// applied to `line` from `start` on.
#[verifier::rlimit(100)]
fn parse_body_exec(line: &Vec<u8>, start: usize) -> (r: Option<i64>)
    requires
        start <= line@.len(),
    ensures
        r matches Some(v) ==> parse_body(line@.skip(start as int)) == Some(v as int) && 0 <= v
            <= AMP_MAX,
        r is None ==> parse_body(line@.skip(start as int)) is None,
{
    let ghost body: Seq<u8> = line@.skip(start as int);
    let total_n = line.len() - start;
    // Find the exponent marker, if any; the mantissa precedes it.
    let mut ep: usize = 0;
    while ep < total_n && line[start + ep] != 101 && line[start + ep] != 69
        invariant
            0 <= ep <= total_n,
            start + total_n == line@.len(),
            line@.len() <= usize::MAX,
            body == line@.skip(start as int),
            forall|j: int| 0 <= j < ep ==> !is_exp_mark(body[j]),
        decreases total_n - ep,
    {
        ep += 1;
    }
    proof {
        lemma_first_exp_at(body, ep as int);
    }
    let ghost mant: Seq<u8> = body.subrange(0, ep as int);
    // Find the dot within the mantissa, if any.
    let mut dp: usize = 0;
    while dp < ep && line[start + dp] != 46
        invariant
            0 <= dp <= ep <= total_n,
            start + total_n == line@.len(),
            line@.len() <= usize::MAX,
            body == line@.skip(start as int),
            mant == body.subrange(0, ep as int),
            forall|j: int| 0 <= j < dp ==> mant[j] != 46,
        decreases ep - dp,
    {
        proof {
            assert(mant[dp as int] == body[dp as int]);
        }
        dp += 1;
    }
    proof {
        assert(dp < ep ==> mant[dp as int] == body[dp as int] && mant[dp as int] == 46);
        lemma_first_byte_at(mant, 46, dp as int);
    }
    let ghost ip: Seq<u8> = mant.subrange(0, dp as int);
    let ghost fp: Seq<u8> = if dp < ep {
        mant.subrange(dp as int + 1, ep as int)
    } else {
        Seq::empty()
    };
    let n_digits = if dp < ep {
        ep - 1
    } else {
        ep
    };
    if n_digits < 1 || n_digits > 24 {
        return None;
    }
    proof {
        assert(ip.len() + fp.len() == n_digits);
        assert(ip =~= body.subrange(0, dp as int));
        if dp < ep {
            assert(fp =~= body.subrange(dp as int + 1, ep as int));
        }
    }
    // Accumulate the digits of the integer part, then of the fraction.
    let mut m: u128 = 0;
    let mut i: usize = 0;
    while i < dp
        invariant
            0 <= i <= dp <= ep <= total_n,
            start + total_n == line@.len(),
            line@.len() <= usize::MAX,
            body == line@.skip(start as int),
            dp <= 24,
            ep == first_exp(body),
            mant == body.subrange(0, ep as int),
            dp == first_byte(mant, 46),
            ip == mant.subrange(0, dp as int),
            ip == body.subrange(0, dp as int),
            fp == (if dp < ep {
                mant.subrange(dp as int + 1, ep as int)
            } else {
                Seq::<u8>::empty()
            }),
            ip.len() + fp.len() >= 1,
            ip.len() + fp.len() <= 24,
            all_digits(body.subrange(0, i as int)),
            m == digits_val(body.subrange(0, i as int)),
            m <= 0xffff_ffff_ffff_ffff_ffff_ffff,
        decreases dp - i,
    {
        let b = line[start + i];
        proof {
            assert(body[i as int] == b);
        }
        if b < 48 || b > 57 {
            proof {
                assert(ip[i as int] == b);
                assert(!all_digits(ip));
            }
            return None;
        }
        proof {
            assert(body.subrange(0, i + 1 as int).drop_last() =~= body.subrange(0, i as int));
            assert(body.subrange(0, i + 1 as int).last() == b);
            lemma_digits_bound(body.subrange(0, i + 1 as int));
            assert(all_digits(body.subrange(0, i + 1 as int)));
        }
        m = m * 10 + ((b - 48) as u128);
        proof {
            assert(m == digits_val(body.subrange(0, i + 1 as int)));
        }
        i += 1;
    }
    proof {
        assert(body.subrange(0, dp as int) =~= ip);
        assert(all_digits(ip));
    }
    let ghost full: Seq<u8> = ip + fp;
    let mut f_len: usize = 0;
    if dp < ep {
        let mut j: usize = dp + 1;
        while j < ep
            invariant
                dp + 1 <= j <= ep <= total_n,
                start + total_n == line@.len(),
                line@.len() <= usize::MAX,
                body == line@.skip(start as int),
                dp < ep,
                ep - dp - 1 + dp <= 24,
                ep == first_exp(body),
                mant == body.subrange(0, ep as int),
                dp == first_byte(mant, 46),
                ip == mant.subrange(0, dp as int),
                ip == body.subrange(0, dp as int),
                fp == mant.subrange(dp as int + 1, ep as int),
                fp == body.subrange(dp as int + 1, ep as int),
                full == ip + fp,
                all_digits(ip),
                all_digits(body.subrange(dp as int + 1, j as int)),
                m == digits_val(ip + body.subrange(dp as int + 1, j as int)),
                m <= 0xffff_ffff_ffff_ffff_ffff_ffff,
            decreases ep - j,
        {
            let b = line[start + j];
            proof {
                assert(body[j as int] == b);
            }
            if b < 48 || b > 57 {
                proof {
                    assert(fp[j - dp - 1] == b);
                    assert(!all_digits(fp));
                }
                return None;
            }
            proof {
                let prev = ip + body.subrange(dp as int + 1, j as int);
                let next = ip + body.subrange(dp as int + 1, j + 1 as int);
                assert(next.drop_last() =~= prev);
                assert(next.last() == b);
                assert(all_digits(next)) by {
                    assert(forall|q: int| 0 <= q < prev.len() ==> next[q] == prev[q]);
                }
                lemma_digits_bound(next);
            }
            m = m * 10 + ((b - 48) as u128);
            j += 1;
        }
        f_len = ep - dp - 1;
        proof {
            assert(body.subrange(dp as int + 1, ep as int) =~= fp);
        }
    } else {
        proof {
            assert(full =~= ip);
        }
    }
    proof {
        assert(m == digits_val(full));
        assert(all_digits(fp));
        lemma_digits_small(full);
        lemma_pow10_mono(full.len(), 24);
    }
    // The optional exponent: a sign and one to three digits.
    let mut eneg = false;
    let mut ev: u64 = 0;
    if ep < total_n {
        let ghost etail: Seq<u8> = body.subrange(ep as int + 1, total_n as int);
        let mut q: usize = ep + 1;
        if q < total_n && (line[start + q] == 45 || line[start + q] == 43) {
            eneg = line[start + q] == 45;
            proof {
                assert(etail[0] == body[ep as int + 1]);
            }
            q += 1;
        }
        let ghost eds: Seq<u8> = if etail.len() > 0 && (etail[0] == 45 || etail[0] == 43) {
            etail.skip(1)
        } else {
            etail
        };
        proof {
            assert(eds =~= body.subrange(q as int, total_n as int));
        }
        let e_digits = total_n - q;
        if e_digits < 1 || e_digits > 3 {
            return None;
        }
        let mut t: usize = q;
        while t < total_n
            invariant
                q <= t <= total_n,
                start + total_n == line@.len(),
                line@.len() <= usize::MAX,
                body == line@.skip(start as int),
                ep < total_n,
                ep == first_exp(body),
                mant == body.subrange(0, ep as int),
                dp == first_byte(mant, 46),
                dp <= ep,
                ip == mant.subrange(0, dp as int),
                fp == (if dp < ep {
                    mant.subrange(dp as int + 1, ep as int)
                } else {
                    Seq::<u8>::empty()
                }),
                ip.len() + fp.len() >= 1,
                ip.len() + fp.len() <= 24,
                all_digits(ip),
                all_digits(fp),
                etail == body.subrange(ep as int + 1, total_n as int),
                eds == (if etail.len() > 0 && (etail[0] == 45 || etail[0] == 43) {
                    etail.skip(1)
                } else {
                    etail
                }),
                total_n - q <= 3,
                eds == body.subrange(q as int, total_n as int),
                all_digits(body.subrange(q as int, t as int)),
                ev == digits_val(body.subrange(q as int, t as int)),
                ev <= 999,
            decreases total_n - t,
        {
            let b = line[start + t];
            proof {
                assert(body[t as int] == b);
            }
            if b < 48 || b > 57 {
                proof {
                    assert(eds[t - q] == b);
                    assert(!all_digits(eds));
                }
                return None;
            }
            proof {
                let prev = body.subrange(q as int, t as int);
                let next = body.subrange(q as int, t + 1 as int);
                assert(next.drop_last() =~= prev);
                assert(next.last() == b);
                assert(all_digits(next)) by {
                    assert(forall|w: int| 0 <= w < prev.len() ==> next[w] == prev[w]);
                }
                lemma_digits_small(next);
                lemma_pow10_mono(next.len(), 3);
                assert(pow10(3) == 1000) by {
                    reveal_with_fuel(pow10, 4);
                }
            }
            ev = ev * 10 + ((b - 48) as u64);
            t += 1;
        }
        proof {
            assert(body.subrange(q as int, total_n as int) =~= eds);
            assert(ev == digits_val(eds));
            assert(all_digits(eds));
        }
    }
    // The net power-of-ten shift: the exponent minus the fraction length.
    let ex: i64 = if eneg {
        -(ev as i64)
    } else {
        ev as i64
    };
    let sh: i64 = ex - (f_len as i64);
    let ghost mv: int = m as int;
    if sh >= 1 {
        if m == 0 {
            proof {
                lemma_pow10_pos(sh as nat);
                assert(0 * pow10(sh as nat) * SAMP_SCALE == 0) by (nonlinear_arith);
            }
            return Some(0);
        }
        proof {
            lemma_scaled_big(mv, sh as int);
        }
        return None;
    }
    if sh == 0 {
        let scaled = m * (SAMP_SCALE as u128);
        proof {
            assert(pow10(0) == 1);
            assert(mv * 1 * (SAMP_SCALE as int) == mv * (SAMP_SCALE as int)) by (nonlinear_arith);
            assert(mv * (SAMP_SCALE as int) <= 0xffff_ffff_ffff_ffff_ffff_ffff * 16777216)
                by (nonlinear_arith)
                requires
                    0 <= mv <= 0xffff_ffff_ffff_ffff_ffff_ffff,
            ;
        }
        if scaled > AMP_MAX as u128 {
            return None;
        }
        return Some(scaled as i64);
    }
    let d_exp: usize = (-sh) as usize;
    if d_exp >= 32 {
        // Far below the fixed-point quantum: the rounded value is zero.
        proof {
            lemma_scaled_tiny(mv, d_exp as int);
        }
        return Some(0);
    }
    // Scale to fixed point, rounding half away from zero.
    let d = pow10_exec(d_exp);
    let scaled = (m * (SAMP_SCALE as u128) + d / 2) / d;
    proof {
        lemma_pow10_pos(d_exp as nat);
        assert(mv * (SAMP_SCALE as int) <= 0xffff_ffff_ffff_ffff_ffff_ffff * 16777216)
            by (nonlinear_arith)
            requires
                0 <= mv <= 0xffff_ffff_ffff_ffff_ffff_ffff,
        ;
    }
    if scaled > AMP_MAX as u128 {
        return None;
    }
    Some(scaled as i64)
}

/// A mantissa shifted up by at least one power of ten exceeds the sample
/// range.
proof fn lemma_scaled_big(m: int, g: int)
    requires
        m >= 1,
        g >= 1,
    ensures
        m * pow10(g as nat) * SAMP_SCALE > AMP_MAX,
{
    lemma_pow10_pos(g as nat);
    lemma_pow10_mono(1, g as nat);
    assert(pow10(1) == 10) by {
        reveal_with_fuel(pow10, 2);
    }
    assert(m * pow10(g as nat) >= 10) by (nonlinear_arith)
        requires
            m >= 1,
            pow10(g as nat) >= 10,
    ;
    assert(m * pow10(g as nat) * SAMP_SCALE >= 10 * (SAMP_SCALE as int)) by (nonlinear_arith)
        requires
            m * pow10(g as nat) >= 10,
            SAMP_SCALE as int > 0,
    ;
}

/// A mantissa shifted down by 32 or more powers of ten rounds to zero.
proof fn lemma_scaled_tiny(m: int, d: int)
    requires
        0 <= m < pow10(24),
        d >= 32,
    ensures
        (m * SAMP_SCALE + pow10(d as nat) / 2) / pow10(d as nat) == 0,
{
    let p = pow10(d as nat);
    lemma_pow10_mono(32, d as nat);
    lemma_pow10_pos(d as nat);
    assert(pow10(32) == 100000000000000000000000000000000) by {
        reveal_with_fuel(pow10, 33);
    }
    assert(pow10(24) == 1000000000000000000000000) by {
        reveal_with_fuel(pow10, 25);
    }
    assert(m * SAMP_SCALE < 1000000000000000000000000 * 16777216) by (nonlinear_arith)
        requires
            0 <= m < 1000000000000000000000000,
            SAMP_SCALE == 16777216,
    ;
    vstd::arithmetic::div_mod::lemma_fundamental_div_mod(p, 2);
    vstd::arithmetic::div_mod::lemma_mod_bound(p, 2);
    assert(m * SAMP_SCALE + p / 2 < p);
    lemma_udiv_zero(m * SAMP_SCALE + p / 2, p);
}

/// Division of a smaller nonnegative number yields zero.
proof fn lemma_udiv_zero(x: int, d: int)
    requires
        0 <= x < d,
    ensures
        x / d == 0,
{
    vstd::arithmetic::div_mod::lemma_fundamental_div_mod(x, d);
    vstd::arithmetic::div_mod::lemma_mod_bound(x, d);
    assert(x / d == 0) by (nonlinear_arith)
        requires
            x == d * (x / d) + x % d,
            0 <= x % d < d,
            0 <= x < d,
    ;
}

/// Digit strings of at most 24 digits stay below `10^24`.
proof fn lemma_digits_bound(s: Seq<u8>)
    requires
        all_digits(s),
        s.len() <= 24,
    ensures
        0 <= digits_val(s) <= 0xffff_ffff_ffff_ffff_ffff_ffff,
    decreases s.len(),
{
    lemma_digits_nonneg(s);
    lemma_digits_small(s);
    lemma_pow10_mono(s.len(), 24);
    assert(pow10(24) == 1000000000000000000000000) by {
        reveal_with_fuel(pow10, 25);
    }
}

proof fn lemma_digits_nonneg(s: Seq<u8>)
    requires
        all_digits(s),
    ensures
        0 <= digits_val(s),
    decreases s.len(),
{
    if s.len() > 0 {
        assert(all_digits(s.drop_last())) by {
            assert(forall|i: int|
                0 <= i < s.len() - 1 ==> #[trigger] s.drop_last()[i] == s[i]);
        }
        lemma_digits_nonneg(s.drop_last());
        assert(10 * digits_val(s.drop_last()) >= 0) by (nonlinear_arith)
            requires
                digits_val(s.drop_last()) >= 0,
        ;
    }
}

proof fn lemma_digits_small(s: Seq<u8>)
    requires
        all_digits(s),
    ensures
        digits_val(s) < pow10(s.len()),
    decreases s.len(),
{
    if s.len() == 0 {
    } else {
        assert(all_digits(s.drop_last())) by {
            assert(forall|i: int|
                0 <= i < s.len() - 1 ==> #[trigger] s.drop_last()[i] == s[i]);
        }
        lemma_digits_small(s.drop_last());
        lemma_digits_nonneg(s.drop_last());
        assert(10 * digits_val(s.drop_last()) + (s.last() - 48) < 10 * pow10(s.drop_last().len()))
            by (nonlinear_arith)
            requires
                digits_val(s.drop_last()) < pow10(s.drop_last().len()),
                0 <= digits_val(s.drop_last()),
                s.last() - 48 < 10,
        ;
    }
}

proof fn lemma_pow10_pos(n: nat)
    ensures
        pow10(n) >= 1,
    decreases n,
{
    if n > 0 {
        lemma_pow10_pos((n - 1) as nat);
        assert(10 * pow10((n - 1) as nat) >= 10) by (nonlinear_arith)
            requires
                pow10((n - 1) as nat) >= 1,
        ;
    }
}

/// `10^n` for small `n`.
fn pow10_exec(n: usize) -> (r: u128)
    requires
        n <= 31,
    ensures
        r == pow10(n as nat),
        r >= 1,
{
    let mut r: u128 = 1;
    let mut i: usize = 0;
    while i < n
        invariant
            0 <= i <= n <= 31,
            r == pow10(i as nat),
            1 <= r <= 10000000000000000000000000000000,
        decreases n - i,
    {
        proof {
            lemma_pow10_bound(i as nat + 1);
        }
        r = r * 10;
        i += 1;
    }
    r
}

proof fn lemma_pow10_bound(n: nat)
    requires
        n <= 31,
    ensures
        pow10(n) <= 10000000000000000000000000000000,
    decreases n,
{
    assert(pow10(31) == 10000000000000000000000000000000) by {
        reveal_with_fuel(pow10, 32);
    }
    lemma_pow10_mono(n, 31);
}

proof fn lemma_pow10_mono(a: nat, b: nat)
    requires
        a <= b,
    ensures
        pow10(a) <= pow10(b),
    decreases b,
{
    if a < b {
        lemma_pow10_mono(a, (b - 1) as nat);
        lemma_pow10_pos((b - 1) as nat);
        assert(10 * pow10((b - 1) as nat) >= pow10((b - 1) as nat)) by (nonlinear_arith)
            requires
                pow10((b - 1) as nat) >= 1,
        ;
    }
}

/// Parse one line: mirror of `parse_line`.
fn parse_line_exec(line: &Vec<u8>) -> (r: Option<i64>)
    ensures
        r matches Some(v) ==> parse_line(line@) == Some(v as int) && -AMP_MAX <= v <= AMP_MAX,
        r is None ==> parse_line(line@) is None,
{
    if line.len() > 0 && line[0] == 45 {
        match parse_body_exec(line, 1) {
            Some(v) => Some(-v),
            None => None,
        }
    } else {
        proof {
            assert(line@.skip(0) =~= line@);
        }
        match parse_body_exec(line, 0) {
            Some(v) => Some(v),
            None => None,
        }
    }
}

/// Parse a whole training file into complex samples.
///
/// Succeeds exactly when every non-blank line is a decimal in range (an
/// optional sign, digits with at most one dot, an optional exponent) and
/// the number of values is even; the samples pair consecutive values
/// (real, then imaginary), in file order.
pub fn cplx_vec_from_text(text: &Vec<u8>) -> (r: Result<Vec<Cplx>, TrainingParseError>)
    ensures
        r matches Ok(v) ==> training_spec(text@) matches Ok(s) && v@ == s && all_valid(v@),
        r matches Err(e) ==> training_spec(text@) matches Err(e2) && e == e2,
{
    // Split into lines.
    let n = text.len();
    let mut lines: Vec<Vec<u8>> = Vec::new();
    let ghost f = |l: Vec<u8>| l@;
    let mut cur: Vec<u8> = Vec::new();
    let mut pos: usize = 0;
    proof {
        assert(lines@.map_values(f) =~= Seq::<Seq<u8>>::empty());
        assert(cur@ + text@.skip(0) =~= text@);
        assert(Seq::<Seq<u8>>::empty() + split_lines(text@) =~= split_lines(text@));
    }
    while pos < n
        invariant
            0 <= pos <= n,
            n == text@.len(),
            forall|j: int| 0 <= j < cur@.len() ==> cur@[j] != 10,
            f == (|l: Vec<u8>| l@),
            split_lines(text@) == lines@.map_values(f) + split_lines(cur@ + text@.skip(pos as int)),
        decreases n - pos,
    {
        let b = text[pos];
        if b == 10 {
            proof {
                let rest = cur@ + text@.skip(pos as int);
                lemma_first_byte_at(rest, 10, cur@.len() as int);
                assert(rest.subrange(0, cur@.len() as int) =~= cur@);
                assert(rest.skip(cur@.len() as int + 1) =~= text@.skip(pos as int + 1));
                assert(lines@.map_values(f) + split_lines(rest) =~= lines@.map_values(f).push(cur@)
                    + split_lines(text@.skip(pos as int + 1)));
                assert(lines@.push(cur).map_values(f) =~= lines@.map_values(f).push(cur@));
            }
            lines.push(cur);
            cur = Vec::new();
            proof {
                assert(cur@ + text@.skip(pos as int + 1) =~= text@.skip(pos as int + 1));
            }
        } else {
            proof {
                assert((cur@.push(b)) + text@.skip(pos as int + 1) =~= cur@ + text@.skip(
                    pos as int,
                ));
            }
            cur.push(b);
        }
        pos += 1;
    }
    proof {
        let rest = cur@ + text@.skip(n as int);
        assert(rest =~= cur@);
        lemma_first_byte_at(cur@, 10, cur@.len() as int);
        assert(cur@.subrange(0, cur@.len() as int) =~= cur@);
        assert(split_lines(rest) =~= seq![cur@]);
        assert(lines@.map_values(f) + seq![cur@] =~= lines@.map_values(f).push(cur@));
        assert(lines@.push(cur).map_values(f) =~= lines@.map_values(f).push(cur@));
    }
    lines.push(cur);
    proof {
        assert(split_lines(text@) == lines@.map_values(f));
    }
    // Parse the non-blank lines.
    let ghost all: Seq<Seq<u8>> = lines@.map_values(f);
    let mut vals: Vec<i64> = Vec::new();
    let mut i: usize = 0;
    proof {
        reveal(Seq::filter);
        assert(all.subrange(0, 0) =~= Seq::<Seq<u8>>::empty());
        assert(kept_lines(all.subrange(0, 0)) =~= Seq::<Seq<u8>>::empty());
        assert(vals@ =~= parsed_vals(kept_lines(all.subrange(0, 0))));
    }
    while i < lines.len()
        invariant
            0 <= i <= lines@.len(),
            f == (|l: Vec<u8>| l@),
            all == lines@.map_values(f),
            all == split_lines(text@),
            all_parse(kept_lines(all.subrange(0, i as int))),
            vals@ == parsed_vals(kept_lines(all.subrange(0, i as int))),
            forall|j: int| 0 <= j < vals@.len() ==> -AMP_MAX <= #[trigger] vals@[j] <= AMP_MAX,
        decreases lines@.len() - i,
    {
        let ghost prefix = kept_lines(all.subrange(0, i as int));
        proof {
            reveal(Seq::filter);
            assert(all.subrange(0, i + 1 as int).drop_last() =~= all.subrange(0, i as int));
            assert(all.subrange(0, i + 1 as int).last() == lines@[i as int]@);
        }
        let line = &lines[i];
        if line.len() > 0 {
            match parse_line_exec(line) {
                Some(v) => {
                    proof {
                        reveal(Seq::filter);
                        let next = kept_lines(all.subrange(0, i + 1 as int));
                        assert(next =~= prefix.push(lines@[i as int]@));
                        assert(next.drop_last() =~= prefix);
                        assert(parsed_vals(next) =~= parsed_vals(prefix).push(v));
                    }
                    vals.push(v);
                },
                None => {
                    proof {
                        reveal(Seq::filter);
                        let ls = kept_lines(all);
                        let bad = kept_lines(all.subrange(0, i + 1 as int));
                        assert(bad =~= prefix.push(lines@[i as int]@));
                        lemma_kept_prefix(all, i + 1 as int);
                        assert(ls[bad.len() - 1] == lines@[i as int]@);
                        assert(!all_parse(ls));
                    }
                    return Err(TrainingParseError::BadNumber);
                },
            }
        } else {
            proof {
                reveal(Seq::filter);
                assert(kept_lines(all.subrange(0, i + 1 as int)) =~= prefix);
            }
        }
        i += 1;
    }
    proof {
        assert(all.subrange(0, all.len() as int) =~= all);
    }
    if vals.len() % 2 != 0 {
        return Err(TrainingParseError::OddValueCount);
    }
    // Pair values into complex samples.
    let mut out: Vec<Cplx> = Vec::new();
    let mut k: usize = 0;
    let half = vals.len() / 2;
    proof {
        vstd::arithmetic::div_mod::lemma_fundamental_div_mod(vals@.len() as int, 2);
    }
    while k < half
        invariant
            0 <= k <= half,
            vals@.len() == 2 * half,
            vals@.len() <= usize::MAX,
            out@.len() == k,
            forall|j: int| 0 <= j < vals@.len() ==> -AMP_MAX <= #[trigger] vals@[j] <= AMP_MAX,
            forall|j: int| 0 <= j < k ==> #[trigger] out@[j] == paired(vals@)[j],
            all_valid(out@),
        decreases half - k,
    {
        out.push(Cplx { re: vals[2 * k], im: vals[2 * k + 1] });
        k += 1;
    }
    proof {
        assert(out@ =~= paired(vals@));
    }
    Ok(out)
}

/// A prefix of the kept lines is a prefix of all kept lines.
proof fn lemma_kept_prefix(all: Seq<Seq<u8>>, i: int)
    requires
        0 <= i <= all.len(),
    ensures
        kept_lines(all.subrange(0, i)).len() <= kept_lines(all).len(),
        forall|j: int|
            0 <= j < kept_lines(all.subrange(0, i)).len() ==> #[trigger] kept_lines(all)[j]
                == kept_lines(all.subrange(0, i))[j],
    decreases all.len() - i,
{
    reveal(Seq::filter);
    if i == all.len() {
        assert(all.subrange(0, i) =~= all);
    } else {
        lemma_kept_prefix(all, i + 1);
        assert(all.subrange(0, i + 1).drop_last() =~= all.subrange(0, i));
        assert(all.subrange(0, i + 1).last() == all[i]);
    }
}

} // verus!
