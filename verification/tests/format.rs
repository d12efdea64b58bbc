use channel_est::channel_monitor::{
    build_preamble, drift_ok, monitor_rx_packet, silence_len, MonitorConfig,
};
use channel_est::config::{derive_lts_reference, with_training, ChannelEstConfig};
use channel_est::cplx::Cplx;
use channel_est::training::{cplx_vec_from_text, TrainingParseError};
use channel_est::trig::{atan2_scaled, cos_sin};
use num::Complex;
use rustfft::FftPlanner;

const SCALE: f64 = 16777216.0;
const ANGLE: f64 = 67108864.0;
const PH: f64 = 1073741824.0;

fn fx(re: f64, im: f64) -> Cplx {
    Cplx {
        re: (re * SCALE).round() as i64,
        im: (im * SCALE).round() as i64,
    }
}

fn fl(c: Cplx) -> Complex<f64> {
    Complex::new(c.re as f64 / SCALE, c.im as f64 / SCALE)
}

const LTS_F: [i32; 53] = [
    1, 1, -1, -1, 1, 1, -1, 1, -1, 1, 1, 1, 1, 1, 1, -1, -1, 1, 1, -1, 1, -1, 1, 1, 1, 1, 0, 1,
    -1, -1, 1, 1, -1, 1, -1, 1, -1, -1, -1, -1, -1, 1, 1, -1, -1, 1, -1, 1, -1, 1, 1, 1, 1,
];

const STS_F: [i32; 53] = [
    0, 0, 1, 0, 0, 0, -1, 0, 0, 0, 1, 0, 0, 0, -1, 0, 0, 0, -1, 0, 0, 0, 1, 0, 0, 0, 0, 0, 0, 0,
    -1, 0, 0, 0, -1, 0, 0, 0, 1, 0, 0, 0, 1, 0, 0, 0, 1, 0, 0, 0, 1, 0, 0,
];

fn lts_time() -> Vec<Complex<f64>> {
    let mut bins = vec![Complex::new(0.0, 0.0); 64];
    for s in -26i32..=26 {
        let bin = ((s + 64) % 64) as usize;
        bins[bin] = Complex::new(LTS_F[(s + 26) as usize] as f64, 0.0);
    }
    let mut planner = FftPlanner::new();
    planner.plan_fft_inverse(64).process(&mut bins);
    bins.iter().map(|c| c / 64.0).collect()
}

fn sts_time() -> Vec<Complex<f64>> {
    let amp = (13.0f64 / 6.0).sqrt();
    let mut bins = vec![Complex::new(0.0, 0.0); 64];
    for s in -26i32..=26 {
        let bin = ((s + 64) % 64) as usize;
        let v = STS_F[(s + 26) as usize] as f64 * amp;
        bins[bin] = Complex::new(v, v);
    }
    let mut planner = FftPlanner::new();
    planner.plan_fft_inverse(64).process(&mut bins);
    bins.iter().take(16).map(|c| c / 64.0).collect()
}

fn make_config() -> ChannelEstConfig {
    let sts: Vec<Cplx> = sts_time().iter().map(|c| fx(c.re, c.im)).collect();
    let lts: Vec<Cplx> = lts_time().iter().map(|c| fx(c.re, c.im)).collect();
    with_training(0, (0.01 * SCALE * SCALE) as i64, 20, sts, lts)
}

/// The LTS written in the training-file format: one value per line, real
/// and imaginary parts alternating.
fn lts_text() -> Vec<u8> {
    let mut text = String::new();
    for c in lts_time() {
        text.push_str(&format!("{:.6}\n", c.re));
        text.push_str(&format!("{:.6}\n", c.im));
    }
    text.into_bytes()
}

#[test]
fn training_text_parses_lts_file() {
    let v = cplx_vec_from_text(&lts_text()).unwrap();
    assert_eq!(v.len(), 64);
    // The first LTS time sample is 10/64 = 0.15625 exactly.
    assert!((fl(v[0]) - Complex::new(0.15625, 0.0)).norm() < 1e-5);
    let last = fl(v[63]);
    let expected = lts_time()[63];
    assert!((last - expected).norm() < 1e-5);
}

#[test]
fn training_text_ignores_blank_lines() {
    let text = b"1.5\n\n-0.25\n\n\n".to_vec();
    let v = cplx_vec_from_text(&text).unwrap();
    assert_eq!(v.len(), 1);
    assert_eq!(v[0], fx(1.5, -0.25));
}

#[test]
fn training_text_plain_integers_and_fractions() {
    let text = b"2\n-3.5\n0.0000001\n-0\n".to_vec();
    let v = cplx_vec_from_text(&text).unwrap();
    assert_eq!(v.len(), 2);
    assert_eq!(v[0], fx(2.0, -3.5));
    // 1e-7 rounds to 2 fixed-point quanta (1e-7 * 2^24 = 1.68).
    assert_eq!(v[1].re, 2);
    assert_eq!(v[1].im, 0);
}

#[test]
fn training_text_odd_count_rejected() {
    let text = b"1.0\n2.0\n3.0\n".to_vec();
    assert_eq!(
        cplx_vec_from_text(&text),
        Err(TrainingParseError::OddValueCount)
    );
}

#[test]
fn training_text_exponent_forms() {
    let text = b"1.56e-1\n-5E-1\n1e-40\n0.04e1\n0e5\n2e-2\n".to_vec();
    let v = cplx_vec_from_text(&text).unwrap();
    assert_eq!(v.len(), 3);
    assert!((fl(v[0]) - Complex::new(0.156, -0.5)).norm() < 1e-6);
    assert!((fl(v[1]) - Complex::new(0.0, 0.4)).norm() < 1e-6);
    assert!((fl(v[2]) - Complex::new(0.0, 0.02)).norm() < 1e-6);
}

#[test]
fn training_text_bad_number_rejected() {
    for bad in ["1.0\nx2\n", "1..2\n0\n", "\n-\n1\n", "12345678901234567890123456\n0\n", "9.0\n0\n", "1e\n0\n", "1e+\n0\n", "1e1234\n0\n", "2E2\n0\n"] {
        let text = bad.as_bytes().to_vec();
        assert_eq!(
            cplx_vec_from_text(&text),
            Err(TrainingParseError::BadNumber),
            "{}",
            bad
        );
    }
}

#[test]
fn test_read_lts_reference() {
    // The derived frequency reference recovers the +-1 subcarrier pattern:
    // absent at DC, one at subcarrier 1, and every present entry close to a
    // real +-1.
    let lts: Vec<Cplx> = lts_time().iter().map(|c| fx(c.re, c.im)).collect();
    let r = derive_lts_reference(&lts);
    assert_eq!(r.len(), 64);
    assert!(r[0].is_none());
    let one = fl(r[1].unwrap());
    assert!((one.re - 1.0).abs() < 0.01);
    let mut present = 0;
    for x in r.iter() {
        if let Some(x) = x {
            let xf = fl(*x);
            assert!(xf.im.abs() < 1e-2);
            assert!((xf.re - 1.0).abs() < 1e-2 || (xf.re + 1.0).abs() < 1e-2);
            present += 1;
        }
    }
    assert_eq!(present, 52);
}

#[test]
fn preamble_layout() {
    let config = make_config();
    let p = build_preamble(&config);
    let sts = config.sts.as_ref().unwrap();
    let lts = &config.lts.as_ref().unwrap().0;
    assert_eq!(p.len(), 10 * 16 + 32 + 128);
    for i in 0..160 {
        assert_eq!(p[i], sts[i % 16]);
    }
    for i in 160..192 {
        assert_eq!(p[i], fx(0., 0.));
    }
    for i in 192..320 {
        assert_eq!(p[i], lts[(i - 192) % 64]);
    }
}

#[test]
fn silence_len_values() {
    // Full duty: no silence.  Half duty: as long as the preamble.
    assert_eq!(silence_len(320, 65536), 0);
    assert_eq!(silence_len(320, 32768), 320);
    // duty 1/4: three preambles' worth of silence.
    assert_eq!(silence_len(320, 16384), 960);
}

#[test]
fn drift_ok_values() {
    assert!(drift_ok(100, 100, 0));
    assert!(drift_ok(103, 100, 5));
    assert!(drift_ok(97, 100, 5));
    assert!(!drift_ok(106, 100, 5));
    assert!(!drift_ok(94, 100, 5));
}

#[test]
fn monitor_walks_repeats() {
    // A packet of three clean preamble repeats: one equalization vector per
    // repeat, each absent exactly where the reference is.
    let mut config = make_config();
    config.pkt_spacing = 64;
    let preamble = build_preamble(&config);
    let mut pkt: Vec<Cplx> = Vec::new();
    for _ in 0..64 {
        pkt.push(fx(0., 0.));
    }
    for _ in 0..3 {
        for s in preamble.iter() {
            pkt.push(*s);
        }
    }
    for _ in 0..400 {
        pkt.push(fx(0., 0.));
    }
    let monitor = MonitorConfig { ofdm: config, num_repeats: 3, duty_cycle: 32768 };
    let out = monitor_rx_packet(&pkt, &monitor);
    assert_eq!(out.len(), 3);
    let lts_ref = &monitor.ofdm.lts.as_ref().unwrap().1;
    for eq in out.iter() {
        assert_eq!(eq.len(), 64);
        for k in 0..64 {
            assert_eq!(eq[k].is_none(), lts_ref[k].is_none());
        }
    }
}

#[test]
fn fixed_point_trig_values() {
    // cos/sin at a few angles, against their real values.
    for a in [-3.0f64, -1.3, -0.5, 0.0, 0.4, 1.0, 2.2, 3.1, 7.0] {
        let (c, s) = cos_sin((a * ANGLE).round() as i64);
        assert!((c as f64 / PH - a.cos()).abs() < 1e-6, "cos {}", a);
        assert!((s as f64 / PH - a.sin()).abs() < 1e-6, "sin {}", a);
    }
    // atan2 over all four quadrants.
    for (y, x) in [(1.0f64, 2.0f64), (1.0, -2.0), (-1.0, 2.0), (-1.0, -2.0), (0.5, 0.5), (1.0, 0.0), (0.0, -1.0)] {
        let r = atan2_scaled((y * 1000000.0) as i128, (x * 1000000.0) as i128);
        assert!((r as f64 / ANGLE - y.atan2(x)).abs() < 1e-4, "atan2 {} {}", y, x);
    }
}
