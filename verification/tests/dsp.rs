use channel_est::cfo::{correct_cfo, estimate_cfo};
use channel_est::config::{with_training, ChannelEstConfig};
use channel_est::cplx::Cplx;
use channel_est::equalization::{equalize_symbol, estimate_subcarrier_equalization};
use channel_est::lts_align::lts_align;
use channel_est::parse_80211::parse_80211_pkt;
use num::Complex;
use rand::RngExt;
use rustfft::FftPlanner;

const SCALE: f64 = 16777216.0;
const ANGLE: f64 = 67108864.0;

fn fx(re: f64, im: f64) -> Cplx {
    Cplx {
        re: (re * SCALE).round() as i64,
        im: (im * SCALE).round() as i64,
    }
}

fn fxc(c: Complex<f64>) -> Cplx {
    fx(c.re, c.im)
}

fn fl(c: Cplx) -> Complex<f64> {
    Complex::new(c.re as f64 / SCALE, c.im as f64 / SCALE)
}

fn fxv(v: &[Complex<f64>]) -> Vec<Cplx> {
    v.iter().map(|c| fxc(*c)).collect()
}

/// The 802.11 LTS frequency-domain sequence over subcarriers -26..=26.
const LTS_F: [i32; 53] = [
    1, 1, -1, -1, 1, 1, -1, 1, -1, 1, 1, 1, 1, 1, 1, -1, -1, 1, 1, -1, 1, -1, 1, 1, 1, 1, 0, 1,
    -1, -1, 1, 1, -1, 1, -1, 1, -1, -1, -1, -1, -1, 1, 1, -1, -1, 1, -1, 1, -1, 1, 1, 1, 1,
];

/// The 802.11 STS frequency-domain sequence over subcarriers -26..=26,
/// without the sqrt(13/6) power normalization factor (applied below).
const STS_F: [i32; 53] = [
    0, 0, 1, 0, 0, 0, -1, 0, 0, 0, 1, 0, 0, 0, -1, 0, 0, 0, -1, 0, 0, 0, 1, 0, 0, 0, 0, 0, 0, 0,
    -1, 0, 0, 0, -1, 0, 0, 0, 1, 0, 0, 0, 1, 0, 0, 0, 1, 0, 0, 0, 1, 0, 0,
];

/// Time-domain 802.11 LTS (64 samples).
fn lts_time() -> Vec<Complex<f64>> {
    let mut bins = vec![Complex::new(0.0, 0.0); 64];
    for s in -26i32..=26 {
        let bin = ((s + 64) % 64) as usize;
        bins[bin] = Complex::new(LTS_F[(s + 26) as usize] as f64, 0.0);
    }
    let mut planner = FftPlanner::new();
    planner.plan_fft_inverse(64).process(&mut bins);
    bins.iter().map(|c| c / 64.0).collect()
}

/// Time-domain 802.11 STS (one 16-sample period).
fn sts_time() -> Vec<Complex<f64>> {
    let amp = (13.0f64 / 6.0).sqrt();
    let mut bins = vec![Complex::new(0.0, 0.0); 64];
    for s in -26i32..=26 {
        let bin = ((s + 64) % 64) as usize;
        let v = STS_F[(s + 26) as usize] as f64 * amp;
        bins[bin] = Complex::new(v, v);
    }
    let mut planner = FftPlanner::new();
    planner.plan_fft_inverse(64).process(&mut bins);
    bins.iter().take(16).map(|c| c / 64.0).collect()
}

fn make_config() -> ChannelEstConfig {
    let sts = fxv(&sts_time());
    let lts = fxv(&lts_time());
    with_training(0, (0.01 * SCALE * SCALE) as i64, 20, sts, lts)
}

/// Scale applied to transmitted data-symbol spectra so samples stay small.
const TX_SCALE: f64 = 0.125;

/// One OFDM data symbol from a +-1 constellation on the active subcarriers:
/// the forward FFT of the constellation, scaled by `TX_SCALE`.
fn encode_symbol(config: &ChannelEstConfig, data: &[f64]) -> Vec<Complex<f64>> {
    let lts_ref = &config.lts.as_ref().unwrap().1;
    let mut sym = Vec::new();
    let mut di = 0;
    for r in lts_ref.iter() {
        if r.is_some() {
            sym.push(Complex::new(data[di], 0.0));
            di += 1;
        } else {
            sym.push(Complex::new(0.0, 0.0));
        }
    }
    assert_eq!(di, data.len());
    let mut planner = FftPlanner::new();
    planner.plan_fft_forward(64).process(&mut sym);
    sym.iter().map(|c| c * TX_SCALE).collect()
}

fn random_bits(n: usize) -> Vec<f64> {
    let mut rng = rand::rng();
    (0..n)
        .map(|_| if rng.random::<bool>() { 1.0 } else { -1.0 })
        .collect()
}

fn active_count(config: &ChannelEstConfig) -> usize {
    config.lts.as_ref().unwrap().1.iter().filter(|r| r.is_some()).count()
}

#[test]
fn test_cfo_estimation_and_correction() {
    // CFO that we will introduce (in radians per sample).
    let cfo = 0.1f64;
    let config = make_config();
    let sts = sts_time();
    let lts = lts_time();

    // Prepare the short and long preambles with the CFO baked in.
    let short: Vec<Cplx> = (0..160)
        .map(|i| fxc(sts[i % 16] * Complex::new(0.0, cfo * i as f64).exp()))
        .collect();
    let mut long: Vec<Cplx> = vec![fx(0., 0.); 32];
    for i in 0..128 {
        long.push(fxc(lts[i % 64] * Complex::new(0.0, cfo * (i + 32) as f64).exp()));
    }

    let cfo_est = estimate_cfo(&short, &long, &config);
    let cfo_est_f = cfo_est as f64 / ANGLE;
    assert!((cfo_est_f - cfo).abs() < 1e-5);

    // Correct the CFO and see if that restores the LTS.
    let corrected_long = correct_cfo(&long, cfo_est);
    assert_eq!(corrected_long.len(), long.len());

    for i in 0..corrected_long.len() {
        // Norms should not change.
        assert!((fl(corrected_long[i]).norm() - fl(long[i]).norm()).abs() < 1e-6);

        // Check the entire complex number.
        if i < 32 {
            assert!(corrected_long[i] == fx(0., 0.));
        } else if i < 96 {
            assert!((lts[i - 32] - fl(corrected_long[i])).norm() < 1e-4);
        } else {
            assert!((lts[i - 96] - fl(corrected_long[i])).norm() < 1e-4);
        }
    }
}

#[test]
fn test_estimate_cfo() {
    // The same estimate through the parse_packet front; the synthesis also
    // scales every sample by e (the magnitude of exp(1 + j phi)), which must
    // not change the estimated angle.
    let cfo = 0.1f64;
    let config = make_config();
    let sts = sts_time();
    let lts = lts_time();
    let short: Vec<Cplx> = (0..160)
        .map(|i| fxc(sts[i % 16] * Complex::new(1.0, cfo * i as f64).exp()))
        .collect();
    let mut long: Vec<Cplx> = vec![fx(0., 0.); 32];
    for i in 0..128 {
        long.push(fxc(lts[i % 64] * Complex::new(1.0, cfo * i as f64).exp()));
    }
    let est = channel_est::parse_packet::estimate_cfo(&short, &long, &config);
    assert!((est as f64 / ANGLE - cfo).abs() < 1e-5);
}

#[test]
fn cfo_round_trip_is_identity() {
    // correct_cfo(correct_cfo(x, phi), -phi) == x up to 1e-6 per sample.
    let lts = lts_time();
    let x: Vec<Cplx> = (0..128).map(|i| fxc(lts[i % 64])).collect();
    let phi = (0.1 * ANGLE) as i64;
    let y = correct_cfo(&correct_cfo(&x, phi), -phi);
    assert_eq!(y.len(), x.len());
    for i in 0..x.len() {
        assert!((fl(y[i]) - fl(x[i])).norm() < 1e-6);
    }
}

#[test]
fn cfo_estimate_accuracy_sweep() {
    // For synthetic preambles rotated by phi per sample, the estimate is
    // within 1e-4 over the resolvable range.
    let config = make_config();
    let sts = sts_time();
    let lts = lts_time();
    // The delay-and-correlate coarse stage is unambiguous only while
    // |phi| < pi / S; beyond that any estimator of this form aliases.
    for phi in [-0.19, -0.12, -0.05, 0.03, 0.1, 0.19] {
        let short: Vec<Cplx> = (0..160)
            .map(|i| fxc(sts[i % 16] * Complex::new(0.0, phi * i as f64).exp()))
            .collect();
        let mut long: Vec<Cplx> = vec![fx(0., 0.); 32];
        for i in 0..128 {
            long.push(fxc(lts[i % 64] * Complex::new(0.0, phi * (i + 32) as f64).exp()));
        }
        let est = estimate_cfo(&short, &long, &config) as f64 / ANGLE;
        assert!((est - phi).abs() < 1e-4, "phi {} est {}", phi, est);
    }
}

#[test]
fn lts_align_synth_pkt() {
    let config = make_config();
    let mut pkt: Vec<Cplx> = Vec::new();
    // Some initial junk.
    let junk = [fx(0.1, 0.1), fx(-0.1, -0.1), fx(0., 0.)];
    for i in 0..100 {
        pkt.push(junk[i % 3]);
    }
    let real_start = pkt.len();
    // The long preamble: guard interval, then the LTS.
    let lts = &config.lts.as_ref().unwrap().0;
    assert_eq!(lts.len() % 2, 0);
    for _ in 0..lts.len() / 2 {
        pkt.push(fx(0., 0.));
    }
    for i in 0..lts.len() {
        pkt.push(lts[i]);
    }
    // More junk.
    let junk2 = [fx(-0.1, 0.05), fx(0.11, -0.04), fx(0.1, 0.), fx(-0.1, 0.)];
    for i in 0..100 {
        pkt.push(junk2[i % 4]);
    }
    assert_eq!(lts_align(&pkt, lts), real_start);
}

#[test]
fn lts_align_checked_rejects_head_peak() {
    // With the LTS right at the head there is no room for a guard interval:
    // the checked aligner reports that instead of underflowing.
    let config = make_config();
    let lts = &config.lts.as_ref().unwrap().0;
    let mut pkt: Vec<Cplx> = Vec::new();
    for _ in 0..2 {
        for i in 0..lts.len() {
            pkt.push(lts[i]);
        }
    }
    for _ in 0..100 {
        pkt.push(fx(0.01, -0.01));
    }
    assert_eq!(channel_est::lts_align::lts_align_checked(&pkt, lts), None);

    // And on a proper packet it agrees with the aligner.
    let mut pkt2: Vec<Cplx> = Vec::new();
    for _ in 0..100 {
        pkt2.push(fx(0.1, -0.1));
    }
    for _ in 0..lts.len() / 2 {
        pkt2.push(fx(0., 0.));
    }
    for i in 0..lts.len() {
        pkt2.push(lts[i]);
    }
    for _ in 0..100 {
        pkt2.push(fx(-0.1, 0.05));
    }
    assert_eq!(
        channel_est::lts_align::lts_align_checked(&pkt2, lts),
        Some(lts_align(&pkt2, lts))
    );
}

#[test]
fn parse_packet_slices_and_phasor() {
    // The bundled front aligns over the whole buffer, slices out the two
    // preambles, and stores a unit correction phasor (here with no CFO).
    let config = make_config();
    let lts = config.lts.as_ref().unwrap().0.clone();
    let sts = config.sts.as_ref().unwrap().clone();
    let mut pkt: Vec<Cplx> = Vec::new();
    for i in 0..100u32 {
        let a = 0.05 * ((i % 3) as f64 - 1.0);
        pkt.push(fx(a, -a));
    }
    for i in 0..10 * sts.len() {
        pkt.push(sts[i % sts.len()]);
    }
    for _ in 0..lts.len() / 2 {
        pkt.push(fx(0., 0.));
    }
    for _ in 0..2 {
        for i in 0..lts.len() {
            pkt.push(lts[i]);
        }
    }
    for _ in 0..64 {
        pkt.push(fx(0., 0.));
    }
    let p = channel_est::parse_packet::ParsePacket::new(&pkt, &config);
    assert_eq!(p.short.len(), 160);
    assert_eq!(p.long.len(), 160);
    assert_eq!(p.short, pkt[100..260].to_vec());
    assert_eq!(p.long, pkt[260..420].to_vec());
    let ph = 1073741824.0f64;
    assert!((p.cfo_corr.re as f64 / ph - 1.0).abs() < 1e-4);
    assert!((p.cfo_corr.im as f64 / ph).abs() < 1e-4);
}

#[test]
fn test_equalization() {
    let config = make_config();
    let lts = &config.lts.as_ref().unwrap().0.clone();
    assert_eq!(lts.len() % 4, 0);

    // A random symbol on the active subcarriers.
    let n_active = active_count(&config);
    let data = random_bits(n_active);
    let sym = encode_symbol(&config, &data);

    // A packet: long preamble, then a cyclic prefix and the symbol.
    let mut pkt: Vec<Cplx> = Vec::new();
    for _ in 0..32 {
        pkt.push(fx(0., 0.));
    }
    for i in 0..64 {
        pkt.push(lts[i]);
    }
    for i in 0..64 {
        pkt.push(lts[i]);
    }
    for i in 48..64 {
        pkt.push(fxc(sym[i]));
    }
    for i in 0..64 {
        pkt.push(fxc(sym[i]));
    }
    // A single two-tap multipath at delay L/8.
    let tap = Complex::new(0.1, 0.2);
    let snapshot: Vec<Complex<f64>> = pkt.iter().map(|c| fl(*c)).collect();
    for i in 8..64 {
        pkt[i] = fxc(snapshot[i] + tap * snapshot[i - 8]);
    }

    // Estimate the equalization and undo the channel.
    let long: Vec<Cplx> = pkt[..160].to_vec();
    let equalization = estimate_subcarrier_equalization(&long, &config);
    let tail: Vec<Cplx> = pkt[pkt.len() - 64..].to_vec();
    let corr_symbol = equalize_symbol(&tail, &equalization);

    // The symbol must decode correctly.
    assert_eq!(corr_symbol.len(), n_active);
    for (x, y) in corr_symbol.iter().zip(data.iter()) {
        let xf = fl(*x);
        assert!((xf - Complex::new(y * TX_SCALE, 0.0)).norm() < 0.5 * TX_SCALE);
        assert_eq!(xf.re > 0.0, *y > 0.0);
    }
}

#[test]
fn equalization_absent_iff_reference_absent() {
    // On a noise-free long preamble, the vector is absent exactly on the
    // absent subcarriers, and eq[k] * F[k] recovers the reference.
    let config = make_config();
    let lts = &config.lts.as_ref().unwrap().0.clone();
    let lts_ref = &config.lts.as_ref().unwrap().1.clone();
    let mut long: Vec<Cplx> = vec![fx(0., 0.); 32];
    for _ in 0..2 {
        for i in 0..64 {
            long.push(lts[i]);
        }
    }
    let eq = estimate_subcarrier_equalization(&long, &config);
    assert_eq!(eq.len(), 64);
    // F = the spectrum of the averaged LTS, recomputed here in floats.
    let mut avg: Vec<Complex<f64>> = (0..64).map(|i| fl(long[32 + i])).collect();
    let mut planner = FftPlanner::new();
    planner.plan_fft_inverse(64).process(&mut avg);
    for k in 0..64 {
        assert_eq!(eq[k].is_none(), lts_ref[k].is_none());
        if let (Some(g), Some(r)) = (eq[k], lts_ref[k]) {
            let gf = fl(g);
            let rf = fl(r);
            assert!((gf * avg[k] - rf).norm() < 1e-5);
        }
    }
}

#[test]
fn test_parse_80211_pkt() {
    let config = make_config();
    let lts = config.lts.as_ref().unwrap().0.clone();
    let sts = config.sts.as_ref().unwrap().clone();
    assert_eq!(lts.len() % 4, 0);

    // Two random symbols with cyclic prefixes.
    let n_active = active_count(&config);
    let mut symbols: Vec<Complex<f64>> = Vec::new();
    let mut symbols_data: Vec<f64> = Vec::new();
    for _ in 0..2 {
        let data = random_bits(n_active);
        let sym = encode_symbol(&config, &data);
        for i in 48..64 {
            symbols.push(sym[i]);
        }
        for i in 0..64 {
            symbols.push(sym[i]);
        }
        symbols_data.extend_from_slice(&data);
    }

    // A packet: silence, short preamble, long preamble, symbols, silence.
    let mut pkt: Vec<Cplx> = Vec::new();
    for _ in 0..(config.pkt_spacing as usize - 1) {
        pkt.push(fx(0., 0.));
    }
    for i in 0..10 * sts.len() {
        pkt.push(sts[i % sts.len()]);
    }
    for _ in 0..lts.len() / 2 {
        pkt.push(fx(0., 0.));
    }
    for _ in 0..2 {
        for i in 0..lts.len() {
            pkt.push(lts[i]);
        }
    }
    for s in symbols.iter() {
        pkt.push(fxc(*s));
    }
    for _ in 0..2 * lts.len() {
        pkt.push(fx(0., 0.));
    }

    // A two-tap multipath over the head of the packet.
    let tap = Complex::new(0.1, 0.2);
    let snapshot: Vec<Complex<f64>> = pkt.iter().map(|c| fl(*c)).collect();
    for i in 8..64 {
        pkt[i] = fxc(snapshot[i] + tap * snapshot[i - 8]);
    }

    let parsed = parse_80211_pkt(&pkt, &config);

    // Exactly one constellation point per active subcarrier per symbol, and
    // every sign matches.
    assert_eq!(parsed.len(), symbols_data.len());
    for (x, y) in parsed.iter().zip(symbols_data.iter()) {
        let xf = fl(*x);
        assert!((xf - Complex::new(y * TX_SCALE, 0.0)).norm() < 0.5 * TX_SCALE);
        assert_eq!(xf.re > 0.0, *y > 0.0);
    }
}

#[test]
fn parser_with_cfo_recovers_signs() {
    // A synthetic packet with CFO 0.1 rad/sample and no multipath: the
    // parser returns two symbols identical in sign to the encoded data on
    // every active subcarrier.
    let config = make_config();
    let lts = config.lts.as_ref().unwrap().0.clone();
    let sts = config.sts.as_ref().unwrap().clone();
    let n_active = active_count(&config);
    assert_eq!(n_active, 52);

    let mut symbols: Vec<Complex<f64>> = Vec::new();
    let mut symbols_data: Vec<f64> = Vec::new();
    for _ in 0..2 {
        let data = random_bits(n_active);
        let sym = encode_symbol(&config, &data);
        for i in 48..64 {
            symbols.push(sym[i]);
        }
        for i in 0..64 {
            symbols.push(sym[i]);
        }
        symbols_data.extend_from_slice(&data);
    }

    let mut clean: Vec<Complex<f64>> = Vec::new();
    for _ in 0..(config.pkt_spacing as usize - 1) {
        clean.push(Complex::new(0.0, 0.0));
    }
    for i in 0..10 * sts.len() {
        clean.push(fl(sts[i % sts.len()]));
    }
    for _ in 0..lts.len() / 2 {
        clean.push(Complex::new(0.0, 0.0));
    }
    for _ in 0..2 {
        for i in 0..lts.len() {
            clean.push(fl(lts[i]));
        }
    }
    clean.extend_from_slice(&symbols);
    for _ in 0..2 * lts.len() {
        clean.push(Complex::new(0.0, 0.0));
    }

    // Rotate the whole packet by the CFO.
    let cfo = 0.1f64;
    let pkt: Vec<Cplx> = clean
        .iter()
        .enumerate()
        .map(|(i, s)| fxc(s * Complex::new(0.0, cfo * i as f64).exp()))
        .collect();

    let parsed = parse_80211_pkt(&pkt, &config);
    assert_eq!(parsed.len(), 2 * n_active);
    for (x, y) in parsed.iter().zip(symbols_data.iter()) {
        assert_eq!(fl(*x).re > 0.0, *y > 0.0);
    }
}

#[test]
fn round_trip_multipath_and_cfo() {
    // Encode a random +-1 constellation, IFFT, add cyclic prefixes, prepend
    // the preambles, corrupt with a two-tap multipath and a CFO, parse, and
    // recover the sign of every active subcarrier.
    let config = make_config();
    let lts = config.lts.as_ref().unwrap().0.clone();
    let sts = config.sts.as_ref().unwrap().clone();
    let n_active = active_count(&config);

    let mut symbols: Vec<Complex<f64>> = Vec::new();
    let mut symbols_data: Vec<f64> = Vec::new();
    for _ in 0..2 {
        let data = random_bits(n_active);
        let sym = encode_symbol(&config, &data);
        for i in 48..64 {
            symbols.push(sym[i]);
        }
        for i in 0..64 {
            symbols.push(sym[i]);
        }
        symbols_data.extend_from_slice(&data);
    }

    let mut clean: Vec<Complex<f64>> = Vec::new();
    for _ in 0..(config.pkt_spacing as usize - 1) {
        clean.push(Complex::new(0.0, 0.0));
    }
    for i in 0..10 * sts.len() {
        clean.push(fl(sts[i % sts.len()]));
    }
    for _ in 0..lts.len() / 2 {
        clean.push(Complex::new(0.0, 0.0));
    }
    for _ in 0..2 {
        for i in 0..lts.len() {
            clean.push(fl(lts[i]));
        }
    }
    clean.extend_from_slice(&symbols);
    for _ in 0..2 * lts.len() {
        clean.push(Complex::new(0.0, 0.0));
    }

    // Channel: a two-tap multipath over the whole packet, then a CFO.
    let tap = Complex::new(0.1, 0.2);
    let snapshot = clean.clone();
    for i in 8..clean.len() {
        clean[i] = snapshot[i] + tap * snapshot[i - 8];
    }
    // The corrector rotates each slice from its own first sample, so a CFO
    // leaves a fixed residual rotation per symbol; 0.1 rad/sample keeps the
    // real part's sign on both symbols.
    let cfo = 0.1f64;
    let pkt: Vec<Cplx> = clean
        .iter()
        .enumerate()
        .map(|(i, s)| fxc(s * Complex::new(0.0, cfo * i as f64).exp()))
        .collect();

    let parsed = parse_80211_pkt(&pkt, &config);
    assert_eq!(parsed.len(), 2 * n_active);
    for (x, y) in parsed.iter().zip(symbols_data.iter()) {
        assert_eq!(fl(*x).re > 0.0, *y > 0.0);
    }
}

#[test]
fn parser_end_of_packet_heuristic() {
    // After two real symbols followed by 2 L zero samples, the parser emits
    // exactly 2 * (#active subcarriers) points: the zero region ends it.
    let config = make_config();
    let lts = config.lts.as_ref().unwrap().0.clone();
    let sts = config.sts.as_ref().unwrap().clone();
    let n_active = active_count(&config);

    let mut pkt: Vec<Cplx> = Vec::new();
    for _ in 0..(config.pkt_spacing as usize - 1) {
        pkt.push(fx(0., 0.));
    }
    for i in 0..10 * sts.len() {
        pkt.push(sts[i % sts.len()]);
    }
    for _ in 0..lts.len() / 2 {
        pkt.push(fx(0., 0.));
    }
    for _ in 0..2 {
        for i in 0..lts.len() {
            pkt.push(lts[i]);
        }
    }
    for _ in 0..2 {
        let data = random_bits(n_active);
        let sym = encode_symbol(&config, &data);
        for i in 48..64 {
            pkt.push(fxc(sym[i]));
        }
        for i in 0..64 {
            pkt.push(fxc(sym[i]));
        }
    }
    for _ in 0..2 * lts.len() {
        pkt.push(fx(0., 0.));
    }
    let parsed = parse_80211_pkt(&pkt, &config);
    assert_eq!(parsed.len(), 2 * n_active);
}
