use channel_est::config::ChannelEstConfig;
use channel_est::cplx::Cplx;
use channel_est::pkt_trigger::PktTrigger;

const SCALE: f64 = 16777216.0;

fn fx(re: f64, im: f64) -> Cplx {
    Cplx {
        re: (re * SCALE).round() as i64,
        im: (im * SCALE).round() as i64,
    }
}

fn default_config() -> ChannelEstConfig {
    ChannelEstConfig::default()
}

#[test]
fn test_basic_pkt_trigger() {
    let mut config = default_config();
    config.stabilize_samps = 100;
    let mut trigger = PktTrigger::new(&config);

    // Initialization period can be weird; samples should be skipped.
    for _ in 0..50 {
        assert!(trigger.push_samp(fx(1., 1.)).is_none());
    }
    for _ in 0..150 {
        assert!(trigger.push_samp(fx(0.001, 0.)).is_none());
    }

    // Push some packets.
    for _ in 0..5 {
        // A few samples we know and can hence test for.
        assert!(trigger.push_samp(fx(1.1, 0.9)).is_none());
        assert!(trigger.push_samp(fx(0.9, 1.1)).is_none());
        for i in 0..500u32 {
            // Strong in-packet samples.
            let ph = i as f64;
            assert!(trigger.push_samp(fx(1.5 * ph.cos(), 1.5 * ph.sin())).is_none());
        }
        // Quiet samples, so it can detect the end of the packet.
        for _ in 0..config.pkt_spacing {
            assert!(trigger.push_samp(fx(0., 0.)).is_none());
        }
        let pkt = trigger.push_samp(fx(0., 0.));
        assert!(pkt.is_some());
        assert!(pkt.unwrap()[config.pkt_spacing as usize] == fx(1.1, 0.9));
    }
}

#[test]
fn trigger_scenario_one_packet() {
    // stabilize = 100, power_trig = 0.01, pkt_spacing = 64: 50 high samples
    // (skipped), 150 quiet, a burst of 502 active samples, 65 zeros: exactly
    // one packet, whose element at offset pkt_spacing is the first burst
    // sample.
    let mut config = default_config();
    config.stabilize_samps = 100;
    config.pkt_spacing = 64;
    let mut trigger = PktTrigger::new(&config);
    let mut emitted: Vec<Vec<Cplx>> = Vec::new();
    let first_burst = fx(0.8, 0.7);

    for _ in 0..50 {
        if let Some(p) = trigger.push_samp(fx(1., 1.)) {
            emitted.push(p);
        }
    }
    for _ in 0..150 {
        if let Some(p) = trigger.push_samp(fx(0.05, 0.05)) {
            emitted.push(p);
        }
    }
    for i in 0..502u32 {
        let s = if i == 0 { first_burst } else { fx(0.6, -0.5) };
        if let Some(p) = trigger.push_samp(s) {
            emitted.push(p);
        }
    }
    for _ in 0..65 {
        if let Some(p) = trigger.push_samp(fx(0., 0.)) {
            emitted.push(p);
        }
    }
    assert_eq!(emitted.len(), 1);
    let pkt = &emitted[0];
    assert!(pkt[64] == first_burst);
    // The first high-energy sample lies within the guard prefix.
    let trig = config.power_trig;
    let first_high = pkt
        .iter()
        .position(|s| s.re * s.re + s.im * s.im > trig)
        .unwrap();
    assert!(first_high <= 64);
    // The buffer ends with exactly pkt_spacing + 1 quiet samples.
    for k in 0..65 {
        let s = pkt[pkt.len() - 1 - k];
        assert!(s.re * s.re + s.im * s.im < trig);
    }
    let marker = pkt[pkt.len() - 66];
    assert!(marker.re * marker.re + marker.im * marker.im >= trig);
}

#[test]
fn trigger_quiet_threshold_uses_energy() {
    // A sample of magnitude 0.05 has energy 0.0025, below the 0.01 energy
    // threshold: inside a packet it must count as quiet, even though its
    // magnitude alone exceeds the threshold value.
    let mut config = default_config();
    config.stabilize_samps = 0;
    config.pkt_spacing = 64;
    let mut trigger = PktTrigger::new(&config);
    // The first push only moves the trigger out of its skip state.
    assert!(trigger.push_samp(fx(0.0, 0.0)).is_none());
    assert!(trigger.push_samp(fx(1.0, 0.5)).is_none());
    let mut emitted = 0;
    for _ in 0..65 {
        if trigger.push_samp(fx(0.05, 0.0)).is_some() {
            emitted += 1;
        }
    }
    assert_eq!(emitted, 1);
}

#[test]
fn trigger_quiet_never_emits_while_idle() {
    // Low-energy samples while idle emit nothing, however many arrive.
    let mut config = default_config();
    config.stabilize_samps = 0;
    let mut trigger = PktTrigger::new(&config);
    assert!(trigger.push_samp(fx(0., 0.)).is_none());
    for i in 0..1000u32 {
        let a = 0.09 * ((i % 3) as f64 - 1.0);
        assert!(trigger.push_samp(fx(a, -a)).is_none());
    }
}
