//! Decision and synthesis logic of the channel monitor.
//!
//! The monitor repeatedly transmits `[preamble] x num_repeats` followed by a
//! silence period set by the duty cycle, and on the receive side walks the
//! repeats of a triggered packet, re-aligning within a small margin around
//! each expected preamble position and reporting one equalization vector per
//! repeat.  The radio loops themselves live outside the library; everything
//! here is pure computation on buffers.

use vstd::prelude::*;

use crate::cfo::{correct_cfo, correct_cfo_at, estimate_cfo_spec};
use crate::config::{ChannelEstConfig, SEQ_LEN_MAX};
use crate::cplx::{all_valid, copy_range, lemma_all_valid_bounded, Cplx};
use crate::dft::idft_point;
use crate::equalization::{avg_lts_seq, eq_gain, estimate_subcarrier_equalization};
use crate::lts_align::{lemma_peak_argmax_in_range, lts_align_checked, peak_argmax};
use crate::parse_80211::{corrected_seq, eq_vec_spec};

verus! {

/// Fixed-point scale of the duty cycle: a cycle of `DUTY_SCALE` transmits
/// all the time.
pub const DUTY_SCALE: u32 = 65536;

/// Samples the receiver lets each preamble drift before giving up on the
/// rest of a packet.
pub const DRIFT_MARGIN: usize = 5;

pub struct MonitorConfig {
    /// General OFDM configuration.
    pub ofdm: ChannelEstConfig,
    /// Number of times the preamble is repeated per packet.
    pub num_repeats: u64,
    /// Fraction of time transmitting, scaled by `DUTY_SCALE`.
    pub duty_cycle: u32,
}

impl MonitorConfig {
    pub open spec fn wf(&self) -> bool {
        &&& self.ofdm.wf()
        &&& self.ofdm.sts is Some
        &&& self.ofdm.lts is Some
        &&& 1 <= self.duty_cycle <= DUTY_SCALE
    }
}

/// Sample `i` of the transmitted preamble: ten STS repeats, then an `L/2`
/// guard of zeros, then two LTS repeats.
pub open spec fn preamble_at(sts: Seq<Cplx>, lts: Seq<Cplx>, i: int) -> Cplx {
    let s = sts.len() as int;
    let l = lts.len() as int;
    if i < 10 * s {
        sts[i % s]
    } else if i < 10 * s + l / 2 {
        Cplx { re: 0, im: 0 }
    } else {
        lts[(i - 10 * s - l / 2) % l]
    }
}

/// Build the preamble that the monitor transmits repeatedly.
pub fn build_preamble(config: &ChannelEstConfig) -> (p: Vec<Cplx>)
    requires
        config.wf(),
        config.sts is Some,
        config.lts is Some,
    ensures
        p@.len() == 10 * config.spec_sts_len() + 5 * config.spec_lts_len() / 2,
        forall|i: int|
            0 <= i < p@.len() ==> #[trigger] p@[i] == preamble_at(
                config.sts->Some_0@,
                config.lts->Some_0.0@,
                i,
            ),
        all_valid(p@),
{
    let sts = config.sts.as_ref().unwrap();
    let lts = &config.lts.as_ref().unwrap().0;
    let s = sts.len();
    let l = lts.len();
    let mut p: Vec<Cplx> = Vec::new();
    let mut i: usize = 0;
    while i < 10 * s
        invariant
            0 <= i <= 10 * s,
            p@.len() == i,
            1 <= s <= SEQ_LEN_MAX,
            s == sts@.len(),
            all_valid(sts@),
            forall|j: int| 0 <= j < i ==> #[trigger] p@[j] == sts@[j % (s as int)],
            all_valid(p@),
        decreases 10 * s - i,
    {
        p.push(sts[i % s]);
        i += 1;
    }
    let mut g: usize = 0;
    while g < l / 2
        invariant
            0 <= g <= l / 2,
            p@.len() == 10 * s + g,
            1 <= s <= SEQ_LEN_MAX,
            4 <= l <= SEQ_LEN_MAX,
            s == sts@.len(),
            l == lts@.len(),
            all_valid(sts@),
            forall|j: int| 0 <= j < 10 * s ==> #[trigger] p@[j] == sts@[j % (s as int)],
            forall|j: int| 10 * s <= j < p@.len() ==> #[trigger] p@[j] == (Cplx { re: 0, im: 0 }),
            all_valid(p@),
        decreases l / 2 - g,
    {
        p.push(Cplx { re: 0, im: 0 });
        g += 1;
    }
    let mut t: usize = 0;
    while t < 2 * l
        invariant
            0 <= t <= 2 * l,
            p@.len() == 10 * s + l / 2 + t,
            1 <= s <= SEQ_LEN_MAX,
            4 <= l <= SEQ_LEN_MAX,
            l % 4 == 0,
            s == sts@.len(),
            l == lts@.len(),
            all_valid(sts@),
            all_valid(lts@),
            forall|j: int| 0 <= j < 10 * s ==> #[trigger] p@[j] == sts@[j % (s as int)],
            forall|j: int|
                10 * s <= j < 10 * s + l / 2 ==> #[trigger] p@[j] == (Cplx { re: 0, im: 0 }),
            forall|j: int|
                10 * s + l / 2 <= j < p@.len() ==> #[trigger] p@[j] == lts@[(j - 10 * s - l / 2) % (
                l as int)],
            all_valid(p@),
        decreases 2 * l - t,
    {
        p.push(lts[t % l]);
        t += 1;
    }
    proof {
        assert forall|i2: int| 0 <= i2 < p@.len() implies #[trigger] p@[i2] == preamble_at(
            sts@,
            lts@,
            i2,
        ) by {
            if 10 * s + l / 2 <= i2 {
                assert(p@[i2] == lts@[(i2 - 10 * s - l / 2) % (l as int)]);
            }
        }
    }
    p
}

/// The silence period that realizes a duty cycle: transmitting for
/// `preamble_len` samples then staying quiet this long makes the active
/// fraction `duty / DUTY_SCALE` (rounded to the nearest sample).
pub fn silence_len(preamble_len: u64, duty: u32) -> (n: u64)
    requires
        1 <= duty <= DUTY_SCALE,
        preamble_len <= 0x1_0000_0000,
    ensures
        n == (preamble_len * (DUTY_SCALE - duty) + (duty as int) / 2) / (duty as int),
{
    proof {
        vstd::arithmetic::mul::lemma_mul_upper_bound(
            preamble_len as int,
            0x1_0000_0000,
            (DUTY_SCALE - duty) as int,
            65536,
        );
    }
    (preamble_len * ((DUTY_SCALE - duty) as u64) + (duty / 2) as u64) / (duty as u64)
}

/// Whether a re-aligned LTS position is close enough to where the sample
/// clock predicted it.
pub fn drift_ok(measured: usize, expected: usize, margin: usize) -> (r: bool)
    ensures
        r == (-(margin as int) <= measured - expected <= margin as int),
{
    if measured >= expected {
        measured - expected <= margin
    } else {
        expected - measured <= margin
    }
}

/// The equalization vector of the repeat whose long preamble starts at
/// `ls`: the CFO estimated from the preamble slices around `ls`, the long
/// preamble corrected by it, and the per-subcarrier gains.
pub open spec fn monitor_eq_at(pkt: Seq<Cplx>, config: ChannelEstConfig, ls: int) -> Seq<
    Option<Cplx>,
> {
    let s = config.spec_sts_len();
    let l = config.spec_lts_len();
    let long = pkt.subrange(ls, ls + 5 * l / 2);
    let cfo = estimate_cfo_spec(pkt.subrange(ls - 10 * s, ls), long, s, l);
    eq_vec_spec(corrected_seq(long, cfo), config)
}

/// The monitor's walk over the preamble repeats of one packet, starting at
/// the long-preamble position `cur`, for `reps` more repeats: one
/// equalization vector per repeat, stopping at the buffer end or when no
/// peak leaves room for the preamble slices.
pub open spec fn monitor_walk(pkt: Seq<Cplx>, config: ChannelEstConfig, cur: int, reps: int) -> Seq<
    Seq<Option<Cplx>>,
>
    decreases reps, 1int,
{
    let s = config.spec_sts_len();
    let l = config.spec_lts_len();
    if reps <= 0 {
        Seq::empty()
    } else if cur < 10 * s || cur + 5 * l / 2 > pkt.len() {
        Seq::empty()
    } else if reps == 1 {
        seq![monitor_eq_at(pkt, config, cur)]
    } else {
        seq![monitor_eq_at(pkt, config, cur)] + monitor_walk_rest(pkt, config, cur, reps)
    }
}

/// The tail of one walk step: the re-alignment within `DRIFT_MARGIN` around
/// the expected next preamble position, and the rest of the walk from
/// there; empty when a window does not fit, when the peak leaves no room
/// for the guard, or when the drift exceeds the margin.
pub open spec fn monitor_walk_rest(
    pkt: Seq<Cplx>,
    config: ChannelEstConfig,
    cur: int,
    reps: int,
) -> Seq<Seq<Option<Cplx>>>
    decreases reps, 0int,
{
    let s = config.spec_sts_len();
    let l = config.spec_lts_len();
    let span = 10 * s + 5 * l / 2;
    let wlen = span + l / 2;
    let expected = cur + span;
    if reps <= 0 || expected < DRIFT_MARGIN {
        Seq::empty()
    } else {
        let wfrom = expected - DRIFT_MARGIN;
        let wto = expected + wlen;
        if wto > pkt.len() || wto - wfrom <= 2 * l {
            Seq::empty()
        } else {
            let w = pkt.subrange(wfrom, wto);
            let pk = peak_argmax(w, config.lts->Some_0.0@, w.len() - 2 * l);
            if pk < l / 2 {
                Seq::empty()
            } else {
                let cand = wfrom + pk - l / 2;
                if cand - expected > DRIFT_MARGIN || expected - cand > DRIFT_MARGIN {
                    Seq::empty()
                } else {
                    monitor_walk(pkt, config, cand, reps - 1)
                }
            }
        }
    }
}

/// The monitor's whole per-packet result: the first alignment within the
/// guard window at the head, then the walk over the repeats.
pub open spec fn monitor_rx_spec(pkt: Seq<Cplx>, m: MonitorConfig) -> Seq<Seq<Option<Cplx>>> {
    let s = m.ofdm.spec_sts_len();
    let l = m.ofdm.spec_lts_len();
    let wlen = 10 * s + 5 * l / 2 + l / 2;
    let fm = m.ofdm.pkt_spacing + wlen;
    if pkt.len() < fm || fm <= 2 * l {
        Seq::empty()
    } else {
        let w = pkt.subrange(0, fm);
        let pk = peak_argmax(w, m.ofdm.lts->Some_0.0@, fm - 2 * l);
        if pk < l / 2 {
            Seq::empty()
        } else {
            monitor_walk(pkt, m.ofdm, pk - l / 2, m.num_repeats as int)
        }
    }
}

/// Walk the preamble repeats of one triggered packet and estimate the
/// subcarrier equalization of each: the result is exactly `monitor_rx_spec`.
/// One vector is returned per successfully processed repeat, each marking a
/// subcarrier absent exactly where the LTS reference does.
pub fn monitor_rx_packet(pkt: &Vec<Cplx>, monitor: &MonitorConfig) -> (out: Vec<
    Vec<Option<Cplx>>,
>)
    requires
        monitor.wf(),
        all_valid(pkt@),
        pkt@.len() <= 0x4000_0000,
    ensures
        out@.len() <= monitor.num_repeats,
        forall|j: int|
            0 <= j < out@.len() ==> (#[trigger] out@[j])@.len() == monitor.ofdm.spec_lts_len(),
        forall|j: int, k: int|
            0 <= j < out@.len() && 0 <= k < monitor.ofdm.spec_lts_len() ==> ((
            #[trigger] out@[j]@[k]) is None <==> monitor.ofdm.lts->Some_0.1@[k] is None),
        out@.map_values(|v: Vec<Option<Cplx>>| v@) == monitor_rx_spec(pkt@, *monitor),
{
    let config = &monitor.ofdm;
    let num_repeats = monitor.num_repeats;
    let s_len = config.sts.as_ref().unwrap().len();
    let l_len = config.lts.as_ref().unwrap().0.len();
    let mut out: Vec<Vec<Option<Cplx>>> = Vec::new();
    let ghost vw = |v: Vec<Option<Cplx>>| v@;
    proof {
        assert(out@.map_values(vw) =~= Seq::<Seq<Option<Cplx>>>::empty());
    }
    // One transmitted preamble; the alignment windows get an extra L/2 of
    // margin for error.
    let span = 10 * s_len + 5 * l_len / 2;
    let window_len = span + l_len / 2;
    let total = pkt.len();
    // The first guard window must fit in the buffer.
    let first_margin: usize = match config.pkt_spacing.checked_add(window_len as u64) {
        Some(m) => {
            if (total as u64) < m {
                return out;
            }
            m as usize
        },
        None => {
            return out;
        },
    };
    if first_margin <= 2 * l_len {
        return out;
    }
    // Align the first LTS within the head of the packet.
    let window = copy_range(pkt, 0, first_margin);
    proof {
        assert forall|i: int| 0 <= i < window@.len() implies (#[trigger] window@[i]).valid() by {
            assert(window@[i] == pkt@[i]);
            assert(pkt@[i].valid());
        }
        lemma_peak_argmax_in_range(window@, config.lts->Some_0.0@, first_margin - 2 * l_len);
    }
    let mut cur_lts_start: usize = match lts_align_checked(&window, &config.lts.as_ref().unwrap().0) {
        Some(v) => v,
        None => {
            return out;
        },
    };
    let ghost cur0: int = cur_lts_start as int;
    let ghost full: Seq<Seq<Option<Cplx>>> = monitor_walk(
        pkt@,
        monitor.ofdm,
        cur0,
        num_repeats as int,
    );
    proof {
        assert(monitor_rx_spec(pkt@, *monitor) == full);
        assert(Seq::<Seq<Option<Cplx>>>::empty() + full =~= full);
    }
    let mut rep: u64 = 0;
    while rep < num_repeats
        invariant_except_break
            cur_lts_start <= pkt@.len(),
            num_repeats == monitor.num_repeats,
            full == monitor_walk(pkt@, monitor.ofdm, cur0, num_repeats as int),
            out@.map_values(vw) + monitor_walk(
                pkt@,
                monitor.ofdm,
                cur_lts_start as int,
                num_repeats - rep,
            ) == full,
        invariant
            0 <= rep <= num_repeats,
            out@.len() <= rep,
            config == &monitor.ofdm,
            config.wf(),
            config.sts is Some,
            config.lts is Some,
            s_len == config.spec_sts_len(),
            l_len == config.spec_lts_len(),
            span == 10 * s_len + 5 * l_len / 2,
            window_len == span + l_len / 2,
            all_valid(pkt@),
            total == pkt@.len(),
            pkt@.len() <= 0x4000_0000,
            vw == (|v: Vec<Option<Cplx>>| v@),
            forall|j: int|
                0 <= j < out@.len() ==> (#[trigger] out@[j])@.len() == config.spec_lts_len(),
            forall|j: int, k: int|
                0 <= j < out@.len() && 0 <= k < config.spec_lts_len() ==> ((#[trigger] out@[j]@[k])
                    is None <==> config.lts->Some_0.1@[k] is None),
        ensures
            out@.map_values(vw) == full,
        decreases num_repeats - rep,
    {
        let ghost walk_here: Seq<Seq<Option<Cplx>>> = monitor_walk(
            pkt@,
            monitor.ofdm,
            cur_lts_start as int,
            num_repeats - rep,
        );
        // Bounds of the current repeat's preamble slices.
        if cur_lts_start < 10 * s_len {
            proof {
                assert(walk_here =~= Seq::<Seq<Option<Cplx>>>::empty());
                assert(out@.map_values(vw) + walk_here =~= out@.map_values(vw));
            }
            break ;
        }
        let long_end = cur_lts_start + 5 * l_len / 2;
        if long_end > total {
            proof {
                assert(walk_here =~= Seq::<Seq<Option<Cplx>>>::empty());
                assert(out@.map_values(vw) + walk_here =~= out@.map_values(vw));
            }
            break ;
        }
        let short = copy_range(pkt, cur_lts_start - 10 * s_len, cur_lts_start);
        let long = copy_range(pkt, cur_lts_start, long_end);
        proof {
            assert forall|i: int| 0 <= i < short@.len() implies (#[trigger] short@[i]).valid() by {
                assert(short@[i] == pkt@[cur_lts_start - 10 * s_len + i]);
                assert(pkt@[cur_lts_start - 10 * s_len + i].valid());
            }
            assert forall|i: int| 0 <= i < long@.len() implies (#[trigger] long@[i]).valid() by {
                assert(long@[i] == pkt@[cur_lts_start + i]);
                assert(pkt@[cur_lts_start + i].valid());
            }
            lemma_all_valid_bounded(long@);
        }
        // CFO-correct the long preamble and estimate the equalization.
        let cfo = crate::cfo::estimate_cfo(&short, &long, config);
        let long_corr = correct_cfo(&long, cfo);
        proof {
            assert forall|j: int| 0 <= j < long_corr@.len() implies #[trigger] long_corr@[j]
                == corrected_seq(long@, cfo as int)[j] by {
                assert(long_corr@[j]@ == correct_cfo_at(long@, cfo as int, j));
            }
            assert(long_corr@ =~= corrected_seq(long@, cfo as int));
        }
        let eq = estimate_subcarrier_equalization(&long_corr, config);
        proof {
            assert forall|k: int| 0 <= k < eq@.len() implies #[trigger] eq@[k] == eq_vec_spec(
                long_corr@,
                monitor.ofdm,
            )[k] by {
                if config.lts->Some_0.1@[k] is None {
                    assert(eq@[k] is None);
                } else {
                    assert(config.lts->Some_0.1@[k] matches Some(r) && eq@[k] matches Some(g)
                        && g@ == eq_gain(
                        r@,
                        idft_point(avg_lts_seq(long_corr@, config.spec_lts_len()), k),
                    ));
                }
            }
            assert(eq@ =~= eq_vec_spec(long_corr@, monitor.ofdm));
            assert(eq@ == monitor_eq_at(pkt@, monitor.ofdm, cur_lts_start as int));
            assert(out@.push(eq).map_values(vw) =~= out@.map_values(vw).push(eq@));
        }
        let ghost outs_before: Seq<Seq<Option<Cplx>>> = out@.map_values(vw);
        out.push(eq);
        rep += 1;
        if rep >= num_repeats {
            proof {
                assert(walk_here =~= seq![eq@]);
                assert(outs_before + walk_here =~= out@.map_values(vw));
            }
            break ;
        }
        let ghost rest: Seq<Seq<Option<Cplx>>> = monitor_walk_rest(
            pkt@,
            monitor.ofdm,
            cur_lts_start as int,
            num_repeats - rep + 1,
        );
        proof {
            assert(walk_here =~= seq![eq@] + rest);
            assert(outs_before + walk_here =~= out@.map_values(vw) + rest);
        }
        // Predict the next preamble position and re-align around it to
        // tolerate sample-clock drift.
        let expected = cur_lts_start + span;
        if expected < DRIFT_MARGIN {
            proof {
                assert(rest =~= Seq::<Seq<Option<Cplx>>>::empty());
                assert(out@.map_values(vw) + rest =~= out@.map_values(vw));
            }
            break ;
        }
        let wfrom = expected - DRIFT_MARGIN;
        let wto = expected + window_len;
        if wto > total || wto - wfrom <= 2 * l_len {
            proof {
                assert(rest =~= Seq::<Seq<Option<Cplx>>>::empty());
                assert(out@.map_values(vw) + rest =~= out@.map_values(vw));
            }
            break ;
        }
        let rewindow = copy_range(pkt, wfrom, wto);
        proof {
            assert forall|i: int| 0 <= i < rewindow@.len() implies (
            #[trigger] rewindow@[i]).valid() by {
                assert(rewindow@[i] == pkt@[wfrom + i]);
                assert(pkt@[wfrom + i].valid());
            }
            lemma_peak_argmax_in_range(
                rewindow@,
                config.lts->Some_0.0@,
                rewindow@.len() - 2 * l_len,
            );
        }
        let next = match lts_align_checked(&rewindow, &config.lts.as_ref().unwrap().0) {
            Some(v) => v,
            None => {
                proof {
                    assert(rest =~= Seq::<Seq<Option<Cplx>>>::empty());
                    assert(out@.map_values(vw) + rest =~= out@.map_values(vw));
                }
                break ;
            },
        };
        let cand = wfrom + next;
        // More drift than the margin allows: skip the rest of the packet.
        if !drift_ok(cand, expected, DRIFT_MARGIN) {
            proof {
                assert(rest =~= Seq::<Seq<Option<Cplx>>>::empty());
                assert(out@.map_values(vw) + rest =~= out@.map_values(vw));
            }
            break ;
        }
        proof {
            assert(rest == monitor_walk(pkt@, monitor.ofdm, cand as int, num_repeats - rep));
        }
        cur_lts_start = cand;
    }
    out
}

} // verus!
