//! Top-level receive pipeline for one candidate packet buffer.
//!
//! Given a buffer that should contain a packet (for example one emitted by
//! `PktTrigger`), align on the LTS, estimate and correct the CFO, estimate
//! the per-subcarrier equalization, then walk the data symbols (cyclic
//! prefix `L/4`, symbol `L`), equalizing each one until a low-energy symbol
//! marks the end of the packet.  The whole composition is pinned down by
//! `parse_80211_spec`.

use vstd::prelude::*;

use crate::cfo::{correct_cfo, correct_cfo_at, estimate_cfo, estimate_cfo_spec};
use crate::config::{ChannelEstConfig, SEQ_LEN_MAX};
use crate::cplx::{all_valid, copy_range, cx_nsq, energy, lemma_all_valid_bounded, Cplx};
use crate::dft::idft_point;
use crate::equalization::{
    avg_lts_seq, count_present, cplx_from, eq_gain, eq_points, eq_vec_bounded, equalize_symbol,
    estimate_subcarrier_equalization, lemma_eq_points_len,
};
use crate::lts_align::{lts_align, peak_argmax};
use crate::trig::PI_SC;

verus! {

/// The slice `s` after CFO correction by `cfo`.
pub open spec fn corrected_seq(s: Seq<Cplx>, cfo: int) -> Seq<Cplx> {
    Seq::new(s.len(), |i: int| cplx_from(correct_cfo_at(s, cfo, i)))
}

/// The equalization vector computed from a corrected long preamble.
pub open spec fn eq_vec_spec(long_corr: Seq<Cplx>, config: ChannelEstConfig) -> Seq<Option<Cplx>> {
    let l = config.spec_lts_len();
    Seq::new(
        l as nat,
        |k: int|
            if config.lts->Some_0.1@[k] is None {
                None
            } else {
                Some(
                    cplx_from(
                        eq_gain(config.lts->Some_0.1@[k]->0@, idft_point(avg_lts_seq(long_corr, l), k)),
                    ),
                )
            },
    )
}

/// Total signal energy (`sum of |s[j]|^2`) of the first `k` samples.
pub open spec fn energy_sum(s: Seq<Cplx>, k: int) -> int
    decreases k,
{
    if k <= 0 {
        0
    } else {
        energy_sum(s, k - 1) + cx_nsq(s[k - 1]@)
    }
}

/// The concatenated equalized points of the data symbols starting at `i`:
/// each symbol is `samps[i + L/4, i + 5L/4)` (cyclic prefix skipped), and
/// the walk stops at the buffer end or at the first symbol whose energy
/// falls below one percent of the long preamble's.
pub open spec fn parse_points(
    samps: Seq<Cplx>,
    cfo: int,
    eq: Seq<Option<Cplx>>,
    e_long: int,
    l: int,
    i: int,
) -> Seq<Cplx>
    decreases samps.len() - i,
    when l >= 4
{
    if l < 4 || i < 0 || i >= samps.len() - 5 * l / 4 {
        Seq::empty()
    } else {
        let sym = samps.subrange(i + l / 4, i + 5 * l / 4);
        if 100 * energy_sum(sym, l) < e_long {
            Seq::empty()
        } else {
            eq_points(corrected_seq(sym, cfo), eq, l) + parse_points(
                samps,
                cfo,
                eq,
                e_long,
                l,
                i + 5 * l / 4,
            )
        }
    }
}

/// How many data symbols the walk starting at `i` takes before the buffer
/// ends or a low-energy symbol stops it.
pub open spec fn symbols_taken(samps: Seq<Cplx>, e_long: int, l: int, i: int) -> int
    decreases samps.len() - i,
    when l >= 4
{
    if l < 4 || i < 0 || i >= samps.len() - 5 * l / 4 {
        0
    } else {
        let sym = samps.subrange(i + l / 4, i + 5 * l / 4);
        if 100 * energy_sum(sym, l) < e_long {
            0
        } else {
            1 + symbols_taken(samps, e_long, l, i + 5 * l / 4)
        }
    }
}

/// The parser emits exactly one constellation point per present subcarrier
/// per data symbol it takes.
pub proof fn lemma_parse_points_len(
    samps: Seq<Cplx>,
    cfo: int,
    eq: Seq<Option<Cplx>>,
    e_long: int,
    l: int,
    i: int,
)
    requires
        l >= 4,
        eq.len() == l,
    ensures
        parse_points(samps, cfo, eq, e_long, l, i).len() == symbols_taken(samps, e_long, l, i)
            * count_present(eq, l),
    decreases samps.len() - i,
{
    if i < 0 || i >= samps.len() - 5 * l / 4 {
        assert(0 * count_present(eq, l) == 0) by (nonlinear_arith);
    } else {
        let sym = samps.subrange(i + l / 4, i + 5 * l / 4);
        if 100 * energy_sum(sym, l) < e_long {
            assert(0 * count_present(eq, l) == 0) by (nonlinear_arith);
        } else {
            lemma_parse_points_len(samps, cfo, eq, e_long, l, i + 5 * l / 4);
            lemma_eq_points_len(corrected_seq(sym, cfo), eq, l);
            let k = symbols_taken(samps, e_long, l, i + 5 * l / 4);
            let c = count_present(eq, l);
            assert(c + k * c == (1 + k) * c) by (nonlinear_arith);
        }
    }
}

/// Where the long preamble starts in the aligned window.
pub open spec fn spec_lts_start(samps: Seq<Cplx>, config: ChannelEstConfig) -> int {
    let s = config.spec_sts_len();
    let l = config.spec_lts_len();
    let bound = config.pkt_spacing + 10 * s + 5 * l / 2;
    let w = samps.subrange(0, bound);
    peak_argmax(w, config.lts->Some_0.0@, bound - 2 * l) - l / 2
}

/// The parser's CFO estimate.
pub open spec fn spec_pkt_cfo(samps: Seq<Cplx>, config: ChannelEstConfig) -> int {
    let s = config.spec_sts_len();
    let l = config.spec_lts_len();
    let ls = spec_lts_start(samps, config);
    estimate_cfo_spec(
        samps.subrange(ls - 10 * s, ls),
        samps.subrange(ls, ls + 5 * l / 2),
        s,
        l,
    )
}

/// The exact result of the packet parser.
pub open spec fn parse_80211_spec(samps: Seq<Cplx>, config: ChannelEstConfig) -> Seq<Cplx> {
    let l = config.spec_lts_len();
    let ls = spec_lts_start(samps, config);
    let long = samps.subrange(ls, ls + 5 * l / 2);
    let cfo = spec_pkt_cfo(samps, config);
    let eq = eq_vec_spec(corrected_seq(long, cfo), config);
    parse_points(samps, cfo, eq, energy_sum(long, long.len() as int), l, ls + 5 * l / 2)
}

/// Parse one candidate packet buffer into equalized constellation points.
///
/// The buffer must hold the whole aligned window, and the correlation peak
/// must leave room for the short preamble before the long one (the trigger's
/// guard prefix and the transmitter's packet layout provide both).
pub fn parse_80211_pkt(samps: &Vec<Cplx>, config: &ChannelEstConfig) -> (res: Vec<Cplx>)
    requires
        config.wf(),
        config.sts is Some,
        config.lts is Some,
        all_valid(samps@),
        samps@.len() <= 0x1_0000_0000,
        samps@.len() >= config.pkt_spacing + 10 * config.spec_sts_len() + 5
            * config.spec_lts_len() / 2,
        spec_lts_start(samps@, *config) >= 10 * config.spec_sts_len(),
    ensures
        res@ == parse_80211_spec(samps@, *config),
{
    let total = samps.len();
    let s_len = config.sts.as_ref().unwrap().len();
    let l_len = config.lts.as_ref().unwrap().0.len();
    let spacing = config.pkt_spacing as usize;
    // The LTS must lie within this many samples of the head.
    let lts_bound = spacing + 10 * s_len + 5 * l_len / 2;
    let window = copy_range(samps, 0, lts_bound);
    proof {
        assert forall|i: int| 0 <= i < window@.len() implies (#[trigger] window@[i]).valid() by {
            assert(window@[i] == samps@[i]);
            assert(samps@[i].valid());
        }
        crate::lts_align::lemma_peak_argmax_in_range(
            window@,
            config.lts->Some_0.0@,
            window@.len() - 2 * l_len,
        );
    }
    let lts_start = lts_align(&window, &config.lts.as_ref().unwrap().0);
    // Slice out the short and long preambles around the alignment point.
    let short = copy_range(samps, lts_start - 10 * s_len, lts_start);
    let long = copy_range(samps, lts_start, lts_start + 5 * l_len / 2);
    proof {
        assert forall|i: int| 0 <= i < short@.len() implies (#[trigger] short@[i]).valid() by {
            assert(short@[i] == samps@[lts_start - 10 * s_len + i]);
            assert(samps@[lts_start - 10 * s_len + i].valid());
        }
        assert forall|i: int| 0 <= i < long@.len() implies (#[trigger] long@[i]).valid() by {
            assert(long@[i] == samps@[lts_start + i]);
            assert(samps@[lts_start + i].valid());
        }
    }
    let cfo = estimate_cfo(&short, &long, config);
    proof {
        lemma_all_valid_bounded(long@);
    }
    let long_corr = correct_cfo(&long, cfo);
    proof {
        assert forall|j: int| 0 <= j < long_corr@.len() implies #[trigger] long_corr@[j]
            == corrected_seq(long@, cfo as int)[j] by {
            assert(long_corr@[j]@ == correct_cfo_at(long@, cfo as int, j));
        }
        assert(long_corr@ =~= corrected_seq(long@, cfo as int));
    }
    let equalization = estimate_subcarrier_equalization(&long_corr, config);
    proof {
        assert forall|k: int| 0 <= k < equalization@.len() implies #[trigger] equalization@[k]
            == eq_vec_spec(long_corr@, *config)[k] by {
            if config.lts->Some_0.1@[k] is None {
                assert(equalization@[k] is None);
            } else {
                assert(config.lts->Some_0.1@[k] matches Some(r)
                    && equalization@[k] matches Some(g) && g@ == eq_gain(
                    r@,
                    idft_point(avg_lts_seq(long_corr@, config.spec_lts_len()), k),
                ));
            }
        }
        assert(equalization@ =~= eq_vec_spec(long_corr@, *config));
    }
    // Energy of the long preamble: a symbol below one percent of it (one
    // tenth in RMS) ends the packet.
    let e_long = energy_range(&long, 0, long.len());
    // Walk the data symbols.
    let mut res: Vec<Cplx> = Vec::new();
    let mut i: usize = lts_start + 5 * l_len / 2;
    let ghost cfo_g: int = cfo as int;
    let ghost eq_g: Seq<Option<Cplx>> = equalization@;
    let ghost el_g: int = e_long as int;
    let stop = samps.len() - 5 * l_len / 4;
    while i < stop
        invariant_except_break
            0 <= i,
            4 <= l_len <= SEQ_LEN_MAX,
            l_len % 4 == 0,
            stop == samps@.len() - 5 * l_len / 4,
            samps@.len() <= 0x1_0000_0000,
            all_valid(samps@),
            -2 * PI_SC <= cfo <= 2 * PI_SC,
            cfo_g == cfo as int,
            eq_g == equalization@,
            el_g == e_long as int,
            equalization@.len() == l_len,
            eq_vec_bounded(equalization@),
            res@ + parse_points(samps@, cfo_g, eq_g, el_g, l_len as int, i as int)
                == parse_points(
                samps@,
                cfo_g,
                eq_g,
                el_g,
                l_len as int,
                lts_start + 5 * l_len / 2,
            ),
        ensures
            res@ == parse_points(samps@, cfo_g, eq_g, el_g, l_len as int, lts_start + 5 * l_len / 2),
        decreases stop + 5 * l_len / 4 - i,
    {
        let symbol = copy_range(samps, i + l_len / 4, i + 5 * l_len / 4);
        proof {
            assert forall|j: int| 0 <= j < symbol@.len() implies (#[trigger] symbol@[j]).valid() by {
                assert(symbol@[j] == samps@[i + l_len / 4 + j]);
                assert(samps@[i + l_len / 4 + j].valid());
            }
        }
        let e_sym = energy_range(&symbol, 0, symbol.len());
        if 100 * (e_sym as i128) < e_long as i128 {
            proof {
                assert(parse_points(samps@, cfo_g, eq_g, el_g, l_len as int, i as int)
                    =~= Seq::<Cplx>::empty());
                assert(res@ + Seq::<Cplx>::empty() =~= res@);
            }
            break ;
        }
        proof {
            lemma_all_valid_bounded(symbol@);
        }
        let corrected = correct_cfo(&symbol, cfo);
        proof {
            assert forall|j: int| 0 <= j < corrected@.len() implies #[trigger] corrected@[j]
                == corrected_seq(symbol@, cfo_g)[j] by {
                assert(corrected@[j]@ == correct_cfo_at(symbol@, cfo_g, j));
            }
            assert(corrected@ =~= corrected_seq(symbol@, cfo_g));
        }
        let mut points = equalize_symbol(&corrected, &equalization);
        proof {
            let full = parse_points(samps@, cfo_g, eq_g, el_g, l_len as int, i as int);
            let rest = parse_points(
                samps@,
                cfo_g,
                eq_g,
                el_g,
                l_len as int,
                i as int + 5 * l_len / 4,
            );
            assert(full == eq_points(corrected_seq(symbol@, cfo_g), eq_g, l_len as int) + rest);
            assert((res@ + full) =~= (res@ + points@) + rest);
        }
        res.append(&mut points);
        i += 5 * l_len / 4;
    }
    proof {
        if i >= stop {
            assert(parse_points(samps@, cfo_g, eq_g, el_g, l_len as int, i as int)
                =~= Seq::<Cplx>::empty());
            assert(res@ + Seq::<Cplx>::empty() =~= res@);
        }
    }
    res
}

/// Total energy of the samples in `[from, to)`, exactly `energy_sum`.
fn energy_range(v: &Vec<Cplx>, from: usize, to: usize) -> (e: i128)
    requires
        from == 0,
        to == v@.len(),
        v@.len() <= 0x1_0000_0000,
        all_valid(v@),
    ensures
        e == energy_sum(v@, v@.len() as int),
        0 <= e <= v@.len() * 0x40_0000_0000_0000,
{
    let mut e: i128 = 0;
    let mut i: usize = 0;
    while i < to
        invariant
            0 <= i <= to,
            to == v@.len(),
            v@.len() <= 0x1_0000_0000,
            all_valid(v@),
            e == energy_sum(v@, i as int),
            0 <= e <= i * 0x40_0000_0000_0000,
        decreases to - i,
    {
        let s = energy(v[i]);
        proof {
            vstd::arithmetic::mul::lemma_mul_inequality(
                i as int,
                0x1_0000_0000,
                0x40_0000_0000_0000,
            );
            vstd::arithmetic::mul::lemma_mul_inequality(
                i as int + 1,
                0x1_0000_0000,
                0x40_0000_0000_0000,
            );
            assert((i + 1) * 0x40_0000_0000_0000 == i * 0x40_0000_0000_0000 + 0x40_0000_0000_0000)
                by (nonlinear_arith);
        }
        e = e + s as i128;
        i += 1;
    }
    e
}

} // verus!
