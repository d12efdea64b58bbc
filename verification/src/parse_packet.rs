//! An alternative packet-parsing front: the preamble slices and the CFO
//! phasor bundled in one value, aligned over the whole buffer rather than a
//! bounded window.

use vstd::prelude::*;

use crate::cfo::estimate_cfo_spec;
use crate::config::ChannelEstConfig;
use crate::cplx::{all_valid, Cplx};
use crate::lts_align::{lts_align, peak_argmax};
use crate::trig::cos_sin_spec;

verus! {

/// CFO estimate from the short and long preambles; same two-stage scheme as
/// `cfo::estimate_cfo`, re-exposed by this front.
pub fn estimate_cfo(short: &Vec<Cplx>, long: &Vec<Cplx>, config: &ChannelEstConfig) -> (cfo: i64)
    requires
        config.wf(),
        config.sts is Some,
        config.lts is Some,
        all_valid(short@),
        all_valid(long@),
        short@.len() == 10 * config.spec_sts_len(),
        long@.len() == 5 * config.spec_lts_len() / 2,
    ensures
        cfo == estimate_cfo_spec(short@, long@, config.spec_sts_len(), config.spec_lts_len()),
        -2 * crate::trig::PI_SC <= cfo <= 2 * crate::trig::PI_SC,
{
    crate::cfo::estimate_cfo(short, long, config)
}

/// An unfinished estimator variant behind this front: it checks the slice
/// layout it expects (the last three half-LTS blocks of the long preamble)
/// and yields no equalization.  Kept for interface parity; the working
/// estimator is `equalization::estimate_subcarrier_equalization`.
pub fn estimate_subcarrier_equalization(long: &Vec<Cplx>, config: &ChannelEstConfig) -> (eq: Vec<
    Option<Cplx>,
>)
    requires
        config.wf(),
        config.lts is Some,
        long@.len() == 3 * config.spec_lts_len() / 2,
    ensures
        eq@.len() == 0,
{
    Vec::new()
}

/// Where this front's aligner places the long preamble: the two-peak argmax
/// over the whole buffer, shifted back by the guard interval.
pub open spec fn spec_pkt_lts_start(pkt: Seq<Cplx>, config: ChannelEstConfig) -> int {
    peak_argmax(pkt, config.lts->Some_0.0@, pkt.len() - 2 * config.spec_lts_len())
        - config.spec_lts_len() / 2
}

/// The preamble slices of one packet and its per-sample CFO phasor.
pub struct ParsePacket {
    /// The short preamble (ten STS repeats).
    pub short: Vec<Cplx>,
    /// The long preamble (guard and both LTS repeats).
    pub long: Vec<Cplx>,
    /// Unit phasor of one sample of CFO correction (`exp(-j cfo)`),
    /// at `PH_SCALE`.
    pub cfo_corr: Cplx,
}

impl ParsePacket {
    /// Align `pkt`, slice out its preambles, and estimate the correction
    /// phasor.
    pub fn new(pkt: &Vec<Cplx>, config: &ChannelEstConfig) -> (p: ParsePacket)
        requires
            config.wf(),
            config.sts is Some,
            config.lts is Some,
            all_valid(pkt@),
            pkt@.len() > 2 * config.spec_lts_len(),
            spec_pkt_lts_start(pkt@, *config) >= 10 * config.spec_sts_len(),
            spec_pkt_lts_start(pkt@, *config) + 5 * config.spec_lts_len() / 2 <= pkt@.len(),
        ensures
            ({
                let ls = spec_pkt_lts_start(pkt@, *config);
                let s = config.spec_sts_len();
                let l = config.spec_lts_len();
                &&& p.short@ == pkt@.subrange(ls - 10 * s, ls)
                &&& p.long@ == pkt@.subrange(ls, ls + 5 * l / 2)
                &&& p.cfo_corr@.re == cos_sin_spec(
                    -estimate_cfo_spec(p.short@, p.long@, s, l),
                ).0
                &&& p.cfo_corr@.im == cos_sin_spec(
                    -estimate_cfo_spec(p.short@, p.long@, s, l),
                ).1
            }),
    {
        let total = pkt.len();
        let s_len = config.sts.as_ref().unwrap().len();
        let l_len = config.lts.as_ref().unwrap().0.len();
        let lts_start = lts_align(pkt, &config.lts.as_ref().unwrap().0);
        proof {
            assert(lts_start + 5 * (l_len as int) / 2 <= total as int);
        }
        let short = crate::cplx::copy_range(pkt, lts_start - 10 * s_len, lts_start);
        let long = crate::cplx::copy_range(pkt, lts_start, lts_start + 5 * l_len / 2);
        proof {
            assert forall|i: int| 0 <= i < short@.len() implies (#[trigger] short@[i]).valid() by {
                assert(short@[i] == pkt@[lts_start - 10 * s_len + i]);
                assert(pkt@[lts_start - 10 * s_len + i].valid());
            }
            assert forall|i: int| 0 <= i < long@.len() implies (#[trigger] long@[i]).valid() by {
                assert(long@[i] == pkt@[lts_start + i]);
                assert(pkt@[lts_start + i].valid());
            }
        }
        let cfo = crate::cfo::estimate_cfo(&short, &long, config);
        let ph = crate::trig::cos_sin(-cfo);
        ParsePacket { short, long, cfo_corr: Cplx { re: ph.0, im: ph.1 } }
    }
}

} // verus!
