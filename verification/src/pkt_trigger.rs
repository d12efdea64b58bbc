//! Streaming energy-based packet trigger.
//!
//! The trigger consumes one sample at a time and emits a candidate packet
//! buffer once signal energy has risen above `power_trig` and then stayed
//! below it for more than `pkt_spacing` samples.  Emitted buffers carry a
//! guard prefix of up to `pkt_spacing` low-energy samples and end exactly
//! `pkt_spacing` samples after the last high-energy sample.

use vstd::prelude::*;

use crate::config::ChannelEstConfig;
use crate::cplx::{all_valid, cx_nsq, energy, Cplx};

verus! {

#[derive(Clone, Copy, PartialEq, Eq, Structural, Debug)]
pub enum TriggerState {
    /// Discarding start-up garbage; counts the samples seen so far.
    Skip(u64),
    /// Waiting for a high-energy sample; keeps a short rolling history.
    Idle,
    /// Inside a suspected packet; counts consecutive quiet samples.
    Packet(u64),
}

/// What every buffer emitted by the trigger satisfies: a guard prefix of
/// low-energy samples before the first high-energy sample (which sits within
/// the first `spacing + 1` positions), and a tail of exactly `spacing + 1`
/// quiet samples right after the last loud one.
pub open spec fn emitted_packet_ok(buf: Seq<Cplx>, spacing: int, trig: int) -> bool {
    &&& buf.len() >= spacing + 2
    &&& all_valid(buf)
    &&& exists|f: int|
        {
            &&& 0 <= f <= spacing
            &&& f < buf.len()
            &&& cx_nsq(#[trigger] buf[f]@) > trig
            &&& forall|j: int| 0 <= j < f ==> cx_nsq(#[trigger] buf[j]@) <= trig
        }
    &&& forall|j: int|
        buf.len() - spacing - 1 <= j < buf.len() ==> cx_nsq(#[trigger] buf[j]@) < trig
    &&& cx_nsq(buf[buf.len() - spacing - 2]@) >= trig
}

/// Looks for a sudden increase in received signal strength and returns a
/// buffer that should contain the packet.  It is conservative and may return
/// extra samples on either side; the LTS aligner refines the start.
pub struct PktTrigger {
    /// Samples discarded at startup.
    pub stabilize_samps: u64,
    /// Scaled-energy threshold for packet detection.
    pub power_trig: i64,
    /// Quiet samples that close a packet; also the history bound while idle.
    pub pkt_spacing: u64,
    /// Rolling history; when the state is `Packet`, the whole suspected
    /// packet is contained in it.
    pub hist: Vec<Cplx>,
    pub state: TriggerState,
    /// Index in `hist` of the sample that opened the current packet.
    pub first_high: Ghost<int>,
}

impl PktTrigger {
    /// The trigger invariant, maintained by every call to `push_samp`.
    pub open spec fn wf(&self) -> bool {
        &&& self.power_trig >= 0
        &&& all_valid(self.hist@)
        &&& match self.state {
            TriggerState::Skip(k) => self.hist@.len() == 0 && k <= self.stabilize_samps,
            TriggerState::Idle => {
                &&& self.hist@.len() <= self.pkt_spacing
                &&& forall|j: int|
                    0 <= j < self.hist@.len() ==> cx_nsq(#[trigger] self.hist@[j]@)
                        <= self.power_trig
            },
            TriggerState::Packet(n) => {
                &&& n <= self.pkt_spacing
                &&& n + 1 <= self.hist@.len()
                &&& forall|j: int|
                    self.hist@.len() - n <= j < self.hist@.len() ==> cx_nsq(
                        #[trigger] self.hist@[j]@,
                    ) < self.power_trig
                &&& cx_nsq(self.hist@[self.hist@.len() - 1 - n]@) >= self.power_trig
                &&& 0 <= self.first_high@ <= self.pkt_spacing
                &&& self.first_high@ < self.hist@.len()
                &&& cx_nsq(self.hist@[self.first_high@]@) > self.power_trig
                &&& forall|j: int|
                    0 <= j < self.first_high@ ==> cx_nsq(#[trigger] self.hist@[j]@)
                        <= self.power_trig
            },
        }
    }

    pub fn new(config: &ChannelEstConfig) -> (t: PktTrigger)
        requires
            config.power_trig >= 0,
        ensures
            t.wf(),
            t.state == TriggerState::Skip(0),
            t.hist@.len() == 0,
            t.stabilize_samps == config.stabilize_samps,
            t.power_trig == config.power_trig,
            t.pkt_spacing == config.pkt_spacing,
    {
        PktTrigger {
            stabilize_samps: config.stabilize_samps,
            power_trig: config.power_trig,
            pkt_spacing: config.pkt_spacing,
            hist: Vec::new(),
            state: TriggerState::Skip(0),
            first_high: Ghost(0),
        }
    }

    /// Feed one sample; returns the whole suspected packet when one closes.
    ///
    /// The contract is the complete state machine: a packet is emitted
    /// exactly when a quiet sample arrives after `pkt_spacing` quiet ones,
    /// and on every other call the clauses below fix the next state and the
    /// history.  While idle, a sample whose energy does not exceed the
    /// threshold never emits anything.  An emitted buffer satisfies
    /// `emitted_packet_ok`, and the retained history is exactly its last
    /// `pkt_spacing` samples.
    pub fn push_samp(&mut self, samp: Cplx) -> (r: Option<Vec<Cplx>>)
        requires
            old(self).wf(),
            samp.valid(),
        ensures
            final (self).wf(),
            final (self).stabilize_samps == old(self).stabilize_samps,
            final (self).power_trig == old(self).power_trig,
            final (self).pkt_spacing == old(self).pkt_spacing,
            old(self).state is Idle && cx_nsq(samp@) <= old(self).power_trig ==> r is None,
            // A packet is emitted exactly when a due packet sees one more
            // quiet sample.
            r is Some <==> (old(self).state matches TriggerState::Packet(n)
                && n >= old(self).pkt_spacing && cx_nsq(samp@) < old(self).power_trig),
            // Start-up: the sample is discarded and the counter advances
            // until `stabilize_samps`, then the trigger goes idle.
            old(self).state matches TriggerState::Skip(k) ==> {
                &&& final (self).hist@ == old(self).hist@
                &&& final (self).state == (if k >= old(self).stabilize_samps {
                    TriggerState::Idle
                } else {
                    TriggerState::Skip((k + 1) as u64)
                })
            },
            // Idle: the sample is appended; a loud one opens a packet, a
            // quiet one keeps idling with the history pruned to the guard
            // length.
            old(self).state is Idle && cx_nsq(samp@) > old(self).power_trig ==> {
                &&& final (self).state == TriggerState::Packet(0)
                &&& final (self).hist@ == old(self).hist@.push(samp)
            },
            old(self).state is Idle && cx_nsq(samp@) <= old(self).power_trig ==> {
                &&& final (self).state is Idle
                &&& final (self).hist@ == (if old(self).hist@.len() + 1 > old(self).pkt_spacing {
                    old(self).hist@.push(samp).skip(1)
                } else {
                    old(self).hist@.push(samp)
                })
            },
            // In a packet: the sample is appended; a loud one resets the
            // quiet counter, a quiet one advances it until the packet is due.
            old(self).state matches TriggerState::Packet(n) ==> {
                &&& (cx_nsq(samp@) >= old(self).power_trig ==> final (self).state
                    == TriggerState::Packet(0) && final (self).hist@ == old(self).hist@.push(samp))
                &&& (cx_nsq(samp@) < old(self).power_trig && n < old(self).pkt_spacing
                    ==> final (self).state == TriggerState::Packet((n + 1) as u64)
                        && final (self).hist@ == old(self).hist@.push(samp))
            },
            r matches Some(buf) ==> {
                &&& old(self).state matches TriggerState::Packet(n) && n == old(self).pkt_spacing
                &&& cx_nsq(samp@) < old(self).power_trig
                &&& buf@ == old(self).hist@.push(samp)
                &&& emitted_packet_ok(buf@, old(self).pkt_spacing as int, old(self).power_trig as int)
                &&& final (self).state is Idle
                &&& final (self).hist@ == buf@.subrange(
                    buf@.len() - old(self).pkt_spacing,
                    buf@.len() as int,
                )
            },
    {
        match self.state {
            TriggerState::Skip(skip) => {
                if skip >= self.stabilize_samps {
                    self.state = TriggerState::Idle;
                } else {
                    self.state = TriggerState::Skip(skip + 1);
                }
                None
            },
            TriggerState::Idle => {
                self.hist.push(samp);
                let e = energy(samp);
                if e > self.power_trig {
                    self.first_high = Ghost(self.hist@.len() - 1);
                    self.state = TriggerState::Packet(0);
                } else {
                    if self.hist.len() as u64 > self.pkt_spacing {
                        self.hist.remove(0);
                        proof {
                            assert(self.hist@ =~= old(self).hist@.push(samp).skip(1));
                        }
                    }
                }
                None
            },
            TriggerState::Packet(n) => {
                self.hist.push(samp);
                let e = energy(samp);
                if e >= self.power_trig {
                    self.state = TriggerState::Packet(0);
                    None
                } else {
                    if n >= self.pkt_spacing {
                        // The packet has been quiet long enough: emit it.
                        let ghost buf_view = self.hist@;
                        let mut res: Vec<Cplx> = Vec::new();
                        let mut i: usize = 0;
                        while i < self.hist.len()
                            invariant
                                0 <= i <= self.hist@.len(),
                                res@ == self.hist@.subrange(0, i as int),
                            decreases self.hist@.len() - i,
                        {
                            res.push(self.hist[i]);
                            i += 1;
                        }
                        assert(res@ == buf_view);
                        // Retain the trailing `pkt_spacing` samples as the
                        // new idle history.
                        let keep = self.pkt_spacing as usize;
                        let start = self.hist.len() - keep;
                        let mut tail: Vec<Cplx> = Vec::new();
                        let mut j: usize = start;
                        while j < self.hist.len()
                            invariant
                                start <= j <= self.hist@.len(),
                                tail@ == self.hist@.subrange(start as int, j as int),
                            decreases self.hist@.len() - j,
                        {
                            tail.push(self.hist[j]);
                            j += 1;
                        }
                        self.hist = tail;
                        self.state = TriggerState::Idle;
                        proof {
                            assert(cx_nsq(buf_view[self.first_high@]@) > self.power_trig);
                        }
                        Some(res)
                    } else {
                        self.state = TriggerState::Packet(n + 1);
                        None
                    }
                }
            },
        }
    }
}

} // verus!
