//! OFDM channel estimation for packets with an 802.11a/g-style preamble:
//! `<10 x STS> <L/2 guard> <2 x LTS> [<cyclic prefix> <symbol>]...`
//!
//! All signal processing works on fixed-point complex samples (`Cplx`):
//! a real value `x` is represented by the integer `round(x * SAMP_SCALE)`.
//! Angles (carrier-frequency offsets) are radians scaled by `ANGLE_SCALE`.
//!
//! The pipeline is: a streaming energy trigger (`PktTrigger`) emits candidate
//! buffers; `lts_align` locates the long training sequence; `estimate_cfo` /
//! `correct_cfo` measure and undo the carrier frequency offset;
//! `estimate_subcarrier_equalization` / `equalize_symbol` estimate and apply
//! the per-subcarrier channel gains; `parse_80211_pkt` composes the stages.


pub mod cplx;
pub mod cfo;
pub mod channel_monitor;
pub mod config;
pub mod dft;
pub mod equalization;
pub mod lts_align;
pub mod parse_80211;
pub mod parse_packet;
pub mod pkt_trigger;
pub mod training;
pub mod trig;
pub mod widemul;

pub use cfo::{correct_cfo, estimate_cfo};
pub use equalization::{equalize_symbol, estimate_subcarrier_equalization};
pub use lts_align::lts_align;
pub use parse_80211::parse_80211_pkt;
pub use pkt_trigger::PktTrigger;
