//! Snapshots of the host transport.

use vstd::prelude::*;
use crate::fixed::{
    clamp, clamp_i64, div_round, div_round_i128, div_round_signed, div_round_signed_i128,
    lemma_div_round_signed_bound, lemma_product_bound,
};

verus! {

/// What the host reported about its transport at one moment.
///
/// Times, beats and tempo are fixed-point numbers in millionths: `time` in
/// microseconds, `pos_beats` and `bar_start_pos_beats` in millionths of a
/// beat, `tempo` in millionths of a beat per minute, `sample_rate` in
/// millionths of a hertz.
#[derive(Clone, Copy, Debug)]
pub struct TransportInfo {
    /// Capture time at which the snapshot was taken.
    pub time: i64,
    /// Whether the transport is rolling.
    pub playing: bool,
    pub sample_rate: u64,
    pub tempo: u32,
    /// Numerator and denominator of the time signature.
    pub time_sig: (i32, i32),
    pub pos_samples: i64,
    /// Position of the transport, in beats.
    pub pos_beats: i64,
    /// Position of the start of the current bar, in beats.
    pub bar_start_pos_beats: i64,
}

/// What a host tells of its transport; what it does not know is absent.
///
/// The quantities are in the units of `TransportInfo`.
#[derive(Clone, Copy, Debug)]
pub struct Transport {
    pub playing: bool,
    pub sample_rate: u64,
    pub tempo: Option<u32>,
    pub time_sig_numerator: Option<i32>,
    pub time_sig_denominator: Option<i32>,
    pub pos_samples: Option<i64>,
    pub pos_beats: Option<i64>,
    pub bar_start_pos_beats: Option<i64>,
}

impl Transport {
    /// The host knows everything that a snapshot holds.
    pub open spec fn complete(self) -> bool {
        &&& self.tempo.is_some()
        &&& self.time_sig_numerator.is_some()
        &&& self.time_sig_denominator.is_some()
        &&& self.pos_samples.is_some()
        &&& self.pos_beats.is_some()
        &&& self.bar_start_pos_beats.is_some()
    }
}

/// Microseconds in a minute, per millionth of a beat per minute.
pub const MINUTE: u64 = 60_000_000_000_000;

impl TransportInfo {
    /// The snapshot of a transport at `time`, if the host knows all of it.
    pub fn from_transport(transport: &Transport, time: i64) -> (r: Option<TransportInfo>)
        ensures
            r.is_some() == transport.complete(),
            r matches Some(info) ==> info == (TransportInfo {
                time,
                playing: transport.playing,
                sample_rate: transport.sample_rate,
                tempo: transport.tempo.unwrap(),
                time_sig: (
                    transport.time_sig_numerator.unwrap(),
                    transport.time_sig_denominator.unwrap(),
                ),
                pos_samples: transport.pos_samples.unwrap(),
                pos_beats: transport.pos_beats.unwrap(),
                bar_start_pos_beats: transport.bar_start_pos_beats.unwrap(),
            }),
    {
        let Some(tempo) = transport.tempo else {
            return None;
        };
        let Some(time_sig_numerator) = transport.time_sig_numerator else {
            return None;
        };
        let Some(time_sig_denominator) = transport.time_sig_denominator else {
            return None;
        };
        let Some(pos_samples) = transport.pos_samples else {
            return None;
        };
        let Some(pos_beats) = transport.pos_beats else {
            return None;
        };
        let Some(bar_start_pos_beats) = transport.bar_start_pos_beats else {
            return None;
        };
        Some(
            TransportInfo {
                time,
                playing: transport.playing,
                sample_rate: transport.sample_rate,
                tempo,
                time_sig: (time_sig_numerator, time_sig_denominator),
                pos_samples,
                pos_beats,
                bar_start_pos_beats,
            },
        )
    }

    /// Length of one beat in microseconds, `60 / tempo` seconds rounded to
    /// the nearest microsecond; absent while the tempo is zero.
    pub open spec fn spec_beat_length(self) -> Option<i64> {
        if self.tempo == 0 {
            None
        } else {
            Some(div_round(MINUTE as int, self.tempo as int) as i64)
        }
    }

    /// Length of one bar in microseconds: `4 * numerator / denominator` beats
    /// of `60 / tempo` seconds each, rounded once and clamped into `i64`.
    /// Absent while the tempo or the denominator is zero.
    pub open spec fn spec_bar_length(self) -> Option<i64> {
        if self.tempo == 0 || self.time_sig.1 == 0 {
            None
        } else {
            Some(
                clamp(
                    div_round_signed(
                        4 * MINUTE as int * self.time_sig.0 as int,
                        self.time_sig.1 as int * self.tempo as int,
                    ),
                    i64::MIN as int,
                    i64::MAX as int,
                ) as i64,
            )
        }
    }

    /// Length of one bar in microseconds.
    pub fn bar_length(&self) -> (r: Option<i64>)
        ensures
            r == self.spec_bar_length(),
    {
        if self.tempo == 0 || self.time_sig.1 == 0 {
            return None;
        }
        let n: i128 = 240_000_000_000_000i128 * (self.time_sig.0 as i128);
        proof {
            lemma_product_bound(
                self.time_sig.1 as int,
                self.tempo as int,
                0x8000_0000,
                0xFFFF_FFFF,
            );
            assert(self.time_sig.1 as int * self.tempo as int != 0) by (nonlinear_arith)
                requires
                    self.time_sig.1 as int != 0,
                    self.tempo as int != 0,
            ;
        }
        let d: i64 = (self.time_sig.1 as i64) * (self.tempo as i64);
        Some(clamp_i64(div_round_signed_i128(n, d)))
    }

    /// Length of one beat in microseconds.
    pub fn beat_length(&self) -> (r: Option<i64>)
        ensures
            r == self.spec_beat_length(),
    {
        if self.tempo == 0 {
            return None;
        }
        let q: i128 = div_round_i128(MINUTE as i128, self.tempo as u64);
        proof {
            lemma_div_round_signed_bound(MINUTE as int, self.tempo as int);
        }
        Some(q as i64)
    }
}

impl Default for TransportInfo {
    /// A stopped transport at time zero, with every quantity zero.
    fn default() -> (r: TransportInfo)
        ensures
            r == (TransportInfo {
                time: 0,
                playing: false,
                sample_rate: 0,
                tempo: 0,
                time_sig: (0, 0),
                pos_samples: 0,
                pos_beats: 0,
                bar_start_pos_beats: 0,
            }),
    {
        TransportInfo {
            time: 0,
            playing: false,
            sample_rate: 0,
            tempo: 0,
            time_sig: (0, 0),
            pos_samples: 0,
            pos_beats: 0,
            bar_start_pos_beats: 0,
        }
    }
}

} // verus!
