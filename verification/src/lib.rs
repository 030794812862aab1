//! Capture of live MIDI events, assembly of notes from them, and export of a
//! time window as a Standard MIDI File.
//!
//! - `midistore` holds the store: the log of events, the notes assembled
//!   from it, the ranges of keys and times seen, and the bars.
//! - `model` says what each operation of the store does and what holds of the
//!   store at all times; `laws` states what follows for every run of events.
//! - `miditransfer` lays out the track for a window of the store and has it
//!   encoded.
//! - `message` holds the channel voice messages and their wire form,
//!   `transport` the snapshots of the host transport, `zoom_control` the
//!   visible time range, and `fixed` the rounding arithmetic.
//!
//! Times are whole microseconds; beats, tempos and factors are whole
//! millionths.

pub mod fixed;
pub mod laws;
pub mod message;
pub mod midistore;
pub mod miditransfer;
pub mod model;
pub mod transport;
pub mod zoom_control;
