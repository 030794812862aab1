//! The event log and what is assembled from it: notes, ranges and bars.

use vstd::prelude::*;
use crate::fixed::{
    clamp_i32, clamp_i64, div_round_signed_i128, lemma_div_round_signed_bound,
    lemma_divisible_magnitude, lemma_product_bound,
};
use crate::message::{decode, decoded, MidiMessage};
use crate::laws::lemma_record_widens;
use crate::model::{
    distance, divisible, every_nth, keys_within, lemma_position_is, lemma_position_none,
    lemma_record_wf, lemma_wf_exportable, nearest, note_matches, overlapping, position,
    times_within, with_selection, Model,
};
use crate::transport::TransportInfo;

verus! {

/// A note, with the places of its note-on and note-off events in the log.
///
/// While a note is in flight its `t_end` and `idx_off` are 0.
#[derive(Clone, Copy, Debug, PartialEq, Eq, Structural)]
pub struct Note {
    /// Start of the note, in microseconds.
    pub t_start: i64,
    /// Index of the note-on event in the log.
    pub idx_on: usize,
    /// End of the note, in microseconds.
    pub t_end: i64,
    /// Index of the note-off event in the log.
    pub idx_off: usize,
    /// MIDI channel (0-15).
    pub channel: u8,
    /// MIDI note number (0-127).
    pub key: u8,
    /// MIDI velocity (0-127).
    pub vel: u8,
}

/// The start of a bar.
#[derive(Clone, Copy, Debug, PartialEq, Eq, Structural)]
pub struct Bar {
    /// Ordinal of the bar.
    pub bar_number: i32,
    /// Time of the bar start, in microseconds.
    pub t: i64,
}

/// One entry of the event log.
#[derive(Clone, Copy, Debug, PartialEq, Eq, Structural)]
pub enum StoreEntry {
    /// A channel voice message with its channel.
    MidiData { channel: u8, data: MidiMessage },
}

/// Why an event was not recorded.
#[derive(Clone, Copy, Debug, PartialEq, Eq, Structural)]
pub enum AddError {
    /// The event is earlier than the latest recorded one.
    OrderViolation,
    /// The bytes are not one complete channel voice message.
    ParseFailure,
}

/// What is handed to the store: a raw event with its time, or a snapshot of
/// the transport.
#[derive(Clone, Copy, Debug)]
pub enum StoreMessage {
    MidiData(i64, [u8; 3]),
    TransportInfo(TransportInfo),
}

/// The log of MIDI events with the notes, ranges and bars derived from it.
pub struct MidiStore {
    /// Events with their times in microseconds; times never decrease.
    pub store: Vec<(i64, StoreEntry)>,
    /// Completed notes, in the order in which they ended.
    pub notes: Vec<Note>,
    /// Notes that have started and not yet ended.
    pub in_flight: Vec<Note>,
    /// Bar starts, in the order in which they were seen.
    pub bars: Vec<Bar>,
    /// Bar start, in millionths of a beat, of the latest bar that was recorded.
    pub last_bar: Option<i64>,
    /// Lowest and highest key seen so far.
    pub note_range_cache: Option<(u8, u8)>,
    /// Earliest and latest note boundary seen so far.
    pub time_range_cache: Option<(i64, i64)>,
    /// The latest transport snapshot.
    pub transport: TransportInfo,
}

impl View for MidiStore {
    type V = Model;

    open spec fn view(&self) -> Model {
        Model {
            log: self.store@,
            notes: self.notes@,
            in_flight: self.in_flight@,
            keys: self.note_range_cache,
            times: self.time_range_cache,
            bars: self.bars@,
            last_bar: self.last_bar,
            transport: self.transport,
        }
    }
}

impl MidiStore {
    /// The store is consistent: see `Model::wf`.
    pub open spec fn wf(&self) -> bool {
        self@.wf()
    }

    /// Creates an empty store.
    pub fn new() -> (s: MidiStore)
        ensures
            s@ == Model::empty(),
            s.wf(),
    {
        MidiStore {
            store: Vec::with_capacity(60000),
            notes: Vec::with_capacity(10000),
            bars: Vec::with_capacity(1000),
            last_bar: None,
            in_flight: Vec::with_capacity(128 * 16),
            note_range_cache: None,
            time_range_cache: None,
            transport: TransportInfo::default(),
        }
    }

    /// Index of the first note in flight on `channel` with `key`.
    fn find_in_flight(&self, channel: u8, key: u8) -> (r: Option<usize>)
        ensures
            match r {
                Some(i) => i < self.in_flight.len() && note_matches(
                    self.in_flight@[i as int],
                    channel,
                    key,
                ) && position(self.in_flight@, channel, key) == Some(i as int),
                None => position(self.in_flight@, channel, key).is_none(),
            },
    {
        let mut i: usize = 0;
        while i < self.in_flight.len()
            invariant
                i <= self.in_flight.len(),
                forall|j: int| 0 <= j < i ==> !note_matches(#[trigger] self.in_flight@[j], channel, key),
            decreases self.in_flight.len() - i,
        {
            let note = self.in_flight[i];
            if note.key == key && note.channel == channel {
                proof {
                    lemma_position_is(self.in_flight@, channel, key, i as int);
                }
                return Some(i);
            }
            i += 1;
        }
        proof {
            lemma_position_none(self.in_flight@, channel, key);
        }
        None
    }

    /// Widens the cached ranges to hold `note` and `time`. The ranges are
    /// present afterwards, and each holds all that it held before.
    pub fn update_ranges(&mut self, note: u8, time: i64)
        ensures
            final(self)@ == old(self)@.observe(note, time),
            final(self)@.keys.is_some(),
            final(self)@.times.is_some(),
            keys_within(old(self)@.keys, final(self)@.keys),
            times_within(old(self)@.times, final(self)@.times),
    {
        if let Some((note_min, note_max)) = self.note_range_cache {
            if note < note_min {
                self.note_range_cache = Some((note, note_max));
            } else if note > note_max {
                self.note_range_cache = Some((note_min, note));
            }
        } else {
            self.note_range_cache = Some((note, note));
        }
        if let Some((time_min, time_max)) = self.time_range_cache {
            if time < time_min {
                self.time_range_cache = Some((time, time_max));
            } else if time > time_max {
                self.time_range_cache = Some((time_min, time));
            }
        } else {
            self.time_range_cache = Some((time, time));
        }
    }

    /// Starts a note, or restarts the one in flight on the same channel and key.
    fn add_on(&mut self, time: i64, idx: usize, channel: u8, key: u8, vel: u8)
        ensures
            final(self)@ == old(self)@.note_on(time, idx, channel, key, vel),
    {
        let new_note = Note { idx_on: idx, t_start: time, t_end: 0, idx_off: 0, channel, key, vel };
        match self.find_in_flight(channel, key) {
            Some(i) => {
                self.in_flight.set(i, new_note);
            },
            None => {
                self.update_ranges(key, time);
                self.in_flight.push(new_note);
            },
        }
    }

    /// Ends the note in flight on the channel and key, if there is one.
    fn add_off(&mut self, time: i64, idx_off: usize, channel: u8, key: u8)
        ensures
            final(self)@ == old(self)@.note_off(time, idx_off, channel, key),
    {
        match self.find_in_flight(channel, key) {
            Some(i) => {
                let mut note = self.in_flight.remove(i);
                note.idx_off = idx_off;
                note.t_end = time;
                self.update_ranges(note.key, note.t_end);
                self.notes.push(note);
            },
            None => {},
        }
    }

    /// Records a raw MIDI event at `time`.
    ///
    /// Fails with `OrderViolation` when the log holds an event and `time`
    /// lies before the latest one, else with `ParseFailure` when `data` is
    /// not one complete channel voice message. The first event of a store
    /// may come at any time, and an event may come at the time of the one
    /// before it.
    ///
    /// A failed call changes nothing. Otherwise the event is appended to the
    /// log, and a note-on or note-off starts, restarts or ends a note: see
    /// `Model::record`. Whatever the event, the ranges of keys and times are
    /// never narrowed and, once present, stay present.
    pub fn add(&mut self, time: i64, data: [u8; 3]) -> (r: Result<(), AddError>)
        ensures
            old(self).wf() ==> final(self).wf(),
            r == old(self)@.outcome(time, data),
            keys_within(old(self)@.keys, final(self)@.keys),
            times_within(old(self)@.times, final(self)@.times),
            r.is_err() ==> *final(self) == *old(self),
            r.is_ok() ==> final(self)@ == old(self)@.record(
                time,
                decoded(data).unwrap().0,
                decoded(data).unwrap().1,
            ),
    {
        if self.store.len() > 0 && time < self.store[self.store.len() - 1].0 {
            return Err(AddError::OrderViolation);
        }
        let (channel, message) = match decode(&data) {
            Some(parsed) => parsed,
            None => {
                return Err(AddError::ParseFailure);
            },
        };
        let ghost before = self@;
        let idx: usize = self.store.len();
        self.store.push((time, StoreEntry::MidiData { channel, data: message }));
        proof {
            assert(self.store.len() == idx + 1);
            if before.wf() {
                lemma_record_wf(before, time, channel, message);
            }
            lemma_record_widens(before, time, channel, message);
        }
        match message {
            MidiMessage::NoteOn { key, vel } => {
                if vel == 0 {
                    self.add_off(time, idx, channel, key)
                } else {
                    self.add_on(time, idx, channel, key, vel)
                }
            },
            MidiMessage::NoteOff { key, vel: _ } => { self.add_off(time, idx, channel, key) },
            _ => {},
        }
        Ok(())
    }

    /// Lowest and highest key of the notes seen so far; `None` until a note
    /// has started.
    pub fn note_range(&self) -> (r: Option<(u8, u8)>)
        ensures
            r == self@.keys,
    {
        self.note_range_cache
    }

    /// Lowest and highest key of the notes seen so far; `None` until a note
    /// has started.
    pub fn note_range_u8(&self) -> (r: Option<(u8, u8)>)
        ensures
            r == self@.keys,
    {
        self.note_range_cache
    }

    /// Earliest and latest note boundary seen so far, in microseconds; `None`
    /// until a note has started.
    pub fn time_range(&self) -> (r: Option<(i64, i64)>)
        ensures
            r == self@.times,
    {
        self.time_range_cache
    }

    /// The completed notes that overlap the window from `t0` to `t1`, in the
    /// order in which they ended. A note that only touches the window at a
    /// boundary is left out.
    pub fn notes_in_time(&self, t0: i64, t1: i64) -> (r: Vec<Note>)
        ensures
            r@ == self@.notes.filter(overlapping(t0, t1)),
    {
        let mut found: Vec<Note> = Vec::new();
        let mut i: usize = 0;
        assert(self.notes@.take(0) =~= Seq::empty());
        while i < self.notes.len()
            invariant
                i <= self.notes.len(),
                found@ == self.notes@.take(i as int).filter(overlapping(t0, t1)),
            decreases self.notes.len() - i,
        {
            let note = self.notes[i];
            proof {
                self.notes@.lemma_take_succ_push(i as int);
                self.notes@.take(i as int).lemma_filter_push(note, overlapping(t0, t1));
            }
            if t0 < note.t_end && t1 > note.t_start {
                found.push(note);
            }
            i += 1;
        }
        assert(self.notes@.take(i as int) == self.notes@);
        found
    }

    /// The completed notes that overlap the window from `t0` to `t1`, each
    /// with whether it overlaps the selection from `sel_t0` to `sel_t1`.
    pub fn notes_in_time_select(&self, t0: i64, t1: i64, sel_t0: i64, sel_t1: i64) -> (r: Vec<
        (Note, bool),
    >)
        ensures
            r@ == self@.notes.filter(overlapping(t0, t1)).map_values(with_selection(sel_t0, sel_t1)),
    {
        let visible = self.notes_in_time(t0, t1);
        let mut paired: Vec<(Note, bool)> = Vec::new();
        let mut i: usize = 0;
        let ghost select = with_selection(sel_t0, sel_t1);
        assert(visible@.take(0).map_values(select) =~= Seq::empty());
        while i < visible.len()
            invariant
                i <= visible.len(),
                select == with_selection(sel_t0, sel_t1),
                paired@ == visible@.take(i as int).map_values(select),
            decreases visible.len() - i,
        {
            let note = visible[i];
            proof {
                visible@.lemma_take_succ_push(i as int);
                visible@.take(i as int).lemma_push_map_commute(select, note);
            }
            paired.push((note, sel_t0 < note.t_end && sel_t1 > note.t_start));
            i += 1;
        }
        assert(visible@.take(i as int) == visible@);
        paired
    }

    /// Every event of the log as index, time, channel and message.
    pub fn midi_events(&self) -> (r: Vec<(usize, i64, u8, MidiMessage)>)
        ensures
            r@.len() == self@.log.len(),
            forall|i: int|
                0 <= i < r@.len() ==> #[trigger] r@[i] == (
                    i as usize,
                    self@.log[i].0,
                    self@.log[i].1.channel(),
                    self@.log[i].1.message(),
                ),
    {
        let mut events: Vec<(usize, i64, u8, MidiMessage)> = Vec::new();
        let mut idx: usize = 0;
        while idx < self.store.len()
            invariant
                idx <= self.store.len(),
                events@.len() == idx,
                forall|i: int|
                    0 <= i < idx ==> #[trigger] events@[i] == (
                        i as usize,
                        self@.log[i].0,
                        self@.log[i].1.channel(),
                        self@.log[i].1.message(),
                    ),
            decreases self.store.len() - idx,
        {
            let time: i64 = self.store[idx].0;
            match self.store[idx].1 {
                StoreEntry::MidiData { channel, data } => {
                    events.push((idx, time, channel, data));
                },
            }
            idx += 1;
        }
        events
    }

    /// Takes in a snapshot of the transport and, while the transport rolls,
    /// records the start of each new bar.
    ///
    /// The snapshot is kept. A stopped transport clears the memory of the
    /// last bar. A rolling one adds a bar and remembers its start, unless the
    /// start lies within a hundredth of a beat of the last one: see
    /// `Model::add_bar`.
    pub fn add_bar(&mut self, transport: TransportInfo)
        ensures
            final(self)@ == old(self)@.add_bar(transport),
            old(self).wf() ==> final(self).wf(),
    {
        self.transport = transport;
        if !transport.playing {
            self.last_bar = None;
            return ;
        }
        if let Some(last_bar) = self.last_bar {
            let apart: i128 = transport.bar_start_pos_beats as i128 - last_bar as i128;
            if -10_000 < apart && apart < 10_000 {
                return ;
            }
        }
        self.last_bar = Some(transport.bar_start_pos_beats);
        let beats: i128 = transport.pos_beats as i128 - transport.bar_start_pos_beats as i128;
        let t: i64 = if transport.tempo == 0 {
            if beats > 0 {
                i64::MIN
            } else if beats < 0 {
                i64::MAX
            } else {
                transport.time
            }
        } else {
            let since_bar: i128 = div_round_signed_i128(beats * 60_000_000, transport.tempo as i64);
            proof {
                lemma_div_round_signed_bound(beats * 60_000_000, transport.tempo as int);
            }
            clamp_i64(transport.time as i128 - since_bar)
        };
        let bar_number: i32 = if transport.time_sig.0 == 0 {
            if transport.bar_start_pos_beats > 0 {
                i32::MAX
            } else if transport.bar_start_pos_beats < 0 {
                i32::MIN
            } else {
                0
            }
        } else {
            proof {
                lemma_product_bound(
                    transport.bar_start_pos_beats as int,
                    transport.time_sig.1 as int,
                    0x8000_0000_0000_0000,
                    0x8000_0000,
                );
            }
            clamp_i32(
                div_round_signed_i128(
                    (transport.bar_start_pos_beats as i128) * (transport.time_sig.1 as i128),
                    4_000_000 * (transport.time_sig.0 as i64),
                ),
            )
        };
        self.bars.push(Bar { bar_number, t });
    }

    /// The bars whose number `n` divides, in the order in which they were
    /// recorded.
    pub fn get_bars(&self, n: i32) -> (r: Vec<Bar>)
        requires
            n != 0,
        ensures
            r@ == self@.bars.filter(every_nth(n)),
    {
        let mut found: Vec<Bar> = Vec::new();
        let mut i: usize = 0;
        assert(self.bars@.take(0) =~= Seq::empty());
        while i < self.bars.len()
            invariant
                i <= self.bars.len(),
                n != 0,
                found@ == self.bars@.take(i as int).filter(every_nth(n)),
            decreases self.bars.len() - i,
        {
            let bar = self.bars[i];
            proof {
                self.bars@.lemma_take_succ_push(i as int);
                self.bars@.take(i as int).lemma_filter_push(bar, every_nth(n));
            }
            if divides(n, bar.bar_number) {
                found.push(bar);
            }
            i += 1;
        }
        assert(self.bars@.take(i as int) == self.bars@);
        found
    }

    /// Among the bars whose number `n` divides, the one nearest to `time`;
    /// of several equally near, the one recorded first. `None` if there is
    /// no such bar.
    pub fn nearest_bar(&self, time: i64, n: i32) -> (r: Option<Bar>)
        requires
            n != 0,
        ensures
            r == nearest(self@.bars.filter(every_nth(n)), time),
    {
        let bars = self.get_bars(n);
        let mut best: Option<Bar> = None;
        let mut i: usize = 0;
        while i < bars.len()
            invariant
                i <= bars.len(),
                best == nearest(bars@.take(i as int), time),
            decreases bars.len() - i,
        {
            let bar = bars[i];
            assert(bars@.take(i + 1).drop_last() == bars@.take(i as int));
            best =
            match best {
                None => Some(bar),
                Some(held) => if far(bar, time) < far(held, time) {
                    Some(bar)
                } else {
                    Some(held)
                },
            };
            i += 1;
        }
        assert(bars@.take(i as int) == bars@);
        best
    }

    /// Whether the store can be exported: every note points into the log, and
    /// every entry of the log is well formed. A store that was changed only
    /// by its own methods always can.
    pub fn can_export(&self) -> (r: bool)
        ensures
            r == self@.exportable(),
            self.wf() ==> r,
    {
        proof {
            if self.wf() {
                lemma_wf_exportable(self@);
            }
        }
        let len = self.store.len();
        let mut n: usize = 0;
        while n < self.notes.len()
            invariant
                n <= self.notes.len(),
                len == self.store.len(),
                forall|m: int|
                    0 <= m < n ==> (#[trigger] self.notes@[m]).idx_on < len && self.notes@[m].idx_off
                        < len,
            decreases self.notes.len() - n,
        {
            if self.notes[n].idx_on >= len || self.notes[n].idx_off >= len {
                assert(self@.notes[n as int].idx_on >= len || self@.notes[n as int].idx_off >= len);
                return false;
            }
            n += 1;
        }
        let mut p: usize = 0;
        while p < self.in_flight.len()
            invariant
                p <= self.in_flight.len(),
                len == self.store.len(),
                forall|q: int| 0 <= q < p ==> (#[trigger] self.in_flight@[q]).idx_on < len,
            decreases self.in_flight.len() - p,
        {
            if self.in_flight[p].idx_on >= len {
                assert(self@.in_flight[p as int].idx_on >= len);
                return false;
            }
            p += 1;
        }
        let mut i: usize = 0;
        while i < len
            invariant
                i <= len,
                len == self.store.len(),
                forall|j: int| 0 <= j < i ==> (#[trigger] self.store@[j]).1.wf(),
            decreases len - i,
        {
            match self.store[i].1 {
                StoreEntry::MidiData { channel, data } => {
                    if channel >= 16 || !data.is_valid() {
                        assert(!self@.log[i as int].1.wf());
                        return false;
                    }
                },
            }
            i += 1;
        }
        true
    }

    /// Hands one message to the store: an event to `add`, a snapshot to
    /// `add_bar`.
    pub fn deliver(&mut self, message: StoreMessage) -> (r: Result<(), AddError>)
        ensures
            old(self).wf() ==> final(self).wf(),
            match message {
                StoreMessage::MidiData(time, data) => {
                    &&& r == old(self)@.outcome(time, data)
                    &&& keys_within(old(self)@.keys, final(self)@.keys)
                    &&& times_within(old(self)@.times, final(self)@.times)
                    &&& r.is_err() ==> *final(self) == *old(self)
                    &&& r.is_ok() ==> final(self)@ == old(self)@.record(
                        time,
                        decoded(data).unwrap().0,
                        decoded(data).unwrap().1,
                    )
                },
                StoreMessage::TransportInfo(transport) => {
                    &&& r.is_ok()
                    &&& final(self)@ == old(self)@.add_bar(transport)
                },
            },
    {
        match message {
            StoreMessage::MidiData(time, data) => self.add(time, data),
            StoreMessage::TransportInfo(transport) => {
                self.add_bar(transport);
                Ok(())
            },
        }
    }
}

/// Whether `n` divides `number`.
fn divides(n: i32, number: i32) -> (r: bool)
    requires
        n != 0,
    ensures
        r == divisible(number, n),
{
    let wide: i64 = number as i64;
    let by: i64 = n as i64;
    let size: i64 = if wide < 0 {
        -wide
    } else {
        wide
    };
    let step: i64 = if by < 0 {
        -by
    } else {
        by
    };
    proof {
        lemma_divisible_magnitude(number as int, n as int);
    }
    size % step == 0
}

/// Distance between a bar and a time.
fn far(bar: Bar, time: i64) -> (r: i128)
    ensures
        r == distance(bar, time),
{
    if bar.t >= time {
        bar.t as i128 - time as i128
    } else {
        time as i128 - bar.t as i128
    }
}

} // verus!
