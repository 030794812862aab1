//! The mathematical model of the store: what each operation does to it, and
//! what holds of it at all times.

use vstd::prelude::*;
use crate::message::{decoded, MidiMessage};
use crate::midistore::{AddError, Bar, Note, StoreEntry};
use crate::fixed::{clamp, div_round_signed};
use crate::transport::TransportInfo;

verus! {

/// The event log as a sequence of times and entries.
pub type Log = Seq<(i64, StoreEntry)>;

impl StoreEntry {
    /// The channel of the entry.
    pub open spec fn channel(self) -> u8 {
        match self {
            StoreEntry::MidiData { channel, .. } => channel,
        }
    }

    /// The message of the entry.
    pub open spec fn message(self) -> MidiMessage {
        match self {
            StoreEntry::MidiData { data, .. } => data,
        }
    }

    /// Channel and data values fit their widths.
    pub open spec fn wf(self) -> bool {
        self.channel() < 16 && self.message().wf()
    }

    /// The key that the entry starts to sound: that of a note-on with a
    /// velocity above zero.
    pub open spec fn opening_key(self) -> Option<u8> {
        match self.message() {
            MidiMessage::NoteOn { key, vel } => if vel > 0 {
                Some(key)
            } else {
                None
            },
            _ => None,
        }
    }

    /// The key that the entry silences: that of a note-off, or of a note-on
    /// with velocity zero.
    pub open spec fn closing_key(self) -> Option<u8> {
        match self.message() {
            MidiMessage::NoteOff { key, .. } => Some(key),
            MidiMessage::NoteOn { key, vel } => if vel == 0 {
                Some(key)
            } else {
                None
            },
            _ => None,
        }
    }

    /// The entry starts `key` on `channel`.
    pub open spec fn opens(self, channel: u8, key: u8) -> bool {
        self.channel() == channel && self.opening_key() == Some(key)
    }

    /// The entry silences `key` on `channel`.
    pub open spec fn closes(self, channel: u8, key: u8) -> bool {
        self.channel() == channel && self.closing_key() == Some(key)
    }

    /// The entry starts or silences `key` on `channel`.
    pub open spec fn touches(self, channel: u8, key: u8) -> bool {
        self.opens(channel, key) || self.closes(channel, key)
    }
}

/// The note is on `channel` with `key`.
pub open spec fn note_matches(note: Note, channel: u8, key: u8) -> bool {
    note.key == key && note.channel == channel
}

/// Index of the first note of `notes` on `channel` with `key`.
pub open spec fn position(notes: Seq<Note>, channel: u8, key: u8) -> Option<int>
    decreases notes.len(),
{
    if notes.len() == 0 {
        None
    } else {
        match position(notes.drop_last(), channel, key) {
            Some(i) => Some(i),
            None => if note_matches(notes.last(), channel, key) {
                Some(notes.len() - 1)
            } else {
                None
            },
        }
    }
}

/// A key range widened to hold `key`; the first key makes the range.
pub open spec fn widen_keys(range: Option<(u8, u8)>, key: u8) -> Option<(u8, u8)> {
    match range {
        None => Some((key, key)),
        Some((lo, hi)) => if key < lo {
            Some((key, hi))
        } else if key > hi {
            Some((lo, key))
        } else {
            range
        },
    }
}

/// A time range widened to hold `time`; the first time makes the range.
pub open spec fn widen_times(range: Option<(i64, i64)>, time: i64) -> Option<(i64, i64)> {
    match range {
        None => Some((time, time)),
        Some((lo, hi)) => if time < lo {
            Some((time, hi))
        } else if time > hi {
            Some((lo, time))
        } else {
            range
        },
    }
}

/// The key range `outer` holds all of `inner`.
pub open spec fn keys_within(inner: Option<(u8, u8)>, outer: Option<(u8, u8)>) -> bool {
    match inner {
        None => true,
        Some((lo, hi)) => outer.is_some() && outer.unwrap().0 <= lo && hi <= outer.unwrap().1,
    }
}

/// The time range `outer` holds all of `inner`.
pub open spec fn times_within(inner: Option<(i64, i64)>, outer: Option<(i64, i64)>) -> bool {
    match inner {
        None => true,
        Some((lo, hi)) => outer.is_some() && outer.unwrap().0 <= lo && hi <= outer.unwrap().1,
    }
}

/// No entry of `log` from `lo` up to `hi` starts or silences `key` on
/// `channel`.
pub open spec fn untouched(log: Log, channel: u8, key: u8, lo: int, hi: int) -> bool {
    forall|m: int| lo <= m < hi ==> !(#[trigger] log[m]).1.touches(channel, key)
}

/// Entry `i` starts `key` on `channel`, and nothing starts or silences it
/// again before entry `n`.
pub open spec fn opened_at(log: Log, channel: u8, key: u8, i: int, n: int) -> bool {
    &&& 0 <= i < n
    &&& log[i].1.opens(channel, key)
    &&& untouched(log, channel, key, i + 1, n)
}

/// `key` on `channel` is sounding after the first `n` entries of the log.
pub open spec fn sounding(log: Log, channel: u8, key: u8, n: int) -> bool {
    exists|i: int| opened_at(log, channel, key, i, n)
}

/// Entry `j` silences a key that is sounding when it arrives: it is the
/// second half of a matched pair.
pub open spec fn ends_note_at(log: Log, j: int) -> bool {
    match log[j].1.closing_key() {
        Some(key) => sounding(log, log[j].1.channel(), key, j),
        None => false,
    }
}

/// Number of matched pairs of a note-on and a note-off among the first `n`
/// entries of the log.
pub open spec fn matched_pairs(log: Log, n: int) -> nat
    decreases n,
{
    if n <= 0 {
        0
    } else {
        matched_pairs(log, n - 1) + if ends_note_at(log, n - 1) {
            1nat
        } else {
            0nat
        }
    }
}

/// A completed note agrees with the log: its two events are a note-on and
/// the next event on the same channel and key, which silences it.
pub open spec fn completed_ok(log: Log, note: Note) -> bool {
    &&& note.idx_on < note.idx_off < log.len()
    &&& opened_at(log, note.channel, note.key, note.idx_on as int, note.idx_off as int)
    &&& log[note.idx_off as int].1.closes(note.channel, note.key)
    &&& log[note.idx_on as int].1.message() == (MidiMessage::NoteOn { key: note.key, vel: note.vel })
    &&& note.t_start == log[note.idx_on as int].0
    &&& note.t_end == log[note.idx_off as int].0
    &&& note.t_start <= note.t_end
}

/// A note in flight agrees with the log: its event is a note-on that nothing
/// on the same channel and key has followed.
pub open spec fn in_flight_ok(log: Log, note: Note) -> bool {
    &&& opened_at(log, note.channel, note.key, note.idx_on as int, log.len() as int)
    &&& log[note.idx_on as int].1.message() == (MidiMessage::NoteOn { key: note.key, vel: note.vel })
    &&& note.t_start == log[note.idx_on as int].0
    &&& note.t_end == 0
    &&& note.idx_off == 0
}

/// Times never decrease along the log, and every entry is well formed.
pub open spec fn log_ok(log: Log) -> bool {
    &&& forall|i: int, j: int| 0 <= i <= j < log.len() ==> (#[trigger] log[i]).0 <= (#[trigger] log[j]).0
    &&& forall|i: int| 0 <= i < log.len() ==> (#[trigger] log[i]).1.wf()
}

/// Every completed note agrees with the log.
pub open spec fn notes_ok(log: Log, notes: Seq<Note>) -> bool {
    forall|n: int| 0 <= n < notes.len() ==> completed_ok(log, #[trigger] notes[n])
}

/// Completed notes stand in the order in which they ended.
pub open spec fn notes_ordered(notes: Seq<Note>) -> bool {
    forall|a: int, b: int|
        0 <= a < b < notes.len() ==> (#[trigger] notes[a]).idx_off < (#[trigger] notes[b]).idx_off
}

/// Every note in flight agrees with the log.
pub open spec fn in_flight_all_ok(log: Log, in_flight: Seq<Note>) -> bool {
    forall|p: int| 0 <= p < in_flight.len() ==> in_flight_ok(log, #[trigger] in_flight[p])
}

/// No two notes in flight share channel and key.
pub open spec fn in_flight_distinct(in_flight: Seq<Note>) -> bool {
    forall|p: int, q: int|
        0 <= p < q < in_flight.len() ==> !note_matches(
            #[trigger] in_flight[q],
            (#[trigger] in_flight[p]).channel,
            in_flight[p].key,
        )
}

/// Every key that is sounding at the end of the log has its note in flight.
pub open spec fn in_flight_exact(log: Log, in_flight: Seq<Note>) -> bool {
    forall|channel: u8, key: u8| #[trigger]
        sounding(log, channel, key, log.len() as int) ==> position(
            in_flight,
            channel,
            key,
        ).is_some()
}

/// Some note of `notes` ends with entry `j` of the log.
pub open spec fn has_note_ending(notes: Seq<Note>, j: int) -> bool {
    exists|n: int| 0 <= n < notes.len() && (#[trigger] notes[n]).idx_off == j
}

/// Every matched pair of the log has its completed note.
pub open spec fn notes_complete(log: Log, notes: Seq<Note>) -> bool {
    forall|j: int| 0 <= j < log.len() && #[trigger] ends_note_at(log, j) ==> has_note_ending(notes, j)
}

/// Some entry of the log starts a note.
pub open spec fn note_started(log: Log) -> bool {
    exists|i: int| 0 <= i < log.len() && (#[trigger] log[i]).1.opening_key().is_some()
}

/// Entry `i` of the log is observed by the ranges: it starts a key that is
/// not sounding when it arrives, or it ends a note.
pub open spec fn is_observed(log: Log, i: int) -> bool {
    ends_note_at(log, i) || match log[i].1.opening_key() {
        Some(key) => !sounding(log, log[i].1.channel(), key, i),
        None => false,
    }
}

/// The key that an observed entry shows.
pub open spec fn shown_key(entry: StoreEntry) -> u8 {
    match entry.opening_key() {
        Some(key) => key,
        None => match entry.closing_key() {
            Some(key) => key,
            None => 0,
        },
    }
}

/// The ranges of keys and of times that the first `n` entries of the log
/// give: each observed entry widens them by its key and its time.
pub open spec fn observed_ranges(log: Log, n: int) -> (Option<(u8, u8)>, Option<(i64, i64)>)
    decreases n,
{
    if n <= 0 {
        (None, None)
    } else {
        let before = observed_ranges(log, n - 1);
        if is_observed(log, n - 1) {
            (widen_keys(before.0, shown_key(log[n - 1].1)), widen_times(before.1, log[n - 1].0))
        } else {
            before
        }
    }
}

/// The key range holds the key of every note.
pub open spec fn keys_cover(keys: Option<(u8, u8)>, notes: Seq<Note>) -> bool {
    forall|n: int|
        0 <= n < notes.len() ==> keys.is_some() && keys.unwrap().0 <= (#[trigger] notes[n]).key
            <= keys.unwrap().1
}

/// The time range holds both ends of every completed note.
pub open spec fn times_cover(times: Option<(i64, i64)>, notes: Seq<Note>) -> bool {
    forall|n: int|
        0 <= n < notes.len() ==> times.is_some() && times.unwrap().0 <= (#[trigger] notes[n]).t_start
            && notes[n].t_end <= times.unwrap().1
}

/// The time range starts no later than any note in flight.
pub open spec fn times_reach(times: Option<(i64, i64)>, in_flight: Seq<Note>) -> bool {
    forall|p: int|
        0 <= p < in_flight.len() ==> times.is_some() && times.unwrap().0 <= (
        #[trigger] in_flight[p]).t_start
}

/// The state of a store.
pub struct Model {
    /// The events with their times.
    pub log: Log,
    /// The completed notes.
    pub notes: Seq<Note>,
    /// The notes in flight.
    pub in_flight: Seq<Note>,
    /// Lowest and highest key observed.
    pub keys: Option<(u8, u8)>,
    /// Earliest and latest time observed.
    pub times: Option<(i64, i64)>,
    /// The bars.
    pub bars: Seq<Bar>,
    /// Bar start, in beats, of the latest bar.
    pub last_bar: Option<i64>,
    /// The latest transport snapshot.
    pub transport: TransportInfo,
}

impl Model {
    /// The state of a new store.
    pub open spec fn empty() -> Model {
        Model {
            log: Seq::empty(),
            notes: Seq::empty(),
            in_flight: Seq::empty(),
            keys: None,
            times: None,
            bars: Seq::empty(),
            last_bar: None,
            transport: TransportInfo {
                time: 0,
                playing: false,
                sample_rate: 0,
                tempo: 0,
                time_sig: (0, 0),
                pos_samples: 0,
                pos_beats: 0,
                bar_start_pos_beats: 0,
            },
        }
    }

    /// An event at `time` comes no earlier than the latest event of the log.
    /// Any time follows an empty log.
    pub open spec fn follows(self, time: i64) -> bool {
        self.log.len() > 0 ==> self.log.last().0 <= time
    }

    /// How an attempt to record `data` at `time` ends: with `OrderViolation`
    /// where the log holds an event and `time` lies before the latest one;
    /// else with `ParseFailure` where the bytes are not one complete channel
    /// voice message; else well.
    pub open spec fn outcome(self, time: i64, data: [u8; 3]) -> Result<(), AddError> {
        if self.log.len() > 0 && time < self.log.last().0 {
            Err(AddError::OrderViolation)
        } else if decoded(data).is_none() {
            Err(AddError::ParseFailure)
        } else {
            Ok(())
        }
    }

    /// The ranges widened by one observation.
    pub open spec fn observe(self, key: u8, time: i64) -> Model {
        Model { keys: widen_keys(self.keys, key), times: widen_times(self.times, time), ..self }
    }

    /// A note-on at log index `idx`: the note on the same channel and key
    /// that is in flight is replaced where it stands; if there is none, the
    /// new note joins the notes in flight and is observed.
    pub open spec fn note_on(self, time: i64, idx: usize, channel: u8, key: u8, vel: u8) -> Model {
        let note = Note { t_start: time, idx_on: idx, t_end: 0, idx_off: 0, channel, key, vel };
        match position(self.in_flight, channel, key) {
            Some(i) => Model { in_flight: self.in_flight.update(i, note), ..self },
            None => Model { in_flight: self.in_flight.push(note), ..self }.observe(key, time),
        }
    }

    /// A note-off at log index `idx`: the note in flight on the same channel
    /// and key ends at `time`, becomes the last completed note and is
    /// observed; if there is none, nothing changes.
    pub open spec fn note_off(self, time: i64, idx: usize, channel: u8, key: u8) -> Model {
        match position(self.in_flight, channel, key) {
            Some(i) => {
                let note = Note { idx_off: idx, t_end: time, ..self.in_flight[i] };
                Model {
                    in_flight: self.in_flight.remove(i),
                    notes: self.notes.push(note),
                    ..self
                }.observe(key, time)
            },
            None => self,
        }
    }

    /// The log with one more event.
    pub open spec fn logged(self, time: i64, channel: u8, message: MidiMessage) -> Model {
        Model { log: self.log.push((time, StoreEntry::MidiData { channel, data: message })), ..self }
    }

    /// The state after `message` on `channel` was recorded at `time`: the
    /// event is appended to the log; a note-on with a velocity above zero
    /// starts a note, a note-off or a note-on with velocity zero ends one;
    /// any other message changes nothing else.
    pub open spec fn record(self, time: i64, channel: u8, message: MidiMessage) -> Model {
        let idx = self.log.len() as usize;
        let next = self.logged(time, channel, message);
        match message {
            MidiMessage::NoteOn { key, vel } => if vel == 0 {
                next.note_off(time, idx, channel, key)
            } else {
                next.note_on(time, idx, channel, key, vel)
            },
            MidiMessage::NoteOff { key, .. } => next.note_off(time, idx, channel, key),
            _ => next,
        }
    }

    /// What an export reads is there: every note points into the log, and
    /// every entry of the log is well formed.
    pub open spec fn exportable(self) -> bool {
        &&& forall|n: int|
            0 <= n < self.notes.len() ==> (#[trigger] self.notes[n]).idx_on < self.log.len()
                && self.notes[n].idx_off < self.log.len()
        &&& forall|p: int|
            0 <= p < self.in_flight.len() ==> (#[trigger] self.in_flight[p]).idx_on
                < self.log.len()
        &&& forall|i: int| 0 <= i < self.log.len() ==> (#[trigger] self.log[i]).1.wf()
    }

    /// What holds of every store: the log is ordered in time, the notes are
    /// exactly what the log tells, and the ranges hold what was observed.
    pub open spec fn wf(self) -> bool {
        &&& log_ok(self.log)
        &&& notes_ok(self.log, self.notes)
        &&& notes_ordered(self.notes)
        &&& notes_complete(self.log, self.notes)
        &&& in_flight_all_ok(self.log, self.in_flight)
        &&& in_flight_distinct(self.in_flight)
        &&& in_flight_exact(self.log, self.in_flight)
        &&& self.notes.len() == matched_pairs(self.log, self.log.len() as int)
        &&& self.keys.is_some() == (self.notes.len() + self.in_flight.len() > 0)
        &&& self.keys.is_some() == note_started(self.log)
        &&& (self.keys, self.times) == observed_ranges(self.log, self.log.len() as int)
        &&& self.times.is_some() == self.keys.is_some()
        &&& self.keys matches Some((lo, hi)) ==> lo <= hi
        &&& self.times matches Some((lo, hi)) ==> lo <= hi
        &&& keys_cover(self.keys, self.notes)
        &&& keys_cover(self.keys, self.in_flight)
        &&& times_cover(self.times, self.notes)
        &&& times_reach(self.times, self.in_flight)
    }
}

/// A well-formed state can be exported.
pub proof fn lemma_wf_exportable(s: Model)
    requires
        s.wf(),
    ensures
        s.exportable(),
{
    assert forall|n: int| 0 <= n < s.notes.len() implies (#[trigger] s.notes[n]).idx_on
        < s.log.len() && s.notes[n].idx_off < s.log.len() by {
        assert(completed_ok(s.log, s.notes[n]));
    }
    assert forall|p: int| 0 <= p < s.in_flight.len() implies (#[trigger] s.in_flight[p]).idx_on
        < s.log.len() by {
        assert(in_flight_ok(s.log, s.in_flight[p]));
    }
}

/// `position` finds a note exactly where the first match stands.
pub proof fn lemma_position(notes: Seq<Note>, channel: u8, key: u8)
    ensures
        match position(notes, channel, key) {
            Some(i) => 0 <= i < notes.len() && note_matches(notes[i], channel, key) && forall|j: int|
                0 <= j < i ==> !note_matches(#[trigger] notes[j], channel, key),
            None => forall|j: int|
                0 <= j < notes.len() ==> !note_matches(#[trigger] notes[j], channel, key),
        },
    decreases notes.len(),
{
    if notes.len() > 0 {
        lemma_position(notes.drop_last(), channel, key);
        assert(forall|j: int|
            0 <= j < notes.len() - 1 ==> notes.drop_last()[j] == #[trigger] notes[j]);
    }
}

/// A match with no match before it is what `position` finds.
pub proof fn lemma_position_is(notes: Seq<Note>, channel: u8, key: u8, i: int)
    requires
        0 <= i < notes.len(),
        note_matches(notes[i], channel, key),
        forall|j: int| 0 <= j < i ==> !note_matches(#[trigger] notes[j], channel, key),
    ensures
        position(notes, channel, key) == Some(i),
{
    lemma_position(notes, channel, key);
}

/// Where nothing matches, `position` finds nothing.
pub proof fn lemma_position_none(notes: Seq<Note>, channel: u8, key: u8)
    requires
        forall|j: int| 0 <= j < notes.len() ==> !note_matches(#[trigger] notes[j], channel, key),
    ensures
        position(notes, channel, key).is_none(),
{
    lemma_position(notes, channel, key);
}

/// Logs that agree on their first `n` entries have the same matched pairs
/// among them.
pub proof fn lemma_matched_pairs_prefix(a: Log, b: Log, n: int)
    requires
        n <= a.len(),
        n <= b.len(),
        forall|i: int| 0 <= i < n ==> a[i] == b[i],
    ensures
        matched_pairs(a, n) == matched_pairs(b, n),
    decreases n,
{
    if n > 0 {
        lemma_matched_pairs_prefix(a, b, n - 1);
        lemma_sounding_prefix(a, b, n - 1);
    }
}

/// Logs that agree on their first `n` entries agree on what is sounding
/// after them.
pub proof fn lemma_sounding_prefix(a: Log, b: Log, n: int)
    requires
        n <= a.len(),
        n <= b.len(),
        forall|i: int| 0 <= i < n ==> a[i] == b[i],
    ensures
        forall|channel: u8, key: u8|
            sounding(a, channel, key, n) == sounding(b, channel, key, n),
{
    assert forall|channel: u8, key: u8| sounding(a, channel, key, n) implies sounding(
        b,
        channel,
        key,
        n,
    ) by {
        let i = choose|i: int| opened_at(a, channel, key, i, n);
        assert(opened_at(b, channel, key, i, n));
    }
    assert forall|channel: u8, key: u8| sounding(b, channel, key, n) implies sounding(
        a,
        channel,
        key,
        n,
    ) by {
        let i = choose|i: int| opened_at(b, channel, key, i, n);
        assert(opened_at(a, channel, key, i, n));
    }
}

/// A note with the given channel and key among `notes` is found by
/// `position`.
pub proof fn lemma_position_some(notes: Seq<Note>, channel: u8, key: u8, p: int)
    requires
        0 <= p < notes.len(),
        note_matches(notes[p], channel, key),
    ensures
        position(notes, channel, key).is_some(),
{
    lemma_position(notes, channel, key);
}

/// A completed note that agrees with a log agrees with every longer log.
pub proof fn lemma_completed_keep(log: Log, entry: (i64, StoreEntry), note: Note)
    requires
        completed_ok(log, note),
    ensures
        completed_ok(log.push(entry), note),
{
    let longer = log.push(entry);
    assert forall|m: int| note.idx_on + 1 <= m < note.idx_off implies !(#[trigger] longer[m]).1.touches(
        note.channel,
        note.key,
    ) by {
        assert(longer[m] == log[m]);
    }
}

/// A note in flight stays in flight when an entry arrives that does not
/// touch its channel and key.
pub proof fn lemma_in_flight_keep(log: Log, entry: (i64, StoreEntry), note: Note)
    requires
        in_flight_ok(log, note),
        !entry.1.touches(note.channel, note.key),
    ensures
        in_flight_ok(log.push(entry), note),
{
    let longer = log.push(entry);
    assert forall|m: int| note.idx_on + 1 <= m < longer.len() implies !(#[trigger] longer[m]).1.touches(
        note.channel,
        note.key,
    ) by {
        if m < log.len() {
            assert(longer[m] == log[m]);
        }
    }
}

/// What is sounding after one more entry: a key that the entry starts is,
/// a key that it silences is not, and every other key is as before.
pub proof fn lemma_sounding_push(log: Log, entry: (i64, StoreEntry), channel: u8, key: u8)
    ensures
        sounding(log.push(entry), channel, key, log.len() as int + 1) == (entry.1.opens(channel, key) || (
        !entry.1.touches(channel, key) && sounding(log, channel, key, log.len() as int))),
{
    let longer = log.push(entry);
    let n = log.len() as int;
    let m1 = n + 1;
    assert(longer[n] == entry);
    if sounding(longer, channel, key, m1) {
        let i = choose|i: int| opened_at(longer, channel, key, i, m1);
        if i < n {
            assert(!longer[n].1.touches(channel, key));
            assert(longer[i] == log[i]);
            assert forall|m: int| i + 1 <= m < n implies !(#[trigger] log[m]).1.touches(
                channel,
                key,
            ) by {
                assert(longer[m] == log[m]);
            }
            assert(opened_at(log, channel, key, i, n));
        }
    }
    if entry.1.opens(channel, key) {
        assert(opened_at(longer, channel, key, n, m1));
    }
    if !entry.1.touches(channel, key) && sounding(log, channel, key, n) {
        let i = choose|i: int| opened_at(log, channel, key, i, n);
        assert(longer[i] == log[i]);
        assert forall|m: int| i + 1 <= m < n + 1 implies !(#[trigger] longer[m]).1.touches(
            channel,
            key,
        ) by {
            if m < n {
                assert(longer[m] == log[m]);
            }
        }
        assert(opened_at(longer, channel, key, i, m1));
    }
}

/// The matched pairs of a log with one more entry: one more if the entry
/// silences a key that was sounding.
pub proof fn lemma_matched_pairs_push(log: Log, entry: (i64, StoreEntry))
    ensures
        matched_pairs(log.push(entry), log.len() as int + 1) == matched_pairs(log, log.len() as int) + (
        match entry.1.closing_key() {
            Some(key) => if sounding(log, entry.1.channel(), key, log.len() as int) {
                1nat
            } else {
                0nat
            },
            None => 0nat,
        }),
{
    let longer = log.push(entry);
    let n = log.len() as int;
    assert(longer[n] == entry);
    assert forall|i: int| 0 <= i < n implies longer[i] == log[i] by {}
    lemma_matched_pairs_prefix(longer, log, n);
    lemma_sounding_prefix(longer, log, n);
}

/// A log that is in order stays in order when an entry arrives that is not
/// earlier than its last one.
pub proof fn lemma_log_ok_push(log: Log, entry: (i64, StoreEntry))
    requires
        log_ok(log),
        entry.1.wf(),
        log.len() > 0 ==> log.last().0 <= entry.0,
    ensures
        log_ok(log.push(entry)),
{
    let longer = log.push(entry);
    assert forall|i: int, j: int| 0 <= i <= j < longer.len() implies (#[trigger] longer[i]).0 <= (
    #[trigger] longer[j]).0 by {
        if j < log.len() {
            assert(longer[i] == log[i] && longer[j] == log[j]);
        } else if i < log.len() {
            assert(longer[i] == log[i]);
            assert(log[i].0 <= log[log.len() - 1].0);
        }
    }
    assert forall|i: int| 0 <= i < longer.len() implies (#[trigger] longer[i]).1.wf() by {
        if i < log.len() {
            assert(longer[i] == log[i]);
        }
    }
}

/// Every matched pair keeps its completed note when an entry arrives, if the
/// notes are kept and the entry, where it ends a note, has its note too.
pub proof fn lemma_notes_complete_push(
    log: Log,
    entry: (i64, StoreEntry),
    notes: Seq<Note>,
    kept: Seq<Note>,
)
    requires
        notes_complete(log, notes),
        notes.len() <= kept.len(),
        forall|n: int| 0 <= n < notes.len() ==> kept[n] == notes[n],
        ends_note_at(log.push(entry), log.len() as int) ==> has_note_ending(kept, log.len() as int),
    ensures
        notes_complete(log.push(entry), kept),
{
    let longer = log.push(entry);
    assert forall|j: int| 0 <= j < longer.len() && #[trigger] ends_note_at(longer, j) implies has_note_ending(
        kept,
        j,
    ) by {
        if j < log.len() {
            assert(longer[j] == log[j]);
            assert forall|i: int| 0 <= i < j implies longer[i] == log[i] by {}
            lemma_sounding_prefix(longer, log, j);
            assert(ends_note_at(log, j));
            let n = choose|n: int| 0 <= n < notes.len() && (#[trigger] notes[n]).idx_off == j;
            assert(kept[n].idx_off == j);
        }
    }
}

/// Logs that agree on their first `n` entries give the same ranges among
/// them.
pub proof fn lemma_observed_ranges_prefix(a: Log, b: Log, n: int)
    requires
        n <= a.len(),
        n <= b.len(),
        forall|i: int| 0 <= i < n ==> a[i] == b[i],
    ensures
        observed_ranges(a, n) == observed_ranges(b, n),
    decreases n,
{
    if n > 0 {
        lemma_observed_ranges_prefix(a, b, n - 1);
        lemma_sounding_prefix(a, b, n - 1);
    }
}

/// The ranges that a log with one more entry gives: those of the log,
/// widened if the entry starts a key that was not sounding or silences one
/// that was.
pub proof fn lemma_observed_ranges_push(log: Log, entry: (i64, StoreEntry))
    ensures
        observed_ranges(log.push(entry), log.len() as int + 1) == (if (match entry.1.opening_key() {
            Some(key) => !sounding(log, entry.1.channel(), key, log.len() as int),
            None => false,
        }) || (match entry.1.closing_key() {
            Some(key) => sounding(log, entry.1.channel(), key, log.len() as int),
            None => false,
        }) {
            (
                widen_keys(observed_ranges(log, log.len() as int).0, shown_key(entry.1)),
                widen_times(observed_ranges(log, log.len() as int).1, entry.0),
            )
        } else {
            observed_ranges(log, log.len() as int)
        }),
{
    let longer = log.push(entry);
    let n = log.len() as int;
    assert(longer[n] == entry);
    assert forall|i: int| 0 <= i < n implies longer[i] == log[i] by {}
    lemma_observed_ranges_prefix(longer, log, n);
    lemma_sounding_prefix(longer, log, n);
}

/// A log with one more entry holds the start of a note if the log did or
/// the entry is one.
pub proof fn lemma_note_started_push(log: Log, entry: (i64, StoreEntry))
    ensures
        note_started(log.push(entry)) == (note_started(log) || entry.1.opening_key().is_some()),
{
    let longer = log.push(entry);
    if note_started(longer) {
        let i = choose|i: int| 0 <= i < longer.len() && (#[trigger] longer[i]).1.opening_key().is_some();
        if i < log.len() {
            assert(longer[i] == log[i]);
        }
    }
    if note_started(log) {
        let i = choose|i: int| 0 <= i < log.len() && (#[trigger] log[i]).1.opening_key().is_some();
        assert(longer[i] == log[i]);
    }
    if entry.1.opening_key().is_some() {
        assert(longer[log.len() as int] == entry);
    }
}

/// Logging an event keeps the log in order and the completed notes in
/// agreement with it.
proof fn lemma_logged_keeps(s: Model, time: i64, channel: u8, message: MidiMessage)
    requires
        s.wf(),
        s.follows(time),
        channel < 16,
        message.wf(),
    ensures
        log_ok(s.logged(time, channel, message).log),
        notes_ok(s.logged(time, channel, message).log, s.notes),
{
    let entry = (time, StoreEntry::MidiData { channel, data: message });
    lemma_log_ok_push(s.log, entry);
    assert forall|n: int| 0 <= n < s.notes.len() implies completed_ok(
        s.log.push(entry),
        #[trigger] s.notes[n],
    ) by {
        lemma_completed_keep(s.log, entry, s.notes[n]);
    }
}

/// Recording a message that is neither a note-on nor a note-off keeps the
/// state well formed.
proof fn lemma_record_other(s: Model, time: i64, channel: u8, message: MidiMessage)
    requires
        s.wf(),
        s.follows(time),
        channel < 16,
        message.wf(),
        !(message is NoteOn),
        !(message is NoteOff),
    ensures
        s.logged(time, channel, message).wf(),
{
    let entry = (time, StoreEntry::MidiData { channel, data: message });
    let t = s.logged(time, channel, message);
    lemma_logged_keeps(s, time, channel, message);
    lemma_matched_pairs_push(s.log, entry);
    lemma_note_started_push(s.log, entry);
    lemma_observed_ranges_push(s.log, entry);
    assert(t.log[s.log.len() as int] == entry);
    lemma_notes_complete_push(s.log, entry, s.notes, t.notes);
    assert forall|p: int| 0 <= p < t.in_flight.len() implies in_flight_ok(
        t.log,
        #[trigger] t.in_flight[p],
    ) by {
        lemma_in_flight_keep(s.log, entry, s.in_flight[p]);
    }
    assert forall|c: u8, k: u8| #[trigger]
        sounding(t.log, c, k, t.log.len() as int) implies position(t.in_flight, c, k).is_some() by {
        lemma_sounding_push(s.log, entry, c, k);
        assert(sounding(s.log, c, k, s.log.len() as int));
    }
}

/// Recording a note-on keeps the state well formed.
proof fn lemma_record_on(s: Model, time: i64, channel: u8, key: u8, vel: u8)
    requires
        s.wf(),
        s.follows(time),
        channel < 16,
        key < 0x80,
        0 < vel < 0x80,
        s.log.len() < usize::MAX,
    ensures
        s.logged(time, channel, MidiMessage::NoteOn { key, vel }).note_on(
            time,
            s.log.len() as usize,
            channel,
            key,
            vel,
        ).wf(),
{
    let message = MidiMessage::NoteOn { key, vel };
    let entry = (time, StoreEntry::MidiData { channel, data: message });
    let n = s.log.len() as int;
    let mid = s.logged(time, channel, message);
    let t = mid.note_on(time, n as usize, channel, key, vel);
    let note = Note { t_start: time, idx_on: n as usize, t_end: 0, idx_off: 0, channel, key, vel };
    lemma_logged_keeps(s, time, channel, message);
    lemma_matched_pairs_push(s.log, entry);
    lemma_note_started_push(s.log, entry);
    lemma_observed_ranges_push(s.log, entry);
    lemma_position(s.in_flight, channel, key);
    assert(t.log == s.log.push(entry));
    assert(t.log[n] == entry);
    assert(t.notes == s.notes);
    lemma_notes_complete_push(s.log, entry, s.notes, t.notes);
    assert(opened_at(t.log, channel, key, n, n + 1));
    assert(in_flight_ok(t.log, note));
    match position(s.in_flight, channel, key) {
        Some(i) => {
            assert(t.in_flight == s.in_flight.update(i, note));
            assert forall|p: int| 0 <= p < t.in_flight.len() implies in_flight_ok(
                t.log,
                #[trigger] t.in_flight[p],
            ) by {
                if p != i {
                    assert(t.in_flight[p] == s.in_flight[p]);
                    if p < i {
                        assert(!note_matches(s.in_flight[i], s.in_flight[p].channel, s.in_flight[p].key));
                    } else {
                        assert(!note_matches(s.in_flight[p], s.in_flight[i].channel, s.in_flight[i].key));
                    }
                    lemma_in_flight_keep(s.log, entry, s.in_flight[p]);
                }
            }
            assert forall|p: int, q: int| 0 <= p < q < t.in_flight.len() implies !note_matches(
                #[trigger] t.in_flight[q],
                (#[trigger] t.in_flight[p]).channel,
                t.in_flight[p].key,
            ) by {
                assert(!note_matches(s.in_flight[q], s.in_flight[p].channel, s.in_flight[p].key));
            }
            assert forall|c: u8, k: u8| #[trigger]
                sounding(t.log, c, k, t.log.len() as int) implies position(
                t.in_flight,
                c,
                k,
            ).is_some() by {
                lemma_sounding_push(s.log, entry, c, k);
                if c == channel && k == key {
                    lemma_position_some(t.in_flight, c, k, i);
                } else {
                    assert(sounding(s.log, c, k, n));
                    lemma_position(s.in_flight, c, k);
                    let p = position(s.in_flight, c, k).unwrap();
                    assert(t.in_flight[p] == s.in_flight[p]);
                    lemma_position_some(t.in_flight, c, k, p);
                }
            }
            assert(in_flight_ok(s.log, s.in_flight[i]));
            assert(s.log[s.in_flight[i].idx_on as int].0 <= s.log[n - 1].0);
            assert forall|p: int| 0 <= p < t.in_flight.len() implies t.keys.is_some()
                && t.keys.unwrap().0 <= (#[trigger] t.in_flight[p]).key <= t.keys.unwrap().1 by {
                if p != i {
                    assert(t.in_flight[p] == s.in_flight[p]);
                } else {
                    assert(s.in_flight[i].key == key);
                }
            }
            assert forall|p: int| 0 <= p < t.in_flight.len() implies t.times.is_some()
                && t.times.unwrap().0 <= (#[trigger] t.in_flight[p]).t_start by {
                if p != i {
                    assert(t.in_flight[p] == s.in_flight[p]);
                } else {
                    assert(s.times.unwrap().0 <= s.in_flight[i].t_start);
                }
            }
        },
        None => {
            assert(t.in_flight == s.in_flight.push(note));
            assert forall|p: int| 0 <= p < t.in_flight.len() implies in_flight_ok(
                t.log,
                #[trigger] t.in_flight[p],
            ) by {
                if p < s.in_flight.len() {
                    assert(t.in_flight[p] == s.in_flight[p]);
                    assert(!note_matches(s.in_flight[p], channel, key));
                    lemma_in_flight_keep(s.log, entry, s.in_flight[p]);
                }
            }
            assert forall|p: int, q: int| 0 <= p < q < t.in_flight.len() implies !note_matches(
                #[trigger] t.in_flight[q],
                (#[trigger] t.in_flight[p]).channel,
                t.in_flight[p].key,
            ) by {
                assert(t.in_flight[p] == s.in_flight[p]);
                if q < s.in_flight.len() {
                    assert(t.in_flight[q] == s.in_flight[q]);
                    assert(!note_matches(s.in_flight[q], s.in_flight[p].channel, s.in_flight[p].key));
                } else {
                    assert(!note_matches(s.in_flight[p], channel, key));
                }
            }
            assert forall|c: u8, k: u8| #[trigger]
                sounding(t.log, c, k, t.log.len() as int) implies position(
                t.in_flight,
                c,
                k,
            ).is_some() by {
                lemma_sounding_push(s.log, entry, c, k);
                if c == channel && k == key {
                    lemma_position_some(t.in_flight, c, k, s.in_flight.len() as int);
                } else {
                    assert(sounding(s.log, c, k, n));
                    lemma_position(s.in_flight, c, k);
                    let p = position(s.in_flight, c, k).unwrap();
                    assert(t.in_flight[p] == s.in_flight[p]);
                    lemma_position_some(t.in_flight, c, k, p);
                }
            }
            assert forall|m: int| 0 <= m < t.notes.len() implies t.keys.is_some()
                && t.keys.unwrap().0 <= (#[trigger] t.notes[m]).key <= t.keys.unwrap().1 by {
                assert(s.keys.unwrap().0 <= s.notes[m].key <= s.keys.unwrap().1);
            }
            assert forall|p: int| 0 <= p < t.in_flight.len() implies t.keys.is_some()
                && t.keys.unwrap().0 <= (#[trigger] t.in_flight[p]).key <= t.keys.unwrap().1 by {
                if p < s.in_flight.len() {
                    assert(t.in_flight[p] == s.in_flight[p]);
                    assert(s.keys.unwrap().0 <= s.in_flight[p].key <= s.keys.unwrap().1);
                }
            }
            assert forall|m: int| 0 <= m < t.notes.len() implies t.times.is_some()
                && t.times.unwrap().0 <= (#[trigger] t.notes[m]).t_start && t.notes[m].t_end
                <= t.times.unwrap().1 by {
                assert(s.times.unwrap().0 <= s.notes[m].t_start);
            }
            assert forall|p: int| 0 <= p < t.in_flight.len() implies t.times.is_some()
                && t.times.unwrap().0 <= (#[trigger] t.in_flight[p]).t_start by {
                if p < s.in_flight.len() {
                    assert(t.in_flight[p] == s.in_flight[p]);
                    assert(s.times.unwrap().0 <= s.in_flight[p].t_start);
                }
            }
        },
    }
}

/// Recording a note-off keeps the state well formed.
proof fn lemma_record_off(s: Model, time: i64, channel: u8, message: MidiMessage, key: u8)
    requires
        s.wf(),
        s.follows(time),
        channel < 16,
        message.wf(),
        message == (MidiMessage::NoteOn { key, vel: 0 }) || (message matches MidiMessage::NoteOff {
            key: k,
            ..
        } && k == key),
        s.log.len() < usize::MAX,
    ensures
        s.logged(time, channel, message).note_off(time, s.log.len() as usize, channel, key).wf(),
{
    let entry = (time, StoreEntry::MidiData { channel, data: message });
    let n = s.log.len() as int;
    let mid = s.logged(time, channel, message);
    let t = mid.note_off(time, n as usize, channel, key);
    lemma_logged_keeps(s, time, channel, message);
    lemma_matched_pairs_push(s.log, entry);
    lemma_note_started_push(s.log, entry);
    lemma_observed_ranges_push(s.log, entry);
    lemma_position(s.in_flight, channel, key);
    assert(t.log == s.log.push(entry));
    assert(t.log[n] == entry);
    assert(entry.1.closes(channel, key));
    match position(s.in_flight, channel, key) {
        Some(i) => {
            let old_note = s.in_flight[i];
            let note = Note { idx_off: n as usize, t_end: time, ..old_note };
            assert(t.in_flight == s.in_flight.remove(i));
            assert(t.notes == s.notes.push(note));
            assert(in_flight_ok(s.log, old_note));
            assert(opened_at(s.log, channel, key, old_note.idx_on as int, n));
            assert(sounding(s.log, channel, key, n));
            assert(s.log[old_note.idx_on as int].0 <= s.log[n - 1].0);
            assert(t.log[old_note.idx_on as int] == s.log[old_note.idx_on as int]);
            assert forall|m: int| old_note.idx_on + 1 <= m < n implies !(#[trigger] t.log[m]).1.touches(
                channel,
                key,
            ) by {
                assert(t.log[m] == s.log[m]);
            }
            assert(completed_ok(t.log, note));
            assert(t.notes[s.notes.len() as int].idx_off == n);
            assert(has_note_ending(t.notes, n));
            lemma_notes_complete_push(s.log, entry, s.notes, t.notes);
            assert forall|m: int| 0 <= m < t.notes.len() implies completed_ok(
                t.log,
                #[trigger] t.notes[m],
            ) by {
                if m < s.notes.len() {
                    assert(t.notes[m] == s.notes[m]);
                }
            }
            assert forall|a: int, b: int| 0 <= a < b < t.notes.len() implies (#[trigger] t.notes[a]).idx_off
                < (#[trigger] t.notes[b]).idx_off by {
                assert(t.notes[a] == s.notes[a]);
                assert(completed_ok(s.log, s.notes[a]));
                if b < s.notes.len() {
                    assert(t.notes[b] == s.notes[b]);
                }
            }
            assert forall|p: int| 0 <= p < t.in_flight.len() implies in_flight_ok(
                t.log,
                #[trigger] t.in_flight[p],
            ) by {
                let q = if p < i {
                    p
                } else {
                    p + 1
                };
                assert(t.in_flight[p] == s.in_flight[q]);
                if q < i {
                    assert(!note_matches(s.in_flight[i], s.in_flight[q].channel, s.in_flight[q].key));
                } else {
                    assert(!note_matches(s.in_flight[q], s.in_flight[i].channel, s.in_flight[i].key));
                }
                lemma_in_flight_keep(s.log, entry, s.in_flight[q]);
            }
            assert forall|p: int, q: int| 0 <= p < q < t.in_flight.len() implies !note_matches(
                #[trigger] t.in_flight[q],
                (#[trigger] t.in_flight[p]).channel,
                t.in_flight[p].key,
            ) by {
                let p0 = if p < i {
                    p
                } else {
                    p + 1
                };
                let q0 = if q < i {
                    q
                } else {
                    q + 1
                };
                assert(t.in_flight[p] == s.in_flight[p0]);
                assert(t.in_flight[q] == s.in_flight[q0]);
                assert(!note_matches(s.in_flight[q0], s.in_flight[p0].channel, s.in_flight[p0].key));
            }
            assert forall|c: u8, k: u8| #[trigger]
                sounding(t.log, c, k, t.log.len() as int) implies position(
                t.in_flight,
                c,
                k,
            ).is_some() by {
                lemma_sounding_push(s.log, entry, c, k);
                assert(sounding(s.log, c, k, n));
                lemma_position(s.in_flight, c, k);
                let p = position(s.in_flight, c, k).unwrap();
                assert(p != i);
                let q = if p < i {
                    p
                } else {
                    p - 1
                };
                assert(t.in_flight[q] == s.in_flight[p]);
                lemma_position_some(t.in_flight, c, k, q);
            }
            assert forall|m: int| 0 <= m < t.notes.len() implies t.keys.is_some()
                && t.keys.unwrap().0 <= (#[trigger] t.notes[m]).key <= t.keys.unwrap().1 by {
                if m < s.notes.len() {
                    assert(t.notes[m] == s.notes[m]);
                    assert(s.keys.unwrap().0 <= s.notes[m].key <= s.keys.unwrap().1);
                } else {
                    assert(s.keys.unwrap().0 <= s.in_flight[i].key <= s.keys.unwrap().1);
                }
            }
            assert forall|p: int| 0 <= p < t.in_flight.len() implies t.keys.is_some()
                && t.keys.unwrap().0 <= (#[trigger] t.in_flight[p]).key <= t.keys.unwrap().1 by {
                let q = if p < i {
                    p
                } else {
                    p + 1
                };
                assert(t.in_flight[p] == s.in_flight[q]);
                assert(s.keys.unwrap().0 <= s.in_flight[q].key <= s.keys.unwrap().1);
            }
            assert forall|m: int| 0 <= m < t.notes.len() implies t.times.is_some()
                && t.times.unwrap().0 <= (#[trigger] t.notes[m]).t_start && t.notes[m].t_end
                <= t.times.unwrap().1 by {
                if m < s.notes.len() {
                    assert(t.notes[m] == s.notes[m]);
                    assert(s.times.unwrap().0 <= s.notes[m].t_start);
                } else {
                    assert(s.times.unwrap().0 <= s.in_flight[i].t_start);
                }
            }
            assert forall|p: int| 0 <= p < t.in_flight.len() implies t.times.is_some()
                && t.times.unwrap().0 <= (#[trigger] t.in_flight[p]).t_start by {
                let q = if p < i {
                    p
                } else {
                    p + 1
                };
                assert(t.in_flight[p] == s.in_flight[q]);
                assert(s.times.unwrap().0 <= s.in_flight[q].t_start);
            }
        },
        None => {
            assert(t == mid);
            if sounding(s.log, channel, key, n) {
                assert(position(s.in_flight, channel, key).is_some());
            }
            assert forall|i: int| 0 <= i < n implies t.log[i] == s.log[i] by {}
            lemma_sounding_prefix(t.log, s.log, n);
            lemma_notes_complete_push(s.log, entry, s.notes, t.notes);
            assert forall|p: int| 0 <= p < t.in_flight.len() implies in_flight_ok(
                t.log,
                #[trigger] t.in_flight[p],
            ) by {
                assert(!note_matches(s.in_flight[p], channel, key));
                lemma_in_flight_keep(s.log, entry, s.in_flight[p]);
            }
            assert forall|c: u8, k: u8| #[trigger]
                sounding(t.log, c, k, t.log.len() as int) implies position(
                t.in_flight,
                c,
                k,
            ).is_some() by {
                lemma_sounding_push(s.log, entry, c, k);
                assert(sounding(s.log, c, k, n));
            }
        },
    }
}

/// Recording an event that is not earlier than the last one keeps the state
/// well formed.
pub proof fn lemma_record_wf(s: Model, time: i64, channel: u8, message: MidiMessage)
    requires
        s.wf(),
        s.follows(time),
        channel < 16,
        message.wf(),
        s.log.len() < usize::MAX,
    ensures
        s.record(time, channel, message).wf(),
{
    match message {
        MidiMessage::NoteOn { key, vel } => {
            if vel == 0 {
                lemma_record_off(s, time, channel, message, key);
            } else {
                lemma_record_on(s, time, channel, key, vel);
            }
        },
        MidiMessage::NoteOff { key, .. } => {
            lemma_record_off(s, time, channel, message, key);
        },
        _ => {
            lemma_record_other(s, time, channel, message);
        },
    }
}

/// The note and the window `t0 .. t1` share more than a boundary.
pub open spec fn overlaps(note: Note, t0: i64, t1: i64) -> bool {
    t0 < note.t_end && t1 > note.t_start
}

/// The test `overlaps` for a fixed window.
pub open spec fn overlapping(t0: i64, t1: i64) -> spec_fn(Note) -> bool {
    |note: Note| overlaps(note, t0, t1)
}

/// Pairs a note with whether it overlaps the selection.
pub open spec fn with_selection(sel_t0: i64, sel_t1: i64) -> spec_fn(Note) -> (Note, bool) {
    |note: Note| (note, overlaps(note, sel_t0, sel_t1))
}

/// `n` divides `number`.
pub open spec fn divisible(number: i32, n: i32) -> bool {
    number as int % n as int == 0
}

/// The test for bars whose number `n` divides.
pub open spec fn every_nth(n: i32) -> spec_fn(Bar) -> bool {
    |bar: Bar| divisible(bar.bar_number, n)
}

/// How far the bar lies from `time`.
pub open spec fn distance(bar: Bar, time: i64) -> int {
    if bar.t >= time {
        bar.t - time
    } else {
        time - bar.t
    }
}

/// The bar of `bars` nearest to `time`; of several equally near, the first.
pub open spec fn nearest(bars: Seq<Bar>, time: i64) -> Option<Bar>
    decreases bars.len(),
{
    if bars.len() == 0 {
        None
    } else {
        match nearest(bars.drop_last(), time) {
            None => Some(bars.last()),
            Some(best) => if distance(bars.last(), time) < distance(best, time) {
                Some(bars.last())
            } else {
                Some(best)
            },
        }
    }
}

/// Two snapshots with these bar starts lie in the same bar: the starts are
/// less than a hundredth of a beat apart.
pub open spec fn same_bar(last: Option<i64>, bar_start: i64) -> bool {
    match last {
        Some(previous) => -10_000 < bar_start - previous < 10_000,
        None => false,
    }
}

impl TransportInfo {
    /// When the current bar started: the snapshot's time less the time that
    /// the beats since the bar start take at the snapshot's tempo, rounded to
    /// the nearest microsecond and clamped into `i64`.
    ///
    /// At a tempo of zero a beat takes for ever: the bar started at the
    /// earliest time that can be told if the position lies past the bar
    /// start, at the latest if it lies before it, and at the snapshot's time
    /// if it lies on it.
    pub open spec fn bar_time(self) -> i64 {
        let beats = self.pos_beats - self.bar_start_pos_beats;
        if self.tempo == 0 {
            if beats > 0 {
                i64::MIN
            } else if beats < 0 {
                i64::MAX
            } else {
                self.time
            }
        } else {
            clamp(
                self.time - div_round_signed(beats * 60_000_000, self.tempo as int),
                i64::MIN as int,
                i64::MAX as int,
            ) as i64
        }
    }

    /// The ordinal of the current bar: its start in beats divided by the
    /// beats in a bar, `4 * numerator / denominator`, rounded to the nearest
    /// integer and clamped into `i32`.
    ///
    /// With a numerator of zero a bar holds no beat: the ordinal is the
    /// highest that can be told if the bar start lies past zero, the lowest
    /// if it lies before zero, and 0 if it lies on it.
    pub open spec fn bar_ordinal(self) -> i32 {
        if self.time_sig.0 == 0 {
            if self.bar_start_pos_beats > 0 {
                i32::MAX
            } else if self.bar_start_pos_beats < 0 {
                i32::MIN
            } else {
                0
            }
        } else {
            clamp(
                div_round_signed(
                    self.bar_start_pos_beats * self.time_sig.1,
                    4_000_000 * self.time_sig.0,
                ),
                i32::MIN as int,
                i32::MAX as int,
            ) as i32
        }
    }
}

impl Model {
    /// The state after a transport snapshot: the snapshot is kept; a stopped
    /// transport clears the bar memory; a rolling one places a bar and
    /// remembers its start, unless it lies in the bar that was placed last.
    pub open spec fn add_bar(self, transport: TransportInfo) -> Model {
        let kept = Model { transport, ..self };
        if !transport.playing {
            Model { last_bar: None, ..kept }
        } else if same_bar(self.last_bar, transport.bar_start_pos_beats) {
            kept
        } else {
            Model {
                last_bar: Some(transport.bar_start_pos_beats),
                bars: self.bars.push(
                    Bar { bar_number: transport.bar_ordinal(), t: transport.bar_time() },
                ),
                ..kept
            }
        }
    }
}

/// `nearest` finds a bar exactly if there is one, and then the first of
/// those that no bar is nearer than.
pub proof fn lemma_nearest(bars: Seq<Bar>, time: i64)
    ensures
        bars.len() == 0 <==> nearest(bars, time).is_none(),
        nearest(bars, time) matches Some(best) ==> exists|i: int|
            {
                &&& 0 <= i < bars.len()
                &&& #[trigger] bars[i] == best
                &&& forall|j: int|
                    0 <= j < bars.len() ==> distance(best, time) <= distance(#[trigger] bars[j], time)
                &&& forall|j: int|
                    0 <= j < i ==> distance(best, time) < distance(#[trigger] bars[j], time)
            },
    decreases bars.len(),
{
    if bars.len() > 0 {
        let front = bars.drop_last();
        lemma_nearest(front, time);
        assert(forall|j: int| 0 <= j < front.len() ==> front[j] == #[trigger] bars[j]);
        match nearest(front, time) {
            None => {
                assert(bars[0] == bars.last());
            },
            Some(best) => {
                if distance(bars.last(), time) < distance(best, time) {
                    assert(bars[bars.len() - 1] == bars.last());
                } else {
                    let i = choose|i: int|
                        {
                            &&& 0 <= i < front.len()
                            &&& #[trigger] front[i] == best
                            &&& forall|j: int|
                                0 <= j < front.len() ==> distance(best, time) <= distance(
                                    #[trigger] front[j],
                                    time,
                                )
                            &&& forall|j: int|
                                0 <= j < i ==> distance(best, time) < distance(
                                    #[trigger] front[j],
                                    time,
                                )
                        };
                    assert(bars[i] == best);
                }
            },
        }
    }
}

} // verus!
