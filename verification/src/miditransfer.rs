//! Export of a time window of the store as a Standard MIDI File.
//!
//! The track is laid out here; its encoding into bytes is `midly`'s.

use vstd::prelude::*;
use midly::live::LiveEvent;
use midly::num::{u15, u28};
use midly::{Format, Header, MetaMessage, Smf, Timing};
use crate::fixed::{div_round, div_round_i128, lemma_div_round_signed_bound, lemma_product_bound};
use crate::message::{decoded, encode, is_channel_message, MidiMessage};
use crate::midistore::{MidiStore, Note, StoreEntry};
use crate::model::{overlapping, overlaps, Log, Model};

verus! {

/// Ticks per quarter note of an exported file.
pub const PPQN: u16 = 480;

/// The largest delta time that a track event can carry: 28 bits.
pub const MAX_DELTA: u32 = 0x0FFF_FFFF;

/// Microseconds times millionths of a beat per minute that make one tick:
/// a minute's microseconds, times a million, over `PPQN`.
pub const TICK_DIVISOR: u64 = 125_000_000_000;

/// How the tracks of a file are to be played.
#[derive(Clone, Copy, Debug, PartialEq, Eq, Structural)]
pub enum FileFormat {
    /// Format 0: a single track.
    SingleTrack,
    /// Format 1: several tracks played together.
    Parallel,
    /// Format 2: several tracks, each a piece of its own.
    Sequential,
}

/// What a track event carries.
#[derive(Clone, Copy, Debug, PartialEq, Eq, Structural)]
pub enum TrackEventKind {
    /// A channel voice message.
    Midi { channel: u8, message: MidiMessage },
    /// The marker that ends a track.
    EndOfTrack,
}

/// An event of a track, `delta` ticks after the event before it.
#[derive(Clone, Copy, Debug, PartialEq, Eq, Structural)]
pub struct TrackEvent {
    pub delta: u32,
    pub kind: TrackEventKind,
}

/// Why a window was not exported.
#[derive(Clone, Copy, Debug, PartialEq, Eq, Structural)]
pub enum ExportError {
    /// No note overlaps the window.
    EmptySelection,
    /// A delta time of the track cannot be written: two neighbouring events
    /// lie further apart than 28 bits can say, or the later one falls on an
    /// earlier tick. The second never happens to a well-formed store.
    DeltaOutOfRange,
    /// The track is too long for a file.
    FileTooLarge,
}

/// The tick on which `time` falls in a window that starts at `t0`:
/// the seconds since `t0` times `PPQN * tempo / 60` ticks per second,
/// rounded to the nearest tick.
pub open spec fn tick(time: i64, t0: i64, tempo: u32) -> int {
    div_round((time - t0) * tempo, TICK_DIVISOR as int)
}

/// The test for completed notes that sound when the window opens and end
/// after its first tick.
pub open spec fn hanging(t0: i64, t1: i64, tempo: u32) -> spec_fn(Note) -> bool {
    |note: Note| overlaps(note, t0, t1) && note.t_start < t0 && tick(note.t_end, t0, tempo) > 0
}

/// The test for notes in flight that started before the window closes. A
/// note in flight has no end yet, so its start alone decides.
pub open spec fn selected_in_flight(t1: i64) -> spec_fn(Note) -> bool {
    |note: Note| t1 > note.t_start
}

/// The test for notes in flight that sound when the window opens.
pub open spec fn hanging_in_flight(t0: i64, t1: i64) -> spec_fn(Note) -> bool {
    |note: Note| t1 > note.t_start && note.t_start < t0
}

/// The test for completed notes that still sound when the window closes.
pub open spec fn incomplete(t0: i64, t1: i64) -> spec_fn(Note) -> bool {
    |note: Note| overlaps(note, t0, t1) && note.t_end > t1
}

/// The test for log entries inside the window, boundaries included.
pub open spec fn in_window(t0: i64, t1: i64) -> spec_fn((i64, StoreEntry)) -> bool {
    |entry: (i64, StoreEntry)| t0 <= entry.0 <= t1
}

/// The log entry as the content of a track event.
pub open spec fn kind_of(entry: StoreEntry) -> TrackEventKind {
    TrackEventKind::Midi { channel: entry.channel(), message: entry.message() }
}

/// The note-on of a note again, on the tick of the event before it.
pub open spec fn start_event(log: Log) -> spec_fn(Note) -> TrackEvent {
    |note: Note| TrackEvent { delta: 0, kind: kind_of(log[note.idx_on as int].1) }
}

/// Ticks between entry `i` of the window and the entry before it; for the
/// first entry, its tick.
pub open spec fn window_delta(window: Log, i: int, t0: i64, tempo: u32) -> int {
    tick(window[i].0, t0, tempo) - if i == 0 {
        0
    } else {
        tick(window[i - 1].0, t0, tempo)
    }
}

/// The entries of the window as track events.
pub open spec fn window_events(window: Log, t0: i64, tempo: u32) -> Seq<TrackEvent> {
    Seq::new(
        window.len(),
        |i: int|
            TrackEvent {
                delta: window_delta(window, i, t0, tempo) as u32,
                kind: kind_of(window[i].1),
            },
    )
}

/// The tick of the last entry of the window; 0 for an empty window.
pub open spec fn running_tick(window: Log, t0: i64, tempo: u32) -> int {
    if window.len() == 0 {
        0
    } else {
        tick(window.last().0, t0, tempo)
    }
}

/// Ticks from the last entry of the window to one tick before its end, and
/// no less than 0.
pub open spec fn trailing_delta(window: Log, t0: i64, t1: i64, tempo: u32) -> int {
    let gap = tick(t1, t0, tempo) - running_tick(window, t0, tempo) - 1;
    if gap < 0 {
        0
    } else {
        gap
    }
}

/// The note-offs of `ended` again: the first after `delta_end` ticks, the
/// others on the same tick.
pub open spec fn end_events(log: Log, ended: Seq<Note>, delta_end: int) -> Seq<TrackEvent> {
    Seq::new(
        ended.len(),
        |i: int|
            TrackEvent {
                delta: if i == 0 {
                    delta_end as u32
                } else {
                    0
                },
                kind: kind_of(log[ended[i].idx_off as int].1),
            },
    )
}

impl Model {
    /// The entries of the log inside the window.
    pub open spec fn window(self, t0: i64, t1: i64) -> Log {
        self.log.filter(in_window(t0, t1))
    }

    /// No note takes part in the window: no completed note overlaps it and
    /// no note in flight has started before it closes.
    pub open spec fn selection_empty(self, t0: i64, t1: i64) -> bool {
        self.notes.filter(overlapping(t0, t1)).len() == 0 && self.in_flight.filter(
            selected_in_flight(t1),
        ).len() == 0
    }

    /// Every delta time of the track fits: those between the entries of the
    /// window are neither negative nor above `MAX_DELTA`, and the trailing
    /// one, if a note-off is issued again, is not above it either.
    pub open spec fn deltas_fit(self, t0: i64, t1: i64, tempo: u32) -> bool {
        &&& forall|i: int|
            0 <= i < self.window(t0, t1).len() ==> 0 <= #[trigger] window_delta(
                self.window(t0, t1),
                i,
                t0,
                tempo,
            ) <= MAX_DELTA
        &&& self.notes.filter(incomplete(t0, t1)).len() > 0 ==> trailing_delta(
            self.window(t0, t1),
            t0,
            t1,
            tempo,
        ) <= MAX_DELTA
    }

    /// The track for the window from `t0` to `t1` at `tempo`:
    ///
    /// - on tick 0, the note-on of every completed note that sounds when the
    ///   window opens and ends after tick 0, then that of every note in
    ///   flight that sounds when the window opens;
    /// - every entry of the log inside the window, on its tick;
    /// - one tick before the end of the window, the note-off of every
    ///   completed note that still sounds when the window closes;
    /// - the end of the track, as long after those note-offs as they came
    ///   after the entry before them; right after the last entry if there
    ///   were none.
    pub open spec fn track(self, t0: i64, t1: i64, tempo: u32) -> Seq<TrackEvent> {
        let window = self.window(t0, t1);
        let delta_end = trailing_delta(window, t0, t1, tempo);
        let ended = self.notes.filter(incomplete(t0, t1));
        self.notes.filter(hanging(t0, t1, tempo)).map_values(start_event(self.log))
            + self.in_flight.filter(hanging_in_flight(t0, t1)).map_values(start_event(self.log))
            + window_events(window, t0, tempo) + end_events(self.log, ended, delta_end).push(
            TrackEvent {
                delta: if ended.len() > 0 {
                    delta_end as u32
                } else {
                    0
                },
                kind: TrackEventKind::EndOfTrack,
            },
        )
    }

    /// How laying out the track for a window ends.
    pub open spec fn selection(self, t0: i64, t1: i64, tempo: u32) -> Result<
        Seq<TrackEvent>,
        ExportError,
    > {
        if self.selection_empty(t0, t1) {
            Err(ExportError::EmptySelection)
        } else if !self.deltas_fit(t0, t1, tempo) {
            Err(ExportError::DeltaOutOfRange)
        } else {
            Ok(self.track(t0, t1, tempo))
        }
    }
}

/// Computes `tick(time, t0, tempo)`.
pub fn tick_of(time: i64, t0: i64, tempo: u32) -> (r: i128)
    ensures
        r == tick(time, t0, tempo),
{
    let since: i128 = time as i128 - t0 as i128;
    proof {
        lemma_product_bound(since as int, tempo as int, 0x1_0000_0000_0000_0000, 0x1_0000_0000);
    }
    div_round_i128(since * (tempo as i128), TICK_DIVISOR)
}

/// The content of a log entry as that of a track event.
fn entry_kind(entry: StoreEntry) -> (r: TrackEventKind)
    ensures
        r == kind_of(entry),
{
    match entry {
        StoreEntry::MidiData { channel, data } => TrackEventKind::Midi { channel, message: data },
    }
}

/// Whether any note takes part in the window.
fn any_selected(store: &MidiStore, t0: i64, t1: i64) -> (r: bool)
    ensures
        r == !store@.selection_empty(t0, t1),
{
    let completed = store.notes_in_time(t0, t1);
    if completed.len() > 0 {
        return true;
    }
    let mut i: usize = 0;
    let ghost pick = selected_in_flight(t1);
    assert(store.in_flight@.take(0) =~= Seq::empty());
    while i < store.in_flight.len()
        invariant
            i <= store.in_flight.len(),
            pick == selected_in_flight(t1),
            store.in_flight@.take(i as int).filter(pick).len() == 0,
        decreases store.in_flight.len() - i,
    {
        let note = store.in_flight[i];
        proof {
            store.in_flight@.lemma_take_succ_push(i as int);
            store.in_flight@.take(i as int).lemma_filter_push(note, pick);
        }
        if t1 > note.t_start {
            assert(store.in_flight@.take(i + 1) == store.in_flight@.take(i as int).push(note));
            assert(store.in_flight@.take(i + 1).filter(pick).len() > 0);
            proof {
                lemma_filter_grows(store.in_flight@, pick, i + 1);
            }
            return true;
        }
        i += 1;
    }
    assert(store.in_flight@.take(i as int) == store.in_flight@);
    false
}

/// A sequence has at least as many elements that pass a test as any of its
/// prefixes.
proof fn lemma_filter_grows<A>(s: Seq<A>, pred: spec_fn(A) -> bool, n: int)
    requires
        0 <= n <= s.len(),
    ensures
        s.take(n).filter(pred).len() <= s.filter(pred).len(),
    decreases s.len() - n,
{
    if n < s.len() {
        s.lemma_take_succ_push(n);
        s.take(n).lemma_filter_push(s[n], pred);
        lemma_filter_grows(s, pred, n + 1);
    } else {
        assert(s.take(n) == s);
    }
}

/// The note-ons of the notes among `notes` that pass `pick`, each on the
/// tick of the event before it, appended to `events`.
fn reissue_starts(
    store: &MidiStore,
    events: &mut Vec<TrackEvent>,
    completed: bool,
    t0: i64,
    t1: i64,
    tempo: u32,
)
    requires
        store@.exportable(),
        track_ok(old(events)@),
    ensures
        track_ok(final(events)@),
        completed ==> final(events)@ == old(events)@ + store@.notes.filter(
            hanging(t0, t1, tempo),
        ).map_values(start_event(store@.log)),
        !completed ==> final(events)@ == old(events)@ + store@.in_flight.filter(
            hanging_in_flight(t0, t1),
        ).map_values(start_event(store@.log)),
{
    let notes = if completed {
        &store.notes
    } else {
        &store.in_flight
    };
    let ghost pick = if completed {
        hanging(t0, t1, tempo)
    } else {
        hanging_in_flight(t0, t1)
    };
    let ghost make = start_event(store@.log);
    let ghost before = events@;
    let mut i: usize = 0;
    assert(notes@.take(0) =~= Seq::empty());
    assert(events@ =~= before + notes@.take(0).filter(pick).map_values(make));
    while i < notes.len()
        invariant
            i <= notes.len(),
            store@.exportable(),
            completed ==> notes@ == store@.notes && pick == hanging(t0, t1, tempo),
            !completed ==> notes@ == store@.in_flight && pick == hanging_in_flight(t0, t1),
            make == start_event(store@.log),
            track_ok(events@),
            events@ == before + notes@.take(i as int).filter(pick).map_values(make),
        decreases notes.len() - i,
    {
        let note = notes[i];
        let ghost seen = notes@.take(i as int).filter(pick);
        proof {
            notes@.lemma_take_succ_push(i as int);
            notes@.take(i as int).lemma_filter_push(note, pick);
            seen.lemma_push_map_commute(make, note);
            assert(notes@[i as int] == note);
            if completed {
                assert(store@.notes[i as int].idx_on < store@.log.len());
            } else {
                assert(store@.in_flight[i as int].idx_on < store@.log.len());
            }
        }
        let hangs = if completed {
            t0 < note.t_end && t1 > note.t_start && note.t_start < t0 && tick_of(
                note.t_end,
                t0,
                tempo,
            ) > 0
        } else {
            t1 > note.t_start && note.t_start < t0
        };
        if hangs {
            events.push(TrackEvent { delta: 0, kind: entry_kind(store.store[note.idx_on].1) });
            assert(events@ =~= before + seen.push(note).map_values(make));
        }
        i += 1;
    }
    assert(notes@.take(i as int) == notes@);
}

/// The entries of the log inside the window as track events, appended to
/// `events`. Returns the tick of the last of them, or `None` if a delta time
/// does not fit.
fn window_track(store: &MidiStore, events: &mut Vec<TrackEvent>, t0: i64, t1: i64, tempo: u32) -> (r:
    Option<i128>)
    requires
        store@.exportable(),
        track_ok(old(events)@),
    ensures
        track_ok(final(events)@),
        r.is_some() == (forall|i: int|
            0 <= i < store@.window(t0, t1).len() ==> 0 <= #[trigger] window_delta(
                store@.window(t0, t1),
                i,
                t0,
                tempo,
            ) <= MAX_DELTA),
        r matches Some(running) ==> running == running_tick(store@.window(t0, t1), t0, tempo)
            && final(events)@ == old(events)@ + window_events(store@.window(t0, t1), t0, tempo),
{
    let ghost pick = in_window(t0, t1);
    let ghost before = events@;
    let ghost log = store@.log;
    let mut running: i128 = 0;
    let mut fits: bool = true;
    let mut i: usize = 0;
    assert(log.take(0) =~= Seq::empty());
    assert(events@ =~= before + window_events(log.take(0).filter(pick), t0, tempo));
    while i < store.store.len()
        invariant
            i <= store.store.len(),
            store@.exportable(),
            track_ok(events@),
            log == store.store@,
            pick == in_window(t0, t1),
            running == running_tick(log.take(i as int).filter(pick), t0, tempo),
            fits == (forall|j: int|
                0 <= j < log.take(i as int).filter(pick).len() ==> 0 <= #[trigger] window_delta(
                    log.take(i as int).filter(pick),
                    j,
                    t0,
                    tempo,
                ) <= MAX_DELTA),
            fits ==> events@ == before + window_events(log.take(i as int).filter(pick), t0, tempo),
        decreases store.store.len() - i,
    {
        let time: i64 = store.store[i].0;
        let entry: StoreEntry = store.store[i].1;
        let ghost seen = log.take(i as int).filter(pick);
        let ghost grown = seen.push((time, entry));
        proof {
            log.lemma_take_succ_push(i as int);
            log.take(i as int).lemma_filter_push((time, entry), pick);
            assert(log[i as int] == (time, entry));
            assert(store@.log[i as int].1.wf());
        }
        if t0 <= time && time <= t1 {
            let at: i128 = tick_of(time, t0, tempo);
            let delta: i128 = at - running;
            proof {
                assert(log.take(i + 1).filter(pick) == grown);
                assert(grown.last() == (time, entry));
                assert(delta == window_delta(grown, seen.len() as int, t0, tempo)) by {
                    if seen.len() > 0 {
                        assert(grown[seen.len() - 1] == seen.last());
                    }
                }
                assert forall|j: int| 0 <= j < seen.len() implies window_delta(grown, j, t0, tempo)
                    == window_delta(seen, j, t0, tempo) by {
                    assert(grown[j] == seen[j]);
                    if j > 0 {
                        assert(grown[j - 1] == seen[j - 1]);
                    }
                }
            }
            if 0 <= delta && delta <= MAX_DELTA as i128 {
                if fits {
                    events.push(TrackEvent { delta: delta as u32, kind: entry_kind(entry) });
                    proof {
                        assert(window_events(grown, t0, tempo) =~= window_events(
                            seen,
                            t0,
                            tempo,
                        ).push(TrackEvent { delta: delta as u32, kind: kind_of(entry) })) by {
                            assert forall|j: int| 0 <= j < seen.len() implies window_events(
                                grown,
                                t0,
                                tempo,
                            )[j] == window_events(seen, t0, tempo)[j] by {
                                assert(grown[j] == seen[j]);
                            }
                        }
                        assert(events@ =~= before + window_events(grown, t0, tempo));
                    }
                }
            } else {
                fits = false;
            }
            running = at;
        }
        i += 1;
    }
    assert(log.take(i as int) == log);
    assert(log.take(i as int).filter(pick) == store@.window(t0, t1));
    if fits {
        Some(running)
    } else {
        None
    }
}

/// The note-offs of the completed notes that still sound when the window
/// closes, the first `delta_end` ticks after the event before it, appended
/// to `events`.
fn reissue_ends(
    store: &MidiStore,
    events: &mut Vec<TrackEvent>,
    t0: i64,
    t1: i64,
    delta_end: u32,
)
    requires
        store@.exportable(),
        track_ok(old(events)@),
        delta_end <= MAX_DELTA,
    ensures
        track_ok(final(events)@),
        final(events)@ == old(events)@ + end_events(
            store@.log,
            store@.notes.filter(incomplete(t0, t1)),
            delta_end as int,
        ),
{
    let ghost pick = incomplete(t0, t1);
    let ghost before = events@;
    let ghost log = store@.log;
    let mut count: usize = 0;
    let mut i: usize = 0;
    assert(store.notes@.take(0) =~= Seq::empty());
    assert(events@ =~= before + end_events(
        log,
        store.notes@.take(0).filter(pick),
        delta_end as int,
    ));
    while i < store.notes.len()
        invariant
            i <= store.notes.len(),
            store@.exportable(),
            log == store@.log,
            pick == incomplete(t0, t1),
            track_ok(events@),
            delta_end <= MAX_DELTA,
            count == store.notes@.take(i as int).filter(pick).len(),
            count <= i,
            events@ == before + end_events(
                log,
                store.notes@.take(i as int).filter(pick),
                delta_end as int,
            ),
        decreases store.notes.len() - i,
    {
        let note = store.notes[i];
        let ghost seen = store.notes@.take(i as int).filter(pick);
        proof {
            store.notes@.lemma_take_succ_push(i as int);
            store.notes@.take(i as int).lemma_filter_push(note, pick);
            assert(store@.notes[i as int].idx_off < store@.log.len());
        }
        if t0 < note.t_end && t1 > note.t_start && note.t_end > t1 {
            let delta: u32 = if count == 0 {
                delta_end
            } else {
                0
            };
            events.push(TrackEvent { delta, kind: entry_kind(store.store[note.idx_off].1) });
            proof {
                let grown = seen.push(note);
                assert(end_events(log, grown, delta_end as int) =~= end_events(
                    log,
                    seen,
                    delta_end as int,
                ).push(TrackEvent { delta, kind: kind_of(log[note.idx_off as int].1) })) by {
                    assert forall|j: int| 0 <= j < seen.len() implies end_events(
                        log,
                        grown,
                        delta_end as int,
                    )[j] == end_events(log, seen, delta_end as int)[j] by {
                        assert(grown[j] == seen[j]);
                    }
                    assert(grown[seen.len() as int] == note);
                }
                assert(events@ =~= before + end_events(log, grown, delta_end as int));
            }
            count += 1;
        }
        i += 1;
    }
    assert(store.notes@.take(i as int) == store.notes@);
}

/// Whether any completed note still sounds when the window closes.
fn any_incomplete(store: &MidiStore, t0: i64, t1: i64) -> (r: bool)
    ensures
        r == (store@.notes.filter(incomplete(t0, t1)).len() > 0),
{
    let ghost pick = incomplete(t0, t1);
    let mut i: usize = 0;
    assert(store.notes@.take(0) =~= Seq::empty());
    while i < store.notes.len()
        invariant
            i <= store.notes.len(),
            pick == incomplete(t0, t1),
            store.notes@.take(i as int).filter(pick).len() == 0,
        decreases store.notes.len() - i,
    {
        let note = store.notes[i];
        proof {
            store.notes@.lemma_take_succ_push(i as int);
            store.notes@.take(i as int).lemma_filter_push(note, pick);
        }
        if t0 < note.t_end && t1 > note.t_start && note.t_end > t1 {
            proof {
                lemma_filter_grows(store.notes@, pick, i + 1);
            }
            return true;
        }
        i += 1;
    }
    assert(store.notes@.take(i as int) == store.notes@);
    false
}

/// Lays out the track that represents the window from `t0` to `t1` of the
/// store, at `tempo` millionths of a beat per minute.
///
/// Fails with `EmptySelection` when no note takes part in the window, else
/// with `DeltaOutOfRange` when a delta time of the track does not fit: when
/// it exceeds `MAX_DELTA`, or when an entry of the window falls on an
/// earlier tick than the entry before it. No delta is clamped or wrapped to
/// make it fit. The second case needs a log whose times run backwards,
/// which a well-formed store never has: see
/// `laws::lemma_window_deltas_not_negative`.
/// Otherwise returns the track that `Model::track` describes.
pub fn selection_track(store: &MidiStore, t0: i64, t1: i64, tempo: u32) -> (r: Result<
    Vec<TrackEvent>,
    ExportError,
>)
    requires
        store@.exportable(),
    ensures
        match r {
            Ok(track) => track_ok(track@) && store@.selection(t0, t1, tempo) == Ok::<
                Seq<TrackEvent>,
                ExportError,
            >(track@),
            Err(error) => store@.selection(t0, t1, tempo) == Err::<Seq<TrackEvent>, ExportError>(
                error,
            ),
        },
{
    if !any_selected(store, t0, t1) {
        return Err(ExportError::EmptySelection);
    }
    let mut events: Vec<TrackEvent> = Vec::new();
    reissue_starts(store, &mut events, true, t0, t1, tempo);
    reissue_starts(store, &mut events, false, t0, t1, tempo);
    let running: i128 = match window_track(store, &mut events, t0, t1, tempo) {
        Some(running) => running,
        None => {
            return Err(ExportError::DeltaOutOfRange);
        },
    };
    proof {
        lemma_running_tick_bound(store@.window(t0, t1), t0, tempo);
        lemma_tick_bound(t1, t0, tempo);
    }
    let gap: i128 = tick_of(t1, t0, tempo) - running - 1;
    let trailing: i128 = if gap < 0 {
        0
    } else {
        gap
    };
    let closes: bool = any_incomplete(store, t0, t1);
    if closes && trailing > MAX_DELTA as i128 {
        return Err(ExportError::DeltaOutOfRange);
    }
    let delta_end: u32 = if closes {
        trailing as u32
    } else {
        0
    };
    reissue_ends(store, &mut events, t0, t1, delta_end);
    events.push(TrackEvent { delta: delta_end, kind: TrackEventKind::EndOfTrack });
    proof {
        let ended = store@.notes.filter(incomplete(t0, t1));
        if !closes {
            assert(end_events(store@.log, ended, delta_end as int) =~= end_events(
                store@.log,
                ended,
                trailing as int,
            ));
        }
        assert(events@ =~= store@.track(t0, t1, tempo));
    }
    Ok(events)
}

/// Ticks stay within the range that their time and tempo allow.
proof fn lemma_running_tick_bound(window: Log, t0: i64, tempo: u32)
    ensures
        -0x1_0000_0000_0000_0000_0000_0000 <= running_tick(window, t0, tempo)
            <= 0x1_0000_0000_0000_0000_0000_0000,
{
    if window.len() > 0 {
        lemma_tick_bound(window.last().0, t0, tempo);
    }
}

/// A tick is no larger in magnitude than the product it is rounded from.
pub proof fn lemma_tick_bound(time: i64, t0: i64, tempo: u32)
    ensures
        -0x1_0000_0000_0000_0000_0000_0000 <= tick(time, t0, tempo)
            <= 0x1_0000_0000_0000_0000_0000_0000,
{
    lemma_product_bound((time - t0) as int, tempo as int, 0x1_0000_0000_0000_0000, 0x1_0000_0000);
    lemma_div_round_signed_bound((time - t0) * tempo, TICK_DIVISOR as int);
}

/// `midly::Smf`, a Standard MIDI File in memory: a header and its tracks.
#[verifier::external_type_specification]
#[verifier::external_body]
pub struct ExSmf<'a>(midly::Smf<'a>);

/// The file has exactly one track and metrical timing: `single_track` made
/// it, and nothing but the two `push` wrappers has changed it since.
pub uninterp spec fn smf_single(smf: Smf<'static>) -> bool;

/// The format in the header of the file.
pub uninterp spec fn smf_format(smf: Smf<'static>) -> FileFormat;

/// The ticks per quarter note in the header of a file with metrical timing.
pub uninterp spec fn smf_division(smf: Smf<'static>) -> u16;

/// The events of the track of a file that has exactly one.
pub uninterp spec fn smf_track(smf: Smf<'static>) -> Seq<TrackEvent>;

/// The bytes that `midly::Smf::write` gives for a file of `format` with
/// metrical timing of `division` ticks per quarter note and one track of
/// the events of `track`; `None` where it refuses to write.
pub uninterp spec fn smf_encoding(format: FileFormat, division: u16, track: Seq<TrackEvent>) -> Option<
    Seq<u8>,
>;

/// Makes a file with `midly::Smf::new` from a header of the given format
/// and of metrical timing with `division` ticks per quarter note, and gives
/// it one empty track.
#[verifier::external_body]
fn single_track(format: FileFormat, division: u16) -> (smf: Smf<'static>)
    requires
        division < 0x8000,
    ensures
        smf_single(smf),
        smf_format(smf) == format,
        smf_division(smf) == division,
        smf_track(smf) == Seq::<TrackEvent>::empty(),
{
    let format = match format {
        FileFormat::SingleTrack => Format::SingleTrack,
        FileFormat::Parallel => Format::Parallel,
        FileFormat::Sequential => Format::Sequential,
    };
    let mut smf = Smf::new(Header::new(format, Timing::Metrical(u15::new(division))));
    smf.tracks.push(Vec::new());
    smf
}

/// Appends a channel voice message to the one track of the file with
/// `Vec::push`, as a `midly::TrackEvent` of kind `Midi`. The message is
/// handed over in its wire form, which `midly::live::LiveEvent::parse` turns
/// into `midly`'s channel and message.
#[verifier::external_body]
fn push_midi(smf: &mut Smf<'static>, delta: u32, data: &[u8; 3])
    requires
        smf_single(*old(smf)),
        delta <= MAX_DELTA,
        is_channel_message(*data),
    ensures
        smf_single(*final(smf)),
        smf_format(*final(smf)) == smf_format(*old(smf)),
        smf_division(*final(smf)) == smf_division(*old(smf)),
        smf_track(*final(smf)) == smf_track(*old(smf)).push(
            TrackEvent {
                delta,
                kind: TrackEventKind::Midi {
                    channel: decoded(*data).unwrap().0,
                    message: decoded(*data).unwrap().1,
                },
            },
        ),
{
    if let (Ok(LiveEvent::Midi { channel, message }), Some(track)) = (
        LiveEvent::parse(data),
        smf.tracks.last_mut(),
    ) {
        let kind = midly::TrackEventKind::Midi { channel, message };
        track.push(midly::TrackEvent { delta: u28::new(delta), kind });
    }
}

/// Appends the end-of-track marker to the one track of the file with
/// `Vec::push`, as a `midly::TrackEvent` of kind `Meta`.
#[verifier::external_body]
fn push_end_of_track(smf: &mut Smf<'static>, delta: u32)
    requires
        smf_single(*old(smf)),
        delta <= MAX_DELTA,
    ensures
        smf_single(*final(smf)),
        smf_format(*final(smf)) == smf_format(*old(smf)),
        smf_division(*final(smf)) == smf_division(*old(smf)),
        smf_track(*final(smf)) == smf_track(*old(smf)).push(
            TrackEvent { delta, kind: TrackEventKind::EndOfTrack },
        ),
{
    if let Some(track) = smf.tracks.last_mut() {
        let kind = midly::TrackEventKind::Meta(MetaMessage::EndOfTrack);
        track.push(midly::TrackEvent { delta: u28::new(delta), kind });
    }
}

/// Encodes a file of one track and metrical timing with `midly::Smf::write`
/// into a vector of bytes.
#[verifier::external_body]
fn smf_bytes(smf: &Smf<'static>) -> (r: Option<Vec<u8>>)
    requires
        smf_single(*smf),
    ensures
        match r {
            Some(bytes) => smf_encoding(smf_format(*smf), smf_division(*smf), smf_track(*smf))
                == Some(bytes@),
            None => smf_encoding(smf_format(*smf), smf_division(*smf), smf_track(*smf)).is_none(),
        },
{
    let mut bytes = Vec::new();
    match smf.write(&mut bytes) {
        Ok(()) => Some(bytes),
        Err(_) => None,
    }
}

/// The event can stand in a file: its delta time fits 28 bits, and a message
/// is well formed on a channel below 16.
pub open spec fn event_ok(event: TrackEvent) -> bool {
    &&& event.delta <= MAX_DELTA
    &&& event.kind matches TrackEventKind::Midi { channel, message } ==> channel < 16
        && message.wf()
}

/// Every event of the track can stand in a file.
pub open spec fn track_ok(track: Seq<TrackEvent>) -> bool {
    forall|i: int| 0 <= i < track.len() ==> event_ok(#[trigger] track[i])
}

/// Whether every event of the track can stand in a file.
pub fn can_encode(track: &Vec<TrackEvent>) -> (r: bool)
    ensures
        r == track_ok(track@),
{
    let mut i: usize = 0;
    while i < track.len()
        invariant
            i <= track.len(),
            forall|j: int| 0 <= j < i ==> event_ok(#[trigger] track@[j]),
        decreases track.len() - i,
    {
        let event = track[i];
        let fits = event.delta <= MAX_DELTA && match event.kind {
            TrackEventKind::Midi { channel, message } => channel < 16 && message.is_valid(),
            TrackEventKind::EndOfTrack => true,
        };
        if !fits {
            assert(!event_ok(track@[i as int]));
            return false;
        }
        i += 1;
    }
    true
}

/// Encodes a track as a Standard MIDI File of format 0 with `PPQN` ticks
/// per quarter note.
///
/// Returns the bytes that `smf_encoding` names, `None` where the encoder
/// refuses to write.
pub fn encode_track(track: &Vec<TrackEvent>) -> (r: Option<Vec<u8>>)
    requires
        track_ok(track@),
    ensures
        match r {
            Some(bytes) => smf_encoding(FileFormat::SingleTrack, PPQN, track@) == Some(bytes@),
            None => smf_encoding(FileFormat::SingleTrack, PPQN, track@).is_none(),
        },
{
    let mut smf = single_track(FileFormat::SingleTrack, PPQN);
    let mut i: usize = 0;
    while i < track.len()
        invariant
            i <= track.len(),
            track_ok(track@),
            smf_single(smf),
            smf_format(smf) == FileFormat::SingleTrack,
            smf_division(smf) == PPQN,
            smf_track(smf) == track@.take(i as int),
        decreases track.len() - i,
    {
        let event = track[i];
        proof {
            track@.lemma_take_succ_push(i as int);
            assert(event_ok(track@[i as int]));
        }
        match event.kind {
            TrackEventKind::Midi { channel, message } => {
                let data = encode(channel, message);
                push_midi(&mut smf, event.delta, &data);
            },
            TrackEventKind::EndOfTrack => {
                push_end_of_track(&mut smf, event.delta);
            },
        }
        i += 1;
    }
    assert(track@.take(i as int) == track@);
    smf_bytes(&smf)
}

impl Model {
    /// How the export of a window ends: with the error of `selection`, else
    /// with the encoding of its track, else with `FileTooLarge`.
    pub open spec fn file(self, t0: i64, t1: i64, tempo: u32) -> Result<Seq<u8>, ExportError> {
        match self.selection(t0, t1, tempo) {
            Err(error) => Err(error),
            Ok(track) => match smf_encoding(FileFormat::SingleTrack, PPQN, track) {
                Some(bytes) => Ok(bytes),
                None => Err(ExportError::FileTooLarge),
            },
        }
    }
}

/// Exports the window from `t0` to `t1` of the store, at `tempo` millionths
/// of a beat per minute, as the bytes of a Standard MIDI File of format 0
/// with `PPQN` ticks per quarter note and no tempo event.
///
/// Fails as `selection_track` does; fails with `FileTooLarge` where the
/// encoder refuses the track.
pub fn selection_file(store: &MidiStore, t0: i64, t1: i64, tempo: u32) -> (r: Result<
    Vec<u8>,
    ExportError,
>)
    requires
        store@.exportable(),
    ensures
        match r {
            Ok(bytes) => store@.file(t0, t1, tempo) == Ok::<Seq<u8>, ExportError>(bytes@),
            Err(error) => store@.file(t0, t1, tempo) == Err::<Seq<u8>, ExportError>(error),
        },
{
    let track = match selection_track(store, t0, t1, tempo) {
        Ok(track) => track,
        Err(error) => {
            return Err(error);
        },
    };
    match encode_track(&track) {
        Some(bytes) => Ok(bytes),
        None => Err(ExportError::FileTooLarge),
    }
}

} // verus!
