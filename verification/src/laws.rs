//! What holds of the store after any run of events, and of every exported
//! track.

use vstd::prelude::*;
use crate::fixed::{lemma_div_round_monotone, lemma_div_round_sign};
use crate::message::{decoded, MidiMessage};
use crate::midistore::Note;
use crate::miditransfer::{in_window, tick, window_delta, TICK_DIVISOR};
use crate::model::{
    completed_ok, ends_note_at, has_note_ending, in_flight_ok, keys_within, lemma_position,
    lemma_record_wf, log_ok, matched_pairs, note_matches, note_started, observed_ranges, opened_at,
    overlapping, overlaps, position, sounding, times_within, untouched, Log, Model,
};

verus! {

/// The state of a store that was handed `events` one after the other,
/// starting empty. An event that is refused leaves the state as it is.
pub open spec fn replayed(events: Seq<(i64, [u8; 3])>) -> Model
    decreases events.len(),
{
    if events.len() == 0 {
        Model::empty()
    } else {
        let before = replayed(events.drop_last());
        let (time, data) = events.last();
        if before.outcome(time, data).is_ok() {
            before.record(time, decoded(data).unwrap().0, decoded(data).unwrap().1)
        } else {
            before
        }
    }
}

/// The log never holds more entries than events were handed in.
pub proof fn lemma_replayed_len(events: Seq<(i64, [u8; 3])>)
    ensures
        replayed(events).log.len() <= events.len(),
    decreases events.len(),
{
    if events.len() > 0 {
        lemma_replayed_len(events.drop_last());
    }
}

/// Whatever events a store is handed, accepted or refused, it stays well
/// formed.
pub proof fn lemma_replayed_wf(events: Seq<(i64, [u8; 3])>)
    requires
        events.len() <= usize::MAX,
    ensures
        replayed(events).wf(),
    decreases events.len(),
{
    if events.len() > 0 {
        let before = replayed(events.drop_last());
        let (time, data) = events.last();
        lemma_replayed_wf(events.drop_last());
        lemma_replayed_len(events.drop_last());
        if before.outcome(time, data).is_ok() {
            lemma_record_wf(before, time, decoded(data).unwrap().0, decoded(data).unwrap().1);
        }
    }
}

/// There are as many completed notes as the log holds matched pairs of a
/// note-on and a note-off, and no completed note ends before it starts.
pub proof fn lemma_completed_notes_are_matched_pairs(s: Model)
    requires
        s.wf(),
    ensures
        s.notes.len() == matched_pairs(s.log, s.log.len() as int),
        forall|n: int| 0 <= n < s.notes.len() ==> (#[trigger] s.notes[n]).t_start <= s.notes[n].t_end,
{
}

/// The completed notes are exactly the matched pairs: an entry of the log
/// ends a completed note if and only if it silences a key that is sounding
/// when it arrives, and the note then starts where that key was started.
pub proof fn lemma_notes_are_exactly_the_matched_pairs(s: Model, j: int)
    requires
        s.wf(),
        0 <= j < s.log.len(),
    ensures
        has_note_ending(s.notes, j) == ends_note_at(s.log, j),
        forall|n: int|
            0 <= n < s.notes.len() && (#[trigger] s.notes[n]).idx_off == j ==> opened_at(
                s.log,
                s.notes[n].channel,
                s.notes[n].key,
                s.notes[n].idx_on as int,
                j,
            ),
{
    if has_note_ending(s.notes, j) {
        let n = choose|n: int| 0 <= n < s.notes.len() && (#[trigger] s.notes[n]).idx_off == j;
        let note = s.notes[n];
        assert(completed_ok(s.log, note));
        assert(opened_at(s.log, note.channel, note.key, note.idx_on as int, j));
    }
    assert forall|n: int| 0 <= n < s.notes.len() && (#[trigger] s.notes[n]).idx_off == j implies opened_at(
        s.log,
        s.notes[n].channel,
        s.notes[n].key,
        s.notes[n].idx_on as int,
        j,
    ) by {
        assert(completed_ok(s.log, s.notes[n]));
    }
}

/// After any run of events there are as many completed notes as matched
/// pairs, and no completed note ends before it starts.
pub proof fn lemma_replayed_notes_are_matched_pairs(events: Seq<(i64, [u8; 3])>)
    requires
        events.len() <= usize::MAX,
    ensures
        replayed(events).notes.len() == matched_pairs(
            replayed(events).log,
            replayed(events).log.len() as int,
        ),
        forall|n: int|
            0 <= n < replayed(events).notes.len() ==> (#[trigger] replayed(events).notes[n]).t_start
                <= replayed(events).notes[n].t_end,
{
    lemma_replayed_wf(events);
}

/// A note-on for a channel and key that are in flight replaces the note in
/// flight where it stands, with the new start and velocity, and changes
/// neither the completed notes nor the ranges.
pub proof fn lemma_restart_replaces(s: Model, time: i64, channel: u8, key: u8, vel: u8, i: int)
    requires
        position(s.in_flight, channel, key) == Some(i),
        vel > 0,
    ensures
        s.record(time, channel, MidiMessage::NoteOn { key, vel }).in_flight == s.in_flight.update(
            i,
            Note {
                t_start: time,
                idx_on: s.log.len() as usize,
                t_end: 0,
                idx_off: 0,
                channel,
                key,
                vel,
            },
        ),
        s.record(time, channel, MidiMessage::NoteOn { key, vel }).notes == s.notes,
        s.record(time, channel, MidiMessage::NoteOn { key, vel }).keys == s.keys,
        s.record(time, channel, MidiMessage::NoteOn { key, vel }).times == s.times,
{
}

/// A note that was replaced while in flight never shows among the completed
/// notes: where a note-on at `i` is followed by a note-on at `j` for the same
/// channel and key with no note-off between them, no completed note starts
/// at `i`.
pub proof fn lemma_replaced_never_completes(s: Model, i: int, j: int, channel: u8, key: u8)
    requires
        s.wf(),
        0 <= i < j < s.log.len(),
        s.log[i].1.opens(channel, key),
        s.log[j].1.opens(channel, key),
        untouched(s.log, channel, key, i + 1, j),
    ensures
        forall|n: int| 0 <= n < s.notes.len() ==> (#[trigger] s.notes[n]).idx_on != i,
{
    assert forall|n: int| 0 <= n < s.notes.len() implies (#[trigger] s.notes[n]).idx_on != i by {
        let note = s.notes[n];
        if note.idx_on == i {
            let off = note.idx_off as int;
            assert(opened_at(s.log, note.channel, note.key, i, off));
            assert(note.channel == channel && note.key == key);
            if off < j {
                assert(s.log[off].1.touches(channel, key));
            } else if off > j {
                assert(s.log[j].1.touches(channel, key));
            }
        }
    }
}

/// At most one note is in flight on a channel and key, and the notes in
/// flight are exactly the keys that are sounding at the end of the log.
pub proof fn lemma_in_flight_is_what_sounds(s: Model, channel: u8, key: u8)
    requires
        s.wf(),
    ensures
        position(s.in_flight, channel, key).is_some() == sounding(
            s.log,
            channel,
            key,
            s.log.len() as int,
        ),
        forall|p: int, q: int|
            0 <= p < q < s.in_flight.len() ==> !((#[trigger] s.in_flight[p]).channel == (
            #[trigger] s.in_flight[q]).channel && s.in_flight[p].key == s.in_flight[q].key),
{
    lemma_position(s.in_flight, channel, key);
    if let Some(p) = position(s.in_flight, channel, key) {
        assert(in_flight_ok(s.log, s.in_flight[p]));
    }
    assert forall|p: int, q: int| 0 <= p < q < s.in_flight.len() implies !((
    #[trigger] s.in_flight[p]).channel == (#[trigger] s.in_flight[q]).channel && s.in_flight[p].key
        == s.in_flight[q].key) by {
        assert(!note_matches(s.in_flight[q], s.in_flight[p].channel, s.in_flight[p].key));
    }
}

/// The ranges are absent exactly as long as no note has started.
pub proof fn lemma_ranges_absent_until_first_note(s: Model)
    requires
        s.wf(),
    ensures
        s.keys.is_none() == !note_started(s.log),
        s.times.is_none() == !note_started(s.log),
{
}

/// The ranges are what the log gives: they are widened by the key and time
/// of every entry that starts a key that was not sounding or ends a note, and
/// by nothing else.
pub proof fn lemma_ranges_are_what_was_observed(s: Model)
    requires
        s.wf(),
    ensures
        (s.keys, s.times) == observed_ranges(s.log, s.log.len() as int),
{
}

/// An observation makes the ranges present and never narrows them.
pub proof fn lemma_observe_widens(s: Model, key: u8, time: i64)
    ensures
        s.observe(key, time).keys.is_some(),
        s.observe(key, time).times.is_some(),
        keys_within(s.keys, s.observe(key, time).keys),
        times_within(s.times, s.observe(key, time).times),
{
}

/// After an observation the ranges hold what was observed.
pub proof fn lemma_observe_holds(s: Model, key: u8, time: i64)
    requires
        s.keys matches Some((lo, hi)) ==> lo <= hi,
        s.times matches Some((lo, hi)) ==> lo <= hi,
    ensures
        keys_within(Some((key, key)), s.observe(key, time).keys),
        times_within(Some((time, time)), s.observe(key, time).times),
{
}

/// The ranges after a run of observations.
pub open spec fn observed(s: Model, seen: Seq<(u8, i64)>) -> Model
    decreases seen.len(),
{
    if seen.len() == 0 {
        s
    } else {
        observed(s, seen.drop_last()).observe(seen.last().0, seen.last().1)
    }
}

/// However many observations follow, the ranges are never narrowed.
pub proof fn lemma_observations_widen(s: Model, seen: Seq<(u8, i64)>)
    ensures
        keys_within(s.keys, observed(s, seen).keys),
        times_within(s.times, observed(s, seen).times),
        seen.len() > 0 ==> observed(s, seen).keys.is_some() && observed(s, seen).times.is_some(),
    decreases seen.len(),
{
    if seen.len() > 0 {
        lemma_observations_widen(s, seen.drop_last());
        lemma_observe_widens(observed(s, seen.drop_last()), seen.last().0, seen.last().1);
    }
}

/// Recording an event never narrows the ranges.
pub proof fn lemma_record_widens(s: Model, time: i64, channel: u8, message: MidiMessage)
    ensures
        keys_within(s.keys, s.record(time, channel, message).keys),
        times_within(s.times, s.record(time, channel, message).times),
{
    let idx = s.log.len() as usize;
    let next = s.logged(time, channel, message);
    match message {
        MidiMessage::NoteOn { key, vel } => {
            lemma_observe_widens(next, key, time);
            match position(next.in_flight, channel, key) {
                Some(i) => {
                    let note = Note { idx_off: idx, t_end: time, ..next.in_flight[i] };
                    lemma_observe_widens(
                        Model {
                            in_flight: next.in_flight.remove(i),
                            notes: next.notes.push(note),
                            ..next
                        },
                        key,
                        time,
                    );
                },
                None => {},
            }
        },
        MidiMessage::NoteOff { key, .. } => {
            lemma_observe_widens(next, key, time);
        },
        _ => {},
    }
}

/// However a run of events goes on, the ranges it has reached are never
/// narrowed.
pub proof fn lemma_replay_widens(events: Seq<(i64, [u8; 3])>, more: Seq<(i64, [u8; 3])>)
    ensures
        keys_within(replayed(events).keys, replayed(events + more).keys),
        times_within(replayed(events).times, replayed(events + more).times),
    decreases more.len(),
{
    if more.len() == 0 {
        assert(events + more == events);
    } else {
        let all = events + more;
        assert(all.drop_last() == events + more.drop_last());
        lemma_replay_widens(events, more.drop_last());
        let before = replayed(all.drop_last());
        let (time, data) = all.last();
        if before.outcome(time, data).is_ok() {
            lemma_record_widens(before, time, decoded(data).unwrap().0, decoded(data).unwrap().1);
        }
    }
}

/// A note that only touches the window at a boundary does not overlap it.
pub proof fn lemma_boundary_excluded(note: Note, t0: i64, t1: i64)
    ensures
        note.t_end == t0 ==> !overlaps(note, t0, t1),
        note.t_start == t1 ==> !overlaps(note, t0, t1),
{
}

/// The notes in a window are exactly the completed notes that overlap it.
pub proof fn lemma_notes_in_window(s: Model, t0: i64, t1: i64, note: Note)
    ensures
        s.notes.filter(overlapping(t0, t1)).contains(note) == (s.notes.contains(note) && overlaps(
            note,
            t0,
            t1,
        )),
{
    let found = s.notes.filter(overlapping(t0, t1));
    if found.contains(note) {
        let i = choose|i: int| 0 <= i < found.len() && found[i] == note;
        s.notes.lemma_filter_pred(overlapping(t0, t1), i);
        s.notes.lemma_filter_contains_rev(overlapping(t0, t1), note);
    }
    if s.notes.contains(note) && overlaps(note, t0, t1) {
        let i = choose|i: int| 0 <= i < s.notes.len() && s.notes[i] == note;
        s.notes.lemma_filter_contains(overlapping(t0, t1), i);
    }
}

/// The entries of a window stand in the order of the log: their times never
/// decrease, and all lie inside the window.
pub proof fn lemma_window_in_order(log: Log, t0: i64, t1: i64)
    requires
        log_ok(log),
    ensures
        forall|i: int, j: int|
            0 <= i <= j < log.filter(in_window(t0, t1)).len() ==> (#[trigger] log.filter(
                in_window(t0, t1),
            )[i]).0 <= (#[trigger] log.filter(in_window(t0, t1))[j]).0,
        forall|i: int|
            0 <= i < log.filter(in_window(t0, t1)).len() ==> t0 <= (#[trigger] log.filter(
                in_window(t0, t1),
            )[i]).0 <= t1,
    decreases log.len(),
{
    let pick = in_window(t0, t1);
    let window = log.filter(pick);
    assert forall|i: int| 0 <= i < window.len() implies t0 <= (#[trigger] window[i]).0 <= t1 by {
        log.lemma_filter_pred(pick, i);
    }
    if log.len() > 0 {
        let front = log.drop_last();
        assert(log == front.push(log.last()));
        front.lemma_filter_push(log.last(), pick);
        assert forall|i: int| 0 <= i < front.len() implies front[i] == log[i] by {}
        lemma_window_in_order(front, t0, t1);
        let inner = front.filter(pick);
        assert forall|i: int, j: int| 0 <= i <= j < window.len() implies (#[trigger] window[i]).0 <= (
        #[trigger] window[j]).0 by {
            if j < inner.len() {
                assert(window[i] == inner[i] && window[j] == inner[j]);
            } else if i < inner.len() {
                assert(window[i] == inner[i]);
                assert(inner.contains(inner[i]));
                front.lemma_filter_contains_rev(pick, inner[i]);
                let k = choose|k: int| 0 <= k < front.len() && front[k] == inner[i];
                assert(log[k].0 <= log[log.len() - 1].0);
            }
        }
    }
}

/// Rounding to ticks never turns the order of two times around.
pub proof fn lemma_tick_monotone(earlier: i64, later: i64, t0: i64, tempo: u32)
    requires
        earlier <= later,
    ensures
        tick(earlier, t0, tempo) <= tick(later, t0, tempo),
        t0 <= earlier ==> 0 <= tick(earlier, t0, tempo),
{
    assert((earlier - t0) * tempo <= (later - t0) * tempo) by (nonlinear_arith)
        requires
            earlier <= later,
            0 <= tempo,
    ;
    lemma_div_round_monotone((earlier - t0) * tempo, (later - t0) * tempo, TICK_DIVISOR as int);
    if t0 <= earlier {
        assert(0 <= (earlier - t0) * tempo) by (nonlinear_arith)
            requires
                t0 <= earlier,
                0 <= tempo,
        ;
        lemma_div_round_sign((earlier - t0) * tempo, TICK_DIVISOR as int);
    }
}

/// Time never runs backwards in an exported track: no entry of a window
/// falls on an earlier tick than the entry before it.
pub proof fn lemma_window_deltas_not_negative(s: Model, t0: i64, t1: i64, tempo: u32)
    requires
        s.wf(),
    ensures
        forall|i: int|
            0 <= i < s.window(t0, t1).len() ==> 0 <= #[trigger] window_delta(
                s.window(t0, t1),
                i,
                t0,
                tempo,
            ),
{
    let window = s.window(t0, t1);
    lemma_window_in_order(s.log, t0, t1);
    assert forall|i: int| 0 <= i < window.len() implies 0 <= #[trigger] window_delta(
        window,
        i,
        t0,
        tempo,
    ) by {
        if i == 0 {
            lemma_tick_monotone(window[0].0, window[0].0, t0, tempo);
        } else {
            assert(window[i - 1].0 <= window[i].0);
            lemma_tick_monotone(window[i - 1].0, window[i].0, t0, tempo);
        }
    }
}

} // verus!
