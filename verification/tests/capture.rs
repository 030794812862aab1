use mucap::midistore::{AddError, MidiStore};
use mucap::miditransfer::{selection_track, TrackEvent, TrackEventKind};
use mucap::message::MidiMessage;
use mucap::transport::TransportInfo;

/// A number of seconds, beats or beats per minute as millionths.
fn units(x: f64) -> i64 {
    (x * 1e6).round() as i64
}

fn on(channel: u8, key: u8, vel: u8) -> [u8; 3] {
    [0x90 | channel, key, vel]
}

fn off(channel: u8, key: u8) -> [u8; 3] {
    [0x80 | channel, key, 0]
}

fn snapshot(time: f64, pos_beats: f64, bar_start: f64) -> TransportInfo {
    TransportInfo {
        time: units(time),
        playing: true,
        sample_rate: 48_000_000_000,
        tempo: 120_000_000,
        time_sig: (4, 4),
        pos_samples: 0,
        pos_beats: units(pos_beats),
        bar_start_pos_beats: units(bar_start),
    }
}

#[test]
fn one_note_on_and_off_make_one_note() {
    let mut store = MidiStore::new();
    store.add(units(0.0), on(0, 60, 100)).unwrap();
    store.add(units(1.0), off(0, 60)).unwrap();
    assert_eq!(store.notes.len(), 1);
    assert_eq!(store.in_flight.len(), 0);
    let note = store.notes[0];
    assert_eq!(note.t_start, units(0.0));
    assert_eq!(note.t_end, units(1.0));
    assert_eq!(note.key, 60);
    assert_eq!(note.idx_on, 0);
    assert_eq!(note.idx_off, 1);
}

#[test]
fn second_note_on_replaces_the_note_in_flight() {
    let mut store = MidiStore::new();
    store.add(units(0.0), on(0, 60, 100)).unwrap();
    store.add(units(0.5), on(0, 60, 80)).unwrap();
    store.add(units(1.0), off(0, 60)).unwrap();
    assert_eq!(store.notes.len(), 1);
    assert_eq!(store.notes[0].t_start, units(0.5));
    assert_eq!(store.notes[0].vel, 80);
    assert_eq!(store.notes[0].idx_on, 1);
    assert!(store.notes.iter().all(|note| note.idx_on != 0));
}

#[test]
fn replaced_note_keeps_its_place_in_flight() {
    let mut store = MidiStore::new();
    store.add(units(0.0), on(0, 60, 100)).unwrap();
    store.add(units(0.1), on(0, 62, 90)).unwrap();
    store.add(units(0.2), on(0, 60, 70)).unwrap();
    assert_eq!(store.in_flight.len(), 2);
    assert_eq!(store.in_flight[0].key, 60);
    assert_eq!(store.in_flight[0].vel, 70);
    assert_eq!(store.in_flight[0].t_start, units(0.2));
    assert_eq!(store.in_flight[1].key, 62);
    // the restart is not observed: the latest time seen stays that of key 62
    assert_eq!(store.time_range(), Some((units(0.0), units(0.1))));
}

#[test]
fn earlier_event_is_refused_and_changes_nothing() {
    let mut store = MidiStore::new();
    store.add(units(1.0), on(0, 60, 100)).unwrap();
    store.add(units(2.0), on(0, 62, 100)).unwrap();
    store.add(units(3.0), off(0, 62)).unwrap();
    let log = store.store.clone();
    let notes = store.notes.clone();
    let in_flight = store.in_flight.clone();
    assert_eq!(store.add(units(2.5), off(0, 60)), Err(AddError::OrderViolation));
    assert_eq!(store.store, log);
    assert_eq!(store.notes, notes);
    assert_eq!(store.in_flight, in_flight);
    assert_eq!(store.note_range(), Some((60, 62)));
    assert_eq!(store.time_range(), Some((units(1.0), units(3.0))));
}

#[test]
fn equal_times_are_accepted() {
    let mut store = MidiStore::new();
    store.add(units(1.0), on(0, 60, 100)).unwrap();
    assert_eq!(store.add(units(1.0), off(0, 60)), Ok(()));
    assert_eq!(store.notes[0].t_start, store.notes[0].t_end);
}

#[test]
fn first_event_may_come_at_any_time() {
    let mut store = MidiStore::new();
    assert_eq!(store.add(units(-1.0), on(0, 60, 100)), Ok(()));
    assert_eq!(store.store.len(), 1);
    assert_eq!(store.in_flight.len(), 1);
    assert_eq!(store.in_flight[0].t_start, units(-1.0));
    assert_eq!(store.time_range(), Some((units(-1.0), units(-1.0))));
    // from then on the latest event decides
    assert_eq!(store.add(units(-1.5), off(0, 60)), Err(AddError::OrderViolation));
    assert_eq!(store.add(units(-0.5), off(0, 60)), Ok(()));
    assert_eq!(store.notes[0].t_start, units(-1.0));
    assert_eq!(store.notes[0].t_end, units(-0.5));
    assert_eq!(store.time_range(), Some((units(-1.0), units(-0.5))));
    let mut store = MidiStore::new();
    assert_eq!(store.add(i64::MIN, on(0, 60, 100)), Ok(()));
    assert_eq!(store.add(i64::MIN, off(0, 60)), Ok(()));
}

#[test]
fn bytes_decide_on_an_empty_store() {
    let mut store = MidiStore::new();
    assert_eq!(store.add(units(-1.0), [0x3C, 0x40, 0x00]), Err(AddError::ParseFailure));
    assert_eq!(store.add(units(-1.0), [0x90, 0x80, 0x00]), Err(AddError::ParseFailure));
    assert_eq!(store.add(units(-1.0), [0xF8, 0x00, 0x00]), Err(AddError::ParseFailure));
    assert_eq!(store.store.len(), 0);
    assert_eq!(store.in_flight.len(), 0);
    assert_eq!(store.note_range(), None);
    assert_eq!(store.time_range(), None);
    assert_eq!(store.add(units(-2.0), [0xB0, 7, 64]), Ok(()));
    assert_eq!(store.add(units(-3.0), [0x3C, 0x40, 0x00]), Err(AddError::OrderViolation));
}

#[test]
fn malformed_bytes_are_refused_and_change_nothing() {
    let mut store = MidiStore::new();
    store.add(units(1.0), on(0, 60, 100)).unwrap();
    assert_eq!(store.add(units(2.0), [0x3C, 0x40, 0x00]), Err(AddError::ParseFailure));
    assert_eq!(store.add(units(2.0), [0x90, 0x80, 0x00]), Err(AddError::ParseFailure));
    assert_eq!(store.add(units(2.0), [0x90, 0x40, 0xFF]), Err(AddError::ParseFailure));
    assert_eq!(store.add(units(2.0), [0xF8, 0x00, 0x00]), Err(AddError::ParseFailure));
    assert_eq!(store.add(units(2.0), [0xF0, 0x01, 0x02]), Err(AddError::ParseFailure));
    assert_eq!(store.store.len(), 1);
    assert_eq!(store.in_flight.len(), 1);
}

#[test]
fn order_is_checked_before_the_bytes() {
    let mut store = MidiStore::new();
    store.add(units(1.0), on(0, 60, 100)).unwrap();
    assert_eq!(store.add(units(0.5), [0x00, 0x00, 0x00]), Err(AddError::OrderViolation));
}

#[test]
fn one_data_byte_message_ignores_the_third_byte() {
    let mut store = MidiStore::new();
    assert_eq!(store.add(units(0.0), [0xC3, 0x05, 0xFF]), Ok(()));
    assert_eq!(store.midi_events(), vec![(0, 0, 3, MidiMessage::ProgramChange { program: 5 })]);
}

#[test]
fn ranges_are_absent_until_a_note_starts_and_then_only_widen() {
    let mut store = MidiStore::new();
    assert_eq!(store.note_range(), None);
    assert_eq!(store.note_range_u8(), None);
    assert_eq!(store.time_range(), None);
    store.add(units(0.5), [0xB0, 7, 64]).unwrap();
    store.add(units(0.6), off(0, 60)).unwrap();
    assert_eq!(store.note_range(), None);
    assert_eq!(store.time_range(), None);
    store.add(units(1.0), on(0, 60, 100)).unwrap();
    assert_eq!(store.note_range(), Some((60, 60)));
    assert_eq!(store.note_range_u8(), Some((60, 60)));
    assert_eq!(store.time_range(), Some((units(1.0), units(1.0))));
    let mut keys = (60, 60);
    let mut times = (units(1.0), units(1.0));
    let events = [
        (1.5, on(0, 72, 10)),
        (2.0, off(0, 60)),
        (2.0, on(1, 40, 10)),
        (2.5, off(0, 72)),
        (3.0, on(0, 50, 10)),
        (9.0, off(1, 40)),
    ];
    for (time, data) in events {
        store.add(units(time), data).unwrap();
        let (lo, hi) = store.note_range().unwrap();
        let (early, late) = store.time_range().unwrap();
        assert!(lo <= keys.0 && keys.1 <= hi);
        assert!(early <= times.0 && times.1 <= late);
        keys = (lo, hi);
        times = (early, late);
    }
    assert_eq!(keys, (40, 72));
    assert_eq!(times, (units(1.0), units(9.0)));
}

#[test]
fn completed_notes_are_the_matched_pairs() {
    let mut store = MidiStore::new();
    let events = [
        (0.0, off(0, 60)),     // nothing to end
        (0.1, on(0, 60, 100)),
        (0.2, on(0, 60, 90)),  // restart
        (0.3, off(0, 60)),     // pair 1
        (0.4, off(0, 60)),     // nothing to end
        (0.5, on(1, 60, 80)),
        (0.6, on(0, 61, 80)),
        (0.7, on(1, 60, 0)),   // pair 2, by velocity zero
        (0.8, off(0, 61)),     // pair 3
        (0.9, on(0, 62, 80)),  // left in flight
    ];
    for (time, data) in events {
        store.add(units(time), data).unwrap();
    }
    assert_eq!(store.notes.len(), 3);
    assert_eq!(store.in_flight.len(), 1);
    assert!(store.notes.iter().all(|note| note.t_end >= note.t_start));
    let pairs: Vec<(usize, usize)> = store.notes.iter().map(|n| (n.idx_on, n.idx_off)).collect();
    assert_eq!(pairs, vec![(2, 3), (5, 7), (6, 8)]);
}

#[test]
fn notes_touching_the_window_at_a_boundary_are_left_out() {
    let mut store = MidiStore::new();
    store.add(units(1.0), on(0, 60, 100)).unwrap();
    store.add(units(2.0), off(0, 60)).unwrap();
    assert_eq!(store.notes_in_time(units(2.0), units(3.0)).len(), 0);
    assert_eq!(store.notes_in_time(units(0.0), units(1.0)).len(), 0);
    assert_eq!(store.notes_in_time(units(1.999999), units(3.0)).len(), 1);
    assert_eq!(store.notes_in_time(units(0.0), units(1.000001)).len(), 1);
    let paired = store.notes_in_time_select(units(0.0), units(5.0), units(2.0), units(3.0));
    assert_eq!(paired, vec![(store.notes[0], false)]);
    let paired = store.notes_in_time_select(units(0.0), units(5.0), units(1.5), units(3.0));
    assert_eq!(paired, vec![(store.notes[0], true)]);
}

#[test]
fn bars_follow_the_transport() {
    let mut store = MidiStore::new();
    store.add_bar(snapshot(10.0, 0.0, 0.0));
    store.add_bar(snapshot(12.0, 4.0, 4.0));
    store.add_bar(snapshot(14.0, 8.0, 8.0));
    let numbers: Vec<i32> = store.bars.iter().map(|bar| bar.bar_number).collect();
    assert_eq!(numbers, vec![0, 1, 2]);
    assert_eq!(store.bars[0].t, units(10.0));
    assert_eq!(store.bars[1].t - store.bars[0].t, units(2.0));
    assert_eq!(store.bars[2].t - store.bars[1].t, units(2.0));
}

#[test]
fn export_clips_notes_at_the_window() {
    let mut store = MidiStore::new();
    store.add(units(0.0), on(0, 60, 100)).unwrap();
    store.add(units(3.0), off(0, 60)).unwrap();
    store.add(units(4.0), on(0, 64, 100)).unwrap();
    store.add(units(6.0), off(0, 64)).unwrap();
    let track = selection_track(&store, units(2.0), units(5.0), 120_000_000).unwrap();
    let midi = |delta: u32, message: MidiMessage| TrackEvent {
        delta,
        kind: TrackEventKind::Midi { channel: 0, message },
    };
    assert_eq!(
        track,
        vec![
            midi(0, MidiMessage::NoteOn { key: 60, vel: 100 }),
            midi(960, MidiMessage::NoteOff { key: 60, vel: 0 }),
            midi(960, MidiMessage::NoteOn { key: 64, vel: 100 }),
            midi(959, MidiMessage::NoteOff { key: 64, vel: 0 }),
            TrackEvent { delta: 959, kind: TrackEventKind::EndOfTrack },
        ]
    );
    // ticks: 0, 960 = 1 s, 1920 = 2 s, 2879 = one before the end at 3 s
    let ticks: Vec<u32> = track
        .iter()
        .scan(0, |at, event| {
            *at += event.delta;
            Some(*at)
        })
        .collect();
    assert_eq!(ticks[..4], [0, 960, 1920, 2879]);
}

/// The notes and ranges as a plain walk over the events gives them.
#[derive(Default)]
struct Walk {
    len: usize,
    last: Option<i64>,
    notes: Vec<(usize, usize, i64, i64, u8, u8, u8)>,
    in_flight: Vec<(usize, i64, u8, u8, u8)>,
    keys: Option<(u8, u8)>,
    times: Option<(i64, i64)>,
}

impl Walk {
    fn see(&mut self, key: u8, time: i64) {
        self.keys = Some(match self.keys {
            None => (key, key),
            Some((lo, hi)) => (lo.min(key), hi.max(key)),
        });
        self.times = Some(match self.times {
            None => (time, time),
            Some((lo, hi)) => (lo.min(time), hi.max(time)),
        });
    }

    fn step(&mut self, time: i64, data: [u8; 3]) -> bool {
        let kind = data[0] >> 4;
        let two = !matches!(kind, 0xC | 0xD);
        if self.last.is_some_and(|last| time < last) {
            return false;
        }
        if !(0x8..=0xE).contains(&kind) || data[1] > 0x7F || (two && data[2] > 0x7F) {
            return false;
        }
        let (channel, key, vel) = (data[0] & 0x0F, data[1], data[2]);
        let idx = self.len;
        self.len += 1;
        self.last = Some(time);
        let held = self.in_flight.iter().position(|n| n.2 == channel && n.3 == key);
        if kind == 0x9 && vel > 0 {
            match held {
                Some(p) => self.in_flight[p] = (idx, time, channel, key, vel),
                None => {
                    self.see(key, time);
                    self.in_flight.push((idx, time, channel, key, vel));
                }
            }
        } else if kind == 0x8 || kind == 0x9 {
            if let Some(p) = held {
                let (idx_on, t_start, channel, key, vel) = self.in_flight.remove(p);
                self.see(key, time);
                self.notes.push((idx_on, idx, t_start, time, channel, key, vel));
            }
        }
        true
    }
}

#[test]
fn store_agrees_with_a_plain_walk_over_the_events() {
    let mut seed: u64 = 0x2545_F491_4F6C_DD1D;
    let mut next = move |n: u64| -> u64 {
        seed ^= seed << 13;
        seed ^= seed >> 7;
        seed ^= seed << 17;
        seed % n
    };
    for _ in 0..40 {
        let mut store = MidiStore::new();
        let mut walk = Walk::default();
        let mut time: i64 = next(3) as i64 * 1000 - 50_000;
        for _ in 0..300 {
            let status = match next(10) {
                0..=3 => 0x90,
                4..=6 => 0x80,
                7 => 0xB0,
                8 => 0xC0 + 0x10 * next(3) as u8,
                _ => next(256) as u8,
            } | if next(4) == 0 { 1 } else { 0 };
            let key = if next(40) == 0 { 0x80 } else { 58 + next(6) as u8 };
            let vel = if next(5) == 0 { 0 } else if next(40) == 0 { 0xFF } else { next(128) as u8 };
            let at = if next(12) == 0 { time - 1 - next(500) as i64 } else { time + next(3) as i64 * 500 };
            let data = [status, key, vel];
            let accepted = walk.step(at, data);
            assert_eq!(store.add(at, data).is_ok(), accepted, "{:02X?} at {}", data, at);
            if accepted {
                time = at;
            }
            assert_eq!(store.store.len(), walk.len);
            let notes: Vec<_> = store
                .notes
                .iter()
                .map(|n| (n.idx_on, n.idx_off, n.t_start, n.t_end, n.channel, n.key, n.vel))
                .collect();
            assert_eq!(notes, walk.notes);
            let in_flight: Vec<_> = store
                .in_flight
                .iter()
                .map(|n| (n.idx_on, n.t_start, n.channel, n.key, n.vel))
                .collect();
            assert_eq!(in_flight, walk.in_flight);
            assert_eq!(store.note_range(), walk.keys);
            assert_eq!(store.time_range(), walk.times);
            assert!(store.can_export());
        }
        assert!(store.notes.len() > 10);
    }
}
