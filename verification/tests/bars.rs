use mucap::midistore::{AddError, Bar, MidiStore, StoreMessage};
use mucap::transport::TransportInfo;

fn units(x: f64) -> i64 {
    (x * 1e6).round() as i64
}

fn snapshot(time: f64, pos_beats: f64, bar_start: f64) -> TransportInfo {
    TransportInfo {
        time: units(time),
        playing: true,
        sample_rate: 44_100_000_000,
        tempo: 120_000_000,
        time_sig: (4, 4),
        pos_samples: 0,
        pos_beats: units(pos_beats),
        bar_start_pos_beats: units(bar_start),
    }
}

#[test]
fn bar_start_is_projected_back_from_the_snapshot() {
    let mut store = MidiStore::new();
    // one and a half beats into the bar, at half a second per beat
    store.add_bar(snapshot(10.0, 5.5, 4.0));
    assert_eq!(store.bars, vec![Bar { bar_number: 1, t: units(9.25) }]);
    assert_eq!(store.last_bar, Some(units(4.0)));
    assert_eq!(store.transport.time, units(10.0));
}

#[test]
fn bar_time_is_rounded_to_the_microsecond() {
    let mut store = MidiStore::new();
    let mut transport = snapshot(1.0, 1.0, 0.0);
    transport.tempo = 70_000_000;
    // a beat takes 857142.857.. microseconds
    store.add_bar(transport);
    assert_eq!(store.bars[0].t, 1_000_000 - 857_143);
    let mut transport = snapshot(1.0, 0.0, 1.0);
    transport.tempo = 70_000_000;
    transport.bar_start_pos_beats = units(1.0);
    store.add_bar(transport);
    assert_eq!(store.bars[1].t, 1_000_000 + 857_143);
}

#[test]
fn snapshots_of_one_bar_make_one_bar() {
    let mut store = MidiStore::new();
    store.add_bar(snapshot(0.0, 0.0, 0.0));
    store.add_bar(snapshot(0.5, 1.0, 0.0));
    store.add_bar(snapshot(1.0, 2.0, 0.009999));
    store.add_bar(snapshot(1.0, 2.0, -0.009999));
    assert_eq!(store.bars.len(), 1);
    assert_eq!(store.transport.time, units(1.0));
    // a hundredth of a beat apart is another bar
    store.add_bar(snapshot(1.0, 2.0, 0.01));
    assert_eq!(store.bars.len(), 2);
    assert_eq!(store.last_bar, Some(units(0.01)));
}

#[test]
fn stopped_transport_forgets_the_last_bar() {
    let mut store = MidiStore::new();
    store.add_bar(snapshot(0.0, 0.0, 0.0));
    let mut stopped = snapshot(1.0, 0.0, 0.0);
    stopped.playing = false;
    store.add_bar(stopped);
    assert_eq!(store.bars.len(), 1);
    assert_eq!(store.last_bar, None);
    assert!(!store.transport.playing);
    store.add_bar(snapshot(2.0, 0.0, 0.0));
    assert_eq!(store.bars.len(), 2);
    assert_eq!(store.bars[1], Bar { bar_number: 0, t: units(2.0) });
}

#[test]
fn bar_number_follows_the_time_signature() {
    let mut store = MidiStore::new();
    let mut transport = snapshot(0.0, 9.0, 9.0);
    transport.time_sig = (3, 4);
    store.add_bar(transport);
    transport.time_sig = (6, 8);
    transport.bar_start_pos_beats = units(30.0);
    store.add_bar(transport);
    transport.time_sig = (7, 8);
    // three and a half beats to the bar: 5.25 beats are one and a half bars
    transport.bar_start_pos_beats = units(5.25);
    store.add_bar(transport);
    transport.bar_start_pos_beats = units(-5.25);
    store.add_bar(transport);
    transport.bar_start_pos_beats = units(-5.2);
    store.add_bar(transport);
    let numbers: Vec<i32> = store.bars.iter().map(|bar| bar.bar_number).collect();
    assert_eq!(numbers, vec![3, 10, 2, -2, -1]);
}

#[test]
fn bar_without_beats_gets_the_farthest_number() {
    let mut store = MidiStore::new();
    let mut transport = snapshot(2.0, 4.0, 4.0);
    transport.time_sig = (0, 4);
    store.add_bar(transport);
    transport.bar_start_pos_beats = units(-4.0);
    store.add_bar(transport);
    transport.bar_start_pos_beats = 0;
    store.add_bar(transport);
    let numbers: Vec<i32> = store.bars.iter().map(|bar| bar.bar_number).collect();
    assert_eq!(numbers, vec![i32::MAX, i32::MIN, 0]);
    assert_eq!(store.last_bar, Some(0));
    assert_eq!(store.bars[0].t, units(2.0));
    // a denominator of zero leaves every bar start in bar 0
    transport.time_sig = (4, 0);
    transport.bar_start_pos_beats = units(8.0);
    store.add_bar(transport);
    assert_eq!(store.bars[3], Bar { bar_number: 0, t: units(4.0) });
}

#[test]
fn bar_at_tempo_zero_starts_at_the_farthest_time() {
    let mut store = MidiStore::new();
    let mut transport = snapshot(2.0, 5.0, 4.0);
    transport.tempo = 0;
    store.add_bar(transport);
    transport.pos_beats = units(7.0);
    transport.bar_start_pos_beats = units(8.0);
    store.add_bar(transport);
    transport.pos_beats = units(12.0);
    transport.bar_start_pos_beats = units(12.0);
    store.add_bar(transport);
    assert_eq!(
        store.bars,
        vec![
            Bar { bar_number: 1, t: i64::MIN },
            Bar { bar_number: 2, t: i64::MAX },
            Bar { bar_number: 3, t: units(2.0) },
        ]
    );
    assert_eq!(store.last_bar, Some(units(12.0)));
}

fn with_bars(times: &[(i32, f64)]) -> MidiStore {
    let mut store = MidiStore::new();
    for &(bar_number, t) in times {
        store.bars.push(Bar { bar_number, t: units(t) });
    }
    store
}

#[test]
fn bars_are_picked_by_their_number() {
    let store = with_bars(&[(-4, 0.0), (-3, 1.0), (0, 2.0), (1, 3.0), (2, 4.0), (4, 5.0), (i32::MIN, 6.0)]);
    let numbers = |n: i32| -> Vec<i32> { store.get_bars(n).iter().map(|bar| bar.bar_number).collect() };
    assert_eq!(numbers(1), vec![-4, -3, 0, 1, 2, 4, i32::MIN]);
    assert_eq!(numbers(-1), vec![-4, -3, 0, 1, 2, 4, i32::MIN]);
    assert_eq!(numbers(2), vec![-4, 0, 2, 4, i32::MIN]);
    assert_eq!(numbers(4), vec![-4, 0, 4, i32::MIN]);
    assert_eq!(numbers(-3), vec![-3, 0]);
    assert_eq!(numbers(i32::MIN), vec![0, i32::MIN]);
}

#[test]
fn nearest_bar_is_the_first_of_the_nearest() {
    let store = with_bars(&[(0, 0.0), (1, 2.0), (2, 4.0), (3, 6.0), (4, 8.0)]);
    assert_eq!(store.nearest_bar(units(2.9), 1).unwrap().bar_number, 1);
    assert_eq!(store.nearest_bar(units(3.1), 1).unwrap().bar_number, 2);
    assert_eq!(store.nearest_bar(units(3.1), 4).unwrap().bar_number, 0);
    assert_eq!(store.nearest_bar(units(4.1), 4).unwrap().bar_number, 4);
    assert_eq!(store.nearest_bar(units(-50.0), 1).unwrap().bar_number, 0);
    assert_eq!(store.nearest_bar(units(50.0), 2).unwrap().bar_number, 4);
    // equally near: the one recorded first
    assert_eq!(store.nearest_bar(units(3.0), 1).unwrap().bar_number, 1);
    assert_eq!(store.nearest_bar(units(4.0), 4).unwrap().bar_number, 0);
    let store = with_bars(&[(2, 4.0), (1, 2.0)]);
    assert_eq!(store.nearest_bar(units(3.0), 1).unwrap().bar_number, 2);
}

#[test]
fn nearest_bar_of_none_is_none() {
    assert_eq!(MidiStore::new().nearest_bar(0, 1), None);
    let store = with_bars(&[(1, 0.0), (3, 2.0)]);
    assert_eq!(store.nearest_bar(0, 2), None);
    assert_eq!(store.get_bars(2), vec![]);
}

#[test]
fn nearest_bar_measures_far_times() {
    let mut store = MidiStore::new();
    store.bars.push(Bar { bar_number: 0, t: i64::MIN });
    store.bars.push(Bar { bar_number: 1, t: i64::MAX });
    assert_eq!(store.nearest_bar(-1, 1).unwrap().bar_number, 0);
    assert_eq!(store.nearest_bar(0, 1).unwrap().bar_number, 1);
    assert_eq!(store.nearest_bar(i64::MAX, 1).unwrap().bar_number, 1);
}

#[test]
fn messages_are_delivered_to_the_store() {
    let mut store = MidiStore::new();
    assert_eq!(store.deliver(StoreMessage::MidiData(units(1.0), [0x90, 60, 100])), Ok(()));
    assert_eq!(store.deliver(StoreMessage::TransportInfo(snapshot(1.0, 4.0, 4.0))), Ok(()));
    assert_eq!(
        store.deliver(StoreMessage::MidiData(units(0.5), [0x80, 60, 0])),
        Err(AddError::OrderViolation)
    );
    assert_eq!(
        store.deliver(StoreMessage::MidiData(units(1.5), [0x80, 0x80, 0])),
        Err(AddError::ParseFailure)
    );
    assert_eq!(store.deliver(StoreMessage::MidiData(units(2.0), [0x80, 60, 0])), Ok(()));
    assert_eq!(store.store.len(), 2);
    assert_eq!(store.notes.len(), 1);
    assert_eq!(store.bars, vec![Bar { bar_number: 1, t: units(1.0) }]);
}
