use mucap::fixed::{
    clamp_i32, clamp_i64, div_round_i128, div_round_signed_i128, mul_div_round, WIDE_LIMIT,
};
use mucap::transport::{Transport, TransportInfo};

fn at(tempo: u32, time_sig: (i32, i32)) -> TransportInfo {
    TransportInfo { tempo, time_sig, ..TransportInfo::default() }
}

#[test]
fn default_transport_is_stopped_at_zero() {
    let transport = TransportInfo::default();
    assert!(!transport.playing);
    assert_eq!(transport.time, 0);
    assert_eq!(transport.tempo, 0);
    assert_eq!(transport.time_sig, (0, 0));
    assert_eq!(transport.pos_beats, 0);
    assert_eq!(transport.bar_start_pos_beats, 0);
}

#[test]
fn beat_length_is_a_minute_over_the_tempo() {
    assert_eq!(at(120_000_000, (4, 4)).beat_length(), Some(500_000));
    assert_eq!(at(60_000_000, (4, 4)).beat_length(), Some(1_000_000));
    assert_eq!(at(70_000_000, (4, 4)).beat_length(), Some(857_143));
    assert_eq!(at(1, (4, 4)).beat_length(), Some(60_000_000_000_000));
    assert_eq!(at(u32::MAX, (4, 4)).beat_length(), Some(13_970));
    assert_eq!(at(0, (4, 4)).beat_length(), None);
}

#[test]
fn bar_length_is_the_beats_of_a_bar_times_the_beat_length() {
    assert_eq!(at(120_000_000, (4, 4)).bar_length(), Some(2_000_000));
    assert_eq!(at(120_000_000, (3, 4)).bar_length(), Some(1_500_000));
    assert_eq!(at(120_000_000, (6, 8)).bar_length(), Some(1_500_000));
    assert_eq!(at(120_000_000, (7, 8)).bar_length(), Some(1_750_000));
    assert_eq!(at(70_000_000, (4, 4)).bar_length(), Some(3_428_571));
    assert_eq!(at(120_000_000, (0, 4)).bar_length(), Some(0));
    assert_eq!(at(120_000_000, (-4, 4)).bar_length(), Some(-2_000_000));
    assert_eq!(at(120_000_000, (4, -4)).bar_length(), Some(-2_000_000));
    assert_eq!(at(1, (i32::MAX, 1)).bar_length(), Some(i64::MAX));
    assert_eq!(at(1, (i32::MIN, 1)).bar_length(), Some(i64::MIN));
    assert_eq!(at(0, (4, 4)).bar_length(), None);
    assert_eq!(at(120_000_000, (4, 0)).bar_length(), None);
}

#[test]
fn division_rounds_to_the_nearest_and_halves_away_from_zero() {
    assert_eq!(div_round_i128(7, 2), 4);
    assert_eq!(div_round_i128(-7, 2), -4);
    assert_eq!(div_round_i128(5, 2), 3);
    assert_eq!(div_round_i128(-5, 2), -3);
    assert_eq!(div_round_i128(4, 3), 1);
    assert_eq!(div_round_i128(5, 3), 2);
    assert_eq!(div_round_i128(-4, 3), -1);
    assert_eq!(div_round_i128(-5, 3), -2);
    assert_eq!(div_round_i128(0, 9), 0);
    assert_eq!(div_round_i128(1, u64::MAX), 0);
    assert_eq!(div_round_i128(1 << 126, 1), 1 << 126);
    assert_eq!(div_round_i128(-(1 << 126), u64::MAX), -4611686018427387904);
    assert_eq!(div_round_signed_i128(7, -2), -4);
    assert_eq!(div_round_signed_i128(-7, -2), 4);
    assert_eq!(div_round_signed_i128(-5, 3), -2);
    assert_eq!(div_round_signed_i128(1 << 64, i64::MIN), -2);
    assert_eq!(div_round_signed_i128(1 << 62, i64::MIN), -1);
    assert_eq!(div_round_signed_i128((1 << 62) - 1, i64::MIN), 0);
}

#[test]
fn clamping_holds_a_value_in_range() {
    assert_eq!(clamp_i64(i64::MAX as i128 + 1), i64::MAX);
    assert_eq!(clamp_i64(i64::MIN as i128 - 1), i64::MIN);
    assert_eq!(clamp_i64(-5), -5);
    assert_eq!(clamp_i32(i32::MAX as i128 + 1), i32::MAX);
    assert_eq!(clamp_i32(i32::MIN as i128 - 1), i32::MIN);
    assert_eq!(clamp_i32(7), 7);
}

#[test]
fn snapshot_needs_all_that_the_host_may_know() {
    let full = Transport {
        playing: true,
        sample_rate: 48_000_000_000,
        tempo: Some(120_000_000),
        time_sig_numerator: Some(3),
        time_sig_denominator: Some(4),
        pos_samples: Some(96_000),
        pos_beats: Some(4_000_000),
        bar_start_pos_beats: Some(3_000_000),
    };
    let info = TransportInfo::from_transport(&full, 2_000_000).unwrap();
    assert_eq!(info.time, 2_000_000);
    assert!(info.playing);
    assert_eq!(info.sample_rate, 48_000_000_000);
    assert_eq!(info.tempo, 120_000_000);
    assert_eq!(info.time_sig, (3, 4));
    assert_eq!(info.pos_samples, 96_000);
    assert_eq!(info.pos_beats, 4_000_000);
    assert_eq!(info.bar_start_pos_beats, 3_000_000);
    assert!(TransportInfo::from_transport(&Transport { tempo: None, ..full }, 0).is_none());
    assert!(TransportInfo::from_transport(&Transport { time_sig_numerator: None, ..full }, 0).is_none());
    assert!(TransportInfo::from_transport(&Transport { time_sig_denominator: None, ..full }, 0).is_none());
    assert!(TransportInfo::from_transport(&Transport { pos_samples: None, ..full }, 0).is_none());
    assert!(TransportInfo::from_transport(&Transport { pos_beats: None, ..full }, 0).is_none());
    assert!(TransportInfo::from_transport(&Transport { bar_start_pos_beats: None, ..full }, 0).is_none());
}

#[test]
fn wide_products_are_divided_and_rounded() {
    assert_eq!(mul_div_round(7, 3, 2), 11);
    assert_eq!(mul_div_round(-7, 3, 2), -11);
    assert_eq!(mul_div_round(7, -3, 2), -11);
    assert_eq!(mul_div_round(-7, -3, 2), 11);
    assert_eq!(mul_div_round(5, 1, 10), 1);
    assert_eq!(mul_div_round(-5, 1, 10), -1);
    assert_eq!(mul_div_round(4, 1, 10), 0);
    assert_eq!(mul_div_round(0, i128::MIN / 2, 1), 0);
    assert_eq!(mul_div_round(1 << 62, 0, 1), 0);
    // the product has 150 bits, the quotient 61
    assert_eq!(mul_div_round(1 << 50, (1 << 100) + (1 << 40), 1 << 60), WIDE_LIMIT);
    assert_eq!(mul_div_round(1 << 50, (1 << 70) + (1 << 10), 1 << 60), (1 << 60) + 1);
    assert_eq!(mul_div_round(-(1 << 50), (1 << 70) + (1 << 10), 1 << 60), -(1 << 60) - 1);
    // a half goes away from zero
    assert_eq!(mul_div_round(1, (1 << 100) + (1 << 36), 1 << 37), (1 << 63) + 1);
    assert_eq!(mul_div_round(-1, (1 << 100) + (1 << 36), 1 << 37), -(1 << 63) - 1);
    assert_eq!(mul_div_round(1, (1 << 100) + (1 << 36) - 1, 1 << 37), 1 << 63);
    assert_eq!(mul_div_round(1 << 62, 1 << 126, u64::MAX), WIDE_LIMIT);
    assert_eq!(mul_div_round(-(1 << 62), 1 << 126, u64::MAX), -WIDE_LIMIT);
    assert_eq!(mul_div_round(1, -(1 << 126), 1), -WIDE_LIMIT);
    assert_eq!(mul_div_round(1, (1 << 64) - 1, 1), (1 << 64) - 1);
    assert_eq!(mul_div_round(1, 1 << 64, 1), WIDE_LIMIT);
    assert_eq!(mul_div_round(1 << 62, 2, 1), 1 << 63);
    assert_eq!(mul_div_round(1 << 62, 1_000_000_000_000, 1_000_000_000_000), 1 << 62);
}
