use mucap::zoom_control::{LastOperation, ZoomControl};

/// A number of seconds, or a plain factor, as millionths.
fn fx(x: f64) -> i64 {
    (x * 1e6).round() as i64
}


// update_time tests
#[test]
fn test_update_time_no_change() {
    let mut zc = ZoomControl::default();
    zc.update_time((fx(0.0), fx(30.0)));
    assert_eq!(zc.target_range, (fx(0.0), fx(30.0)));
}

#[test]
fn test_update_time_shrink_from_end() {
    let mut zc = ZoomControl::default();
    zc.target_range = (fx(0.0), fx(30.0));
    zc.update_time((fx(0.0), fx(20.0)));
    assert_eq!(zc.target_range.1, fx(20.0));
    assert_eq!(zc.target_range.0, fx(0.0));
}

#[test]
fn test_update_time_shrink_from_start() {
    let mut zc = ZoomControl::default();
    zc.target_range = (fx(0.0), fx(30.0));
    zc.update_time((fx(10.0), fx(40.0)));
    assert_eq!(zc.target_range.0, fx(10.0));
    assert_eq!(zc.target_range.1 - zc.target_range.0, fx(30.0)); // maintains range size
}

#[test]
fn test_update_time_both_sides_constrain() {
    let mut zc = ZoomControl::default();
    zc.target_range = (fx(0.0), fx(30.0));
    zc.update_time((fx(5.0), fx(25.0)));
    assert!(zc.target_range.0 >= fx(5.0));
    assert!(zc.target_range.1 <= fx(25.0));
}

#[test]
fn test_update_time_range_larger_than_available() {
    let mut zc = ZoomControl::default();
    zc.target_range = (fx(10.0), fx(50.0)); // 40 unit range
    zc.update_time((fx(0.0), fx(20.0))); // only 20 units available
    assert!(zc.target_range.1 - zc.target_range.0 <= fx(20.0));
    assert!(zc.target_range.0 >= fx(0.0));
    assert!(zc.target_range.1 <= fx(20.0));
}

// update/interpolation tests
#[test]
fn test_update_zero_delta_time() {
    let mut zc = ZoomControl::default();
    // Snap when position offset is small enough
    // With snap_range=0.995, position_offset must be <= size * (1-0.995) = size * 0.005
    zc.target_range = (fx(100.0), fx(200.0)); // 100 unit range
    zc.cur_range = (fx(100.0), fx(200.0)); // same range, zero position offset
    zc.update(fx(0.0));
    // With dt=0 and zero offset, snap occurs immediately
    assert_eq!(zc.cur_range, zc.target_range);
}

#[test]
fn test_update_snap_when_over_snap_range() {
    let mut zc = ZoomControl::default();
    zc.options.snap_range = fx(0.98);
    // Small zoom (1% range change) with no position drift should snap
    zc.cur_range = (fx(0.0), fx(100.0)); // 100 unit range
    zc.target_range = (fx(0.0), fx(99.0)); // 99 unit range (1% change)
    zc.update(fx(0.016)); // any positive dt
    assert_eq!(zc.cur_range, zc.target_range); // snaps immediately
}

#[test]
fn test_update_interpolate_below_snap_range() {
    let mut zc = ZoomControl::default();
    zc.options.speed = fx(1.0);
    zc.cur_range = (fx(0.0), fx(30.0));
    zc.target_range = (fx(5.0), fx(25.0)); // 20 unit range, cur is 30, ratio 0.667 < 0.98, so interpolates
    let orig_cur_range = zc.cur_range;
    zc.update(fx(0.05)); // small dt to not reach target
    // Should interpolate, not snap
    assert!(zc.cur_range != orig_cur_range);
    // May reach target with high enough alpha, so just verify it changed
}

#[test]
fn test_update_clamped_alpha() {
    let mut zc = ZoomControl::default();
    zc.options.speed = fx(100.0); // very high speed
    zc.cur_range = (fx(0.0), fx(30.0));
    zc.target_range = (fx(10.0), fx(20.0));
    zc.update(fx(0.1)); // alpha would be 10.0, but clamped to 1.0
    assert_eq!(zc.cur_range, zc.target_range); // should reach target in one step
}

// zoom tests
#[test]
fn test_zoom_in() {
    let mut zc = ZoomControl::default();
    zc.target_range = (fx(0.0), fx(30.0));
    zc.cur_range = (fx(0.0), fx(30.0));
    zc.zoom(fx(0.5), fx(15.0)); // factor 0.5 makes new_size = 15.0, clamped to min_zoom 30.0
    let new_size = zc.target_range.1 - zc.target_range.0;
    // With default min_zoom=30, we can't zoom smaller than 30
    assert!(new_size >= zc.options.min_zoom);
}

#[test]
fn test_zoom_out() {
    let mut zc = ZoomControl::default();
    zc.available_time = (fx(0.0), fx(1000.0));
    zc.target_range = (fx(100.0), fx(200.0));
    zc.cur_range = (fx(100.0), fx(200.0));
    let initial_size = zc.target_range.1 - zc.target_range.0;
    zc.zoom(fx(2.0), fx(150.0)); // zoom out by 2x
    let new_size = zc.target_range.1 - zc.target_range.0;
    assert!(new_size > initial_size);
}

#[test]
fn test_zoom_respects_min_zoom() {
    let mut zc = ZoomControl::default();
    zc.options.min_zoom = fx(30.0);
    zc.target_range = (fx(0.0), fx(30.0));
    zc.zoom(fx(0.1), fx(15.0)); // try to zoom way in
    let size = zc.target_range.1 - zc.target_range.0;
    assert!(size >= zc.options.min_zoom);
}

#[test]
fn test_zoom_respects_max_zoom() {
    let mut zc = ZoomControl::default();
    zc.options.max_zoom = fx(600.0);
    zc.target_range = (fx(0.0), fx(30.0));
    zc.zoom(fx(100.0), fx(15.0)); // try to zoom way out
    let size = zc.target_range.1 - zc.target_range.0;
    assert!(size <= zc.options.max_zoom);
}

#[test]
fn test_zoom_maintains_center() {
    let mut zc = ZoomControl::default();
    zc.available_time = (fx(0.0), fx(1000.0));
    zc.target_range = (fx(100.0), fx(200.0));
    zc.cur_range = (fx(100.0), fx(200.0));
    let center = fx(150.0);
    zc.zoom(fx(0.5), center); // zoom in, shouldn't be clamped
    let new_center = (zc.target_range.0 + zc.target_range.1) / 2;
    assert!((new_center - center).abs() < fx(0.1));
}

#[test]
fn test_zoom_abandons_pan_animation() {
    // Test that zooming while a pan animation is active abandons the pan
    let mut zc = ZoomControl::default();
    zc.options.snap_range = fx(2.0); // disable snap (always false: size > 2.0 * size)
    zc.options.speed = fx(1.0); // normal speed
    zc.available_time = (fx(0.0), fx(1000.0));
    zc.target_range = (fx(100.0), fx(200.0));
    zc.cur_range = (fx(100.0), fx(200.0));

    // Pan operation
    zc.pan(fx(0.2)); // move to (120.0, 220.0)
    assert!(matches!(zc.last_operation, LastOperation::Pan));

    let target_after_pan = zc.target_range;

    // Simulate animation with very low speed to keep it incomplete
    zc.options.speed = fx(0.001); // now make it very slow
    zc.update(fx(1.0)); // update with 1 second, but with slow speed, alpha = 0.001
    let cur_range_after_update = zc.cur_range;
    assert_ne!(zc.cur_range, zc.target_range); // animation still in progress

    // Now zoom while pan animation is in flight
    zc.zoom(fx(0.5), fx(150.0));

    // Pan animation should be abandoned: cur_range snapped to current state at zoom time
    assert_eq!(zc.cur_range, cur_range_after_update);
    assert!(matches!(zc.last_operation, LastOperation::Zoom));
}

#[test]
fn test_zoom_maintains_center_from_equal_state() {
    // Test zoom when cur_range == target_range, then zoom again during animation
    let mut zc = ZoomControl::default();
    zc.available_time = (fx(0.0), fx(1000.0));

    // Start: both ranges equal
    zc.cur_range = (fx(0.0), fx(100.0));
    zc.target_range = (fx(0.0), fx(100.0));

    let center1 = fx(50.0);
    zc.zoom(fx(0.5), center1); // zoom to 50 units

    // Verify center maintained after first zoom
    let new_center1 = (zc.target_range.0 + zc.target_range.1) / 2;
    assert!((new_center1 - center1).abs() < fx(0.1));

    // Now zoom again while cur_range still lags (hasn't been updated yet)
    // This simulates user zooming before animation completes
    let center2 = new_center1; // zoom around new center
    zc.zoom(fx(0.5), center2); // zoom another 50%

    // Verify center is still maintained
    let new_center2 = (zc.target_range.0 + zc.target_range.1) / 2;
    assert!(
        (new_center2 - center2).abs() < fx(0.1),
        "center drifted on second zoom: expected {}, got {}",
        center2,
        new_center2
    );
}

#[test]
fn test_zoom_respects_available_bounds() {
    let mut zc = ZoomControl::default();
    zc.available_time = (fx(0.0), fx(1000.0));
    zc.target_range = (fx(100.0), fx(900.0));
    zc.cur_range = (fx(100.0), fx(900.0));
    zc.zoom(fx(0.5), fx(500.0)); // zoom in to ~400 units
    assert!(zc.target_range.0 >= zc.available_time.0);
    assert!(zc.target_range.1 <= zc.available_time.1);
}

#[test]
fn test_zoom_at_boundary() {
    let mut zc = ZoomControl::default();
    zc.available_time = (fx(0.0), fx(100.0));
    zc.target_range = (fx(0.0), fx(100.0));
    zc.cur_range = (fx(0.0), fx(100.0));
    zc.zoom(fx(0.5), fx(0.0)); // zoom at left boundary
    assert!(zc.target_range.0 >= fx(0.0));
    assert!(zc.target_range.1 <= fx(100.0));
}

#[test]
fn test_zoom_clamped_if_new_size_exceeds_available() {
    let mut zc = ZoomControl::default();
    zc.available_time = (fx(0.0), fx(10.0));
    zc.target_range = (fx(2.0), fx(8.0));
    zc.cur_range = (fx(2.0), fx(8.0));
    // Zoom out by 2x: new_size would be 12, but clamped to bounds [0, 10]
    zc.zoom(fx(2.0), fx(5.0));
    // Range should be clamped to available bounds
    assert!(zc.target_range.0 >= zc.available_time.0);
    assert!(zc.target_range.1 <= zc.available_time.1);
}

// pan tests
#[test]
fn test_pan_right() {
    let mut zc = ZoomControl::default();
    zc.target_range = (fx(0.0), fx(10.0));
    zc.pan(fx(0.5)); // pan 50% of range size
    assert!(zc.target_range.0 > fx(0.0));
    assert!(zc.target_range.1 > fx(10.0));
    assert_eq!(zc.target_range.1 - zc.target_range.0, fx(10.0)); // size preserved
}

#[test]
fn test_pan_left() {
    let mut zc = ZoomControl::default();
    zc.target_range = (fx(10.0), fx(20.0));
    zc.pan(fx(-0.5)); // pan left by 50% of range size
    assert!(zc.target_range.0 < fx(10.0));
    assert!(zc.target_range.1 < fx(20.0));
    assert_eq!(zc.target_range.1 - zc.target_range.0, fx(10.0)); // size preserved
}

#[test]
fn test_pan_zero() {
    let mut zc = ZoomControl::default();
    zc.target_range = (fx(5.0), fx(15.0));
    let original = zc.target_range;
    zc.pan(fx(0.0));
    assert_eq!(zc.target_range, original);
}

#[test]
fn test_pan_respects_left_boundary() {
    let mut zc = ZoomControl::default();
    zc.available_time = (fx(0.0), fx(100.0));
    zc.target_range = (fx(5.0), fx(15.0));
    zc.pan(fx(-1.0)); // try to pan far left
    assert!(zc.target_range.0 >= zc.available_time.0);
    assert_eq!(zc.target_range.1 - zc.target_range.0, fx(10.0)); // size preserved
}

#[test]
fn test_pan_respects_right_boundary() {
    let mut zc = ZoomControl::default();
    zc.available_time = (fx(0.0), fx(100.0));
    zc.target_range = (fx(85.0), fx(95.0));
    zc.pan(fx(1.0)); // try to pan far right
    assert!(zc.target_range.1 <= zc.available_time.1);
    assert_eq!(zc.target_range.1 - zc.target_range.0, fx(10.0)); // size preserved
}

#[test]
fn test_pan_at_left_boundary() {
    let mut zc = ZoomControl::default();
    zc.available_time = (fx(0.0), fx(30.0));
    zc.target_range = (fx(0.0), fx(10.0));
    let original = zc.target_range;
    zc.pan(fx(-1.0));
    assert_eq!(zc.target_range, original); // can't pan further left
}

#[test]
fn test_pan_at_right_boundary() {
    let mut zc = ZoomControl::default();
    zc.available_time = (fx(0.0), fx(30.0));
    zc.target_range = (fx(20.0), fx(30.0));
    let original = zc.target_range;
    zc.pan(fx(1.0));
    assert_eq!(zc.target_range, original); // can't pan further right
}

#[test]
fn test_pan_maintains_range_size() {
    let mut zc = ZoomControl::default();
    zc.available_time = (fx(0.0), fx(100.0));
    zc.target_range = (fx(20.0), fx(50.0));
    let original_size = zc.target_range.1 - zc.target_range.0;
    zc.pan(fx(0.3));
    assert_eq!(zc.target_range.1 - zc.target_range.0, original_size);
}

// edge cases
#[test]
fn test_zoom_with_zero_center_position() {
    let mut zc = ZoomControl::default();
    zc.available_time = (fx(0.0), fx(1000.0));
    zc.target_range = (fx(0.0), fx(500.0));
    zc.cur_range = (fx(0.0), fx(500.0));
    zc.zoom(fx(0.5), fx(0.0)); // zoom at left boundary
    assert!(zc.target_range.0 >= zc.available_time.0);
    assert!(zc.target_range.1 <= zc.available_time.1);
}

#[test]
fn test_zoom_with_max_center_position() {
    let mut zc = ZoomControl::default();
    zc.available_time = (fx(0.0), fx(1000.0));
    zc.target_range = (fx(500.0), fx(1000.0));
    zc.cur_range = (fx(500.0), fx(1000.0));
    zc.zoom(fx(0.5), fx(1000.0)); // zoom at right boundary
    assert!(zc.target_range.0 >= zc.available_time.0);
    assert!(zc.target_range.1 <= zc.available_time.1);
}

#[test]
fn test_large_zoom_steps() {
    let mut zc = ZoomControl::default();
    zc.options.min_zoom = fx(5.0); // allow smaller zoom
    zc.target_range = (fx(0.0), fx(30.0));
    zc.cur_range = (fx(0.0), fx(30.0));
    // Multiple zoom operations
    zc.zoom(fx(0.5), fx(15.0)); // 30 * 0.5 = 15
    let size_after_first = zc.target_range.1 - zc.target_range.0;
    zc.zoom(fx(0.5), zc.target_range.0 + size_after_first / 2); // zoom again
    let size_after_second = zc.target_range.1 - zc.target_range.0;
    assert!(size_after_second < size_after_first);
}

#[test]
fn test_zoom_pan_combination() {
    let mut zc = ZoomControl::default();
    zc.available_time = (fx(0.0), fx(1000.0));
    zc.target_range = (fx(200.0), fx(800.0));
    zc.cur_range = (fx(200.0), fx(800.0));

    zc.zoom(fx(0.5), fx(500.0)); // zoom to ~300 units
    let range_size = zc.target_range.1 - zc.target_range.0;

    zc.pan(fx(0.2));
    assert_eq!(zc.target_range.1 - zc.target_range.0, range_size);
    assert!(zc.target_range.0 >= zc.available_time.0);
    assert!(zc.target_range.1 <= zc.available_time.1);
}

#[test]
fn test_very_small_range() {
    let mut zc = ZoomControl::default();
    zc.options.min_zoom = fx(0.1);
    zc.target_range = (fx(0.0), fx(0.1));
    zc.cur_range = (fx(0.0), fx(0.1));
    zc.zoom(fx(0.5), fx(0.05));
    let size = zc.target_range.1 - zc.target_range.0;
    assert!(size >= fx(0.1));
}

#[test]
fn test_very_large_range() {
    let mut zc = ZoomControl::default();
    zc.available_time = (fx(0.0), fx(10000.0));
    zc.target_range = (fx(0.0), fx(10000.0));
    zc.cur_range = (fx(0.0), fx(10000.0));
    zc.zoom(fx(0.5), fx(5000.0));
    assert!(zc.target_range.1 - zc.target_range.0 > fx(0.0));
}

#[test]
fn test_pan_does_not_snap_immediately() {
    // Test that panning animates smoothly and doesn't snap immediately
    let mut zc = ZoomControl::default();
    zc.available_time = (fx(0.0), fx(1000.0));
    zc.options.speed = fx(1.0);
    zc.cur_range = (fx(100.0), fx(200.0)); // 100 unit range
    zc.target_range = (fx(100.0), fx(200.0));

    // Pan to the right
    zc.pan(fx(0.5)); // pan by 50% of range (50 units) -> (150.0, 250.0)
    let target_after_pan = zc.target_range;
    assert_ne!(zc.cur_range, target_after_pan, "Pan updated target_range");

    // Update with very small dt to start interpolation
    zc.update(fx(0.01));

    // cur_range should have moved towards target but NOT snapped immediately
    assert_ne!(
        zc.cur_range, target_after_pan,
        "Pan should animate smoothly, not snap immediately"
    );

    // cur_range should have moved in the right direction
    assert!(
        zc.cur_range.0 > fx(100.0),
        "cur_range.0 should move towards target"
    );
    assert!(
        zc.cur_range.1 > fx(200.0),
        "cur_range.1 should move towards target"
    );
}
