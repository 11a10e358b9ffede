//! Which frames take part, and what a mask grows to.

use stitcher::{dilate_bool_mask, monotonic_active_sources, Position};

#[test]
fn monotonic_frame_filter_drops_leading_reversal() {
    let raw = vec![
        Position { x: 0, y: 0 },
        Position { x: -24, y: 276 },
        Position { x: -24, y: 20 },
        Position { x: -4, y: -148 },
        Position { x: -28, y: -348 },
        Position { x: -28, y: -656 },
        Position { x: 0, y: -1304 },
    ];
    let active = monotonic_active_sources(&raw);
    assert_eq!(active, vec![false, true, true, true, true, true, true]);
}

#[test]
fn monotonic_frame_filter_keeps_already_monotonic_sequence() {
    let raw = vec![
        Position { x: 0, y: 0 },
        Position { x: 0, y: -150 },
        Position { x: 0, y: -300 },
    ];
    let active = monotonic_active_sources(&raw);
    assert_eq!(active, vec![true, true, true]);
}

#[test]
fn motion_mask_dilation_expands_foreground_barrier() {
    let mut mask = vec![false; 25];
    mask[2 * 5 + 2] = true;
    let dilated = dilate_bool_mask(&mask, 5, 5, 1);
    let count = dilated.iter().filter(|&&v| v).count();
    assert_eq!(count, 9);
    assert!(dilated[6]);
    assert!(dilated[2 * 5 + 2]);
    assert!(dilated[3 * 5 + 3]);
    assert!(!dilated[0]);
}
