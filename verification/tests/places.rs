//! Where frames stand, and which displacements are tried.

use stitcher::alignment::{
    choose_coarse, choose_fine, coarse_candidates, fine_candidates, first_best_above,
    overlap_window, scale_up, snap_shift,
};
use stitcher::shifts::alignment_length;
use stitcher::rounding::{held_in_single, round_ratio};
use stitcher::stitch::{default_max_shift, lay_out};
use stitcher::{
    candidate_allowed_full, candidate_allowed_scaled, estimate_shifts, find_pair_shift,
    longest_monotonic_indices, monotonic_active_sources, ncc_content_shift, normalize_positions,
    positions_from_shifts, OverlapWindow, PanMode, Position, RgbImage, Shift, ShiftLimits, Single,
    StitchError,
};

fn single(v: f32) -> Single {
    Single { bits: v.to_bits() }
}

fn shift(dx: i32, dy: i32) -> Shift {
    Shift { dx, dy, score: single(1.0) }
}

fn limits() -> ShiftLimits {
    ShiftLimits { min_x: 30, max_x: 90, min_y: 30, max_y: 90, max_drift_x: 8, max_drift_y: 8 }
}

#[test]
fn positions_move_against_the_shifts() {
    let positions = positions_from_shifts(&[shift(-40, 2), shift(-30, -1)]);
    assert_eq!(
        positions,
        vec![Position { x: 0, y: 0 }, Position { x: 40, y: -2 }, Position { x: 70, y: -1 }]
    );
    let (normalized, w, h) = normalize_positions(&positions, 100, 50);
    assert_eq!(
        normalized,
        vec![Position { x: 0, y: 2 }, Position { x: 40, y: 0 }, Position { x: 70, y: 1 }]
    );
    assert_eq!((w, h), (170, 52));
    assert_eq!(normalize_positions(&[], 7, 9), (vec![], 7, 9));
}

#[test]
fn layouts_stop_where_coordinates_end() {
    let l = lay_out(&[shift(-40, 0)], 100, 50).unwrap();
    assert_eq!((l.width, l.height), (140, 50));
    assert_eq!(l.positions, vec![Position { x: 0, y: 0 }, Position { x: 40, y: 0 }]);
    assert!(lay_out(&[shift(i32::MIN, 0)], 100, 50).is_none());
    assert!(lay_out(&[shift(-2_000_000_000, 0), shift(-2_000_000_000, 0)], 10, 10).is_none());
    assert!(lay_out(&[shift(-70_000, -70_000)], 10, 10).is_none());
}

#[test]
fn pan_modes_allow_what_they_say() {
    let scaled = |mode, dx, dy| candidate_allowed_scaled(mode, dx, dy, 5, 20, 5, 20, 2, 3);
    assert!(scaled(PanMode::Vertical, 2, -5));
    assert!(!scaled(PanMode::Vertical, 3, -5));
    assert!(!scaled(PanMode::Vertical, 0, 21));
    assert!(scaled(PanMode::Horizontal, -20, 3));
    assert!(!scaled(PanMode::Horizontal, 2, -5));
    assert!(scaled(PanMode::Auto, 2, -5) && scaled(PanMode::Auto, -20, 3));
    assert!(!candidate_allowed_full(PanMode::Auto, 4, 4, 5, 20, 5, 20, 9, 9));
    // a pan and its reverse are allowed alike
    for dx in -25..=25 {
        for dy in -25..=25 {
            for mode in [PanMode::Auto, PanMode::Vertical, PanMode::Horizontal] {
                assert_eq!(scaled(mode, dx, dy), scaled(mode, -dx, -dy));
            }
        }
    }
}

#[test]
fn candidates_come_row_by_row() {
    let found = coarse_candidates(30, 30, 30, 30, 10, PanMode::Vertical, limits()).unwrap();
    assert_eq!(
        found,
        (-9..=9i32)
            .filter(|dy| dy.abs() >= 3)
            .map(|dy| (0, dy))
            .collect::<Vec<_>>()
    );
    assert_eq!(
        coarse_candidates(30, 30, 30, 31, 10, PanMode::Vertical, limits()).err(),
        Some(StitchError::AlignmentSizeMismatch)
    );
    let fine = fine_candidates(0, 40, 1, PanMode::Vertical, limits());
    assert_eq!(fine.len(), 49);
    assert_eq!(fine[0], (-3, 37));
    assert_eq!(fine[48], (3, 43));
}

#[test]
fn the_first_of_the_best_scores_wins() {
    let scores: Vec<Single> =
        [0.5, f32::NAN, 0.9, 0.9, -1.0].iter().map(|v| single(*v)).collect();
    assert_eq!(first_best_above(&scores, single(0.0)), Some(2));
    assert_eq!(first_best_above(&scores, single(0.9)), None);
    let candidates = [(1, 0), (2, 0), (3, 0), (4, 0), (5, 0)];
    let best = choose_coarse(PanMode::Auto, &candidates, &scores).unwrap();
    assert_eq!((best.dx, best.dy, best.score), (3, 0, single(0.9)));
    let full = scale_up(best, 4);
    assert_eq!((full.dx, full.dy), (12, 0));
    let kept = choose_fine(full, &candidates, &scores);
    assert_eq!((kept.dx, kept.dy), (12, 0));
    let refined = choose_fine(Shift { score: single(0.1), ..full }, &candidates, &scores);
    assert_eq!((refined.dx, refined.dy), (3, 0));
    assert_eq!(
        choose_coarse(PanMode::Vertical, &[], &[]).err(),
        Some(StitchError::NoValidShift { mode: PanMode::Vertical })
    );
}

#[test]
fn windows_hold_the_shared_pixels() {
    let win = overlap_window(100, 80, -30, 10).unwrap();
    assert_eq!((win.ax, win.ay, win.bx, win.by), (30, 0, 0, 10));
    assert_eq!((win.width, win.height), (70, 70));
    assert!(overlap_window(100, 80, 0, 0).is_none());
    assert!(overlap_window(100, 80, 61, 0).is_none());
    assert!(overlap_window(100, 80, 0, 41).is_none());
    assert!(overlap_window(100, 80, 60, 0).is_some());
}

#[test]
fn searches_follow_the_scores() {
    // the score is highest for a shift of (0, -42) of the full frames
    let score = |_pair: usize, win: OverlapWindow| {
        let dy = win.by as f32 - win.ay as f32;
        let dx = win.bx as f32 - win.ax as f32;
        single(1.0 - (dy + 10.5).abs() / 100.0 - dx.abs() / 100.0)
    };
    let s = ncc_content_shift(0, 100, 100, 0, -10, &score);
    assert_eq!(s, single(1.0 - 0.5 / 100.0));
    assert_eq!(ncc_content_shift(0, 100, 100, 0, 0, &score), Single::neg_infinity());
    let found =
        find_pair_shift(0, 100, 100, 100, 100, 4, PanMode::Vertical, limits(), &score).unwrap();
    // ten and eleven rows score alike; the scan meets eleven rows first
    assert_eq!((found.dx, found.dy), (0, -44));
    assert_eq!(
        find_pair_shift(0, 100, 100, 90, 100, 4, PanMode::Vertical, limits(), &score).err(),
        Some(StitchError::AlignmentSizeMismatch)
    );
    let frames: Vec<RgbImage> =
        (0..3).map(|_| RgbImage::from_pixel(400, 400, [0, 0, 0])).collect();
    let shifts = estimate_shifts(&frames, 4, PanMode::Vertical, limits(), 3, &score).unwrap();
    assert_eq!(shifts.len(), 2);
    assert!(shifts.iter().all(|s| s.dx == 0 && s.dy == -44));
    let mut odd = frames;
    odd.push(RgbImage::from_pixel(300, 400, [0, 0, 0]));
    assert_eq!(
        estimate_shifts(&odd, 4, PanMode::Vertical, limits(), 3, &score).err(),
        Some(StitchError::AlignmentSizeMismatch)
    );
    let never = |_pair: usize, _win: OverlapWindow| single(f32::NAN);
    assert_eq!(
        estimate_shifts(&odd, 4, PanMode::Horizontal, limits(), 3, &never).err(),
        Some(StitchError::NoValidShift { mode: PanMode::Horizontal })
    );
}

#[test]
fn small_numbers() {
    assert_eq!(snap_shift(-3, 3), 0);
    assert_eq!(snap_shift(4, 3), 4);
    assert_eq!(alignment_length(403, 4), 100);
    assert_eq!(alignment_length(3, 4), 1);
    // three quarters, rounded half away from zero as (length * 0.75).round()
    for length in 0..2000u32 {
        assert_eq!(default_max_shift(length), (length as f32 * 0.75).round() as i32);
    }
}

#[test]
fn long_sides_are_rounded_in_single_precision() {
    // 8388610.5 has no single; the even neighbor is taken
    assert_eq!(default_max_shift(11_184_814), 8_388_610);
    assert_eq!(round_ratio(7, 2), 4);
    assert_eq!(round_ratio(-7, 2), -4);
    assert_eq!(round_ratio(-16_777_217, 1), -16_777_216);
    assert_eq!(round_ratio(i32::MAX, 1), i32::MAX);
    assert_eq!(round_ratio(i32::MIN, 1), i32::MIN);
    let mut state: u32 = 12345;
    let mut next = || {
        state = state.wrapping_mul(1_664_525).wrapping_add(1_013_904_223);
        state ^ (state >> 15)
    };
    for k in 0..20_000u32 {
        let n = next() >> (k % 32);
        let d = (next() >> (k % 31)).max(1);
        assert_eq!(held_in_single(n) as f64, n as f32 as f64);
        assert_eq!(default_max_shift(n), (n as f32 * 0.75).round() as i32);
        let m = n as i32;
        assert_eq!(round_ratio(m, d), (m as f32 / d as f32).round() as i32);
    }
    for n in [0, 1, 5_592_405, 5_592_406, 16_777_215, 16_777_217, 16_777_219, u32::MAX] {
        assert_eq!(default_max_shift(n), (n as f32 * 0.75).round() as i32);
    }
}

#[test]
fn longest_runs_tolerate_small_reversals() {
    assert_eq!(longest_monotonic_indices(&[0, 10, 5, 20], true, 8), vec![0, 1, 2, 3]);
    // of equally long runs the earliest predecessor is kept
    assert_eq!(longest_monotonic_indices(&[0, 20, 5, 30], true, 8), vec![0, 1, 3]);
    assert_eq!(longest_monotonic_indices(&[0, 20, 5, 30], false, 8), vec![0, 2]);
    assert_eq!(longest_monotonic_indices(&[5], true, 8), vec![0]);
    let still = [Position { x: 3, y: 3 }, Position { x: 90, y: -60 }];
    assert_eq!(monotonic_active_sources(&still), vec![true, true]);
    assert_eq!(monotonic_active_sources(&[]), Vec::<bool>::new());
}

#[test]
fn scales_beyond_the_frames_leave_nothing_to_try() {
    let score = |_pair: usize, _win: OverlapWindow| single(1.0);
    let frames: Vec<RgbImage> =
        (0..2).map(|_| RgbImage::from_pixel(400, 400, [0, 0, 0])).collect();
    for scale in [401usize, i32::MAX as usize, usize::MAX] {
        assert_eq!(
            estimate_shifts(&frames, scale, PanMode::Auto, limits(), 3, &score).err(),
            Some(StitchError::NoValidShift { mode: PanMode::Auto })
        );
    }
    assert_eq!(alignment_length(400, usize::MAX), 1);
    // a single frame has no shifts, whatever the scale
    let shifts =
        estimate_shifts(&frames[..1], usize::MAX, PanMode::Auto, limits(), 3, &score).unwrap();
    assert!(shifts.is_empty());
}

#[test]
fn steady_pans_lose_no_frame() {
    let at = |y: i32| Position { x: 0, y };
    assert_eq!(monotonic_active_sources(&[at(0), at(50), at(42), at(90)]), vec![true; 4]);
    // nine rows against the pan are too many
    assert_eq!(
        monotonic_active_sources(&[at(0), at(50), at(41), at(90)]),
        vec![true, true, false, true]
    );
}
