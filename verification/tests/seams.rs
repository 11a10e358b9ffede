//! Seams, pasting and masks on small canvases.

use stitcher::motion::mean_of;
use stitcher::path::least_path;
use stitcher::seam::surroundings_of;
use stitcher::{
    aligned_temporal_diff, covering_temporal_disagreement, dilate_bool_mask,
    find_vertical_pan_seam, foreground_mask_for_overlap, generate_source_map,
    mask_covers_canvas_pixel, motion_mask_for_overlap, overlap_rect_with_existing, paste_full,
    paste_unassigned, paste_with_seam, rgb_abs_diff, synthesize_vertical_seams_with_source_map,
    ForegroundMask, Position, RgbImage, SeamCell, SeamOptions, Single, SourceMap,
};

fn single(v: f32) -> Single {
    Single { bits: v.to_bits() }
}

fn value(s: Single) -> f32 {
    f32::from_bits(s.bits)
}

fn plus(a: Single, b: Single) -> Single {
    single(value(a) + value(b))
}

fn mean(samples: &Vec<u32>) -> Single {
    single(samples.iter().map(|d| *d as f32 / 3.0).sum::<f32>() / samples.len() as f32)
}

fn grid(rows: &[&[f32]]) -> Vec<Single> {
    rows.iter().flat_map(|r| r.iter().map(|v| single(*v))).collect()
}

#[test]
fn least_paths_weigh_climbs() {
    let costs = grid(&[&[0.0, 9.0, 9.0], &[5.0, 0.0, 9.0], &[5.0, 5.0, 0.0]]);
    assert_eq!(least_path(&costs, 3, 3, &plus), vec![0, 1, 2]);
    // a step costs one and a half, so staying wins where the gain is smaller
    let costs = grid(&[&[1.0, 1.0], &[1.0, 0.0]]);
    assert_eq!(least_path(&costs, 2, 2, &plus), vec![1, 1]);
    let costs = grid(&[&[0.0, 1.0], &[9.0, 0.0]]);
    assert_eq!(least_path(&costs, 2, 2, &plus), vec![0, 0]);
    // of equal ends the upper one is taken
    let costs = grid(&[&[2.0], &[1.0], &[1.0]]);
    assert_eq!(least_path(&costs, 1, 3, &plus), vec![1]);
}

#[test]
fn no_path_is_cheaper_than_the_least_one() {
    let (w, h) = (4usize, 3usize);
    let costs: Vec<Single> =
        (0..w * h).map(|k| single(((k * 7919 + 13) % 10) as f32)).collect();
    let cost_of = |rows: &[usize]| {
        let mut total = value(costs[rows[0] * w]);
        for x in 1..w {
            let step = if rows[x] == rows[x - 1] { 0.0 } else { 1.5 };
            total = value(costs[rows[x] * w + x]) + (total + step);
        }
        total
    };
    let least = cost_of(&least_path(&costs, w, h, &plus));
    for a in 0..h {
        for b in 0..h {
            for c in 0..h {
                for d in 0..h {
                    let rows = [a, b, c, d];
                    if rows.windows(2).all(|p| p[0].abs_diff(p[1]) <= 1) {
                        assert!(least <= cost_of(&rows));
                    }
                }
            }
        }
    }
}

#[test]
fn pasting_follows_its_rule() {
    let red = RgbImage::from_pixel(3, 3, [200, 0, 0]);
    let blue = RgbImage::from_pixel(3, 3, [0, 0, 200]);
    let mut canvas = RgbImage::from_pixel(4, 5, [0, 0, 0]);
    let mut map = SourceMap::new(4, 5);
    paste_full(&mut canvas, &mut map, &red, Position { x: -1, y: 0 }, 7);
    assert_eq!(map.data, vec![7, 7, 255, 255, 7, 7, 255, 255, 7, 7, 255, 255, 255, 255, 255, 255, 255, 255, 255, 255]);
    assert_eq!(canvas.get_pixel(1, 2), [200, 0, 0]);
    assert_eq!(canvas.get_pixel(2, 2), [0, 0, 0]);

    let rect = overlap_rect_with_existing(&map, Position { x: 1, y: 1 }, 3, 3);
    assert_eq!(rect, Some((1, 1, 2, 3)));
    assert_eq!(overlap_rect_with_existing(&map, Position { x: 2, y: 0 }, 3, 3), None);
    assert_eq!(overlap_rect_with_existing(&map, Position { x: 9, y: 9 }, 3, 3), None);
    assert_eq!(overlap_rect_with_existing(&map, Position { x: -9, y: 0 }, 3, 3), None);
    assert_eq!(overlap_rect_with_existing(&map, Position { x: 0, y: -9 }, 3, 3), None);

    paste_with_seam(
        &mut canvas,
        &mut map,
        &blue,
        Position { x: 1, y: 1 },
        8,
        &[2],
        1,
        1,
        2,
        3,
    );
    // above the seam the first frame stays, from the seam on the second one takes over
    assert_eq!(map.get(1, 1), 7);
    assert_eq!(map.get(1, 2), 8);
    assert_eq!(map.get(3, 3), 8);
    assert_eq!(canvas.get_pixel(1, 2), [0, 0, 200]);

    paste_unassigned(&mut canvas, &mut map, &red, Position { x: 0, y: 2 }, 9);
    assert_eq!(map.get(0, 2), 7);
    assert_eq!(map.get(0, 3), 9);
    assert_eq!(map.get(1, 2), 8);
    assert_eq!(map.get(3, 4), SourceMap::UNASSIGNED);
}

#[test]
fn seams_take_the_cheapest_rows() {
    let canvas = RgbImage::from_pixel(3, 4, [10, 10, 10]);
    let map = SourceMap { width: 3, height: 4, data: vec![0; 12] };
    let mut incoming = RgbImage::from_pixel(3, 4, [250, 250, 250]);
    for x in 0..3 {
        incoming.put_pixel(x, 2, [10, 10, 10]);
    }
    let images = vec![RgbImage::from_pixel(3, 4, [10, 10, 10]), incoming];
    let positions = vec![Position { x: 0, y: 0 }, Position { x: 0, y: 0 }];
    let color_only = |_: SeamOptions, c: SeamCell| single(c.color as f32);
    let seam = find_vertical_pan_seam(
        &canvas,
        &map,
        &images,
        &positions,
        1,
        0,
        1,
        3,
        4,
        SeamOptions::basic(),
        None,
        &mean,
        &color_only,
        &plus,
    );
    assert_eq!(seam, vec![2, 2, 2]);
    // the margins cost eight for each row short of twelve
    let margin_only = |_: SeamOptions, c: SeamCell| {
        assert!(c.motion.is_none() && !c.hard_motion && !c.foreground);
        single(c.margin_penalty as f32)
    };
    let seam = find_vertical_pan_seam(
        &canvas,
        &map,
        &images,
        &positions,
        1,
        0,
        0,
        3,
        3,
        SeamOptions::basic(),
        None,
        &mean,
        &margin_only,
        &plus,
    );
    assert_eq!(seam, vec![1, 1, 1]);
    let empty = find_vertical_pan_seam(
        &canvas,
        &map,
        &images,
        &positions,
        1,
        2,
        2,
        2,
        2,
        SeamOptions::basic(),
        None,
        &mean,
        &margin_only,
        &plus,
    );
    assert!(empty.is_empty());
}

#[test]
fn surroundings_stop_at_the_edges() {
    let mut img = RgbImage::from_pixel(2, 2, [1, 1, 1]);
    img.put_pixel(1, 0, [2, 2, 2]);
    img.put_pixel(0, 1, [3, 3, 3]);
    let s = surroundings_of(&img, 0, 0);
    assert_eq!(s.center, [1, 1, 1]);
    assert_eq!((s.left, s.above), (None, None));
    assert_eq!((s.right, s.below), (Some([2, 2, 2]), Some([3, 3, 3])));
}

#[test]
fn differences_are_gathered_around_a_pixel() {
    assert_eq!(rgb_abs_diff([10, 0, 255], [0, 5, 250]), 20);
    let a = RgbImage::from_pixel(4, 4, [10, 10, 10]);
    let mut b = RgbImage::from_pixel(4, 4, [10, 10, 10]);
    b.put_pixel(0, 0, [40, 10, 10]);
    let images = vec![a, b];
    let positions = vec![Position { x: 0, y: 0 }, Position { x: 1, y: 1 }];
    // around (1, 1) the frames share the pixels from (1, 1) to (2, 2)
    assert_eq!(aligned_temporal_diff(&images, &positions, 0, 1, 1, 1, 1), vec![30, 0, 0, 0]);
    assert_eq!(
        covering_temporal_disagreement(&images, &positions, 1, 1, 1),
        vec![30, 0, 0, 0]
    );
    assert!(aligned_temporal_diff(&images, &positions, 255, 1, 1, 1, 1).is_empty());
    assert!(aligned_temporal_diff(&images, &positions, 2, 1, 1, 1, 1).is_empty());
    assert!(covering_temporal_disagreement(&images, &positions, 0, 0, 0).is_empty());
    assert_eq!(mean_of(&mean, &vec![]), single(0.0));
    assert_eq!(mean_of(&mean, &vec![30, 0]), single(5.0));

    let map = SourceMap { width: 5, height: 5, data: vec![0; 25] };
    let moving = motion_mask_for_overlap(
        &map,
        &images,
        &positions,
        1,
        1,
        1,
        3,
        3,
        0,
        single(9.0),
        0,
        &mean,
    );
    assert_eq!(moving, vec![true, false, false, false, false, false, false, false, false]);
    let grown = motion_mask_for_overlap(
        &map,
        &images,
        &positions,
        1,
        1,
        1,
        3,
        3,
        0,
        single(9.0),
        1,
        &mean,
    );
    assert_eq!(grown, vec![true, true, false, true, true, false, false, false, false]);
    let calm = motion_mask_for_overlap(
        &map,
        &images,
        &positions,
        1,
        1,
        1,
        3,
        3,
        0,
        single(10.0),
        0,
        &mean,
    );
    assert!(calm.iter().all(|m| !m));
}

#[test]
fn foreground_masks_follow_their_frames() {
    let mut mask = ForegroundMask::new(3, 3);
    mask.set(1, 1, true);
    let pos = Position { x: 2, y: -1 };
    assert!(mask_covers_canvas_pixel(&mask, pos, 3, 0));
    assert!(!mask_covers_canvas_pixel(&mask, pos, 1, 0));
    assert!(!mask_covers_canvas_pixel(&mask, pos, 3, 9));
    let masks = vec![mask, ForegroundMask::new(3, 3)];
    let positions = vec![Position { x: 0, y: 0 }, Position { x: 0, y: 1 }];
    let map = SourceMap { width: 3, height: 4, data: vec![0; 12] };
    let hits = foreground_mask_for_overlap(&map, Some(&masks), &positions, 1, 0, 1, 3, 2, 0);
    assert_eq!(hits, vec![false, true, false, false, false, false]);
    let hits = foreground_mask_for_overlap(&map, Some(&masks), &positions, 1, 0, 1, 3, 2, 1);
    assert_eq!(hits, vec![true; 6]);
    let none = foreground_mask_for_overlap(&map, None, &positions, 1, 0, 1, 3, 2, 1);
    assert_eq!(none, vec![false; 6]);
    let none = foreground_mask_for_overlap(&map, Some(&masks), &positions, 2, 0, 1, 3, 2, 1);
    assert_eq!(none, vec![false; 6]);
}

#[test]
fn dilation_only_grows_a_mask() {
    let mask: Vec<bool> = (0..20).map(|k| k % 7 == 3).collect();
    assert_eq!(dilate_bool_mask(&mask, 5, 4, 0), mask);
    let once = dilate_bool_mask(&mask, 5, 4, 1);
    let twice = dilate_bool_mask(&mask, 5, 4, 2);
    for k in 0..20 {
        assert!(!mask[k] || once[k]);
        assert!(!once[k] || twice[k]);
    }
    assert!(dilate_bool_mask(&[], 0, 0, 3).is_empty());
}

#[test]
fn nearest_frames_are_the_ones_with_the_least_score() {
    let positions = vec![Position { x: 0, y: 0 }, Position { x: 1, y: 0 }];
    let scores = vec![
        vec![single(2.0), single(1.0), single(2.0)],
        vec![single(1.0), single(0.5), single(2.0)],
    ];
    let map = generate_source_map(&positions, 3, 1, 5, 1, &scores);
    // in the second column the scores are equal and the earlier frame wins
    assert_eq!(map.data, vec![0, 0, 1, 1, SourceMap::UNASSIGNED]);
}

#[test]
fn masks_without_growth_stay_as_they_are() {
    // nothing is grown, so the size does not matter
    assert_eq!(dilate_bool_mask(&[true, false, true], 7, 9, 0), vec![true, false, true]);
    assert!(dilate_bool_mask(&[], 7, 9, 2).is_empty());
    // cells beyond the grid keep their value
    assert_eq!(dilate_bool_mask(&[true, false, false, false], 3, 1, 1), vec![true, true, false, false]);
}

#[test]
fn radii_that_are_no_coordinates_reach_nothing() {
    let images =
        vec![RgbImage::from_pixel(2, 2, [0, 0, 0]), RgbImage::from_pixel(2, 2, [9, 0, 0])];
    let positions = vec![Position { x: 0, y: 0 }; 2];
    assert_eq!(aligned_temporal_diff(&images, &positions, 0, 1, 0, 0, 0), vec![9]);
    assert!(aligned_temporal_diff(&images, &positions, 0, 1, 0, 0, u32::MAX).is_empty());
    assert!(covering_temporal_disagreement(&images, &positions, 0, 0, u32::MAX).is_empty());
}

#[test]
fn seams_take_more_positions_than_frames() {
    let images =
        vec![RgbImage::from_pixel(3, 3, [1, 1, 1]), RgbImage::from_pixel(3, 3, [2, 2, 2])];
    let positions =
        vec![Position { x: 0, y: 0 }, Position { x: 0, y: 3 }, Position { x: 0, y: 90 }];
    let (canvas, map) = synthesize_vertical_seams_with_source_map(
        &images,
        &positions,
        3,
        7,
        &[],
        &mean,
        &|_: SeamOptions, c: SeamCell| single(c.color as f32),
        &plus,
    )
    .ok()
    .unwrap();
    assert_eq!(map.get(2, 2), 0);
    assert_eq!(map.get(0, 3), 1);
    assert_eq!(map.get(0, 6), SourceMap::UNASSIGNED);
    assert_eq!(canvas.get_pixel(2, 5), [2, 2, 2]);
    assert_eq!(canvas.get_pixel(0, 6), [0, 0, 0]);
}

#[test]
fn costs_depend_on_the_options() {
    let canvas = RgbImage::from_pixel(2, 4, [10, 10, 10]);
    let map = SourceMap { width: 2, height: 4, data: vec![0; 8] };
    let images = vec![
        RgbImage::from_pixel(2, 4, [10, 10, 10]),
        RgbImage::from_pixel(2, 4, [10, 10, 10]),
    ];
    let positions = vec![Position { x: 0, y: 0 }; 2];
    // the lower edge of the frame attracts the seam with a weight above one and repels it otherwise
    let towards_the_edge = |o: SeamOptions, c: SeamCell| {
        let at_edge = if c.incoming.below.is_none() { 5.0 } else { 0.0 };
        single(if value(o.edge_weight) > 1.0 { 10.0 - at_edge } else { 10.0 + at_edge })
    };
    let seam_with = |weight: f32| {
        let options = SeamOptions { edge_weight: single(weight), ..SeamOptions::basic() };
        find_vertical_pan_seam(
            &canvas,
            &map,
            &images,
            &positions,
            1,
            0,
            2,
            2,
            4,
            options,
            None,
            &mean,
            &towards_the_edge,
            &plus,
        )
    };
    assert_eq!(seam_with(2.0), vec![3, 3]);
    assert_eq!(seam_with(0.5), vec![2, 2]);
}

#[test]
fn frames_off_the_canvas_leave_it_alone() {
    let images =
        vec![RgbImage::from_pixel(3, 3, [1, 1, 1]), RgbImage::from_pixel(3, 3, [2, 2, 2])];
    let positions = vec![Position { x: 0, y: 0 }, Position { x: -9, y: 50 }];
    let (canvas, map) = synthesize_vertical_seams_with_source_map(
        &images,
        &positions,
        3,
        3,
        &[],
        &mean,
        &|_: SeamOptions, c: SeamCell| single(c.color as f32),
        &plus,
    )
    .ok()
    .unwrap();
    assert_eq!(map.data, vec![0; 9]);
    assert_eq!(canvas.get_pixel(2, 2), [1, 1, 1]);
}
