//! Source maps, coordinate maps, masks and their images.

use stitcher::sampling::{filter_window, sample_block, scaled_block};
use stitcher::{
    verify_source_coordinate_map, ForegroundMask, GrayImage, LocalWarpReport, Position, Rgb16Image,
    RgbImage, SourceCoordinateMap, SourceMap,
};

#[test]
fn source_map_round_trips_through_png_values() {
    let mut map = SourceMap::new(3, 2);
    map.set(0, 0, 0);
    map.set(1, 0, 1);
    map.set(2, 1, 6);
    let image = map.to_gray_image();
    let roundtrip = SourceMap::from_gray_image(&image);
    assert_eq!(roundtrip.get(0, 0), 0);
    assert_eq!(roundtrip.get(1, 0), 1);
    assert_eq!(roundtrip.get(2, 1), 6);
    assert_eq!(roundtrip.get(2, 0), SourceMap::UNASSIGNED);
}

#[test]
fn gray_levels_are_one_above_the_frame() {
    let mut map = SourceMap::new(2, 1);
    map.set(1, 0, 254);
    let image = map.to_gray_image();
    assert_eq!(image.dimensions(), (2, 1));
    assert_eq!(image.get_pixel(0, 0), 0);
    assert_eq!(image.get_pixel(1, 0), 255);
}

#[test]
fn masks_survive_gray_images() {
    let mut mask = ForegroundMask::new(3, 2);
    mask.set(2, 0, true);
    mask.set(0, 1, true);
    let image = mask.to_gray_image();
    assert_eq!(image.get_pixel(2, 0), 255);
    assert_eq!(ForegroundMask::from_gray_image(&image, 127).data, mask.data);
    let mut gray = GrayImage::new(2, 1);
    gray.put_pixel(0, 0, 127);
    gray.put_pixel(1, 0, 128);
    assert_eq!(ForegroundMask::from_gray_image(&gray, 127).data, vec![false, true]);
    assert!(ForegroundMask::from_gray_image(&gray, 127).get(1, 0));
}

#[test]
fn coordinates_name_places_in_frames() {
    let map = SourceMap { width: 2, height: 2, data: vec![0, 1, 255, 9] };
    let positions = vec![Position { x: 0, y: 0 }, Position { x: -5, y: -70000 }];
    let coords = SourceCoordinateMap::from_source_map(&map, &positions);
    assert_eq!(coords.get(0, 0), Some((0, 0, 0)));
    // the row does not fit, no frame is recorded, the frame has no position
    assert_eq!(coords.get(1, 0), None);
    assert_eq!(coords.get(0, 1), None);
    assert_eq!(coords.get(1, 1), None);
    let image = coords.to_rgb16_image();
    assert_eq!(image.get_pixel(0, 0), [1, 0, 0]);
    assert_eq!(image.get_pixel(1, 0), [0, 0, 0]);
    let mut raw = Rgb16Image::from_pixel(1, 1, [0, 0, 0]);
    raw.put_pixel(0, 0, [3, 500, 600]);
    assert_eq!(raw.dimensions(), (1, 1));
    assert_eq!(SourceCoordinateMap::from_rgb16_image(&raw).get(0, 0), Some((2, 500, 600)));
}

#[test]
fn warps_change_rows_strip_by_strip() {
    let map = SourceMap { width: 4, height: 1, data: vec![0, 0, 0, 0] };
    let positions = vec![Position { x: 0, y: -10 }];
    let warp = LocalWarpReport {
        strip_width: 2,
        max_dy: 4,
        protect_foreground: true,
        shifted_pixels: 0,
        deltas_by_source: vec![vec![1, -3]],
    };
    let mut mask = ForegroundMask::new(4, 20);
    mask.set(3, 10, true);
    let masks = vec![mask];
    let coords = SourceCoordinateMap::from_source_map_with_local_warp(
        &map,
        &positions,
        Some(&warp),
        Some(&masks),
    );
    assert_eq!(coords.get(0, 0), Some((0, 0, 11)));
    assert_eq!(coords.get(2, 0), Some((0, 2, 7)));
    assert_eq!(coords.get(3, 0), Some((0, 3, 10)));
}

#[test]
fn verification_sorts_every_pixel_into_one_class() {
    let mut stitched = RgbImage::from_pixel(2, 2, [5, 5, 5]);
    stitched.put_pixel(1, 0, [6, 5, 5]);
    let inputs = vec![RgbImage::from_pixel(2, 2, [5, 5, 5])];
    let mut coords = SourceCoordinateMap::new(2, 2);
    coords.set(0, 0, 0, 1, 1);
    coords.set(1, 0, 0, 0, 0);
    coords.set(0, 1, 0, 2, 0);
    let v = verify_source_coordinate_map(&stitched, &inputs, &coords);
    assert_eq!(v.checked_pixels, 2);
    assert_eq!(v.mismatched_pixels, 1);
    assert_eq!(v.out_of_bounds_pixels, 1);
    assert_eq!(v.unassigned_pixels, 1);
}

#[test]
fn copies_of_images_are_independent() {
    let mut a = RgbImage::from_pixel(2, 1, [1, 2, 3]);
    let b = a.duplicate();
    a.put_pixel(0, 0, [9, 9, 9]);
    assert_eq!(b.get_pixel(0, 0), [1, 2, 3]);
    assert_eq!(a.get_pixel(0, 0), [9, 9, 9]);
    assert_eq!(a.get_pixel(1, 0), [1, 2, 3]);
    assert_eq!(b.dimensions(), (2, 1));
}

#[test]
fn blocks_and_windows_stay_on_the_side() {
    assert_eq!(scaled_block(2, 4, 11), (8, 11));
    assert_eq!(scaled_block(1, 4, 11), (4, 8));
    assert_eq!(sample_block(100, 10, 4, 0), (100, 102));
    assert_eq!(sample_block(100, 10, 4, 1), (102, 105));
    // more samples than pixels: each sample still has one
    assert_eq!(sample_block(0, 2, 5, 0), (0, 1));
    assert_eq!(sample_block(0, 2, 5, 1), (0, 1));
    assert_eq!(sample_block(0, 2, 5, 4), (1, 2));
    assert_eq!(filter_window(3, 10, 8), (0, 7));
    assert_eq!(filter_window(30, 10, 100), (20, 40));
}
