//! Boundaries, groups of pixels, duplicates and overlays.

use stitcher::evaluation::exceeded_limits;
use stitcher::{
    add_pair_count, avg_abs_diff_rect, count_pair_risk, detect_duplicate_bands,
    detect_duplicate_patches, detect_duplicates, distinct_assigned_sources, draw_duplicate_overlay,
    draw_evaluation_overlay, draw_point_thick, draw_rect, draw_source_block_overlay,
    evaluate_stitch, handoffs_are_countable, neighbors4, pair_eq, patch_pair_close,
    percentile_gradient, risky_components, source_boundary_map, DuplicateBand, DuplicatePatch,
    DuplicateReport, EvalFailure, EvalThresholds, RgbImage, Single, SourceMap,
};

fn single(v: f32) -> Single {
    Single { bits: v.to_bits() }
}

fn value(s: Single) -> f32 {
    f32::from_bits(s.bits)
}

fn mean(v: &Vec<Single>) -> Single {
    single(v.iter().map(|s| value(*s)).sum::<f32>() / v.len() as f32)
}

fn no_feature(_img: &RgbImage, _rect: [u32; 4], _w: u32, _h: u32) -> Vec<Single> {
    vec![single(1.0)]
}

fn energy(_v: &Vec<Single>) -> Single {
    single(1.0)
}

fn always_alike(_a: &Vec<Single>, _b: &Vec<Single>) -> Single {
    single(1.0)
}

fn never_alike(_a: &Vec<Single>, _b: &Vec<Single>) -> Single {
    single(0.0)
}

fn quarters() -> SourceMap {
    // two frames side by side, a third one below, and one pixel without a frame
    SourceMap {
        width: 4,
        height: 3,
        data: vec![0, 0, 1, 1, 0, 0, 1, 255, 2, 2, 2, 2],
    }
}

#[test]
fn boundaries_are_where_frames_meet() {
    let (boundary, counts) = source_boundary_map(&quarters());
    assert_eq!(
        boundary,
        vec![false, true, true, false, true, true, true, false, true, true, true, false]
    );
    assert_eq!(counts, vec![((0, 1), 2), ((0, 2), 2), ((1, 2), 1)]);
    assert_eq!(distinct_assigned_sources(&quarters()), 3);
    let lone = SourceMap { width: 2, height: 2, data: vec![4, 255, 4, 4] };
    let (boundary, counts) = source_boundary_map(&lone);
    assert!(boundary.iter().all(|b| !b) && counts.is_empty());
    assert_eq!(distinct_assigned_sources(&lone), 1);
}

#[test]
fn pairs_are_counted_once_each() {
    let mut counts = vec![];
    add_pair_count(&mut counts, 3, 1);
    add_pair_count(&mut counts, 1, 3);
    add_pair_count(&mut counts, 2, 2);
    add_pair_count(&mut counts, 2, 255);
    add_pair_count(&mut counts, 0, 9);
    assert_eq!(counts, vec![((1, 3), 2), ((0, 9), 1)]);
    // only the pair that grows needs room
    let mut full = vec![((1, 3), u32::MAX), ((0, 9), 1)];
    add_pair_count(&mut full, 9, 0);
    assert_eq!(full, vec![((1, 3), u32::MAX), ((0, 9), 2)]);
    assert!(handoffs_are_countable(&quarters()));
    assert!(pair_eq(1, 2, 2, 1) && !pair_eq(1, 2, 1, 1));
    let mut risk = vec![false; 12];
    assert_eq!(count_pair_risk(&quarters(), &risk, 0, 1), 0);
    risk[2] = true;
    assert_eq!(count_pair_risk(&quarters(), &risk, 0, 1), 1);
    risk[5] = true;
    assert_eq!(count_pair_risk(&quarters(), &risk, 1, 0), 2);
    assert_eq!(count_pair_risk(&quarters(), &risk, 0, 2), 1);
}

#[test]
fn groups_are_connected_and_sorted_by_size() {
    assert_eq!(neighbors4(0, 0, 2, 2), vec![(1, 0), (0, 1)]);
    assert_eq!(neighbors4(1, 1, 3, 3), vec![(0, 1), (1, 0), (2, 1), (1, 2)]);
    // a row of forty pixels, a block of fifty and a group that is too small
    let (w, h) = (50u32, 12u32);
    let mut risk = vec![false; 600];
    for x in 0..40 {
        risk[x] = true;
    }
    for y in 4..9 {
        for x in 10..20 {
            risk[y * 50 + x] = true;
        }
    }
    for x in 0..39 {
        risk[11 * 50 + x] = true;
    }
    let grad: Vec<Single> = (0..600).map(|k| single(k as f32)).collect();
    let found = risky_components(&risk, &grad, w, h, &mean);
    assert_eq!(found.len(), 2);
    assert_eq!(found[0].area_px, 50);
    assert_eq!(found[0].bbox_xywh, [10, 4, 10, 5]);
    assert_eq!(found[0].max_gradient, single(8.0 * 50.0 + 19.0));
    assert_eq!(found[1].area_px, 40);
    assert_eq!(found[1].bbox_xywh, [0, 0, 40, 1]);
    assert_eq!(found[1].mean_gradient, single(19.5));
    // diagonal neighbors do not join groups
    let mut steps = vec![false; 600];
    for k in 0..12 {
        for x in 4 * k..4 * k + 4 {
            steps[k * 50 + x] = true;
        }
    }
    assert!(risky_components(&steps, &grad, w, h, &mean).is_empty());
    // what follows the grid is left alone
    risk.extend([true; 90]);
    assert_eq!(risky_components(&risk, &grad, w, h, &mean).len(), 2);
}

#[test]
fn percentiles_come_from_the_sorted_values() {
    let v: Vec<Single> = [3.0, -1.0, 2.0, 0.0].iter().map(|x| single(*x)).collect();
    assert_eq!(percentile_gradient(&v, 0), single(-1.0));
    assert_eq!(percentile_gradient(&v, 2), single(2.0));
    assert_eq!(percentile_gradient(&v, 9), single(3.0));
    assert_eq!(percentile_gradient(&[], 0), single(0.0));
}

#[test]
fn every_limit_has_its_failure() {
    let t = EvalThresholds {
        max_high_risk_boundary_pixels: 1,
        max_largest_risky_component_area: 2,
        max_duplicate_bands: 3,
        max_duplicate_patches: 4,
        min_mean_gradient: single(5.0),
        min_p95_gradient: single(6.0),
    };
    assert!(exceeded_limits(t, 1, 2, 3, 4, single(5.0), single(6.0)).is_empty());
    let failures = exceeded_limits(t, 2, 3, 4, 5, single(4.5), single(5.5));
    let names: Vec<&str> = failures.iter().map(|f| f.metric()).collect();
    assert_eq!(
        names,
        vec![
            "high_risk_boundary_pixels",
            "largest_risky_component_area",
            "duplicate_bands",
            "duplicate_patches",
            "mean_gradient",
            "p95_gradient",
        ]
    );
    assert!(matches!(failures[0], EvalFailure::HighRiskBoundaryPixels { found: 2, limit: 1 }));
    assert!(matches!(failures[3], EvalFailure::DuplicatePatches { found: 5, limit: 4 }));
    let d = EvalThresholds::default();
    assert_eq!((d.max_high_risk_boundary_pixels, d.max_largest_risky_component_area), (250, 300));
}

#[test]
fn evaluation_counts_what_stands_out() {
    let img = RgbImage::from_pixel(4, 3, [9, 9, 9]);
    let map = quarters();
    let mut grad = vec![single(0.0); 12];
    let mut contrast = vec![single(0.0); 12];
    grad[1] = single(28.5);
    contrast[2] = single(18.5);
    grad[4] = single(28.0);
    grad[0] = single(90.0);
    let report = evaluate_stitch(
        &img,
        &map,
        EvalThresholds::default(),
        &grad,
        &contrast,
        11,
        &mean,
        &no_feature,
        &energy,
        &never_alike,
    );
    // the strongest gradient is not on a boundary
    assert_eq!(report.boundary_pixels, 8);
    assert_eq!(report.high_risk_boundary_pixels, 2);
    assert!(report.high_risk_components.is_empty());
    assert_eq!(report.p95_gradient, single(90.0));
    assert_eq!(report.mean_gradient, single(146.5 / 12.0));
    assert_eq!(report.image_size, [4, 3]);
    assert!(report.passed && report.duplicate_report.passed);
    // pairs with more pixels at risk come first
    let order: Vec<([u8; 2], u32, u32)> = report
        .handoff_pairs
        .iter()
        .map(|p| (p.sources, p.boundary_px, p.risk_px))
        .collect();
    assert_eq!(order, vec![([0, 1], 2, 1), ([0, 2], 2, 0), ([1, 2], 1, 0)]);
    assert!(order.iter().all(|(_, boundary_px, risk_px)| risk_px <= boundary_px));

    let overlay = draw_evaluation_overlay(&img, &map, &grad, &contrast, &report);
    // (1, 0) and (2, 0) stand out; every pixel lies within two of one of them, but the boundary
    // pixels that are drawn later turn yellow again
    assert_eq!(overlay.get_pixel(0, 0), [255, 0, 0]);
    assert_eq!(overlay.get_pixel(2, 0), [255, 0, 0]);
    assert_eq!(overlay.get_pixel(3, 1), [255, 0, 0]);
    assert_eq!(overlay.get_pixel(1, 1), [255, 230, 0]);
    assert_eq!(overlay.get_pixel(0, 2), [255, 230, 0]);
}

#[test]
fn rectangles_differ_by_their_samples() {
    let mut img = RgbImage::from_pixel(4, 4, [10, 10, 10]);
    for y in 0..4 {
        for x in 2..4 {
            img.put_pixel(x, y, [20, 10, 13]);
        }
    }
    let (sum, n) = avg_abs_diff_rect(&img, [0, 0, 2, 4], [2, 0, 2, 4], 2, 2);
    assert_eq!((sum, n), (4 * 13, 12));
    let (sum, _) = avg_abs_diff_rect(&img, [0, 0, 2, 2], [0, 2, 2, 2], 2, 2);
    assert_eq!(sum, 0);
}

#[test]
fn duplicate_bands_are_far_apart_finds() {
    // a uniform image looks alike everywhere
    let img = RgbImage::from_pixel(8, 700, [7, 7, 7]);
    let bands = detect_duplicate_bands(&img, &no_feature, &always_alike);
    assert!(!bands.is_empty() && bands.len() <= 12);
    // bands are 180 rows high, and start every ten rows
    for b in &bands {
        assert_eq!(b.height, 180);
        assert!(b.y2 - b.y1 >= 300);
        assert_eq!(b.y1 % 10, 0);
        assert!(b.y2 + b.height <= 700);
    }
    assert_eq!((bands[0].y1, bands[0].y2), (0, 300));
    for (i, a) in bands.iter().enumerate() {
        for b in &bands[..i] {
            assert!(a.y1.abs_diff(b.y1) > 90 || a.y2.abs_diff(b.y2) > 90);
        }
    }
    assert!(detect_duplicate_bands(&img, &no_feature, &never_alike).is_empty());
    // a similarity alone is not enough: the pixels have to agree too
    let mut split = RgbImage::from_pixel(8, 480, [0, 0, 0]);
    for y in 240..480 {
        for x in 0..8 {
            split.put_pixel(x, y, [99, 99, 99]);
        }
    }
    assert!(detect_duplicate_bands(&split, &no_feature, &always_alike).is_empty());
    let report = detect_duplicates(&img, &no_feature, &energy, &never_alike);
    assert!(report.passed);
    let report = detect_duplicates(&img, &no_feature, &energy, &always_alike);
    assert!(!report.passed);
}

#[test]
fn duplicate_patches_need_energy_and_distance() {
    let img = RgbImage::from_pixel(200, 520, [7, 7, 7]);
    let patches = detect_duplicate_patches(&img, &no_feature, &energy, &always_alike);
    assert!(!patches.is_empty() && patches.len() <= 20);
    for p in &patches {
        assert_eq!((p.rect_a[2], p.rect_a[3]), (120, 173));
        assert!(p.rect_a[1].abs_diff(p.rect_b[1]) >= 300);
        assert!(p.rect_a[0].abs_diff(p.rect_b[0]) <= 120);
        assert_eq!((p.rect_b[2], p.rect_b[3]), (120, 173));
        for r in [p.rect_a, p.rect_b] {
            assert!(r[0] + r[2] <= 200 && r[1] + r[3] <= 520);
        }
    }
    let dull = |_v: &Vec<Single>| single(0.0001);
    assert!(detect_duplicate_patches(&img, &no_feature, &dull, &always_alike).is_empty());
    let a = DuplicatePatch { score: single(1.0), rect_a: [0, 0, 9, 9], rect_b: [0, 300, 9, 9] };
    let b = DuplicatePatch { score: single(1.0), rect_a: [3, 3, 9, 9], rect_b: [3, 303, 9, 9] };
    assert!(patch_pair_close(&a, &b, 8, 8));
    assert!(!patch_pair_close(&a, &b, 6, 8));
}

#[test]
fn points_and_rectangles_are_painted_exactly() {
    let mut img = RgbImage::from_pixel(9, 9, [0, 0, 0]);
    draw_point_thick(&mut img, 1, 8, [5, 5, 5], 2);
    let painted = |img: &RgbImage| {
        let mut n = 0;
        for y in 0..9 {
            for x in 0..9 {
                if img.get_pixel(x, y) != [0, 0, 0] {
                    n += 1;
                }
            }
        }
        n
    };
    assert_eq!(painted(&img), 4 * 3);
    let mut big = RgbImage::from_pixel(20, 20, [0, 0, 0]);
    draw_rect(&mut big, 2, 3, 17, 99, [1, 2, 3]);
    for y in 0..20u32 {
        for x in 0..20u32 {
            let inside = (2..=17).contains(&x) && y >= 3;
            let core = (6..=13).contains(&x) && (7..=15).contains(&y);
            let expected = if inside && !core { [1, 2, 3] } else { [0, 0, 0] };
            assert_eq!(big.get_pixel(x, y), expected, "({x}, {y})");
        }
    }
}

#[test]
fn duplicate_overlays_show_all_rectangles() {
    let img = RgbImage::from_pixel(40, 60, [0, 0, 0]);
    let report = DuplicateReport {
        passed: false,
        band_duplicates: vec![DuplicateBand {
            score: single(1.0),
            y1: 0,
            y2: 40,
            height: 10,
        }],
        patch_duplicates: vec![DuplicatePatch {
            score: single(1.0),
            rect_a: [20, 20, 10, 10],
            rect_b: [0, 40, 10, 10],
        }],
    };
    let out = draw_duplicate_overlay(&img, &report);
    assert_eq!(out.get_pixel(20, 0), [255, 0, 0]);
    assert_eq!(out.get_pixel(20, 5), [0, 0, 0]);
    assert_eq!(out.get_pixel(20, 20), [0, 255, 0]);
    // the later rectangle hides the earlier one
    assert_eq!(out.get_pixel(0, 40), [0, 255, 255]);
    assert_eq!(out.get_pixel(39, 45), [255, 0, 0]);
    let untouched = draw_duplicate_overlay(
        &img,
        &DuplicateReport { passed: true, band_duplicates: vec![], patch_duplicates: vec![] },
    );
    assert_eq!(untouched.get_pixel(0, 0), [0, 0, 0]);
}

#[test]
fn source_blocks_are_tinted() {
    let img = RgbImage::from_pixel(4, 3, [100, 100, 100]);
    let out = draw_source_block_overlay(&img, &quarters());
    assert_eq!(out.get_pixel(0, 0), [146, 91, 91]);
    assert_eq!(out.get_pixel(3, 0), [91, 118, 146]);
    assert_eq!(out.get_pixel(1, 0), [255, 255, 255]);
    assert_eq!(out.get_pixel(3, 1), [100, 100, 100]);
    assert_eq!(out.get_pixel(3, 2), [91, 146, 106]);
}
