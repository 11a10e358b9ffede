//! Whole stitches, with single-precision arithmetic supplied by the tests.

use stitcher::sampling::{filter_window, sample_block, scaled_block};
use stitcher::{
    covering_temporal_disagreement, evaluate_stitch, render_local_warped_from_source_map,
    stitch_images, stitch_images_with_source_map, synthesize_nearest_center,
    synthesize_nearest_center_with_source_map, synthesize_vertical_seams_motion_with_source_map,
    synthesize_vertical_seams_with_source_map, synthesize_vertical_seams_with_source_map_opts,
    verify_source_coordinate_map, EvalThresholds, EvaluationReport, ForegroundMask, OverlapWindow,
    PanMode, Position, RgbImage, SeamCell, SeamOptions, Single, SourceCoordinateMap, SourceMap,
    SourceSelection, StitchError, StitchOptions, StitchReport, Surroundings,
};

fn value(s: Single) -> f32 {
    f32::from_bits(s.bits)
}

fn single(v: f32) -> Single {
    Single { bits: v.to_bits() }
}

fn singles(v: &[f32]) -> Vec<Single> {
    v.iter().map(|x| single(*x)).collect()
}

fn luma(p: [u8; 3]) -> f32 {
    0.299 * p[0] as f32 + 0.587 * p[1] as f32 + 0.114 * p[2] as f32
}

struct Gray {
    w: usize,
    data: Vec<f32>,
}

fn prepared(img: &RgbImage, scale: usize) -> Gray {
    let (w0, h0) = img.dimensions();
    let (w0, h0) = (w0 as usize, h0 as usize);
    let w = (w0 / scale).max(1);
    let h = (h0 / scale).max(1);
    let mut gray = vec![0.0f32; w * h];
    for y in 0..h {
        for x in 0..w {
            let (y0, y1) = scaled_block(y, scale, h0);
            let (x0, x1) = scaled_block(x, scale, w0);
            let mut sum = 0.0;
            let mut n = 0.0;
            for yy in y0..y1 {
                for xx in x0..x1 {
                    sum += luma(img.get_pixel(xx as u32, yy as u32));
                    n += 1.0;
                }
            }
            gray[y * w + x] = sum / n;
        }
    }
    let mut edge = vec![0.0f32; w * h];
    for y in 1..h.saturating_sub(1) {
        for x in 1..w.saturating_sub(1) {
            let at = |xx: usize, yy: usize| gray[yy * w + xx];
            let gx = -at(x - 1, y - 1) + at(x + 1, y - 1) - 2.0 * at(x - 1, y)
                + 2.0 * at(x + 1, y)
                - at(x - 1, y + 1)
                + at(x + 1, y + 1);
            let gy = -at(x - 1, y - 1) - 2.0 * at(x, y - 1) - at(x + 1, y - 1)
                + at(x - 1, y + 1)
                + 2.0 * at(x, y + 1)
                + at(x + 1, y + 1);
            edge[y * w + x] = (gx * gx + gy * gy).sqrt();
        }
    }
    let mean = edge.iter().sum::<f32>() / edge.len() as f32;
    let var = edge.iter().map(|x| (x - mean) * (x - mean)).sum::<f32>() / edge.len() as f32;
    let std = var.sqrt().max(1e-6);
    for x in &mut edge {
        *x = (*x - mean) / std;
    }
    Gray { w, data: edge }
}

fn correlation(a: &Gray, b: &Gray, win: OverlapWindow) -> f32 {
    let at = |g: &Gray, x: usize, y: usize| g.data[y * g.w + x];
    let mut n = 0.0f32;
    let mut sum_a = 0.0;
    let mut sum_b = 0.0;
    for y in 0..win.height {
        for x in 0..win.width {
            sum_a += at(a, win.ax + x, win.ay + y);
            sum_b += at(b, win.bx + x, win.by + y);
            n += 1.0;
        }
    }
    let (mean_a, mean_b) = (sum_a / n, sum_b / n);
    let mut num = 0.0;
    let mut den_a = 0.0;
    let mut den_b = 0.0;
    for y in 0..win.height {
        for x in 0..win.width {
            let va = at(a, win.ax + x, win.ay + y) - mean_a;
            let vb = at(b, win.bx + x, win.by + y) - mean_b;
            num += va * vb;
            den_a += va * va;
            den_b += vb * vb;
        }
    }
    num / (den_a.sqrt() * den_b.sqrt()).max(1e-6)
}

fn center_scores(frames: usize, w: u32, h: u32) -> Vec<Vec<Single>> {
    let (cx, cy) = (w as f32 / 2.0, h as f32 / 2.0);
    (0..frames)
        .map(|i| {
            let mut table = Vec::new();
            for sy in 0..h {
                for sx in 0..w {
                    let d = ((sx as f32 - cx).powi(2) + (sy as f32 - cy).powi(2)).sqrt();
                    table.push(single(d - i as f32 * 0.01));
                }
            }
            table
        })
        .collect()
}

fn mean_difference(samples: &Vec<u32>) -> Single {
    let mut total = 0.0f32;
    for d in samples {
        total += *d as f32 / 3.0;
    }
    single(total / samples.len() as f32)
}

fn luma_edge(s: &Surroundings) -> f32 {
    let c = luma(s.center);
    let mut e: f32 = 0.0;
    for p in [s.left, s.above, s.right, s.below].into_iter().flatten() {
        e = e.max((c - luma(p)).abs());
    }
    e
}

fn seam_cost(o: SeamOptions, c: SeamCell) -> Single {
    let motion = match c.motion {
        Some(diff) => (value(diff) - value(o.motion_threshold)).max(0.0),
        None => 0.0,
    };
    let hard = if c.hard_motion { value(o.motion_hard_penalty) } else { 0.0 };
    let foreground = if c.foreground { value(o.foreground_mask_penalty) } else { 0.0 };
    single(
        c.color as f32 / 3.0
            + value(o.edge_weight) * (luma_edge(&c.canvas) + luma_edge(&c.incoming))
            + c.margin_penalty as f32
            + value(o.motion_weight) * motion
            + hard
            + foreground,
    )
}

fn plus(a: Single, b: Single) -> Single {
    single(value(a) + value(b))
}

fn correction_score(samples: &Vec<u32>, delta: i32) -> Single {
    single(value(mean_difference(samples)) + delta.unsigned_abs() as f32 * 0.1)
}

fn gradients(img: &RgbImage) -> (Vec<Single>, Vec<Single>) {
    let (w, h) = img.dimensions();
    let (ww, hh) = (w as usize, h as usize);
    let mut grad = Vec::new();
    for y in 0..h {
        for x in 0..w {
            let here = luma(img.get_pixel(x, y));
            let mut g = 0.0f32;
            if x > 0 {
                g = g.max((here - luma(img.get_pixel(x - 1, y))).abs());
            }
            if y > 0 {
                g = g.max((here - luma(img.get_pixel(x, y - 1))).abs());
            }
            grad.push(g);
        }
    }
    let mut integral = vec![0.0f64; (ww + 1) * (hh + 1)];
    for y in 0..hh {
        let mut row = 0.0f64;
        for x in 0..ww {
            row += grad[y * ww + x] as f64;
            integral[(y + 1) * (ww + 1) + x + 1] = integral[y * (ww + 1) + x + 1] + row;
        }
    }
    let mut contrast = Vec::new();
    for y in 0..hh {
        for x in 0..ww {
            let (x0, x1) = filter_window(x, 10, ww);
            let (y0, y1) = filter_window(y, 10, hh);
            let sum = integral[(y1 + 1) * (ww + 1) + x1 + 1]
                - integral[y0 * (ww + 1) + x1 + 1]
                - integral[(y1 + 1) * (ww + 1) + x0]
                + integral[y0 * (ww + 1) + x0];
            let n = ((x1 - x0 + 1) * (y1 - y0 + 1)) as f64;
            contrast.push(grad[y * ww + x] - (sum / n) as f32);
        }
    }
    (singles(&grad), singles(&contrast))
}

fn mean_value(v: &Vec<Single>) -> Single {
    single(v.iter().map(|s| value(*s)).sum::<f32>() / v.len() as f32)
}

fn feature(img: &RgbImage, rect: [u32; 4], out_w: u32, out_h: u32) -> Vec<Single> {
    let [x0, y0, rw, rh] = rect;
    let mut gray = vec![0.0f32; (out_w * out_h) as usize];
    for oy in 0..out_h {
        for ox in 0..out_w {
            let (sx0, sx1) = sample_block(x0, rw, out_w, ox);
            let (sy0, sy1) = sample_block(y0, rh, out_h, oy);
            let mut sum = 0.0;
            let mut n = 0.0;
            for y in sy0..sy1 {
                for x in sx0..sx1 {
                    sum += luma(img.get_pixel(x, y));
                    n += 1.0;
                }
            }
            gray[(oy * out_w + ox) as usize] = sum / n;
        }
    }
    let mut edge = vec![0.0f32; gray.len()];
    let (ow, oh) = (out_w as usize, out_h as usize);
    for y in 1..oh.saturating_sub(1) {
        for x in 1..ow.saturating_sub(1) {
            let gx = gray[y * ow + x + 1] - gray[y * ow + x - 1];
            let gy = gray[(y + 1) * ow + x] - gray[(y - 1) * ow + x];
            edge[y * ow + x] = (gx * gx + gy * gy).sqrt() * 0.9;
        }
    }
    gray.extend(edge);
    let mean = gray.iter().sum::<f32>() / gray.len() as f32;
    for x in &mut gray {
        *x -= mean;
    }
    let norm = gray.iter().map(|x| x * x).sum::<f32>().sqrt().max(1e-6);
    for x in &mut gray {
        *x /= norm;
    }
    singles(&gray)
}

fn energy(v: &Vec<Single>) -> Single {
    single(v.iter().map(|s| value(*s).abs()).sum::<f32>() / v.len() as f32)
}

fn dot(a: &Vec<Single>, b: &Vec<Single>) -> Single {
    single(a.iter().zip(b).map(|(x, y)| value(*x) * value(*y)).sum())
}

fn stitched_with_map(
    images: &[RgbImage],
    opts: &StitchOptions,
) -> Result<(RgbImage, SourceMap, StitchReport), StitchError> {
    let prepped: Vec<Gray> = images.iter().map(|i| prepared(i, opts.align_scale)).collect();
    let (w, h) = match images.first() {
        Some(i) => i.dimensions(),
        None => (0, 0),
    };
    let scores = center_scores(images.len(), w, h);
    stitch_images_with_source_map(
        images,
        opts,
        &scores,
        &|pair: usize, win: OverlapWindow| {
            single(correlation(&prepped[pair], &prepped[pair + 1], win))
        },
        &mean_difference,
        &seam_cost,
        &plus,
        &correction_score,
        &feature,
        &energy,
        &dot,
    )
}

fn stitched(
    images: &[RgbImage],
    opts: &StitchOptions,
) -> Result<(RgbImage, StitchReport), StitchError> {
    let prepped: Vec<Gray> = images.iter().map(|i| prepared(i, opts.align_scale)).collect();
    let (w, h) = images[0].dimensions();
    let scores = center_scores(images.len(), w, h);
    stitch_images(
        images,
        opts,
        &scores,
        &|pair: usize, win: OverlapWindow| {
            single(correlation(&prepped[pair], &prepped[pair + 1], win))
        },
        &mean_difference,
        &seam_cost,
        &plus,
        &correction_score,
        &feature,
        &energy,
        &dot,
    )
}

fn evaluated(img: &RgbImage, map: &SourceMap, thresholds: EvalThresholds) -> EvaluationReport {
    let (grad, contrast) = gradients(img);
    let index = ((grad.len() - 1) as f32 * (95.0f32 / 100.0)).round() as usize;
    evaluate_stitch(
        img,
        map,
        thresholds,
        &grad,
        &contrast,
        index,
        &mean_value,
        &feature,
        &energy,
        &dot,
    )
}

fn synthetic_canvas(w: u32, h: u32) -> RgbImage {
    let mut img = RgbImage::from_pixel(w, h, [0, 0, 0]);
    for y in 0..h {
        for x in 0..w {
            let mut v = x.wrapping_mul(374_761_393) ^ y.wrapping_mul(668_265_263);
            v = (v ^ (v >> 13)).wrapping_mul(1_274_126_177);
            img.put_pixel(
                x,
                y,
                [
                    (v & 0xff) as u8,
                    ((v >> 8) & 0xff) as u8,
                    ((v >> 16) & 0xff) as u8,
                ],
            );
        }
    }
    img
}

fn crop(img: &RgbImage, x0: u32, y0: u32, w: u32, h: u32) -> RgbImage {
    let mut out = RgbImage::from_pixel(w, h, [0, 0, 0]);
    for y in 0..h {
        for x in 0..w {
            out.put_pixel(x, y, img.get_pixel(x0 + x, y0 + y));
        }
    }
    out
}

#[test]
fn detects_horizontal_pan() {
    let canvas = synthetic_canvas(900, 300);
    let a = crop(&canvas, 0, 0, 400, 300);
    let b = crop(&canvas, 160, 0, 400, 300);
    let c = crop(&canvas, 320, 0, 400, 300);
    let opts = StitchOptions {
        check_duplicates: false,
        min_shift_x: 40,
        min_shift_y: 40,
        ..Default::default()
    };
    let (_out, report) = stitched(&[a, b, c], &opts).ok().unwrap();
    assert_eq!(report.shifts.len(), 2);
    assert!(
        report
            .shifts
            .iter()
            .all(|s| s.dx < -120 && s.dx > -200 && s.dy.abs() <= 4)
    );
    assert_eq!(report.canvas_width, 720);
}

#[test]
fn detects_reverse_vertical_pan() {
    let canvas = synthetic_canvas(300, 900);
    let a = crop(&canvas, 0, 0, 300, 400);
    let b = crop(&canvas, 0, 150, 300, 400);
    let c = crop(&canvas, 0, 300, 300, 400);
    let opts = StitchOptions {
        check_duplicates: false,
        min_shift_x: 40,
        min_shift_y: 40,
        ..Default::default()
    };
    let (_out, report) = stitched(&[a, b, c], &opts).ok().unwrap();
    assert_eq!(report.shifts.len(), 2);
    assert!(
        report
            .shifts
            .iter()
            .all(|s| s.dy < -110 && s.dy > -190 && s.dx.abs() <= 4)
    );
    assert_eq!(report.canvas_height, 700);
}

#[test]
fn temporal_disagreement_sees_moving_region_across_covering_frames() {
    let mut a = RgbImage::from_pixel(20, 20, [100, 100, 100]);
    let mut b = RgbImage::from_pixel(20, 20, [100, 100, 100]);
    let c = RgbImage::from_pixel(20, 20, [100, 100, 100]);
    a.put_pixel(10, 10, [240, 20, 20]);
    b.put_pixel(10, 10, [20, 20, 240]);
    let images = vec![a, b, c];
    let positions = vec![
        Position { x: 0, y: 0 },
        Position { x: 0, y: 0 },
        Position { x: 0, y: 0 },
    ];
    let mean = |cx: u32, cy: u32| {
        let samples = covering_temporal_disagreement(&images, &positions, cx, cy, 0);
        if samples.is_empty() { 0.0 } else { value(mean_difference(&samples)) }
    };
    assert!(mean(10, 10) > 100.0);
    assert_eq!(mean(0, 0), 0.0);
}

#[test]
fn eval_passes_clean_single_source_image() {
    let img = synthetic_canvas(220, 160);
    let mut map = SourceMap::new(220, 160);
    for y in 0..160 {
        for x in 0..220 {
            map.set(x, y, 0);
        }
    }
    let report = evaluated(&img, &map, EvalThresholds::default());
    assert!(
        report.passed,
        "unexpected eval failures: {:?}",
        report.failures
    );
    assert_eq!(report.boundary_pixels, 0);
}

#[test]
fn eval_fails_visible_source_block_seam() {
    let mut img = RgbImage::from_pixel(220, 160, [0, 0, 0]);
    let mut map = SourceMap::new(220, 160);
    for y in 0..160 {
        for x in 0..220 {
            if x < 110 {
                img.put_pixel(x, y, [0, 0, 0]);
                map.set(x, y, 0);
            } else {
                img.put_pixel(x, y, [255, 255, 255]);
                map.set(x, y, 1);
            }
        }
    }
    let thresholds = EvalThresholds {
        max_high_risk_boundary_pixels: 0,
        max_largest_risky_component_area: 0,
        ..Default::default()
    };
    let report = evaluated(&img, &map, thresholds);
    assert!(!report.passed);
    assert!(report.high_risk_boundary_pixels > 0);
    assert!(report.largest_risky_component_area > 0);
    // the step lies between the columns 109 and 110; only the right one has the gradient
    assert_eq!(report.boundary_pixels, 320);
    assert_eq!(report.high_risk_boundary_pixels, 160);
    assert_eq!(report.largest_risky_component_area, 160);
    assert_eq!(report.high_risk_components.len(), 1);
    assert_eq!(report.high_risk_components[0].bbox_xywh, [110, 0, 1, 160]);
    assert_eq!(report.handoff_pairs.len(), 1);
    assert_eq!(report.handoff_pairs[0].sources, [0, 1]);
    assert_eq!(report.handoff_pairs[0].boundary_px, 160);
    assert_eq!(report.handoff_pairs[0].risk_px, 160);
    assert_eq!(report.source_map_distinct_sources, 2);
}

#[test]
fn source_coordinate_map_round_trips_and_verifies_pixels() {
    let canvas = synthetic_canvas(120, 80);
    let a = crop(&canvas, 0, 0, 80, 80);
    let b = crop(&canvas, 40, 0, 80, 80);
    let images = vec![a, b];
    let positions = vec![Position { x: 0, y: 0 }, Position { x: 40, y: 0 }];
    let scores = center_scores(2, 80, 80);
    let (stitched, source_map) =
        synthesize_nearest_center_with_source_map(&images, &positions, 120, 80, &scores)
            .ok()
            .unwrap();
    let coord_map = SourceCoordinateMap::from_source_map(&source_map, &positions);
    let image = coord_map.to_rgb16_image();
    let roundtrip = SourceCoordinateMap::from_rgb16_image(&image);
    let verification = verify_source_coordinate_map(&stitched, &images, &roundtrip);
    assert!(verification.checked_pixels > 0);
    assert_eq!(verification.mismatched_pixels, 0);
    assert_eq!(verification.out_of_bounds_pixels, 0);
    assert_eq!(verification.checked_pixels, 120 * 80);
    // both frames show the canvas, so the stitched image is the canvas
    for y in 0..80 {
        for x in 0..120 {
            assert_eq!(stitched.get_pixel(x, y), canvas.get_pixel(x, y));
        }
    }
    let again = synthesize_nearest_center(&images, &positions, 120, 80, &scores).ok().unwrap();
    assert_eq!(again.get_pixel(63, 40), stitched.get_pixel(63, 40));
}

#[test]
fn seam_motion_source_map_matches_selected_pixels() {
    let canvas = synthetic_canvas(80, 140);
    let mut a = crop(&canvas, 0, 0, 80, 80);
    let mut b = crop(&canvas, 0, 40, 80, 80);
    for y in 18..34 {
        for x in 25..55 {
            a.put_pixel(x, y + 40, [240, 20, 20]);
            b.put_pixel(x, y, [20, 20, 240]);
        }
    }
    let images = vec![a, b];
    let positions = vec![Position { x: 0, y: 0 }, Position { x: 0, y: 40 }];
    let (stitched, source_map) = synthesize_vertical_seams_motion_with_source_map(
        &images,
        &positions,
        80,
        120,
        &center_scores(2, 80, 80),
        &mean_difference,
        &seam_cost,
        &plus,
    )
    .ok()
    .unwrap();

    let (w, h) = stitched.dimensions();
    for y in 0..h {
        for x in 0..w {
            let source = source_map.get(x, y);
            if source == SourceMap::UNASSIGNED {
                continue;
            }
            let source_idx = source as usize;
            let sx = x as i32 - positions[source_idx].x;
            let sy = y as i32 - positions[source_idx].y;
            assert!(sx >= 0 && sy >= 0);
            assert_eq!(
                stitched.get_pixel(x, y),
                images[source_idx].get_pixel(sx as u32, sy as u32)
            );
        }
    }
    // no pixel is left without a frame, and the map verifies
    let coords = SourceCoordinateMap::from_source_map(&source_map, &positions);
    let verification = verify_source_coordinate_map(&stitched, &images, &coords);
    assert_eq!(verification.unassigned_pixels, 0);
    assert_eq!(verification.mismatched_pixels, 0);
    assert_eq!(verification.out_of_bounds_pixels, 0);
}

#[test]
fn seam_motion_avoids_moving_overlap_region() {
    let base = RgbImage::from_pixel(90, 130, [120, 120, 120]);
    let mut a = crop(&base, 0, 0, 90, 80);
    let mut b = crop(&base, 0, 40, 90, 80);
    for y in 52..68 {
        for x in 30..60 {
            a.put_pixel(x, y, [255, 0, 0]);
            b.put_pixel(x, y - 40, [0, 0, 255]);
        }
    }
    let images = vec![a, b];
    let positions = vec![Position { x: 0, y: 0 }, Position { x: 0, y: 40 }];
    let options = SeamOptions {
        motion_weight: single(8.0),
        motion_radius: 4,
        motion_threshold: single(1.0),
        motion_mask_dilate: 0,
        motion_hard_penalty: single(0.0),
        foreground_mask_dilate: 0,
        foreground_mask_penalty: single(0.0),
        edge_weight: single(0.15),
    };
    let (_stitched, source_map) = synthesize_vertical_seams_with_source_map_opts(
        &images,
        &positions,
        90,
        120,
        options,
        None,
        None,
        &center_scores(2, 90, 80),
        &mean_difference,
        &seam_cost,
        &plus,
    )
    .ok()
    .unwrap();

    for x in 30..60 {
        let boundary_y =
            (41..80).find(|&y| source_map.get(x, y - 1) == 0 && source_map.get(x, y) == 1);
        if let Some(y) = boundary_y {
            assert!(
                !(52..68).contains(&y),
                "source seam crossed moving rectangle at x={x}, y={y}"
            );
        }
    }
}

#[test]
fn eval_can_reject_blur_to_pass_outputs() {
    let mut sharp = RgbImage::from_pixel(180, 120, [0, 0, 0]);
    for y in 0..120 {
        for x in 0..180 {
            let value = if ((x / 8) + (y / 8)) % 2 == 0 { 0 } else { 255 };
            sharp.put_pixel(x, y, [value, value, value]);
        }
    }
    let blurred = RgbImage::from_pixel(180, 120, [128, 128, 128]);
    let mut map = SourceMap::new(180, 120);
    for y in 0..120 {
        for x in 0..180 {
            map.set(x, y, 0);
        }
    }
    let sharp_report = evaluated(&sharp, &map, EvalThresholds::default());
    let thresholds = EvalThresholds {
        min_p95_gradient: single(value(sharp_report.p95_gradient) * 0.75),
        ..Default::default()
    };
    let blurred_report = evaluated(&blurred, &map, thresholds);
    assert!(!blurred_report.passed);
    assert!(
        blurred_report
            .failures
            .iter()
            .any(|failure| failure.metric().contains("p95_gradient"))
    );
}

#[test]
fn seams_cover_every_frame_and_inactive_frames_fill_gaps() {
    let canvas = synthetic_canvas(60, 160);
    let images = vec![
        crop(&canvas, 0, 0, 60, 80),
        crop(&canvas, 0, 40, 60, 80),
        crop(&canvas, 0, 80, 60, 80),
    ];
    let positions = vec![
        Position { x: 0, y: 0 },
        Position { x: 0, y: 40 },
        Position { x: 0, y: 80 },
    ];
    let scores = center_scores(3, 60, 80);
    let options = SeamOptions::basic();
    let (all, map) = synthesize_vertical_seams_with_source_map(
        &images,
        &positions,
        60,
        160,
        &scores,
        &mean_difference,
        &seam_cost,
        &plus,
    )
    .ok()
    .unwrap();
    for y in 0..160 {
        for x in 0..60 {
            assert_eq!(all.get_pixel(x, y), canvas.get_pixel(x, y));
            assert_ne!(map.get(x, y), SourceMap::UNASSIGNED);
        }
    }

    // only the outer frames take part in seams; the inner one has nothing left to fill but no gap
    let active = [true, false, true];
    let (_, partial) = synthesize_vertical_seams_with_source_map_opts(
        &images,
        &positions,
        60,
        160,
        options,
        Some(&active[..]),
        None,
        &scores,
        &mean_difference,
        &seam_cost,
        &plus,
    )
    .ok()
    .unwrap();
    assert!(partial.data.iter().all(|s| *s == 0 || *s == 2));

    // with one frame alone, the two others fill the rest in the order of their numbers
    let active = [false, false, true];
    let (_, filled) = synthesize_vertical_seams_with_source_map_opts(
        &images,
        &positions,
        60,
        160,
        options,
        Some(&active[..]),
        None,
        &scores,
        &mean_difference,
        &seam_cost,
        &plus,
    )
    .ok()
    .unwrap();
    assert_eq!(filled.get(0, 79), 0);
    assert_eq!(filled.get(0, 80), 2);
    // the frame that takes part shows wherever it has a pixel
    for y in 80..160 {
        for x in 0..60 {
            assert_eq!(filled.get(x, y), 2);
        }
    }
}

#[test]
fn seams_fall_back_to_nearest_centers_on_wide_pans() {
    let canvas = synthetic_canvas(120, 40);
    let images = vec![crop(&canvas, 0, 0, 80, 40), crop(&canvas, 40, 0, 80, 40)];
    let positions = vec![Position { x: 0, y: 0 }, Position { x: 40, y: 0 }];
    let scores = center_scores(2, 80, 40);
    let (_, seams) = synthesize_vertical_seams_with_source_map(
        &images,
        &positions,
        120,
        40,
        &scores,
        &mean_difference,
        &seam_cost,
        &plus,
    )
    .ok()
    .unwrap();
    let (_, centers) =
        synthesize_nearest_center_with_source_map(&images, &positions, 120, 40, &scores)
            .ok()
            .unwrap();
    assert_eq!(seams.data, centers.data);

    // flags and masks are not even looked at
    let ragged = ForegroundMask { width: 9, height: 9, data: vec![true; 2] };
    let (canvas, wide) = synthesize_vertical_seams_with_source_map_opts(
        &images,
        &positions,
        120,
        40,
        SeamOptions::basic().with_foreground_mask(0, single(5.0)),
        Some(&[true][..]),
        Some(&vec![ragged.clone(), ragged.clone(), ragged]),
        &scores,
        &mean_difference,
        &seam_cost,
        &plus,
    )
    .ok()
    .unwrap();
    assert_eq!(wide.data, centers.data);
    assert_eq!(canvas.dimensions(), (120, 40));
}

#[test]
fn seams_need_a_frame() {
    let r = synthesize_vertical_seams_with_source_map(
        &[],
        &[],
        10,
        10,
        &[],
        &mean_difference,
        &seam_cost,
        &plus,
    );
    assert_eq!(r.err(), Some(StitchError::NoFrames));
}

#[test]
fn foreground_penalty_moves_the_seam_off_the_mask() {
    let img = RgbImage::from_pixel(20, 60, [90, 90, 90]);
    let images = vec![crop(&img, 0, 0, 20, 60), crop(&img, 0, 0, 20, 60)];
    let positions = vec![Position { x: 0, y: 0 }, Position { x: 0, y: 20 }];
    // the overlap has the rows 20 to 59 of the canvas; all of it but its row 35 is foreground
    let mut mask = ForegroundMask::new(20, 60);
    for y in 0..60 {
        for x in 0..20 {
            mask.set(x, y, y != 35);
        }
    }
    // a mask without a frame is left alone
    let surplus = ForegroundMask { width: 20, height: 60, data: vec![] };
    let masks = vec![mask, ForegroundMask::new(20, 60), surplus];
    let options = SeamOptions::basic().with_foreground_mask(0, single(1000.0));
    let (_, map) = synthesize_vertical_seams_with_source_map_opts(
        &images,
        &positions,
        20,
        80,
        options,
        None,
        Some(&masks),
        &center_scores(2, 20, 60),
        &mean_difference,
        &seam_cost,
        &plus,
    )
    .ok()
    .unwrap();
    for x in 0..20 {
        assert_eq!(map.get(x, 34), 0);
        assert_eq!(map.get(x, 35), 1);
    }
}

#[test]
fn hard_motion_penalty_bars_moving_pixels() {
    let mut a = RgbImage::from_pixel(20, 60, [90, 90, 90]);
    let b = RgbImage::from_pixel(20, 60, [90, 90, 90]);
    // everything in the overlap moves but the row 40 of the canvas
    for y in 20..60 {
        if y != 40 {
            for x in 0..20 {
                a.put_pixel(x, y, [200, 90, 90]);
            }
        }
    }
    let images = vec![a, b];
    let positions = vec![Position { x: 0, y: 0 }, Position { x: 0, y: 20 }];
    let options = SeamOptions::motion_aware(
        single(0.0),
        0,
        single(12.0),
        0,
        single(5000.0),
        single(0.0),
    );
    let (_, map) = synthesize_vertical_seams_with_source_map_opts(
        &images,
        &positions,
        20,
        80,
        options,
        None,
        None,
        &center_scores(2, 20, 60),
        &mean_difference,
        &seam_cost,
        &plus,
    )
    .ok()
    .unwrap();
    for x in 0..20 {
        assert_eq!(map.get(x, 39), 0);
        assert_eq!(map.get(x, 40), 1);
    }
}

#[test]
fn vertical_stitch_with_seams_filter_masks_and_warp() {
    let canvas = synthetic_canvas(180, 360);
    let images = vec![
        crop(&canvas, 0, 0, 180, 160),
        crop(&canvas, 0, 80, 180, 160),
        crop(&canvas, 0, 160, 180, 160),
    ];
    let masks: Vec<ForegroundMask> = (0..3).map(|_| ForegroundMask::new(180, 160)).collect();
    let opts = StitchOptions {
        mode: PanMode::Vertical,
        source_selection: SourceSelection::SeamDpMotion,
        min_shift_y: 40,
        max_drift_x: 5,
        align_scale: 2,
        monotonic_frame_filter: true,
        foreground_masks: Some(masks.clone()),
        foreground_mask_penalty: single(100.0),
        local_warp: true,
        ..Default::default()
    };
    let (out, map, report) = stitched_with_map(&images, &opts).ok().unwrap();
    assert_eq!(report.canvas_height, 320);
    assert_eq!(report.canvas_width, 180);
    assert_eq!(out.dimensions(), (180, 320));
    assert_eq!((map.width, map.height), (180, 320));
    assert_eq!(map.data.len(), 180 * 320);
    assert!(report.shifts.iter().all(|s| s.dx == 0 && s.dy == -80));
    assert_eq!(
        report.normalized_positions,
        vec![Position { x: 0, y: 0 }, Position { x: 0, y: 80 }, Position { x: 0, y: 160 }]
    );
    // the frames agree, so no strip is corrected
    let warp = report.local_warp.unwrap();
    assert_eq!(warp.shifted_pixels, 0);
    assert_eq!(warp.strip_width, 128);
    assert_eq!(warp.deltas_by_source, vec![vec![0, 0], vec![0, 0], vec![0, 0]]);
    let coords = SourceCoordinateMap::from_source_map(&map, &report.normalized_positions);
    let verification = verify_source_coordinate_map(&out, &images, &coords);
    assert_eq!(verification.checked_pixels, 180 * 320);
    assert_eq!(verification.mismatched_pixels, 0);
}

#[test]
fn stitch_refuses_bad_inputs() {
    let small = RgbImage::from_pixel(50, 40, [1, 2, 3]);
    let frame = || RgbImage::from_pixel(60, 50, [1, 2, 3]);
    let opts = StitchOptions::default();
    assert_eq!(stitched_with_map(&[], &opts).err(), Some(StitchError::TooFewFrames));
    assert_eq!(stitched_with_map(&[frame()], &opts).err(), Some(StitchError::TooFewFrames));
    assert_eq!(
        stitched_with_map(&[frame(), frame(), small], &opts).err(),
        Some(StitchError::FrameSizeMismatch {
            width: 60,
            height: 50,
            frame: 2,
            frame_width: 50,
            frame_height: 40,
        })
    );
    let one_mask = StitchOptions {
        foreground_masks: Some(vec![ForegroundMask::new(60, 50)]),
        ..Default::default()
    };
    assert_eq!(
        stitched_with_map(&[frame(), frame()], &one_mask).err(),
        Some(StitchError::MaskCountMismatch { masks: 1, frames: 2 })
    );
    let odd_mask = StitchOptions {
        foreground_masks: Some(vec![ForegroundMask::new(60, 50), ForegroundMask::new(60, 49)]),
        ..Default::default()
    };
    assert_eq!(
        stitched_with_map(&[frame(), frame()], &odd_mask).err(),
        Some(StitchError::MaskSizeMismatch {
            mask: 1,
            mask_width: 60,
            mask_height: 49,
            width: 60,
            height: 50,
        })
    );
    // frames of this size leave no room for a comparable shift
    assert_eq!(
        stitched_with_map(&[frame(), frame()], &opts).err(),
        Some(StitchError::NoValidShift { mode: PanMode::Auto })
    );
}

#[test]
fn duplicate_gate_refuses_repeated_content() {
    // the canvas repeats its upper part 400 rows below
    let texture = synthetic_canvas(140, 400);
    let mut canvas = RgbImage::from_pixel(140, 800, [0, 0, 0]);
    for y in 0..800 {
        for x in 0..140 {
            canvas.put_pixel(x, y, texture.get_pixel(x, y % 400));
        }
    }
    let images = vec![crop(&canvas, 0, 0, 140, 500), crop(&canvas, 0, 300, 140, 500)];
    let opts = StitchOptions {
        mode: PanMode::Vertical,
        min_shift_y: 280,
        max_shift_y: Some(320),
        max_drift_x: 4,
        align_scale: 2,
        ..Default::default()
    };
    let (_, report) = stitched(&images, &opts).ok().unwrap();
    assert_eq!(report.canvas_height, 800);
    assert!(report.duplicate_report.is_none());
    let gated = StitchOptions { check_duplicates: true, ..opts };
    assert_eq!(stitched_with_map(&images, &gated).err(), Some(StitchError::DuplicateContent));
}

#[test]
fn local_warp_finds_and_applies_a_correction() {
    // the second frame shows the texture two rows too high
    let texture = synthetic_canvas(64, 300);
    let a = crop(&texture, 0, 0, 64, 240);
    let b = crop(&texture, 0, 22, 64, 240);
    let images = vec![a, b];
    let positions = vec![Position { x: 0, y: 0 }, Position { x: 0, y: 20 }];
    let mut map = SourceMap::new(64, 260);
    for y in 0..260 {
        for x in 0..64 {
            map.set(x, y, if y < 20 { 0 } else { 1 });
        }
    }
    let (out, report) = render_local_warped_from_source_map(
        &images,
        None,
        &positions,
        &map,
        64,
        3,
        false,
        &correction_score,
    )
    .ok()
    .unwrap();
    assert_eq!(report.deltas_by_source[1], vec![-2]);
    // the first frame has too few samples to be corrected
    assert_eq!(report.deltas_by_source[0], vec![0]);
    // rows 20 and 21 cannot be corrected, because the frame does not reach that far up
    assert_eq!(report.shifted_pixels, 64 * 238);
    assert_eq!(out.get_pixel(5, 30), texture.get_pixel(5, 30));
    assert_eq!(out.get_pixel(5, 20), texture.get_pixel(5, 22));
    let coords = SourceCoordinateMap::from_source_map_with_local_warp(
        &map,
        &positions,
        Some(&report),
        None,
    );
    let verification = verify_source_coordinate_map(&out, &images, &coords);
    assert_eq!(verification.mismatched_pixels, 0);
    assert_eq!(verification.unassigned_pixels, 128);

    // protected foreground stays in place
    let mut mask = ForegroundMask::new(64, 240);
    mask.set(5, 10, true);
    let masks = vec![ForegroundMask::new(64, 240), mask];
    let (kept, _) = render_local_warped_from_source_map(
        &images,
        Some(&masks),
        &positions,
        &map,
        64,
        3,
        true,
        &correction_score,
    )
    .ok()
    .unwrap();
    assert_eq!(kept.get_pixel(5, 30), images[1].get_pixel(5, 10));

    let none = render_local_warped_from_source_map(
        &[],
        None,
        &[],
        &map,
        0,
        3,
        false,
        &correction_score,
    );
    assert_eq!(none.err(), Some(StitchError::NoFrames));
}
