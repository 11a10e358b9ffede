//! Estimating a local warp and rendering a canvas with it.

use vstd::prelude::*;

use crate::buffers::RgbImage;
use crate::canvas::{black, canvas_size_ok};
use crate::coord_map::{mismatched_at, SourceCoordinateMap};
use crate::error::StitchError;
use crate::foreground::{mask_seq, masks_wf, ForegroundMask};
use crate::geometry::Position;
use crate::grid::{
    cell, count_where, gathered, gathered_values_come_from_cells,
    gathered_values_keep_the_order_of_the_cells, lemma_cell_bound, lemma_cell_of_index,
    lemma_count_bound, lemma_count_same, lemma_count_zero, lemma_gather_cell, lemma_index_of_cell,
    scanned,
};
use crate::paste::shows;
use crate::pixel::{channel_distance, rgb_abs_diff};
use crate::single::Single;
use crate::source_map::SourceMap;
use crate::warp::{delta_of_column, is_protected, local_delta, protected, LocalWarpReport};

verus! {

/// The color that the frames other than `source` show at the canvas pixel `(x, y)`: that of the
/// first one, from `k` on, whose foreground does not cover the pixel.
pub open spec fn reference(
    images: Seq<RgbImage>,
    masks: Option<Seq<ForegroundMask>>,
    positions: Seq<Position>,
    source: int,
    x: int,
    y: int,
    k: int,
) -> Option<[u8; 3]>
    decreases images.len() - k,
{
    if k < 0 || k >= images.len() {
        None
    } else if k != source && !protected(masks, positions, k, x, y) && shows(
        images[k],
        positions[k],
        x,
        y,
    ) {
        Some(images[k].px(x - positions[k].x, y - positions[k].y))
    } else {
        reference(images, masks, positions, source, x, y, k + 1)
    }
}

/// How far the frame `source`, corrected by `delta`, differs from the other frames at the canvas
/// pixel `(x, y)`. Nothing is known where the pixel is not taken from the frame, where the
/// foreground of the frame covers it, where the correction leaves the frame, or where no other
/// frame can be compared.
pub open spec fn warp_sample(
    images: Seq<RgbImage>,
    masks: Option<Seq<ForegroundMask>>,
    positions: Seq<Position>,
    source: int,
    map: SourceMap,
    x: int,
    y: int,
    delta: int,
) -> Option<u32> {
    let p = positions[source];
    if map.at(x, y) != source || protected(masks, positions, source, x, y) || !images[source].has(
        x - p.x,
        y - p.y + delta,
    ) {
        None
    } else {
        match reference(images, masks, positions, source, x, y, 0) {
            Some(color) => Some(
                channel_distance(images[source].px(x - p.x, y - p.y + delta), color) as u32,
            ),
            None => None,
        }
    }
}

/// How many steps of length `step` fit in `length`, the last of them perhaps in part.
pub open spec fn steps_in(length: int, step: int) -> int {
    if length <= 0 {
        0
    } else {
        (length + step - 1) / step
    }
}

/// The differences at every twenty-fourth column of `x0..x1` and every twelfth row of the canvas.
pub open spec fn warp_samples(
    images: Seq<RgbImage>,
    masks: Option<Seq<ForegroundMask>>,
    positions: Seq<Position>,
    source: int,
    map: SourceMap,
    x0: int,
    x1: int,
    delta: int,
) -> Seq<u32> {
    gathered(
        steps_in(x1 - x0, 24),
        steps_in(map.height as int, 12) * steps_in(x1 - x0, 24),
        |a: int, b: int|
            warp_sample(images, masks, positions, source, map, x0 + 24 * a, 12 * b, delta),
    )
}

/// Whether a function takes any differences and any correction.
pub open spec fn takes_corrections<S: Fn(&Vec<u32>, i32) -> Single>(score: S) -> bool {
    forall|v: &Vec<u32>, delta: i32| v@.len() > 0 ==> #[trigger] call_requires(score, (v, delta))
}

/// Whether the function gives `v` for the differences and the correction.
pub open spec fn gives_score<S: Fn(&Vec<u32>, i32) -> Single>(
    score: S,
    samples: Seq<u32>,
    delta: i32,
    v: Single,
) -> bool {
    exists|list: &Vec<u32>| list@ == samples && #[trigger] call_ensures(score, (list, delta), v)
}

/// Whether `s` is the score of a correction: what the function gives for its differences, or none
/// where there are fewer than twenty.
pub open spec fn is_score<S: Fn(&Vec<u32>, i32) -> Single>(
    score: S,
    samples: Seq<u32>,
    delta: i32,
    s: Option<Single>,
) -> bool {
    if samples.len() < 20 {
        s is None
    } else {
        s matches Some(v) && gives_score(score, samples, delta, v)
    }
}

/// The least of the first `n` scores and its correction, where the corrections start at `low`. The
/// earliest wins; without a score that is below infinity the correction is zero.
pub open spec fn least_correction(scores: Seq<Option<Single>>, low: int, n: int) -> (Single, int)
    decreases n,
{
    if n <= 0 {
        (Single { bits: 0x7f80_0000 }, 0)
    } else {
        let best = least_correction(scores, low, n - 1);
        if scores[n - 1] matches Some(s) && s.lt(best.0) {
            (scores[n - 1]->0, low + n - 1)
        } else {
            best
        }
    }
}

/// How many corrections lie between `-max_dy` and `max_dy`.
pub open spec fn corrections(max_dy: int) -> int {
    if max_dy < 0 {
        0
    } else {
        2 * max_dy + 1
    }
}

/// Whether `delta` is the correction with the least score for a frame and the columns `x0..x1`.
pub open spec fn is_correction<S: Fn(&Vec<u32>, i32) -> Single>(
    score: S,
    images: Seq<RgbImage>,
    masks: Option<Seq<ForegroundMask>>,
    positions: Seq<Position>,
    source: int,
    map: SourceMap,
    x0: int,
    x1: int,
    max_dy: int,
    delta: int,
) -> bool {
    exists|scores: Seq<Option<Single>>|
        {
            &&& scores.len() == corrections(max_dy)
            &&& forall|k: int|
                0 <= k < scores.len() ==> is_score(
                    score,
                    warp_samples(images, masks, positions, source, map, x0, x1, k - max_dy),
                    (k - max_dy) as i32,
                    #[trigger] scores[k],
                )
            &&& delta == (#[trigger] least_correction(
                scores,
                -max_dy,
                scores.len() as int,
            )).1
        }
}

/// The color that the frames other than `source` show at a canvas pixel.
fn reference_color(
    images: &[RgbImage],
    masks: Option<&[ForegroundMask]>,
    positions: &[Position],
    source: usize,
    x: u32,
    y: u32,
) -> (color: Option<[u8; 3]>)
    requires
        images@.len() <= positions@.len(),
        masks_wf(mask_seq(masks), images@.len() as int),
    ensures
        color == reference(
            images@,
            mask_seq(masks),
            positions@,
            source as int,
            x as int,
            y as int,
            0,
        ),
{
    for k in 0..images.len()
        invariant
            images@.len() <= positions@.len(),
            masks_wf(mask_seq(masks), images@.len() as int),
            reference(
                images@,
                mask_seq(masks),
                positions@,
                source as int,
                x as int,
                y as int,
                0,
            ) == reference(
                images@,
                mask_seq(masks),
                positions@,
                source as int,
                x as int,
                y as int,
                k as int,
            ),
    {
        if k != source && !is_protected(masks, positions, k, x, y) {
            let (w, h) = images[k].dimensions();
            let ox: i64 = x as i64 - positions[k].x as i64;
            let oy: i64 = y as i64 - positions[k].y as i64;
            if ox >= 0 && oy >= 0 && ox < w as i64 && oy < h as i64 {
                return Some(images[k].get_pixel(ox as u32, oy as u32));
            }
        }
    }
    None
}

/// How far a corrected frame differs from the others at a canvas pixel.
fn sample_of(
    images: &[RgbImage],
    masks: Option<&[ForegroundMask]>,
    positions: &[Position],
    source: usize,
    map: &SourceMap,
    x: u32,
    y: u32,
    delta: i32,
) -> (r: Option<u32>)
    requires
        source < images@.len() <= positions@.len(),
        masks_wf(mask_seq(masks), images@.len() as int),
        map.wf(),
        map.has(x as int, y as int),
    ensures
        r == warp_sample(
            images@,
            mask_seq(masks),
            positions@,
            source as int,
            *map,
            x as int,
            y as int,
            delta as int,
        ),
{
    proof {
        lemma_cell_bound(map.width as int, map.height as int, x as int, y as int);
    }
    if map.get(x, y) as usize != source || is_protected(masks, positions, source, x, y) {
        return None;
    }
    let (w, h) = images[source].dimensions();
    let sx: i64 = x as i64 - positions[source].x as i64;
    let sy: i64 = y as i64 - positions[source].y as i64 + delta as i64;
    if sx < 0 || sy < 0 || sx >= w as i64 || sy >= h as i64 {
        return None;
    }
    match reference_color(images, masks, positions, source, x, y) {
        Some(color) => Some(rgb_abs_diff(images[source].get_pixel(sx as u32, sy as u32), color)),
        None => None,
    }
}

fn count_steps(length: u32, step: u32) -> (n: u32)
    requires
        0 < step,
    ensures
        n == steps_in(length as int, step as int),
        n <= length,
        forall|a: int| 0 <= a < n ==> #[trigger] (step * a) < length,
{
    if length == 0 {
        return 0;
    }
    let n: u32 = ((length as u64 + step as u64 - 1) / step as u64) as u32;
    proof {
        let l = length as int;
        let s = step as int;
        let q = (l + s - 1) / s;
        assert(q <= l && s * q <= l + s - 1) by (nonlinear_arith)
            requires
                q == (l + s - 1) / s,
                l > 0,
                s > 0,
        ;
        assert(n == q);
        assert forall|a: int| 0 <= a < n implies #[trigger] (step * a) < length by {
            assert(s * a + s <= s * q) by (nonlinear_arith)
                requires
                    a + 1 <= q,
                    s > 0,
            ;
        }
    }
    n
}

/// The differences that a correction is judged by.
#[verifier::loop_isolation(false)]
fn samples_of(
    images: &[RgbImage],
    masks: Option<&[ForegroundMask]>,
    positions: &[Position],
    source: usize,
    map: &SourceMap,
    x0: u32,
    x1: u32,
    delta: i32,
) -> (samples: Vec<u32>)
    requires
        source < images@.len() <= positions@.len(),
        masks_wf(mask_seq(masks), images@.len() as int),
        map.wf(),
        x0 <= x1 <= map.width,
    ensures
        samples@ == warp_samples(
            images@,
            mask_seq(masks),
            positions@,
            source as int,
            *map,
            x0 as int,
            x1 as int,
            delta as int,
        ),
{
    let columns: u32 = count_steps(x1 - x0, 24);
    let rows: u32 = count_steps(map.height, 12);
    let ghost f = |a: int, b: int|
        warp_sample(
            images@,
            mask_seq(masks),
            positions@,
            source as int,
            *map,
            x0 + 24 * a,
            12 * b,
            delta as int,
        );
    let mut samples: Vec<u32> = Vec::new();
    proof {
        assert(0 * columns == 0) by (nonlinear_arith);
    }
    for b in 0..rows
        invariant
            samples@ == gathered(columns as int, b * columns, f),
    {
        for a in 0..columns
            invariant
                samples@ == gathered(columns as int, cell(columns as int, a as int, b as int), f),
        {
            proof {
                lemma_gather_cell(columns as int, a as int, b as int, f);
                assert(24u32 * (a as int) < x1 - x0);
                assert(12u32 * (b as int) < map.height);
            }
            if let Some(d) = sample_of(
                images,
                masks,
                positions,
                source,
                map,
                x0 + 24 * a,
                12 * b,
                delta,
            ) {
                samples.push(d);
            }
        }
        proof {
            if columns > 0 {
                lemma_gather_cell(columns as int, 0, b as int, f);
            } else {
                assert(b * columns == 0 && (b + 1) * columns == 0) by (nonlinear_arith)
                    requires
                        columns == 0,
                ;
            }
        }
    }
    samples
}

/// The correction of a frame for the columns `x0..x1`: the one with the least score among those
/// that at least twenty differences speak for, and zero where there is none.
pub fn estimate_local_warp_delta<S: Fn(&Vec<u32>, i32) -> Single>(
    images: &[RgbImage],
    foreground_masks: Option<&[ForegroundMask]>,
    positions: &[Position],
    source_idx: usize,
    source_map: &SourceMap,
    x0: u32,
    x1: u32,
    max_dy: i32,
    score: &S,
) -> (delta: i32)
    requires
        source_idx < images@.len() <= positions@.len(),
        masks_wf(mask_seq(foreground_masks), images@.len() as int),
        source_map.wf(),
        x0 <= x1 <= source_map.width,
        takes_corrections(*score),
    ensures
        is_correction(
            *score,
            images@,
            mask_seq(foreground_masks),
            positions@,
            source_idx as int,
            *source_map,
            x0 as int,
            x1 as int,
            max_dy as int,
            delta as int,
        ),
        max_dy >= 0 ==> -max_dy <= delta <= max_dy,
        max_dy < 0 ==> delta == 0,
{
    let ghost masks = mask_seq(foreground_masks);
    let ghost mut scores: Seq<Option<Single>> = Seq::empty();
    let mut best = Single::infinity();
    let mut best_delta: i32 = 0;
    let mut d: i64 = -(max_dy as i64);
    while d <= max_dy as i64
        invariant
            source_idx < images@.len() <= positions@.len(),
            masks == mask_seq(foreground_masks),
            masks_wf(mask_seq(foreground_masks), images@.len() as int),
            source_map.wf(),
            x0 <= x1 <= source_map.width,
            takes_corrections(*score),
            -max_dy <= d,
            max_dy >= 0 ==> d <= max_dy + 1,
            max_dy < 0 ==> d == -max_dy,
            max_dy >= 0 ==> scores.len() == d + max_dy && -max_dy <= best_delta <= max_dy,
            max_dy < 0 ==> scores.len() == 0 && best_delta == 0,
            forall|k: int|
                0 <= k < scores.len() ==> is_score(
                    *score,
                    warp_samples(
                        images@,
                        masks,
                        positions@,
                        source_idx as int,
                        *source_map,
                        x0 as int,
                        x1 as int,
                        k - max_dy,
                    ),
                    (k - max_dy) as i32,
                    #[trigger] scores[k],
                ),
            (best, best_delta as int) == least_correction(scores, -max_dy, scores.len() as int),
        decreases max_dy + 1 - d,
    {
        let delta: i32 = d as i32;
        let samples = samples_of(
            images,
            foreground_masks,
            positions,
            source_idx,
            source_map,
            x0,
            x1,
            delta,
        );
        let ghost was = scores;
        if samples.len() >= 20 {
            let s = score(&samples, delta);
            proof {
                assert(was.len() - max_dy == d);
                assert(gives_score(*score, samples@, delta, s));
                assert(is_score(*score, samples@, delta, Some(s)));
                scores = scores.push(Some(s));
                lemma_least_prefix(was, scores, -max_dy, was.len() as int);
            }
            if s.is_below(best) {
                best = s;
                best_delta = delta;
            }
        } else {
            proof {
                assert(was.len() - max_dy == d);
                scores = scores.push(None);
                lemma_least_prefix(was, scores, -max_dy, was.len() as int);
            }
        }
        d = d + 1;
    }
    best_delta
}

proof fn lemma_least_prefix(a: Seq<Option<Single>>, b: Seq<Option<Single>>, low: int, n: int)
    requires
        n <= a.len(),
        n <= b.len(),
        forall|k: int| 0 <= k < n ==> a[k] == #[trigger] b[k],
    ensures
        least_correction(a, low, n) == least_correction(b, low, n),
    decreases n,
{
    if n > 0 {
        lemma_least_prefix(a, b, low, n - 1);
    }
}

/// The middle one of three numbers.
pub open spec fn middle(a: i32, b: i32, c: i32) -> i32 {
    if a <= b {
        if b <= c {
            b
        } else if a <= c {
            c
        } else {
            a
        }
    } else if a <= c {
        a
    } else if b <= c {
        c
    } else {
        b
    }
}

/// The larger one of two numbers.
pub open spec fn larger(a: i32, b: i32) -> i32 {
    if a < b {
        b
    } else {
        a
    }
}

/// A correction after smoothing: the middle one of its own and its two neighbors, or the larger one
/// where it has a single neighbor.
pub open spec fn smoothed(raw: Seq<i32>, i: int) -> i32 {
    if raw.len() == 1 {
        raw[i]
    } else if i == 0 {
        larger(raw[0], raw[1])
    } else if i == raw.len() - 1 {
        larger(raw[i - 1], raw[i])
    } else {
        middle(raw[i - 1], raw[i], raw[i + 1])
    }
}

fn smooth(raw: &Vec<i32>) -> (out: Vec<i32>)
    ensures
        out@ == Seq::new(raw@.len(), |i: int| smoothed(raw@, i)),
{
    let n: usize = raw.len();
    let mut out: Vec<i32> = Vec::new();
    for i in 0..n
        invariant
            n == raw@.len(),
            out@ == Seq::new(i as nat, |k: int| smoothed(raw@, k)),
    {
        let v: i32 = if n == 1 {
            raw[i]
        } else if i == 0 {
            if raw[0] < raw[1] {
                raw[1]
            } else {
                raw[0]
            }
        } else if i == n - 1 {
            if raw[i - 1] < raw[i] {
                raw[i]
            } else {
                raw[i - 1]
            }
        } else {
            let a: i32 = raw[i - 1];
            let b: i32 = raw[i];
            let c: i32 = raw[i + 1];
            if a <= b {
                if b <= c {
                    b
                } else if a <= c {
                    c
                } else {
                    a
                }
            } else if a <= c {
                a
            } else if b <= c {
                c
            } else {
                b
            }
        };
        out.push(v);
        assert(out@ =~= Seq::new((i + 1) as nat, |k: int| smoothed(raw@, k)));
    }
    out
}

/// Where the strip `s` starts, or where the canvas ends.
pub open spec fn strip_edge(width: int, strip_width: int, s: int) -> int {
    if s * strip_width < width {
        s * strip_width
    } else {
        width
    }
}

/// Whether there is a correction for each strip of the canvas, with the least score each.
pub open spec fn are_raw_corrections<S: Fn(&Vec<u32>, i32) -> Single>(
    score: S,
    images: Seq<RgbImage>,
    masks: Option<Seq<ForegroundMask>>,
    positions: Seq<Position>,
    source: int,
    map: SourceMap,
    strip_width: int,
    max_dy: int,
    raw: Seq<i32>,
) -> bool {
    &&& raw.len() == steps_in(map.width as int, strip_width)
    &&& forall|s: int|
        0 <= s < raw.len() ==> is_correction(
            score,
            images,
            masks,
            positions,
            source,
            map,
            strip_edge(map.width as int, strip_width, s),
            strip_edge(map.width as int, strip_width, s + 1),
            max_dy,
            #[trigger] raw[s] as int,
        )
}

/// Whether the corrections of a frame, one for each strip of the canvas, are the smoothed ones.
pub open spec fn are_corrections<S: Fn(&Vec<u32>, i32) -> Single>(
    score: S,
    images: Seq<RgbImage>,
    masks: Option<Seq<ForegroundMask>>,
    positions: Seq<Position>,
    source: int,
    map: SourceMap,
    strip_width: int,
    max_dy: int,
    deltas: Seq<i32>,
) -> bool {
    exists|raw: Seq<i32>|
        {
            &&& #[trigger] are_raw_corrections(
                score,
                images,
                masks,
                positions,
                source,
                map,
                strip_width,
                max_dy,
                raw,
            )
            &&& deltas == Seq::new(raw.len(), |s: int| smoothed(raw, s))
        }
}

fn edge_of_strip(width: u32, strip_width: u32, s: u32) -> (x: u32)
    ensures
        x == strip_edge(width as int, strip_width as int, s as int),
{
    proof {
        assert(0 <= s * strip_width <= 0xffff_ffff * 0xffff_ffff) by (nonlinear_arith)
            requires
                0 <= s <= 0xffff_ffff,
                0 <= strip_width <= 0xffff_ffff,
        ;
    }
    let x: u64 = s as u64 * strip_width as u64;
    if x < width as u64 {
        x as u32
    } else {
        width
    }
}

/// The corrections of a frame, one for each strip of the canvas.
fn frame_corrections<S: Fn(&Vec<u32>, i32) -> Single>(
    images: &[RgbImage],
    masks: Option<&[ForegroundMask]>,
    positions: &[Position],
    source: usize,
    map: &SourceMap,
    strip_width: u32,
    strip_count: u32,
    max_dy: i32,
    score: &S,
) -> (deltas: Vec<i32>)
    requires
        source < images@.len() <= positions@.len(),
        masks_wf(mask_seq(masks), images@.len() as int),
        map.wf(),
        0 < strip_width,
        strip_count == steps_in(map.width as int, strip_width as int),
        takes_corrections(*score),
    ensures
        are_corrections(
            *score,
            images@,
            mask_seq(masks),
            positions@,
            source as int,
            *map,
            strip_width as int,
            max_dy as int,
            deltas@,
        ),
        deltas@.len() == strip_count,
{
    let mut raw: Vec<i32> = Vec::new();
    for s in 0..strip_count
        invariant
            source < images@.len() <= positions@.len(),
            masks_wf(mask_seq(masks), images@.len() as int),
            map.wf(),
            0 < strip_width,
            strip_count <= u32::MAX,
            takes_corrections(*score),
            raw@.len() == s,
            forall|k: int|
                0 <= k < s ==> is_correction(
                    *score,
                    images@,
                    mask_seq(masks),
                    positions@,
                    source as int,
                    *map,
                    strip_edge(map.width as int, strip_width as int, k),
                    strip_edge(map.width as int, strip_width as int, k + 1),
                    max_dy as int,
                    #[trigger] raw@[k] as int,
                ),
    {
        let x0: u32 = edge_of_strip(map.width, strip_width, s);
        let x1: u32 = edge_of_strip(map.width, strip_width, s + 1);
        proof {
            assert(s * strip_width <= (s + 1) * strip_width) by (nonlinear_arith)
                requires
                    0 <= s,
                    0 < strip_width,
            ;
        }
        raw.push(
            estimate_local_warp_delta(
                images,
                masks,
                positions,
                source,
                map,
                x0,
                x1,
                max_dy,
                score,
            ),
        );
    }
    assert(are_raw_corrections(
        *score,
        images@,
        mask_seq(masks),
        positions@,
        source as int,
        *map,
        strip_width as int,
        max_dy as int,
        raw@,
    ));
    smooth(&raw)
}

/// The row that a warp takes for the canvas pixel `(x, y)`: the corrected one, or the one without
/// a correction where the corrected one leaves the frame. Pixels without a frame have none.
pub open spec fn warped_row(
    images: Seq<RgbImage>,
    masks: Option<Seq<ForegroundMask>>,
    positions: Seq<Position>,
    map: SourceMap,
    warp: LocalWarpReport,
    x: int,
    y: int,
) -> Option<int> {
    let s = map.at(x, y) as int;
    let p = positions[s];
    let row = y - p.y + local_delta(warp, masks, positions, s, x, y);
    if !map.assigned(x, y) || s >= images.len() {
        None
    } else if images[s].has(x - p.x, row) {
        Some(row)
    } else if images[s].has(x - p.x, y - p.y) {
        Some(y - p.y)
    } else {
        None
    }
}

/// The color of the canvas pixel `(x, y)` under a warp.
pub open spec fn warped_color(
    images: Seq<RgbImage>,
    masks: Option<Seq<ForegroundMask>>,
    positions: Seq<Position>,
    map: SourceMap,
    warp: LocalWarpReport,
    x: int,
    y: int,
) -> [u8; 3] {
    match warped_row(images, masks, positions, map, warp, x, y) {
        Some(row) => images[map.at(x, y) as int].px(x - positions[map.at(x, y) as int].x, row),
        None => black(),
    }
}

/// Whether a warp moves the canvas pixel `k`.
pub open spec fn moved_at(
    images: Seq<RgbImage>,
    masks: Option<Seq<ForegroundMask>>,
    positions: Seq<Position>,
    map: SourceMap,
    warp: LocalWarpReport,
    k: int,
) -> bool {
    let x = k % map.width as int;
    let y = k / map.width as int;
    warped_row(images, masks, positions, map, warp, x, y) matches Some(row) && row != y
        - positions[map.at(x, y) as int].y
}

/// The row and the color of one canvas pixel under a warp, and whether it is moved.
fn warp_pixel(
    images: &[RgbImage],
    masks: Option<&[ForegroundMask]>,
    positions: &[Position],
    map: &SourceMap,
    warp: &LocalWarpReport,
    x: u32,
    y: u32,
) -> (r: Option<([u8; 3], bool)>)
    requires
        images@.len() <= positions@.len(),
        images@.len() == warp.deltas_by_source@.len(),
        warp.strip_width > 0,
        masks_wf(mask_seq(masks), images@.len() as int),
        map.wf(),
        map.has(x as int, y as int),
    ensures
        match r {
            Some((color, moved)) => {
                let s = map.at(x as int, y as int) as int;
                &&& warped_row(
                    images@,
                    mask_seq(masks),
                    positions@,
                    *map,
                    *warp,
                    x as int,
                    y as int,
                ) matches Some(row) && moved == (row != y - positions@[s].y)
                &&& color == warped_color(
                    images@,
                    mask_seq(masks),
                    positions@,
                    *map,
                    *warp,
                    x as int,
                    y as int,
                )
            },
            None => warped_row(
                images@,
                mask_seq(masks),
                positions@,
                *map,
                *warp,
                x as int,
                y as int,
            ) is None,
        },
{
    proof {
        lemma_cell_bound(map.width as int, map.height as int, x as int, y as int);
    }
    let source: u8 = map.get(x, y);
    if source == SourceMap::UNASSIGNED || source as usize >= images.len() {
        return None;
    }
    let s: usize = source as usize;
    let mut delta: i32 = delta_of_column(&warp.deltas_by_source[s], warp.strip_width, x);
    if warp.protect_foreground && is_protected(masks, positions, s, x, y) {
        delta = 0;
    }
    let (w, h) = images[s].dimensions();
    let sx: i64 = x as i64 - positions[s].x as i64;
    let flat: i64 = y as i64 - positions[s].y as i64;
    let row: i64 = flat + delta as i64;
    if sx < 0 || sx >= w as i64 {
        return None;
    }
    if row >= 0 && row < h as i64 {
        Some((images[s].get_pixel(sx as u32, row as u32), delta != 0))
    } else if flat >= 0 && flat < h as i64 {
        Some((images[s].get_pixel(sx as u32, flat as u32), false))
    } else {
        None
    }
}

/// Whether a canvas was rendered with a local warp, and the report tells which one.
pub open spec fn is_rendering<S: Fn(&Vec<u32>, i32) -> Single>(
    score: S,
    images: Seq<RgbImage>,
    masks: Option<Seq<ForegroundMask>>,
    positions: Seq<Position>,
    map: SourceMap,
    strip_width: u32,
    max_dy: i32,
    protect_foreground: bool,
    out: RgbImage,
    report: LocalWarpReport,
) -> bool {
    &&& report.strip_width == if strip_width == 0 {
        1
    } else {
        strip_width
    }
    &&& report.max_dy == max_dy
    &&& report.protect_foreground == protect_foreground
    &&& report.deltas_by_source@.len() == images.len()
    &&& forall|s: int|
        0 <= s < images.len() ==> are_corrections(
            score,
            images,
            masks,
            positions,
            s,
            map,
            report.strip_width as int,
            max_dy as int,
            (#[trigger] report.deltas_by_source@[s])@,
        )
    &&& is_warped(images, masks, positions, map, report, out)
    &&& report.shifted_pixels == count_where(
        map.data@.len(),
        |k: int| moved_at(images, masks, positions, map, report, k),
    )
}

/// Renders the canvas of a source map with a local warp. Each frame is corrected strip by strip;
/// the foreground stays in place where `protect_foreground` asks for it. Strips are at least one
/// column wide.
#[verifier::loop_isolation(false)]
pub fn render_local_warped_from_source_map<S: Fn(&Vec<u32>, i32) -> Single>(
    images: &[RgbImage],
    foreground_masks: Option<&[ForegroundMask]>,
    positions: &[Position],
    source_map: &SourceMap,
    strip_width: u32,
    max_dy: i32,
    protect_foreground: bool,
    score: &S,
) -> (r: Result<(RgbImage, LocalWarpReport), StitchError>)
    requires
        images@.len() <= positions@.len(),
        masks_wf(mask_seq(foreground_masks), images@.len() as int),
        source_map.wf(),
        canvas_size_ok(source_map.width as int, source_map.height as int),
        takes_corrections(*score),
    ensures
        r is Err <==> images@.len() == 0,
        r matches Err(e) ==> e == StitchError::NoFrames,
        r matches Ok((out, report)) ==> is_rendering(
            *score,
            images@,
            mask_seq(foreground_masks),
            positions@,
            *source_map,
            strip_width,
            max_dy,
            protect_foreground,
            out,
            report,
        ),
{
    if images.len() == 0 {
        return Err(StitchError::NoFrames);
    }
    let strip_width: u32 = if strip_width == 0 {
        1
    } else {
        strip_width
    };
    let strip_count: u32 = count_steps(source_map.width, strip_width);
    let mut deltas_by_source: Vec<Vec<i32>> = Vec::new();
    for s in 0..images.len()
        invariant
            deltas_by_source@.len() == s,
            forall|k: int|
                0 <= k < s ==> are_corrections(
                    *score,
                    images@,
                    mask_seq(foreground_masks),
                    positions@,
                    k,
                    *source_map,
                    strip_width as int,
                    max_dy as int,
                    (#[trigger] deltas_by_source@[k])@,
                ),
    {
        let deltas = frame_corrections(
            images,
            foreground_masks,
            positions,
            s,
            source_map,
            strip_width,
            strip_count,
            max_dy,
            score,
        );
        deltas_by_source.push(deltas);
    }
    let mut report = LocalWarpReport {
        strip_width,
        max_dy,
        protect_foreground,
        shifted_pixels: 0,
        deltas_by_source,
    };
    let (out, shifted) = render_warp(images, foreground_masks, positions, source_map, &report);
    let ghost draft = report;
    report.shifted_pixels = shifted;
    proof {
        let masks = mask_seq(foreground_masks);
        assert forall|x: int, y: int| source_map.has(x, y) implies #[trigger] out.px(x, y)
            == warped_color(images@, masks, positions@, *source_map, report, x, y) by {
            assert(out.px(x, y) == warped_color(
                images@,
                masks,
                positions@,
                *source_map,
                draft,
                x,
                y,
            ));
        }
        let p = |k: int| moved_at(images@, masks, positions@, *source_map, draft, k);
        let q = |k: int| moved_at(images@, masks, positions@, *source_map, report, k);
        crate::grid::lemma_count_same(source_map.data@.len(), p, q);
    }
    Ok((out, report))
}

/// Whether a canvas shows the frames as a warp moves them.
pub open spec fn is_warped(
    images: Seq<RgbImage>,
    masks: Option<Seq<ForegroundMask>>,
    positions: Seq<Position>,
    map: SourceMap,
    warp: LocalWarpReport,
    out: RgbImage,
) -> bool {
    &&& out.w() == map.width
    &&& out.h() == map.height
    &&& forall|x: int, y: int|
        map.has(x, y) ==> #[trigger] out.px(x, y) == warped_color(
            images,
            masks,
            positions,
            map,
            warp,
            x,
            y,
        )
}

/// The canvas under a warp, and how many pixels the warp moves.
#[verifier::loop_isolation(false)]
fn render_warp(
    images: &[RgbImage],
    masks: Option<&[ForegroundMask]>,
    positions: &[Position],
    map: &SourceMap,
    warp: &LocalWarpReport,
) -> (r: (RgbImage, u32))
    requires
        images@.len() <= positions@.len(),
        images@.len() == warp.deltas_by_source@.len(),
        warp.strip_width > 0,
        masks_wf(mask_seq(masks), images@.len() as int),
        map.wf(),
        canvas_size_ok(map.width as int, map.height as int),
    ensures
        is_warped(images@, mask_seq(masks), positions@, *map, *warp, r.0),
        r.1 == count_where(
            map.data@.len(),
            |k: int| moved_at(images@, mask_seq(masks), positions@, *map, *warp, k),
        ),
{
    let w: u32 = map.width;
    let h: u32 = map.height;
    let fill: [u8; 3] = [0, 0, 0];
    assert(fill =~= black());
    let mut out = RgbImage::from_pixel(w, h, fill);
    let mut shifted: u32 = 0;
    let ghost moved = |k: int| moved_at(images@, mask_seq(masks), positions@, *map, *warp, k);
    let ghost goal = |x: int, y: int|
        warped_color(images@, mask_seq(masks), positions@, *map, *warp, x, y);
    proof {
        assert(0 * w == 0) by (nonlinear_arith);
    }
    for y in 0..h
        invariant
            out.w() == w,
            out.h() == h,
            shifted == count_where((y * w) as nat, moved),
            forall|i: int, j: int|
                map.has(i, j) ==> #[trigger] out.px(i, j) == if scanned(i, j, 0, y as int) {
                    goal(i, j)
                } else {
                    black()
                },
    {
        for x in 0..w
            invariant
                out.w() == w,
                out.h() == h,
                0 <= y * w,
                shifted == count_where((y * w + x) as nat, moved),
                forall|i: int, j: int|
                    map.has(i, j) ==> #[trigger] out.px(i, j) == if scanned(
                        i,
                        j,
                        x as int,
                        y as int,
                    ) {
                        goal(i, j)
                    } else {
                        black()
                    },
        {
            proof {
                lemma_cell_bound(w as int, h as int, x as int, y as int);
                lemma_index_of_cell(w as int, x as int, y as int);
                lemma_count_bound((y * w + x) as nat, moved);
            }
            if let Some((color, shift)) = warp_pixel(images, masks, positions, map, warp, x, y) {
                out.put_pixel(x, y, color);
                if shift {
                    shifted = shifted + 1;
                }
            }
        }
        proof {
            assert(y * w + w == (y + 1) * w) by (nonlinear_arith);
        }
    }
    proof {
        assert(h * w == w * h) by (nonlinear_arith);
    }
    (out, shifted)
}

/// A canvas that was rendered with a warp agrees with the coordinate map that is made with the same
/// warp and the same masks: a verification of the canvas finds no mismatches.
pub proof fn warped_canvas_matches_its_coordinates(
    images: Seq<RgbImage>,
    masks: Option<Seq<ForegroundMask>>,
    positions: Seq<Position>,
    map: SourceMap,
    warp: LocalWarpReport,
    out: RgbImage,
    coords: SourceCoordinateMap,
)
    requires
        images.len() <= positions.len(),
        map.wf(),
        is_warped(images, masks, positions, map, warp, out),
        // `coords` is what `SourceCoordinateMap::from_source_map_with_local_warp` makes of them
        coords.wf(),
        coords.width == map.width,
        coords.height == map.height,
        forall|x: int, y: int|
            coords.has(x, y) ==> #[trigger] coords.stored(x, y) == SourceCoordinateMap::storage(
                SourceCoordinateMap::located(
                    map,
                    positions,
                    x,
                    y,
                    local_delta(warp, masks, positions, map.at(x, y) as int, x, y),
                ),
            ),
    ensures
        count_where(coords.sources@.len(), |k: int| mismatched_at(coords, images, out, k)) == 0,
{
    let n = coords.sources@.len();
    let p = |k: int| mismatched_at(coords, images, out, k);
    assert forall|k: int| 0 <= k < n implies !#[trigger] p(k) by {
        let w = coords.width as int;
        lemma_cell_of_index(w, coords.height as int, k);
        let x = k % w;
        let y = k / w;
        assert(coords.has(x, y) && map.has(x, y));
        assert(coords.stored(x, y) == SourceCoordinateMap::storage(
            SourceCoordinateMap::located(
                map,
                positions,
                x,
                y,
                local_delta(warp, masks, positions, map.at(x, y) as int, x, y),
            ),
        ));
        assert(out.px(x, y) == warped_color(images, masks, positions, map, warp, x, y));
    }
    lemma_count_zero(n, p);
}

proof fn lemma_least_correction_range(scores: Seq<Option<Single>>, low: int, n: int)
    requires
        0 <= n <= scores.len(),
    ensures
        least_correction(scores, low, n).1 == 0 || low <= least_correction(scores, low, n).1 < low
            + n,
    decreases n,
{
    if n > 0 {
        lemma_least_correction_range(scores, low, n - 1);
    }
}

/// The corrections of a rendering stay within the limit, after smoothing too. Without a limit of
/// zero or more there are none.
pub proof fn corrections_stay_within_the_limit<S: Fn(&Vec<u32>, i32) -> Single>(
    score: S,
    images: Seq<RgbImage>,
    masks: Option<Seq<ForegroundMask>>,
    positions: Seq<Position>,
    map: SourceMap,
    strip_width: u32,
    max_dy: i32,
    protect_foreground: bool,
    out: RgbImage,
    report: LocalWarpReport,
    source: int,
    strip: int,
)
    requires
        is_rendering(
            score,
            images,
            masks,
            positions,
            map,
            strip_width,
            max_dy,
            protect_foreground,
            out,
            report,
        ),
        0 <= source < images.len(),
        0 <= strip < report.deltas_by_source@[source]@.len(),
    ensures
        ({
            let delta = report.deltas_by_source@[source]@[strip];
            if max_dy >= 0 {
                -max_dy <= delta <= max_dy
            } else {
                delta == 0
            }
        }),
{
    let deltas = report.deltas_by_source@[source]@;
    let raw = choose|raw: Seq<i32>|
        {
            &&& #[trigger] are_raw_corrections(
                score,
                images,
                masks,
                positions,
                source,
                map,
                report.strip_width as int,
                max_dy as int,
                raw,
            )
            &&& deltas == Seq::new(raw.len(), |s: int| smoothed(raw, s))
        };
    assert forall|s: int| 0 <= s < raw.len() implies if max_dy >= 0 {
        -max_dy <= #[trigger] raw[s] <= max_dy
    } else {
        raw[s] == 0
    } by {
        let x0 = strip_edge(map.width as int, report.strip_width as int, s);
        let x1 = strip_edge(map.width as int, report.strip_width as int, s + 1);
        assert(is_correction(
            score,
            images,
            masks,
            positions,
            source,
            map,
            x0,
            x1,
            max_dy as int,
            raw[s] as int,
        ));
        let scores = choose|scores: Seq<Option<Single>>|
            {
                &&& scores.len() == corrections(max_dy as int)
                &&& forall|k: int|
                    0 <= k < scores.len() ==> is_score(
                        score,
                        warp_samples(images, masks, positions, source, map, x0, x1, k - max_dy),
                        (k - max_dy) as i32,
                        #[trigger] scores[k],
                    )
                &&& raw[s] == (#[trigger] least_correction(
                    scores,
                    -max_dy,
                    scores.len() as int,
                )).1
            };
        lemma_least_correction_range(scores, -max_dy, scores.len() as int);
    }
    assert(deltas[strip] == smoothed(raw, strip));
}

/// Where the foreground is protected, a warp leaves it in place.
pub proof fn protected_foreground_stays_in_place(
    images: Seq<RgbImage>,
    masks: Option<Seq<ForegroundMask>>,
    positions: Seq<Position>,
    map: SourceMap,
    warp: LocalWarpReport,
    x: int,
    y: int,
)
    requires
        map.has(x, y),
        map.assigned(x, y),
        warp.protect_foreground,
        protected(masks, positions, map.at(x, y) as int, x, y),
    ensures
        local_delta(warp, masks, positions, map.at(x, y) as int, x, y) == 0,
        !moved_at(images, masks, positions, map, warp, cell(map.width as int, x, y)),
{
    lemma_index_of_cell(map.width as int, x, y);
}

/// How many of three numbers are at most `m`.
pub open spec fn at_most(a: i32, b: i32, c: i32, m: i32) -> int {
    (if a <= m {
        1int
    } else {
        0
    }) + (if b <= m {
        1int
    } else {
        0
    }) + (if c <= m {
        1int
    } else {
        0
    })
}

/// How many of three numbers are at least `m`.
pub open spec fn at_least(a: i32, b: i32, c: i32, m: i32) -> int {
    (if a >= m {
        1int
    } else {
        0
    }) + (if b >= m {
        1int
    } else {
        0
    }) + (if c >= m {
        1int
    } else {
        0
    })
}

/// The correction of a strip between two others is a median of the three: it is one of them, at
/// least two of them are no larger and at least two are no smaller, so that a single outlier leaves
/// no trace. The first and the last strip take the larger of their own correction and their
/// neighbor's, and a strip without neighbors keeps its own.
pub proof fn smoothed_corrections_are_medians<S: Fn(&Vec<u32>, i32) -> Single>(
    score: S,
    images: Seq<RgbImage>,
    masks: Option<Seq<ForegroundMask>>,
    positions: Seq<Position>,
    source: int,
    map: SourceMap,
    strip_width: int,
    max_dy: int,
    deltas: Seq<i32>,
)
    requires
        are_corrections(
            score,
            images,
            masks,
            positions,
            source,
            map,
            strip_width,
            max_dy,
            deltas,
        ),
    ensures
        exists|raw: Seq<i32>|
            {
                &&& #[trigger] are_raw_corrections(
                    score,
                    images,
                    masks,
                    positions,
                    source,
                    map,
                    strip_width,
                    max_dy,
                    raw,
                )
                &&& deltas.len() == raw.len()
                &&& forall|i: int|
                    0 < i < raw.len() - 1 ==> {
                        let m = #[trigger] deltas[i];
                        &&& m == raw[i - 1] || m == raw[i] || m == raw[i + 1]
                        &&& at_most(raw[i - 1], raw[i], raw[i + 1], m) >= 2
                        &&& at_least(raw[i - 1], raw[i], raw[i + 1], m) >= 2
                    }
                &&& raw.len() == 1 ==> deltas[0] == raw[0]
                &&& raw.len() >= 2 ==> {
                    let n = raw.len() as int;
                    &&& deltas[0] >= raw[0] && deltas[0] >= raw[1]
                    &&& deltas[0] == raw[0] || deltas[0] == raw[1]
                    &&& deltas[n - 1] >= raw[n - 1] && deltas[n - 1] >= raw[n - 2]
                    &&& deltas[n - 1] == raw[n - 1] || deltas[n - 1] == raw[n - 2]
                }
            },
{
}

/// Where the corrections of two of three neighboring strips are the same, the one in the middle
/// gets that correction.
pub proof fn outliers_are_removed(raw: Seq<i32>, i: int)
    requires
        0 < i < raw.len() - 1,
    ensures
        raw[i - 1] == raw[i + 1] ==> smoothed(raw, i) == raw[i - 1],
        raw[i - 1] == raw[i] ==> smoothed(raw, i) == raw[i],
        raw[i] == raw[i + 1] ==> smoothed(raw, i) == raw[i],
{
}

/// Whether a mask is set at the canvas pixel `(x, y)` for a frame at `pos`.
pub open spec fn masked_at(mask: ForegroundMask, pos: Position, x: int, y: int) -> bool {
    &&& 0 <= x - pos.x < mask.width
    &&& 0 <= y - pos.y < mask.height
    &&& mask.data@[(y - pos.y) * mask.width + (x - pos.x)]
}

/// A pixel belongs to the protected foreground of a frame exactly where the frame has a mask that is
/// set there.
pub proof fn protection_follows_the_masks(
    masks: Seq<ForegroundMask>,
    positions: Seq<Position>,
    source: int,
    x: int,
    y: int,
)
    ensures
        protected(Some(masks), positions, source, x, y) <==> source < masks.len() && masked_at(
            masks[source],
            positions[source],
            x,
            y,
        ),
        !protected(None, positions, source, x, y),
{
}

/// Whether the frame `k` shows the canvas pixel `(x, y)` as background that the frame `source` can
/// be held against.
pub open spec fn is_background(
    images: Seq<RgbImage>,
    masks: Option<Seq<ForegroundMask>>,
    positions: Seq<Position>,
    source: int,
    x: int,
    y: int,
    k: int,
) -> bool {
    &&& k != source
    &&& 0 <= x - positions[k].x < images[k].w()
    &&& 0 <= y - positions[k].y < images[k].h()
    &&& masks matches Some(m) ==> !(k < m.len() && masked_at(m[k], positions[k], x, y))
}

proof fn lemma_reference(
    images: Seq<RgbImage>,
    masks: Option<Seq<ForegroundMask>>,
    positions: Seq<Position>,
    source: int,
    x: int,
    y: int,
    from: int,
    k: int,
)
    requires
        0 <= from <= k < images.len(),
        is_background(images, masks, positions, source, x, y, k),
        forall|j: int|
            from <= j < k ==> !#[trigger] is_background(images, masks, positions, source, x, y, j),
    ensures
        reference(images, masks, positions, source, x, y, from) == Some(
            images[k].px(x - positions[k].x, y - positions[k].y),
        ),
    decreases images.len() - from,
{
    if from < k {
        assert(!is_background(images, masks, positions, source, x, y, from));
        lemma_reference(images, masks, positions, source, x, y, from + 1, k);
    }
}

proof fn lemma_no_reference(
    images: Seq<RgbImage>,
    masks: Option<Seq<ForegroundMask>>,
    positions: Seq<Position>,
    source: int,
    x: int,
    y: int,
    from: int,
)
    requires
        0 <= from,
        forall|j: int|
            from <= j < images.len() ==> !#[trigger] is_background(
                images,
                masks,
                positions,
                source,
                x,
                y,
                j,
            ),
    ensures
        reference(images, masks, positions, source, x, y, from) is None,
    decreases images.len() - from,
{
    if from < images.len() {
        assert(!is_background(images, masks, positions, source, x, y, from));
        lemma_no_reference(images, masks, positions, source, x, y, from + 1);
    }
}

/// A correction of a frame is judged at a canvas pixel that was taken from the frame and is not part
/// of its protected foreground: the pixel that the corrected row has is held against that of the
/// first other frame that shows background there. Without such a frame, or outside the frame, there
/// is nothing to judge.
pub proof fn corrections_are_held_against_the_background(
    images: Seq<RgbImage>,
    masks: Option<Seq<ForegroundMask>>,
    positions: Seq<Position>,
    source: int,
    map: SourceMap,
    x: int,
    y: int,
    delta: int,
    k: int,
)
    requires
        0 <= k < images.len(),
        is_background(images, masks, positions, source, x, y, k),
        forall|j: int|
            0 <= j < k ==> !#[trigger] is_background(images, masks, positions, source, x, y, j),
    ensures
        ({
            let p = positions[source];
            let own = map.data@[y * map.width + x] == source;
            let hidden = masks matches Some(m) && source < m.len() && masked_at(
                m[source],
                positions[source],
                x,
                y,
            );
            let sample = warp_sample(images, masks, positions, source, map, x, y, delta);
            if own && !hidden && images[source].has(x - p.x, y - p.y + delta) {
                sample matches Some(d) && d == channel_distance(
                    images[source].px(x - p.x, y - p.y + delta),
                    images[k].px(x - positions[k].x, y - positions[k].y),
                )
            } else {
                sample is None
            }
        }),
{
    lemma_reference(images, masks, positions, source, x, y, 0, k);
}

/// Where no other frame shows background there is nothing to judge a correction by.
pub proof fn corrections_need_background(
    images: Seq<RgbImage>,
    masks: Option<Seq<ForegroundMask>>,
    positions: Seq<Position>,
    source: int,
    map: SourceMap,
    x: int,
    y: int,
    delta: int,
)
    requires
        forall|j: int|
            0 <= j < images.len() ==> !#[trigger] is_background(
                images,
                masks,
                positions,
                source,
                x,
                y,
                j,
            ),
    ensures
        warp_sample(images, masks, positions, source, map, x, y, delta) is None,
{
    lemma_no_reference(images, masks, positions, source, x, y, 0);
}

proof fn lemma_steps(length: int, step: int, a: int)
    requires
        0 < step,
        0 <= a,
    ensures
        a < steps_in(length, step) <==> step * a < length,
        0 <= steps_in(length, step),
{
    if length > 0 {
        let n = steps_in(length, step);
        vstd::arithmetic::div_mod::lemma_fundamental_div_mod(length + step - 1, step);
        vstd::arithmetic::div_mod::lemma_mod_bound(length + step - 1, step);
        assert(a < n <==> step * a < length) by (nonlinear_arith)
            requires
                length + step - 1 == step * n + (length + step - 1) % step,
                0 <= (length + step - 1) % step < step,
                0 < step,
        ;
        assert(0 <= n) by (nonlinear_arith)
            requires
                length + step - 1 == step * n + (length + step - 1) % step,
                0 <= (length + step - 1) % step < step,
                0 < step,
                0 < length,
        ;
    } else {
        assert(0 <= step * a) by (nonlinear_arith)
            requires
                0 < step,
                0 <= a,
        ;
    }
}

/// A strip is judged at every 24th of its columns and every 12th row of the canvas, from the first
/// ones on, and nowhere else.
pub proof fn strips_are_sampled_on_a_grid(
    images: Seq<RgbImage>,
    masks: Option<Seq<ForegroundMask>>,
    positions: Seq<Position>,
    source: int,
    map: SourceMap,
    x0: int,
    x1: int,
    delta: int,
    a: int,
    b: int,
    i: int,
)
    ensures
        ({
            let samples = warp_samples(images, masks, positions, source, map, x0, x1, delta);
            &&& 0 <= a && x0 + 24 * a < x1 && 0 <= b && 12 * b < map.height ==> (warp_sample(
                images,
                masks,
                positions,
                source,
                map,
                x0 + 24 * a,
                12 * b,
                delta,
            ) matches Some(d) ==> samples.contains(d))
            &&& 0 <= i < samples.len() ==> exists|x: int, y: int|
                {
                    &&& x0 <= x < x1 && (x - x0) % 24 == 0
                    &&& 0 <= y < map.height && y % 12 == 0
                    &&& #[trigger] warp_sample(
                        images,
                        masks,
                        positions,
                        source,
                        map,
                        x,
                        y,
                        delta,
                    ) == Some(samples[i])
                }
        }),
{
    let samples = warp_samples(images, masks, positions, source, map, x0, x1, delta);
    let w = steps_in(x1 - x0, 24);
    let h = steps_in(map.height as int, 12);
    let f = |a: int, b: int|
        warp_sample(images, masks, positions, source, map, x0 + 24 * a, 12 * b, delta);
    assert(samples == gathered(w, h * w, f));
    assert(h * w == w * h) by (nonlinear_arith);
    lemma_steps(x1 - x0, 24, 0);
    lemma_steps(map.height as int, 12, 0);
    if 0 <= a && x0 + 24 * a < x1 && 0 <= b && 12 * b < map.height {
        lemma_steps(x1 - x0, 24, a);
        lemma_steps(map.height as int, 12, b);
        lemma_cell_bound(w, h, a, b);
        lemma_index_of_cell(w, a, b);
        gathered_values_keep_the_order_of_the_cells(w, h * w, f, cell(w, a, b));
        assert(f(a, b) == warp_sample(
            images,
            masks,
            positions,
            source,
            map,
            x0 + 24 * a,
            12 * b,
            delta,
        ));
    }
    if 0 <= i < samples.len() {
        let k = gathered_values_come_from_cells(w, h * w, f, i);
        lemma_cell_of_index(w, h, k);
        let u = k % w;
        let v = k / w;
        lemma_steps(x1 - x0, 24, u);
        lemma_steps(map.height as int, 12, v);
        assert(warp_sample(
            images,
            masks,
            positions,
            source,
            map,
            x0 + 24 * u,
            12 * v,
            delta,
        ) == f(u, v));
        assert((24 * u) % 24 == 0 && (12 * v) % 12 == 0);
        assert(x0 + 24 * u - x0 == 24 * u);
    }
}

proof fn lemma_least_correction(scores: Seq<Option<Single>>, low: int, n: int, k: int)
    requires
        0 <= k < n <= scores.len(),
    ensures
        ({
            let best = least_correction(scores, low, n);
            let i = best.1 - low;
            &&& scores[k] matches Some(s) ==> !s.lt(best.0)
            &&& best.0 == (Single { bits: 0x7f80_0000 }) && best.1 == 0 || {
                &&& 0 <= i < n
                &&& scores[i] == Some(best.0)
                &&& best.0.lt(Single { bits: 0x7f80_0000 })
                &&& k < i ==> (scores[k] matches Some(s) ==> !s.le(best.0))
            }
        }),
    decreases n,
{
    if k < n - 1 {
        lemma_least_correction(scores, low, n - 1, k);
    } else if n > 1 {
        lemma_least_correction(scores, low, n - 1, n - 2);
    }
}

/// The correction of a strip is one of those within the limit that at least twenty samples judge,
/// with a score that is less than infinity and than which no other is less; of the same scores the
/// first one counts. Where no correction has such a score, none is made.
pub proof fn chosen_corrections_score_least<S: Fn(&Vec<u32>, i32) -> Single>(
    score: S,
    images: Seq<RgbImage>,
    masks: Option<Seq<ForegroundMask>>,
    positions: Seq<Position>,
    source: int,
    map: SourceMap,
    x0: int,
    x1: int,
    max_dy: i32,
    delta: int,
    k: i32,
)
    requires
        is_correction(
            score,
            images,
            masks,
            positions,
            source,
            map,
            x0,
            x1,
            max_dy as int,
            delta,
        ),
        -max_dy <= k <= max_dy,
    ensures
        ({
            let infinity = Single { bits: 0x7f80_0000 };
            let chosen = warp_samples(images, masks, positions, source, map, x0, x1, delta);
            let other = warp_samples(images, masks, positions, source, map, x0, x1, k as int);
            ||| {
                &&& delta == 0
                &&& other.len() >= 20 ==> exists|s: Single|
                    #[trigger] gives_score(score, other, k, s) && !s.lt(infinity)
            }
            ||| {
                &&& -max_dy <= delta <= max_dy
                &&& chosen.len() >= 20
                &&& exists|v: Single|
                    {
                        &&& #[trigger] gives_score(score, chosen, delta as i32, v)
                        &&& v.lt(infinity)
                        &&& other.len() >= 20 ==> exists|s: Single|
                            #[trigger] gives_score(score, other, k, s) && !s.lt(v) && (k < delta
                                ==> !s.le(v))
                    }
            }
        }),
{
    let scores = choose|scores: Seq<Option<Single>>|
        {
            &&& scores.len() == corrections(max_dy as int)
            &&& forall|k: int|
                0 <= k < scores.len() ==> is_score(
                    score,
                    warp_samples(images, masks, positions, source, map, x0, x1, k - max_dy),
                    (k - max_dy) as i32,
                    #[trigger] scores[k],
                )
            &&& delta == (#[trigger] least_correction(
                scores,
                -max_dy,
                scores.len() as int,
            )).1
        };
    let n = scores.len() as int;
    let best = least_correction(scores, -max_dy, n);
    let at = k + max_dy;
    lemma_least_correction(scores, -max_dy, n, at);
    let other = warp_samples(images, masks, positions, source, map, x0, x1, k as int);
    assert(at - max_dy == k);
    assert(is_score(score, other, k, scores[at]));
    if other.len() >= 20 {
        assert(gives_score(score, other, k, scores[at]->0));
    }
    if best.0 != (Single { bits: 0x7f80_0000 }) {
        let i = delta + max_dy;
        assert(scores[i] == Some(best.0));
        assert(i - max_dy == delta);
        let chosen = warp_samples(images, masks, positions, source, map, x0, x1, delta);
        assert(is_score(score, chosen, delta as i32, scores[i]));
        assert(gives_score(score, chosen, delta as i32, best.0));
    }
}

/// The strips tile the canvas: each column lies in the strip that its quotient by the width of the
/// strips numbers, no strip is wider than that, and each has a correction.
pub proof fn strips_tile_the_canvas(width: int, strip_width: int, x: int)
    requires
        0 <= x < width,
        0 < strip_width,
    ensures
        0 <= x / strip_width < steps_in(width, strip_width),
        strip_edge(width, strip_width, x / strip_width) <= x < strip_edge(
            width,
            strip_width,
            x / strip_width + 1,
        ),
        strip_edge(width, strip_width, x / strip_width) == x - x % strip_width,
        strip_edge(width, strip_width, x / strip_width + 1) <= x - x % strip_width + strip_width,
        strip_edge(width, strip_width, 0) == 0,
        strip_edge(width, strip_width, steps_in(width, strip_width)) == width,
{
    let s = x / strip_width;
    vstd::arithmetic::div_mod::lemma_fundamental_div_mod(x, strip_width);
    vstd::arithmetic::div_mod::lemma_mod_bound(x, strip_width);
    vstd::arithmetic::div_mod::lemma_div_pos_is_pos(x, strip_width);
    assert(s * strip_width == strip_width * s) by (nonlinear_arith);
    assert((s + 1) * strip_width == strip_width * s + strip_width) by (nonlinear_arith);
    assert(0 * strip_width == 0) by (nonlinear_arith);
    lemma_steps(width, strip_width, s);
    let n = steps_in(width, strip_width);
    lemma_steps(width, strip_width, n);
    assert(n * strip_width == strip_width * n) by (nonlinear_arith);
}

/// Whether a rendering takes the canvas pixel of the index `k` from another row of its frame than the
/// one that lies there.
pub open spec fn off_its_row(
    images: Seq<RgbImage>,
    masks: Option<Seq<ForegroundMask>>,
    positions: Seq<Position>,
    map: SourceMap,
    report: LocalWarpReport,
    k: int,
) -> bool {
    let s = map.data@[k] as int;
    let x = k % map.width as int;
    let y = k / map.width as int;
    let delta = report.deltas_by_source@[s]@[x / report.strip_width as int];
    let kept = report.protect_foreground && (masks matches Some(m) && s < m.len() && masked_at(
        m[s],
        positions[s],
        x,
        y,
    ));
    &&& s != 255
    &&& s < images.len()
    &&& delta != 0
    &&& !kept
    &&& images[s].has(x - positions[s].x, y - positions[s].y + delta)
}

/// A rendering takes each pixel from the row of its frame that the correction of its strip leads to;
/// where the frame has no such row, or its foreground is protected there, from the row that lies
/// there. It counts the pixels that come from another row.
pub proof fn rendered_pixels_come_from_corrected_rows<S: Fn(&Vec<u32>, i32) -> Single>(
    score: S,
    images: Seq<RgbImage>,
    masks: Option<Seq<ForegroundMask>>,
    positions: Seq<Position>,
    map: SourceMap,
    strip_width: u32,
    max_dy: i32,
    protect_foreground: bool,
    out: RgbImage,
    report: LocalWarpReport,
    x: int,
    y: int,
)
    requires
        map.wf(),
        is_rendering(
            score,
            images,
            masks,
            positions,
            map,
            strip_width,
            max_dy,
            protect_foreground,
            out,
            report,
        ),
        0 <= x < map.width,
        0 <= y < map.height,
    ensures
        ({
            let s = map.data@[y * map.width + x] as int;
            let sx = x - positions[s].x;
            let sy = y - positions[s].y;
            let delta = report.deltas_by_source@[s]@[x / report.strip_width as int];
            let color = out.px(x, y);
            &&& report.strip_width > 0 && (strip_width > 0 ==> report.strip_width == strip_width)
            &&& s != 255 && s < images.len() && images[s].has(sx, sy) ==> color
                == images[s].px(
                sx,
                if off_its_row(images, masks, positions, map, report, y * map.width + x) {
                    sy + delta
                } else {
                    sy
                },
            )
            &&& s == 255 || s >= images.len() ==> color[0] == 0 && color[1] == 0 && color[2] == 0
        }),
        report.shifted_pixels == count_where(
            map.data@.len(),
            |k: int| off_its_row(images, masks, positions, map, report, k),
        ),
{
    let w = map.width as int;
    let h = map.height as int;
    let sw = report.strip_width as int;
    assert forall|k: int| 0 <= k < map.data@.len() implies #[trigger] off_its_row(
        images,
        masks,
        positions,
        map,
        report,
        k,
    ) == moved_at(images, masks, positions, map, report, k) by {
        lemma_corrected_row(
            score,
            images,
            masks,
            positions,
            map,
            strip_width,
            max_dy,
            protect_foreground,
            out,
            report,
            k,
        );
    }
    lemma_count_same(
        map.data@.len(),
        |k: int| off_its_row(images, masks, positions, map, report, k),
        |k: int| moved_at(images, masks, positions, map, report, k),
    );
    lemma_cell_bound(w, h, x, y);
    lemma_index_of_cell(w, x, y);
    lemma_corrected_row(
        score,
        images,
        masks,
        positions,
        map,
        strip_width,
        max_dy,
        protect_foreground,
        out,
        report,
        cell(w, x, y),
    );
    assert(out.px(x, y) == warped_color(images, masks, positions, map, report, x, y));
}

proof fn lemma_corrected_row<S: Fn(&Vec<u32>, i32) -> Single>(
    score: S,
    images: Seq<RgbImage>,
    masks: Option<Seq<ForegroundMask>>,
    positions: Seq<Position>,
    map: SourceMap,
    strip_width: u32,
    max_dy: i32,
    protect_foreground: bool,
    out: RgbImage,
    report: LocalWarpReport,
    k: int,
)
    requires
        map.wf(),
        is_rendering(
            score,
            images,
            masks,
            positions,
            map,
            strip_width,
            max_dy,
            protect_foreground,
            out,
            report,
        ),
        0 <= k < map.data@.len(),
    ensures
        ({
            let s = map.data@[k] as int;
            let x = k % map.width as int;
            let y = k / map.width as int;
            let off = off_its_row(images, masks, positions, map, report, k);
            let row = warped_row(images, masks, positions, map, report, x, y);
            &&& off == moved_at(images, masks, positions, map, report, k)
            &&& s == 255 || s >= images.len() ==> row is None
            &&& s != 255 && s < images.len() && images[s].has(
                x - positions[s].x,
                y - positions[s].y,
            ) ==> row == Some(
                if off {
                    y - positions[s].y + report.deltas_by_source@[s]@[x
                        / report.strip_width as int]
                } else {
                    y - positions[s].y
                },
            )
        }),
{
    let w = map.width as int;
    let h = map.height as int;
    lemma_cell_of_index(w, h, k);
    let s = map.data@[k] as int;
    let x = k % w;
    let y = k / w;
    assert(map.at(x, y) == s);
    if s != 255 && s < images.len() {
        let deltas = report.deltas_by_source@[s]@;
        assert(are_corrections(
            score,
            images,
            masks,
            positions,
            s,
            map,
            report.strip_width as int,
            max_dy as int,
            deltas,
        ));
        strips_tile_the_canvas(w, report.strip_width as int, x);
        assert(deltas.len() == steps_in(w, report.strip_width as int));
    }
}

/// Where the score of a correction depends on the samples and the correction alone, it is that of
/// all samples, in their order.
pub proof fn scores_are_those_of_all_samples<S: Fn(&Vec<u32>, i32) -> Single>(
    score: S,
    value: spec_fn(Seq<u32>, i32) -> Single,
    samples: Seq<u32>,
    delta: i32,
    v: Single,
)
    requires
        forall|list: &Vec<u32>, d: i32, s: Single| #[trigger]
            call_ensures(score, (list, d), s) ==> s == value(list@, d),
        gives_score(score, samples, delta, v),
    ensures
        v == value(samples, delta),
{
}

} // verus!
