//! Motion: how far the frames disagree about the pixels around a place of the canvas.
//!
//! The functions here gather the differences, each of them a sum over the three channels. What
//! their mean is, is for a function of the caller to say.

use vstd::prelude::*;

use crate::buffers::RgbImage;
use crate::foreground::{dilate_bool_mask, dilated};
use crate::geometry::{highest, lowest, lowest_and_highest_bound_the_values, Position};
use crate::grid::{
    cell, gathered, gathered_values_come_from_cells, gathered_values_keep_the_order_of_the_cells,
    lemma_cell_bound, lemma_cell_of_index, lemma_gather_cell, lemma_index_of_cell,
};
use crate::paste::shows;
use crate::pixel::{channel_distance, rgb_abs_diff};
use crate::single::Single;
use crate::source_map::SourceMap;

verus! {

/// The colors that the first `n` frames show at the canvas pixel `(x, y)`.
pub open spec fn colors_at(
    images: Seq<RgbImage>,
    positions: Seq<Position>,
    x: int,
    y: int,
    n: int,
) -> Seq<[u8; 3]>
    decreases n,
{
    if n <= 0 {
        Seq::empty()
    } else {
        let before = colors_at(images, positions, x, y, n - 1);
        let p = positions[n - 1];
        if shows(images[n - 1], p, x, y) {
            before.push(images[n - 1].px(x - p.x, y - p.y))
        } else {
            before
        }
    }
}

/// The levels of one channel.
pub open spec fn levels(colors: Seq<[u8; 3]>, c: int) -> Seq<int> {
    Seq::new(colors.len(), |i: int| colors[i][c] as int)
}

/// How far apart the levels of one channel lie.
pub open spec fn spread(colors: Seq<[u8; 3]>, c: int) -> int {
    highest(levels(colors, c)) - lowest(levels(colors, c))
}

/// How far the frames that show a canvas pixel disagree about it, where there are at least two.
pub open spec fn disagreement(
    images: Seq<RgbImage>,
    positions: Seq<Position>,
    x: int,
    y: int,
) -> Option<u32> {
    let colors = colors_at(images, positions, x, y, images.len() as int);
    if colors.len() >= 2 {
        Some((spread(colors, 0) + spread(colors, 1) + spread(colors, 2)) as u32)
    } else {
        None
    }
}

/// The pixels within `radius` of a place, as the cells of a grid of this width. A radius that is no
/// coordinate reaches none.
pub open spec fn side(radius: int) -> int {
    if radius <= i32::MAX {
        2 * radius + 1
    } else {
        0
    }
}

fn side_of(radius: u32) -> (s: i64)
    ensures
        s == side(radius as int),
        s <= 0x1_0000_0000,
{
    if radius <= i32::MAX as u32 {
        2 * radius as i64 + 1
    } else {
        0
    }
}

/// The disagreements of the frames about the pixels within `radius` of `(cx, cy)`.
pub open spec fn disagreements(
    images: Seq<RgbImage>,
    positions: Seq<Position>,
    cx: int,
    cy: int,
    radius: int,
) -> Seq<u32> {
    gathered(
        side(radius),
        side(radius) * side(radius),
        |a: int, b: int| disagreement(images, positions, cx - radius + a, cy - radius + b),
    )
}

/// The difference of two frames at a canvas pixel that both of them show.
pub open spec fn pair_difference(
    images: Seq<RgbImage>,
    positions: Seq<Position>,
    i: int,
    j: int,
    x: int,
    y: int,
) -> Option<u32> {
    let p = positions[i];
    let q = positions[j];
    if shows(images[i], p, x, y) && shows(images[j], q, x, y) {
        Some(
            channel_distance(
                images[i].px(x - p.x, y - p.y),
                images[j].px(x - q.x, y - q.y),
            ) as u32,
        )
    } else {
        None
    }
}

/// The differences of the recorded frame and the incoming one at the pixels within `radius` of
/// `(cx, cy)`. There are none where no frame is recorded, or where either number names no frame.
pub open spec fn pair_differences(
    images: Seq<RgbImage>,
    positions: Seq<Position>,
    existing: u8,
    incoming: int,
    cx: int,
    cy: int,
    radius: int,
) -> Seq<u32> {
    if existing == SourceMap::UNASSIGNED || existing >= images.len() || incoming >= images.len() {
        Seq::empty()
    } else {
        gathered(
            side(radius),
            side(radius) * side(radius),
            |a: int, b: int|
                pair_difference(
                    images,
                    positions,
                    existing as int,
                    incoming,
                    cx - radius + a,
                    cy - radius + b,
                ),
        )
    }
}

proof fn lemma_levels_push(colors: Seq<[u8; 3]>, p: [u8; 3], c: int)
    requires
        0 <= c < 3,
    ensures
        lowest(levels(colors.push(p), c)) == if colors.len() == 0 || p[c] < lowest(
            levels(colors, c),
        ) {
            p[c] as int
        } else {
            lowest(levels(colors, c))
        },
        highest(levels(colors.push(p), c)) == if colors.len() == 0 || p[c] > highest(
            levels(colors, c),
        ) {
            p[c] as int
        } else {
            highest(levels(colors, c))
        },
{
    assert(levels(colors.push(p), c).drop_last() =~= levels(colors, c));
}

fn lower(a: u8, b: u8) -> (r: u8)
    ensures
        r == if b < a {
            b
        } else {
            a
        },
{
    if b < a {
        b
    } else {
        a
    }
}

fn higher(a: u8, b: u8) -> (r: u8)
    ensures
        r == if b > a {
            b
        } else {
            a
        },
{
    if b > a {
        b
    } else {
        a
    }
}

spec fn tracks(low: u8, high: u8, colors: Seq<[u8; 3]>, c: int) -> bool {
    if colors.len() == 0 {
        low == 255 && high == 0
    } else {
        low == lowest(levels(colors, c)) && high == highest(levels(colors, c)) && low <= high
    }
}

proof fn lemma_tracks_push(
    low: u8,
    high: u8,
    colors: Seq<[u8; 3]>,
    p: [u8; 3],
    c: int,
    next_low: u8,
    next_high: u8,
)
    requires
        tracks(low, high, colors, c),
        0 <= c < 3,
        next_low == if p[c] < low {
            p[c]
        } else {
            low
        },
        next_high == if p[c] > high {
            p[c]
        } else {
            high
        },
    ensures
        tracks(next_low, next_high, colors.push(p), c),
{
    lemma_levels_push(colors, p, c);
}

/// How far the frames that show a canvas pixel disagree about it, where there are at least two.
#[verifier::loop_isolation(false)]
fn pixel_disagreement(images: &[RgbImage], positions: &[Position], x: i64, y: i64) -> (r: Option<
    u32,
>)
    requires
        images@.len() <= positions@.len(),
        -0x2_0000_0000 <= x <= 0x2_0000_0000,
        -0x2_0000_0000 <= y <= 0x2_0000_0000,
    ensures
        r == disagreement(images@, positions@, x as int, y as int),
{
    let mut low: [u8; 3] = [255, 255, 255];
    let mut high: [u8; 3] = [0, 0, 0];
    let mut covered: usize = 0;
    for i in 0..images.len()
        invariant
            covered <= i,
            covered == colors_at(images@, positions@, x as int, y as int, i as int).len(),
            tracks(
                low[0],
                high[0],
                colors_at(images@, positions@, x as int, y as int, i as int),
                0,
            ),
            tracks(
                low[1],
                high[1],
                colors_at(images@, positions@, x as int, y as int, i as int),
                1,
            ),
            tracks(
                low[2],
                high[2],
                colors_at(images@, positions@, x as int, y as int, i as int),
                2,
            ),
    {
        let (w, h) = images[i].dimensions();
        let sx: i64 = x - positions[i].x as i64;
        let sy: i64 = y - positions[i].y as i64;
        if sx >= 0 && sy >= 0 && sx < w as i64 && sy < h as i64 {
            let p = images[i].get_pixel(sx as u32, sy as u32);
            let ghost colors = colors_at(images@, positions@, x as int, y as int, i as int);
            let ghost was_low = low;
            let ghost was_high = high;
            low = [lower(low[0], p[0]), lower(low[1], p[1]), lower(low[2], p[2])];
            high = [higher(high[0], p[0]), higher(high[1], p[1]), higher(high[2], p[2])];
            proof {
                lemma_tracks_push(was_low[0], was_high[0], colors, p, 0, low[0], high[0]);
                lemma_tracks_push(was_low[1], was_high[1], colors, p, 1, low[1], high[1]);
                lemma_tracks_push(was_low[2], was_high[2], colors, p, 2, low[2], high[2]);
            }
            covered = covered + 1;
        }
    }
    if covered >= 2 {
        Some(
            (high[0] - low[0]) as u32 + (high[1] - low[1]) as u32 + (high[2] - low[2]) as u32,
        )
    } else {
        None
    }
}

/// How far the frames disagree about the pixels within `radius` of `(cx, cy)`: for each pixel that
/// at least two frames show, row by row, the sum over the channels of the spread of its levels.
#[verifier::loop_isolation(false)]
pub fn covering_temporal_disagreement(
    images: &[RgbImage],
    positions: &[Position],
    cx: u32,
    cy: u32,
    radius: u32,
) -> (samples: Vec<u32>)
    requires
        images@.len() <= positions@.len(),
    ensures
        samples@ == disagreements(images@, positions@, cx as int, cy as int, radius as int),
{
    let r: i64 = radius as i64;
    let s: i64 = side_of(radius);
    let ghost f = |a: int, b: int|
        disagreement(images@, positions@, cx - radius + a, cy - radius + b);
    let mut samples: Vec<u32> = Vec::new();
    proof {
        assert(0 * s == 0) by (nonlinear_arith);
    }
    for b in 0..s
        invariant
            samples@ == gathered(s as int, b * s, f),
    {
        for a in 0..s
            invariant
                samples@ == gathered(s as int, cell(s as int, a as int, b as int), f),
        {
            proof {
                lemma_gather_cell(s as int, a as int, b as int, f);
            }
            if let Some(d) = pixel_disagreement(
                images,
                positions,
                cx as i64 - r + a,
                cy as i64 - r + b,
            ) {
                samples.push(d);
            }
        }
        proof {
            lemma_gather_cell(s as int, 0, b as int, f);
        }
    }
    samples
}

/// The differences of the recorded frame and the incoming one at the pixels within `radius` of
/// `(cx, cy)` that both of them show, row by row.
#[verifier::loop_isolation(false)]
pub fn aligned_temporal_diff(
    images: &[RgbImage],
    positions: &[Position],
    existing_source: u8,
    incoming_idx: usize,
    cx: u32,
    cy: u32,
    radius: u32,
) -> (samples: Vec<u32>)
    requires
        existing_source != SourceMap::UNASSIGNED && existing_source < images@.len() && incoming_idx
            < images@.len() ==> existing_source < positions@.len() && incoming_idx
            < positions@.len(),
    ensures
        samples@ == pair_differences(
            images@,
            positions@,
            existing_source,
            incoming_idx as int,
            cx as int,
            cy as int,
            radius as int,
        ),
{
    let mut samples: Vec<u32> = Vec::new();
    let existing: usize = existing_source as usize;
    if existing_source == SourceMap::UNASSIGNED || existing >= images.len() || incoming_idx
        >= images.len() {
        return samples;
    }
    let r: i64 = radius as i64;
    let s: i64 = side_of(radius);
    let (ew, eh) = images[existing].dimensions();
    let (iw, ih) = images[incoming_idx].dimensions();
    let ghost f = |a: int, b: int|
        pair_difference(
            images@,
            positions@,
            existing_source as int,
            incoming_idx as int,
            cx - radius + a,
            cy - radius + b,
        );
    proof {
        assert(0 * s == 0) by (nonlinear_arith);
    }
    for b in 0..s
        invariant
            samples@ == gathered(s as int, b * s, f),
    {
        for a in 0..s
            invariant
                samples@ == gathered(s as int, cell(s as int, a as int, b as int), f),
        {
            proof {
                lemma_gather_cell(s as int, a as int, b as int, f);
            }
            let x: i64 = cx as i64 - r + a;
            let y: i64 = cy as i64 - r + b;
            let ex: i64 = x - positions[existing].x as i64;
            let ey: i64 = y - positions[existing].y as i64;
            let ix: i64 = x - positions[incoming_idx].x as i64;
            let iy: i64 = y - positions[incoming_idx].y as i64;
            if ex >= 0 && ey >= 0 && ix >= 0 && iy >= 0 && ex < ew as i64 && ey < eh as i64 && ix
                < iw as i64 && iy < ih as i64 {
                let d = rgb_abs_diff(
                    images[existing].get_pixel(ex as u32, ey as u32),
                    images[incoming_idx].get_pixel(ix as u32, iy as u32),
                );
                samples.push(d);
            }
        }
        proof {
            lemma_gather_cell(s as int, 0, b as int, f);
        }
    }
    samples
}

/// Whether a function takes any list of differences that is not empty.
pub open spec fn takes_samples<M: Fn(&Vec<u32>) -> Single>(mean: M) -> bool {
    forall|v: &Vec<u32>| v@.len() > 0 ==> #[trigger] call_requires(mean, (v,))
}

/// Whether `r` is the mean of the differences: zero where there are none, and otherwise what the
/// function gives for them.
pub open spec fn mean_is<M: Fn(&Vec<u32>) -> Single>(mean: M, samples: Seq<u32>, r: Single) -> bool {
    if samples.len() == 0 {
        r == (Single { bits: 0 })
    } else {
        exists|v: &Vec<u32>| v@ == samples && #[trigger] call_ensures(mean, (v,), r)
    }
}

/// The mean of the differences.
pub fn mean_of<M: Fn(&Vec<u32>) -> Single>(mean: &M, samples: &Vec<u32>) -> (r: Single)
    requires
        takes_samples(*mean),
    ensures
        mean_is(*mean, samples@, r),
{
    if samples.len() == 0 {
        Single::zero()
    } else {
        mean(samples)
    }
}

/// Whether a pixel of an overlap counts as moving: a frame is recorded there, and the larger of the
/// two means, of the differences of that frame and the incoming one and of the disagreements of
/// all frames, is above the threshold.
pub open spec fn moves_at<M: Fn(&Vec<u32>) -> Single>(
    mean: M,
    map: SourceMap,
    images: Seq<RgbImage>,
    positions: Seq<Position>,
    incoming: int,
    cx: int,
    cy: int,
    radius: int,
    threshold: Single,
    moving: bool,
) -> bool {
    if !map.assigned(cx, cy) {
        !moving
    } else {
        exists|adjacent: Single, temporal: Single|
            {
                &&& #[trigger] mean_is(
                    mean,
                    pair_differences(
                        images,
                        positions,
                        map.at(cx, cy),
                        incoming,
                        cx,
                        cy,
                        radius,
                    ),
                    adjacent,
                )
                &&& #[trigger] mean_is(
                    mean,
                    disagreements(images, positions, cx, cy, radius),
                    temporal,
                )
                &&& moving == threshold.lt(adjacent.larger(temporal))
            }
    }
}

/// Whether a mask marks the moving pixels of an overlap of size `ow` by `oh` at `(x0, y0)`, grown
/// by `dilate`.
pub open spec fn is_motion_mask<M: Fn(&Vec<u32>) -> Single>(
    mean: M,
    map: SourceMap,
    images: Seq<RgbImage>,
    positions: Seq<Position>,
    incoming: int,
    x0: int,
    y0: int,
    ow: int,
    oh: int,
    radius: int,
    threshold: Single,
    dilate: int,
    mask: Seq<bool>,
) -> bool {
    exists|moving: Seq<bool>|
        {
            &&& moving.len() == ow * oh
            &&& forall|k: int|
                0 <= k < ow * oh ==> moves_at(
                    mean,
                    map,
                    images,
                    positions,
                    incoming,
                    x0 + k % ow,
                    y0 + k / ow,
                    radius,
                    threshold,
                    #[trigger] moving[k],
                )
            &&& mask == #[trigger] dilated(moving, ow, oh, dilate)
        }
}

/// The moving pixels of an overlap of size `ow` by `oh` whose corner stands at `(x0, y0)`, grown by
/// `dilate`.
#[verifier::loop_isolation(false)]
pub fn motion_mask_for_overlap<M: Fn(&Vec<u32>) -> Single>(
    source_map: &SourceMap,
    images: &[RgbImage],
    positions: &[Position],
    incoming_idx: usize,
    x0: u32,
    y0: u32,
    ow: usize,
    oh: usize,
    radius: u32,
    threshold: Single,
    dilate: u32,
    mean: &M,
) -> (mask: Vec<bool>)
    requires
        source_map.wf(),
        images@.len() <= positions@.len(),
        x0 + ow <= source_map.width,
        y0 + oh <= source_map.height,
        ow * oh <= usize::MAX,
        takes_samples(*mean),
    ensures
        is_motion_mask(
            *mean,
            *source_map,
            images@,
            positions@,
            incoming_idx as int,
            x0 as int,
            y0 as int,
            ow as int,
            oh as int,
            radius as int,
            threshold,
            dilate as int,
            mask@,
        ),
{
    let mut moving: Vec<bool> = Vec::new();
    proof {
        assert(0 * ow == 0) by (nonlinear_arith);
    }
    for yy in 0..oh
        invariant
            moving@.len() == yy * ow,
            forall|k: int|
                0 <= k < moving@.len() ==> moves_at(
                    *mean,
                    *source_map,
                    images@,
                    positions@,
                    incoming_idx as int,
                    x0 + k % (ow as int),
                    y0 + k / (ow as int),
                    radius as int,
                    threshold,
                    #[trigger] moving@[k],
                ),
    {
        for xx in 0..ow
            invariant
                moving@.len() == yy * ow + xx,
                forall|k: int|
                    0 <= k < moving@.len() ==> moves_at(
                        *mean,
                        *source_map,
                        images@,
                        positions@,
                        incoming_idx as int,
                        x0 + k % (ow as int),
                        y0 + k / (ow as int),
                        radius as int,
                        threshold,
                        #[trigger] moving@[k],
                    ),
        {
            proof {
                lemma_index_of_cell(ow as int, xx as int, yy as int);
                lemma_cell_bound(
                    source_map.width as int,
                    source_map.height as int,
                    x0 + xx,
                    y0 + yy,
                );
            }
            let cx: u32 = x0 + xx as u32;
            let cy: u32 = y0 + yy as u32;
            let existing: u8 = source_map.get(cx, cy);
            if existing == SourceMap::UNASSIGNED {
                moving.push(false);
            } else {
                let pairs = aligned_temporal_diff(
                    images,
                    positions,
                    existing,
                    incoming_idx,
                    cx,
                    cy,
                    radius,
                );
                let adjacent = mean_of(mean, &pairs);
                let spreads = covering_temporal_disagreement(images, positions, cx, cy, radius);
                let temporal = mean_of(mean, &spreads);
                moving.push(threshold.is_below(adjacent.max(temporal)));
            }
        }
        proof {
            assert(yy * ow + ow == (yy + 1) * ow) by (nonlinear_arith);
        }
    }
    proof {
        assert(oh * ow == ow * oh) by (nonlinear_arith);
    }
    dilate_bool_mask(&moving, ow, oh, dilate as usize)
}

/// Two frames disagree at a point by the distance of their pixels there, and where one of them does
/// not show it there is nothing to disagree about.
pub proof fn two_frames_disagree_by_their_distance(
    images: Seq<RgbImage>,
    positions: Seq<Position>,
    x: int,
    y: int,
)
    requires
        images.len() == 2,
    ensures
        ({
            let p = positions[0];
            let q = positions[1];
            if images[0].has(x - p.x, y - p.y) && images[1].has(x - q.x, y - q.y) {
                disagreement(images, positions, x, y) matches Some(d) && d == channel_distance(
                    images[0].px(x - p.x, y - p.y),
                    images[1].px(x - q.x, y - q.y),
                )
            } else {
                disagreement(images, positions, x, y) is None
            }
        }),
{
    let colors = colors_at(images, positions, x, y, 2);
    reveal_with_fuel(colors_at, 3);
    if colors.len() == 2 {
        lowest_and_highest_bound_the_values(levels(colors, 0));
        lowest_and_highest_bound_the_values(levels(colors, 1));
        lowest_and_highest_bound_the_values(levels(colors, 2));
        reveal_with_fuel(lowest, 3);
        reveal_with_fuel(highest, 3);
    }
}

proof fn lemma_shown_colors(
    images: Seq<RgbImage>,
    positions: Seq<Position>,
    x: int,
    y: int,
    n: int,
    i: int,
) -> (m: int)
    requires
        0 <= i < n,
        shows(images[i], positions[i], x, y),
    ensures
        0 <= m < colors_at(images, positions, x, y, n).len(),
        m < n,
        colors_at(images, positions, x, y, n)[m] == images[i].px(
            x - positions[i].x,
            y - positions[i].y,
        ),
        i < n - 1 ==> m < colors_at(images, positions, x, y, n - 1).len(),
        i == n - 1 ==> m == colors_at(images, positions, x, y, n - 1).len(),
    decreases n,
{
    lemma_color_count(images, positions, x, y, n);
    if i < n - 1 {
        lemma_shown_colors(images, positions, x, y, n - 1, i)
    } else {
        lemma_color_count(images, positions, x, y, n - 1);
        colors_at(images, positions, x, y, n - 1).len() as int
    }
}

proof fn lemma_color_count(
    images: Seq<RgbImage>,
    positions: Seq<Position>,
    x: int,
    y: int,
    n: int,
)
    requires
        0 <= n,
    ensures
        colors_at(images, positions, x, y, n).len() <= n,
    decreases n,
{
    if n > 0 {
        lemma_color_count(images, positions, x, y, n - 1);
    }
}

proof fn lemma_two_colors(
    images: Seq<RgbImage>,
    positions: Seq<Position>,
    x: int,
    y: int,
    n: int,
    i: int,
    j: int,
) -> (r: (int, int))
    requires
        0 <= i < j < n,
        shows(images[i], positions[i], x, y),
        shows(images[j], positions[j], x, y),
    ensures
        ({
            let colors = colors_at(images, positions, x, y, n);
            &&& 0 <= r.0 < r.1 < colors.len()
            &&& colors[r.0] == images[i].px(x - positions[i].x, y - positions[i].y)
            &&& colors[r.1] == images[j].px(x - positions[j].x, y - positions[j].y)
        }),
    decreases n,
{
    if j < n - 1 {
        lemma_two_colors(images, positions, x, y, n - 1, i, j)
    } else {
        let a = lemma_shown_colors(images, positions, x, y, n, i);
        let b = lemma_shown_colors(images, positions, x, y, n, j);
        (a, b)
    }
}

proof fn lemma_all_one_color(
    images: Seq<RgbImage>,
    positions: Seq<Position>,
    x: int,
    y: int,
    n: int,
    color: [u8; 3],
)
    requires
        0 <= n,
        forall|k: int|
            0 <= k < n && #[trigger] shows(images[k], positions[k], x, y) ==> images[k].px(
                x - positions[k].x,
                y - positions[k].y,
            ) == color,
    ensures
        forall|m: int|
            0 <= m < colors_at(images, positions, x, y, n).len() ==> #[trigger] colors_at(
                images,
                positions,
                x,
                y,
                n,
            )[m] == color,
    decreases n,
{
    if n > 0 {
        lemma_all_one_color(images, positions, x, y, n - 1, color);
        let before = colors_at(images, positions, x, y, n - 1);
        let all = colors_at(images, positions, x, y, n);
        assert forall|m: int| 0 <= m < all.len() implies #[trigger] all[m] == color by {
            if m < before.len() {
                assert(all[m] == before[m]);
            } else {
                assert(shows(images[n - 1], positions[n - 1], x, y));
            }
        }
    }
}

/// Frames disagree at a point that two of them show: by no less than any two of their pixels
/// differ there, and not at all where all of them show the same color.
pub proof fn frames_disagree_no_less_than_any_two(
    images: Seq<RgbImage>,
    positions: Seq<Position>,
    x: int,
    y: int,
    i: int,
    j: int,
)
    requires
        0 <= i < j < images.len(),
        images[i].has(x - positions[i].x, y - positions[i].y),
        images[j].has(x - positions[j].x, y - positions[j].y),
    ensures
        ({
            let a = images[i].px(x - positions[i].x, y - positions[i].y);
            let b = images[j].px(x - positions[j].x, y - positions[j].y);
            &&& disagreement(images, positions, x, y) matches Some(d)
            &&& channel_distance(a, b) <= d <= 765
            &&& (forall|k: int|
                0 <= k < images.len() && #[trigger] shows(images[k], positions[k], x, y)
                    ==> images[k].px(x - positions[k].x, y - positions[k].y) == a) ==> d == 0
        }),
{
    let n = images.len() as int;
    let colors = colors_at(images, positions, x, y, n);
    let (p, q) = lemma_two_colors(images, positions, x, y, n, i, j);
    let a = images[i].px(x - positions[i].x, y - positions[i].y);
    lemma_spread(colors, 0, p, q);
    lemma_spread(colors, 1, p, q);
    lemma_spread(colors, 2, p, q);
    if forall|k: int|
        0 <= k < images.len() && #[trigger] shows(images[k], positions[k], x, y) ==> images[k].px(
            x - positions[k].x,
            y - positions[k].y,
        ) == a {
        lemma_all_one_color(images, positions, x, y, n, a);
    }
}

proof fn lemma_spread(colors: Seq<[u8; 3]>, c: int, p: int, q: int)
    requires
        0 <= p < q < colors.len(),
        0 <= c < 3,
    ensures
        0 <= spread(colors, c) <= 255,
        colors[p][c] - colors[q][c] <= spread(colors, c),
        colors[q][c] - colors[p][c] <= spread(colors, c),
        (forall|m: int| 0 <= m < colors.len() ==> #[trigger] colors[m] == colors[p]) ==> spread(
            colors,
            c,
        ) == 0,
{
    let l = levels(colors, c);
    lowest_and_highest_bound_the_values(l);
    assert(l[p] == colors[p][c] && l[q] == colors[q][c]);
    assert forall|m: int| 0 <= m < l.len() implies 0 <= #[trigger] l[m] <= 255 by {
        assert(l[m] == colors[m][c]);
    }
    if forall|m: int| 0 <= m < colors.len() ==> #[trigger] colors[m] == colors[p] {
        assert forall|m: int| 0 <= m < l.len() implies #[trigger] l[m] == l[p] by {
            assert(colors[m] == colors[p]);
        }
    }
}

/// Motion between two frames is looked for in the square around a point: every point of the square
/// that both of them show gives the distance of their pixels, and nothing else is looked at.
pub proof fn motion_is_sampled_in_a_square(
    images: Seq<RgbImage>,
    positions: Seq<Position>,
    existing: u8,
    incoming: int,
    cx: int,
    cy: int,
    radius: int,
    x: int,
    y: int,
    m: int,
)
    requires
        existing < 255,
        existing < images.len(),
        0 <= incoming < images.len(),
        0 <= radius <= i32::MAX,
    ensures
        ({
            let e = existing as int;
            let found = pair_differences(images, positions, existing, incoming, cx, cy, radius);
            let shared = images[e].has(x - positions[e].x, y - positions[e].y)
                && images[incoming].has(x - positions[incoming].x, y - positions[incoming].y);
            &&& -radius <= x - cx <= radius && -radius <= y - cy <= radius && shared
                ==> found.contains(
                channel_distance(
                    images[e].px(x - positions[e].x, y - positions[e].y),
                    images[incoming].px(x - positions[incoming].x, y - positions[incoming].y),
                ) as u32,
            )
            &&& 0 <= m < found.len() ==> exists|u: int, v: int|
                {
                    &&& -radius <= u - cx <= radius
                    &&& -radius <= v - cy <= radius
                    &&& images[e].has(u - positions[e].x, v - positions[e].y)
                    &&& images[incoming].has(
                        u - positions[incoming].x,
                        v - positions[incoming].y,
                    )
                    &&& found[m] == channel_distance(
                        #[trigger] images[e].px(u - positions[e].x, v - positions[e].y),
                        images[incoming].px(
                            u - positions[incoming].x,
                            v - positions[incoming].y,
                        ),
                    )
                }
        }),
{
    let e = existing as int;
    let s = side(radius);
    let f = |a: int, b: int|
        pair_difference(images, positions, e, incoming, cx - radius + a, cy - radius + b);
    let found = pair_differences(images, positions, existing, incoming, cx, cy, radius);
    assert(found == gathered(s, s * s, f));
    if -radius <= x - cx <= radius && -radius <= y - cy <= radius {
        let a = x - cx + radius;
        let b = y - cy + radius;
        lemma_cell_bound(s, s, a, b);
        lemma_index_of_cell(s, a, b);
        gathered_values_keep_the_order_of_the_cells(s, s * s, f, cell(s, a, b));
        assert(f(a, b) == pair_difference(images, positions, e, incoming, x, y));
    }
    if 0 <= m < found.len() {
        let k = gathered_values_come_from_cells(s, s * s, f, m);
        lemma_cell_of_index(s, s, k);
        let u = cx - radius + k % s;
        let v = cy - radius + k / s;
        assert(f(k % s, k / s) == pair_difference(images, positions, e, incoming, u, v));
        let color = images[e].px(u - positions[e].x, v - positions[e].y);
        assert(0 <= channel_distance(
            color,
            images[incoming].px(u - positions[incoming].x, v - positions[incoming].y),
        ) <= 765);
    }
}

/// Disagreement is looked for in the square around a point: every point of the square at which at
/// least two frames can be compared counts, and nothing else does.
pub proof fn disagreement_is_sampled_in_a_square(
    images: Seq<RgbImage>,
    positions: Seq<Position>,
    cx: int,
    cy: int,
    radius: int,
    x: int,
    y: int,
    m: int,
)
    requires
        0 <= radius <= i32::MAX,
    ensures
        ({
            let found = disagreements(images, positions, cx, cy, radius);
            &&& -radius <= x - cx <= radius && -radius <= y - cy <= radius ==> (disagreement(
                images,
                positions,
                x,
                y,
            ) matches Some(d) ==> found.contains(d))
            &&& 0 <= m < found.len() ==> exists|u: int, v: int|
                {
                    &&& -radius <= u - cx <= radius
                    &&& -radius <= v - cy <= radius
                    &&& #[trigger] disagreement(images, positions, u, v) == Some(found[m])
                }
        }),
{
    let s = side(radius);
    let f = |a: int, b: int|
        disagreement(images, positions, cx - radius + a, cy - radius + b);
    let found = disagreements(images, positions, cx, cy, radius);
    assert(found == gathered(s, s * s, f));
    if -radius <= x - cx <= radius && -radius <= y - cy <= radius {
        let a = x - cx + radius;
        let b = y - cy + radius;
        lemma_cell_bound(s, s, a, b);
        lemma_index_of_cell(s, a, b);
        gathered_values_keep_the_order_of_the_cells(s, s * s, f, cell(s, a, b));
        assert(f(a, b) == disagreement(images, positions, x, y));
    }
    if 0 <= m < found.len() {
        let k = gathered_values_come_from_cells(s, s * s, f, m);
        lemma_cell_of_index(s, s, k);
        assert(f(k % s, k / s) == disagreement(
            images,
            positions,
            cx - radius + k % s,
            cy - radius + k / s,
        ));
    }
}

/// A pixel of the canvas moves exactly where a frame was put down and the incoming frame or any
/// two frames differ around it by more than the threshold, on average.
pub proof fn motion_exceeds_the_threshold<M: Fn(&Vec<u32>) -> Single>(
    mean: M,
    map: SourceMap,
    images: Seq<RgbImage>,
    positions: Seq<Position>,
    incoming: int,
    cx: int,
    cy: int,
    radius: int,
    threshold: Single,
    moving: bool,
)
    requires
        moves_at(mean, map, images, positions, incoming, cx, cy, radius, threshold, moving),
    ensures
        map.data@[cy * map.width + cx] == 255 ==> !moving,
        map.data@[cy * map.width + cx] != 255 ==> exists|adjacent: Single, temporal: Single|
            {
                &&& #[trigger] mean_is(
                    mean,
                    pair_differences(
                        images,
                        positions,
                        map.data@[cy * map.width + cx],
                        incoming,
                        cx,
                        cy,
                        radius,
                    ),
                    adjacent,
                )
                &&& #[trigger] mean_is(
                    mean,
                    disagreements(images, positions, cx, cy, radius),
                    temporal,
                )
                &&& moving <==> threshold.lt(adjacent) || threshold.lt(temporal)
            },
{
}

/// Where the mean of a list depends on the list alone, the mean of the samples is that of all of
/// them, in their order; without samples it is zero.
pub proof fn means_are_those_of_all_samples<M: Fn(&Vec<u32>) -> Single>(
    mean: M,
    value: spec_fn(Seq<u32>) -> Single,
    samples: Seq<u32>,
    r: Single,
)
    requires
        forall|v: &Vec<u32>, s: Single| #[trigger] call_ensures(mean, (v,), s) ==> s == value(v@),
        mean_is(mean, samples, r),
    ensures
        samples.len() > 0 ==> r == value(samples),
        samples.len() == 0 ==> r.bits == 0,
{
}

/// A cell of a motion mask is set exactly where a pixel of the overlap moves that is no further away
/// than the dilation, in the row and in the column.
pub proof fn motion_masks_reach_a_square<M: Fn(&Vec<u32>) -> Single>(
    mean: M,
    map: SourceMap,
    images: Seq<RgbImage>,
    positions: Seq<Position>,
    incoming: int,
    x0: int,
    y0: int,
    ow: int,
    oh: int,
    radius: int,
    threshold: Single,
    dilate: int,
    mask: Seq<bool>,
    x: int,
    y: int,
)
    requires
        is_motion_mask(
            mean,
            map,
            images,
            positions,
            incoming,
            x0,
            y0,
            ow,
            oh,
            radius,
            threshold,
            dilate,
            mask,
        ),
        0 <= x < ow,
        0 <= y < oh,
    ensures
        mask.len() == ow * oh,
        mask[y * ow + x] ==> exists|i: int, j: int|
            {
                &&& 0 <= i < ow && 0 <= j < oh
                &&& x - dilate <= i <= x + dilate
                &&& y - dilate <= j <= y + dilate
                &&& #[trigger] moves_at(
                    mean,
                    map,
                    images,
                    positions,
                    incoming,
                    x0 + i,
                    y0 + j,
                    radius,
                    threshold,
                    true,
                )
            },
        !mask[y * ow + x] && 0 <= dilate ==> moves_at(
            mean,
            map,
            images,
            positions,
            incoming,
            x0 + x,
            y0 + y,
            radius,
            threshold,
            false,
        ),
{
    let moving = choose|moving: Seq<bool>|
        {
            &&& moving.len() == ow * oh
            &&& forall|k: int|
                0 <= k < ow * oh ==> moves_at(
                    mean,
                    map,
                    images,
                    positions,
                    incoming,
                    x0 + k % ow,
                    y0 + k / ow,
                    radius,
                    threshold,
                    #[trigger] moving[k],
                )
            &&& mask == #[trigger] dilated(moving, ow, oh, dilate)
        };
    crate::foreground::dilation_reaches_a_square(moving, ow, oh, dilate, x, y);
    lemma_cell_bound(ow, oh, x, y);
    lemma_index_of_cell(ow, x, y);
    let here = moving[cell(ow, x, y)];
    if mask[y * ow + x] {
        let (i, j) = choose|i: int, j: int|
            {
                &&& 0 <= i < ow && 0 <= j < oh
                &&& x - dilate <= i <= x + dilate
                &&& y - dilate <= j <= y + dilate
                &&& #[trigger] moving[j * ow + i]
            };
        lemma_cell_bound(ow, oh, i, j);
        lemma_index_of_cell(ow, i, j);
        assert(moves_at(
            mean,
            map,
            images,
            positions,
            incoming,
            x0 + cell(ow, i, j) % ow,
            y0 + cell(ow, i, j) / ow,
            radius,
            threshold,
            moving[cell(ow, i, j)],
        ));
    } else if 0 <= dilate {
        assert(!moving[y * ow + x]);
    }
}

} // verus!
