//! Nearest-center synthesis: each canvas pixel comes from the frame whose center is closest.
//!
//! How close a pixel of a frame is to the center of the frame is given by a table of scores, one
//! row-major table for each frame; lower is closer. The scores are computed by the caller.

use vstd::prelude::*;

use crate::buffers::RgbImage;
use crate::canvas::{black, canvas_size_ok, faithful, faithful_at, same_size};
use crate::error::StitchError;
use crate::geometry::{covers, Position};
use crate::grid::{cell, lemma_cell_bound, scanned};
use crate::single::Single;
use crate::source_map::SourceMap;

verus! {

/// The score of the pixel `(sx, sy)` of frame `i`.
pub open spec fn score_at(scores: Seq<Vec<Single>>, w: int, i: int, sx: int, sy: int) -> Single {
    scores[i]@[cell(w, sx, sy)]
}

/// Whether there is a table of scores for each of `n` frames of size `w` by `h`.
pub open spec fn scores_cover(scores: Seq<Vec<Single>>, n: int, w: int, h: int) -> bool {
    &&& n <= scores.len()
    &&& forall|i: int| 0 <= i < n ==> (#[trigger] scores[i])@.len() == w * h
}

/// Of the first `n` frames, the one that the canvas pixel `(cx, cy)` comes from: of those that
/// cover it, the first one that no later one beats.
pub open spec fn nearest(
    positions: Seq<Position>,
    scores: Seq<Vec<Single>>,
    w: int,
    h: int,
    cx: int,
    cy: int,
    n: int,
) -> Option<int>
    decreases n,
{
    if n <= 0 {
        None
    } else {
        let best = nearest(positions, scores, w, h, cx, cy, n - 1);
        let p = positions[n - 1];
        if covers(p, w, h, cx, cy) && match best {
            Some(b) => score_at(scores, w, n - 1, cx - p.x, cy - p.y).lt(
                score_at(scores, w, b, cx - positions[b].x, cy - positions[b].y),
            ),
            None => true,
        } {
            Some(n - 1)
        } else {
            best
        }
    }
}

/// The chosen frame covers the pixel; there is none exactly where no frame covers it; and where
/// the scores are numbers, no frame that covers the pixel has a lower score, and no earlier one
/// has the same score.
pub proof fn nearest_is_closest(
    positions: Seq<Position>,
    scores: Seq<Vec<Single>>,
    w: int,
    h: int,
    cx: int,
    cy: int,
    n: int,
)
    requires
        0 <= n <= positions.len(),
    ensures
        match nearest(positions, scores, w, h, cx, cy, n) {
            Some(b) => {
                &&& 0 <= b < n
                &&& covers(positions[b], w, h, cx, cy)
                &&& (forall|i: int|
                    0 <= i < n && covers(#[trigger] positions[i], w, h, cx, cy) ==> !score_at(
                        scores,
                        w,
                        i,
                        cx - positions[i].x,
                        cy - positions[i].y,
                    ).nan()) ==> forall|i: int|
                    0 <= i < n && covers(#[trigger] positions[i], w, h, cx, cy) ==> {
                        let best = score_at(
                            scores,
                            w,
                            b,
                            cx - positions[b].x,
                            cy - positions[b].y,
                        );
                        let other = score_at(
                            scores,
                            w,
                            i,
                            cx - positions[i].x,
                            cy - positions[i].y,
                        );
                        best.le(other) && (i < b ==> best.lt(other))
                    }
            },
            None => forall|i: int| 0 <= i < n ==> !covers(#[trigger] positions[i], w, h, cx, cy),
        },
    decreases n,
{
    if n > 0 {
        nearest_is_closest(positions, scores, w, h, cx, cy, n - 1);
    }
}

/// The frame number that a source map records.
pub open spec fn recorded(source: Option<int>) -> u8 {
    match source {
        Some(i) => (i % 256) as u8,
        None => SourceMap::UNASSIGNED,
    }
}

pub(crate) fn record(i: usize) -> (v: u8)
    ensures
        v == recorded(Some(i as int)),
{
    (i % 256) as u8
}

/// The frame that the canvas pixel `(cx, cy)` comes from.
fn nearest_source(
    positions: &[Position],
    scores: &[Vec<Single>],
    w: u32,
    h: u32,
    cx: u32,
    cy: u32,
) -> (best: Option<(usize, u32, u32)>)
    requires
        scores_cover(scores@, positions@.len() as int, w as int, h as int),
        w * h <= usize::MAX,
    ensures
        match best {
            Some((i, sx, sy)) => {
                &&& nearest(
                    positions@,
                    scores@,
                    w as int,
                    h as int,
                    cx as int,
                    cy as int,
                    positions@.len() as int,
                ) == Some(i as int)
                &&& i < positions@.len()
                &&& covers(positions@[i as int], w as int, h as int, cx as int, cy as int)
                &&& sx == cx - positions@[i as int].x
                &&& sy == cy - positions@[i as int].y
            },
            None => nearest(
                positions@,
                scores@,
                w as int,
                h as int,
                cx as int,
                cy as int,
                positions@.len() as int,
            ) is None,
        },
{
    let mut best: Option<(usize, u32, u32)> = None;
    let mut top = Single::zero();
    for i in 0..positions.len()
        invariant
            scores_cover(scores@, positions@.len() as int, w as int, h as int),
            w * h <= usize::MAX,
            match best {
                Some((b, sx, sy)) => {
                    &&& nearest(
                        positions@,
                        scores@,
                        w as int,
                        h as int,
                        cx as int,
                        cy as int,
                        i as int,
                    ) == Some(b as int)
                    &&& b < i
                    &&& covers(positions@[b as int], w as int, h as int, cx as int, cy as int)
                    &&& sx == cx - positions@[b as int].x
                    &&& sy == cy - positions@[b as int].y
                    &&& top == score_at(scores@, w as int, b as int, sx as int, sy as int)
                },
                None => nearest(
                    positions@,
                    scores@,
                    w as int,
                    h as int,
                    cx as int,
                    cy as int,
                    i as int,
                ) is None,
            },
    {
        let sx: i64 = cx as i64 - positions[i].x as i64;
        let sy: i64 = cy as i64 - positions[i].y as i64;
        if sx >= 0 && sy >= 0 && sx < w as i64 && sy < h as i64 {
            proof {
                lemma_cell_bound(w as int, h as int, sx as int, sy as int);
                assert(scores@[i as int]@.len() == w * h);
            }
            let score = scores[i][sy as usize * w as usize + sx as usize];
            if best.is_none() || score.is_below(top) {
                best = Some((i, sx as u32, sy as u32));
                top = score;
            }
        }
    }
    best
}

/// The source map of a nearest-center synthesis.
#[verifier::loop_isolation(false)]
pub fn generate_source_map(
    positions: &[Position],
    input_width: u32,
    input_height: u32,
    canvas_width: u32,
    canvas_height: u32,
    scores: &[Vec<Single>],
) -> (map: SourceMap)
    requires
        input_width <= i32::MAX,
        input_height <= i32::MAX,
        input_width * input_height <= usize::MAX,
        canvas_width <= i32::MAX,
        canvas_height <= i32::MAX,
        canvas_width * canvas_height <= u32::MAX,
        scores_cover(
            scores@,
            positions@.len() as int,
            input_width as int,
            input_height as int,
        ),
    ensures
        map.wf(),
        map.width == canvas_width,
        map.height == canvas_height,
        forall|x: int, y: int|
            map.has(x, y) ==> #[trigger] map.at(x, y) == recorded(
                nearest(
                    positions@,
                    scores@,
                    input_width as int,
                    input_height as int,
                    x,
                    y,
                    positions@.len() as int,
                ),
            ),
{
    let ghost goal = |x: int, y: int|
        recorded(
            nearest(
                positions@,
                scores@,
                input_width as int,
                input_height as int,
                x,
                y,
                positions@.len() as int,
            ),
        );
    let mut map = SourceMap::new(canvas_width, canvas_height);
    for y in 0..canvas_height
        invariant
            map.wf(),
            map.width == canvas_width,
            map.height == canvas_height,
            forall|i: int, j: int|
                map.has(i, j) ==> #[trigger] map.at(i, j) == if scanned(i, j, 0, y as int) {
                    goal(i, j)
                } else {
                    SourceMap::UNASSIGNED
                },
    {
        for x in 0..canvas_width
            invariant
                map.wf(),
                map.width == canvas_width,
                map.height == canvas_height,
                forall|i: int, j: int|
                    map.has(i, j) ==> #[trigger] map.at(i, j) == if scanned(
                        i,
                        j,
                        x as int,
                        y as int,
                    ) {
                        goal(i, j)
                    } else {
                        SourceMap::UNASSIGNED
                    },
        {
            proof {
                lemma_cell_bound(map.width as int, map.height as int, x as int, y as int);
            }
            let best = nearest_source(positions, scores, input_width, input_height, x, y);
            if let Some((i, _sx, _sy)) = best {
                map.set(x, y, record(i));
            }
        }
    }
    map
}

/// Whether a canvas and its map are the nearest-center synthesis of the frames.
pub open spec fn is_nearest_center(
    images: Seq<RgbImage>,
    positions: Seq<Position>,
    scores: Seq<Vec<Single>>,
    canvas: RgbImage,
    map: SourceMap,
) -> bool {
    &&& same_size(canvas, map)
    &&& forall|x: int, y: int|
        map.has(x, y) ==> {
            let source = nearest(
                positions,
                scores,
                images[0].w(),
                images[0].h(),
                x,
                y,
                positions.len() as int,
            );
            &&& #[trigger] map.at(x, y) == recorded(source)
            &&& canvas.px(x, y) == match source {
                Some(i) => images[i].px(x - positions[i].x, y - positions[i].y),
                None => black(),
            }
        }
}

/// Whether the frames, their positions and their scores belong together: there is a frame and a
/// table for each position, and every frame is at least as large as the first one.
pub open spec fn frames_fit(
    images: Seq<RgbImage>,
    positions: Seq<Position>,
    scores: Seq<Vec<Single>>,
) -> bool {
    &&& 0 < images.len()
    &&& positions.len() <= images.len()
    &&& images[0].w() <= i32::MAX
    &&& images[0].h() <= i32::MAX
    &&& images[0].w() * images[0].h() <= usize::MAX
    &&& forall|i: int|
        0 <= i < positions.len() ==> images[0].w() <= (#[trigger] images[i]).w() && images[0].h()
            <= images[i].h()
    &&& scores_cover(scores, positions.len() as int, images[0].w(), images[0].h())
}

/// The nearest-center synthesis of the frames.
pub fn synthesize_nearest_center(
    images: &[RgbImage],
    positions: &[Position],
    canvas_w: u32,
    canvas_h: u32,
    scores: &[Vec<Single>],
) -> (r: Result<RgbImage, StitchError>)
    requires
        frames_fit(images@, positions@, scores@),
        canvas_size_ok(canvas_w as int, canvas_h as int),
    ensures
        r matches Ok(canvas) && canvas.w() == canvas_w && canvas.h() == canvas_h && exists|
            map: SourceMap,
        |
            is_nearest_center(images@, positions@, scores@, canvas, map),
{
    match synthesize_nearest_center_with_source_map(images, positions, canvas_w, canvas_h, scores) {
        Ok((canvas, map)) => {
            assert(is_nearest_center(images@, positions@, scores@, canvas, map));
            Ok(canvas)
        },
        Err(e) => Err(e),
    }
}

/// The nearest-center synthesis of the frames, with its source map.
#[verifier::loop_isolation(false)]
pub fn synthesize_nearest_center_with_source_map(
    images: &[RgbImage],
    positions: &[Position],
    canvas_w: u32,
    canvas_h: u32,
    scores: &[Vec<Single>],
) -> (r: Result<(RgbImage, SourceMap), StitchError>)
    requires
        frames_fit(images@, positions@, scores@),
        canvas_size_ok(canvas_w as int, canvas_h as int),
    ensures
        r matches Ok((canvas, map)) && map.width == canvas_w && map.height == canvas_h
            && is_nearest_center(images@, positions@, scores@, canvas, map),
{
    let (w, h) = images[0].dimensions();
    let fill: [u8; 3] = [0, 0, 0];
    assert(fill =~= black());
    let mut canvas = RgbImage::from_pixel(canvas_w, canvas_h, fill);
    let mut map = SourceMap::new(canvas_w, canvas_h);
    let ghost chosen = |x: int, y: int|
        nearest(positions@, scores@, w as int, h as int, x, y, positions@.len() as int);
    let ghost color = |x: int, y: int|
        match chosen(x, y) {
            Some(i) => images@[i].px(x - positions@[i].x, y - positions@[i].y),
            None => black(),
        };
    for y in 0..canvas_h
        invariant
            same_size(canvas, map),
            map.width == canvas_w,
            map.height == canvas_h,
            forall|i: int, j: int|
                map.has(i, j) ==> #[trigger] map.at(i, j) == if scanned(i, j, 0, y as int) {
                    recorded(chosen(i, j))
                } else {
                    SourceMap::UNASSIGNED
                },
            forall|i: int, j: int|
                map.has(i, j) ==> #[trigger] canvas.px(i, j) == if scanned(i, j, 0, y as int) {
                    color(i, j)
                } else {
                    black()
                },
    {
        for x in 0..canvas_w
            invariant
                same_size(canvas, map),
                map.width == canvas_w,
                map.height == canvas_h,
                forall|i: int, j: int|
                    map.has(i, j) ==> #[trigger] map.at(i, j) == if scanned(
                        i,
                        j,
                        x as int,
                        y as int,
                    ) {
                        recorded(chosen(i, j))
                    } else {
                        SourceMap::UNASSIGNED
                    },
                forall|i: int, j: int|
                    map.has(i, j) ==> #[trigger] canvas.px(i, j) == if scanned(
                        i,
                        j,
                        x as int,
                        y as int,
                    ) {
                        color(i, j)
                    } else {
                        black()
                    },
        {
            proof {
                lemma_cell_bound(map.width as int, map.height as int, x as int, y as int);
            }
            let best = nearest_source(positions, scores, w, h, x, y);
            if let Some((i, sx, sy)) = best {
                canvas.put_pixel(x, y, images[i].get_pixel(sx, sy));
                map.set(x, y, record(i));
            }
        }
    }
    Ok((canvas, map))
}

/// The source map of a nearest-center synthesis is the one that `generate_source_map` makes.
pub proof fn synthesis_agrees_with_the_generated_map(
    images: Seq<RgbImage>,
    positions: Seq<Position>,
    scores: Seq<Vec<Single>>,
    canvas: RgbImage,
    map: SourceMap,
    generated: SourceMap,
)
    requires
        is_nearest_center(images, positions, scores, canvas, map),
        generated.wf(),
        generated.width == map.width,
        generated.height == map.height,
        forall|x: int, y: int|
            generated.has(x, y) ==> #[trigger] generated.at(x, y) == recorded(
                nearest(
                    positions,
                    scores,
                    images[0].w(),
                    images[0].h(),
                    x,
                    y,
                    positions.len() as int,
                ),
            ),
    ensures
        generated.data@ == map.data@,
{
    crate::source_map::maps_are_equal_when_their_pixels_are(generated, map);
}

/// Where every frame number fits below the value for unassigned pixels, a nearest-center canvas
/// is faithful to its source map, and a pixel is unassigned exactly where no frame covers it.
pub proof fn nearest_center_is_faithful(
    images: Seq<RgbImage>,
    positions: Seq<Position>,
    scores: Seq<Vec<Single>>,
    canvas: RgbImage,
    map: SourceMap,
)
    requires
        frames_fit(images, positions, scores),
        is_nearest_center(images, positions, scores, canvas, map),
        positions.len() <= 255,
    ensures
        faithful(images, positions, canvas, map),
        forall|x: int, y: int|
            map.has(x, y) ==> (#[trigger] map.assigned(x, y) <==> exists|i: int|
                0 <= i < positions.len() && covers(
                    #[trigger] positions[i],
                    images[0].w(),
                    images[0].h(),
                    x,
                    y,
                )),
{
    assert forall|x: int, y: int|
        #![trigger map.at(x, y)]
        map.has(x, y) implies faithful_at(
        images,
        positions,
        canvas,
        map,
        x,
        y,
    ) by {
        nearest_is_closest(
            positions,
            scores,
            images[0].w(),
            images[0].h(),
            x,
            y,
            positions.len() as int,
        );
        let source = nearest(
            positions,
            scores,
            images[0].w(),
            images[0].h(),
            x,
            y,
            positions.len() as int,
        );
        assert(map.at(x, y) == recorded(source));
    }
    assert forall|x: int, y: int| map.has(x, y) implies (#[trigger] map.assigned(x, y)
        <==> exists|i: int|
        0 <= i < positions.len() && covers(
            #[trigger] positions[i],
            images[0].w(),
            images[0].h(),
            x,
            y,
        )) by {
        nearest_is_closest(
            positions,
            scores,
            images[0].w(),
            images[0].h(),
            x,
            y,
            positions.len() as int,
        );
        let source = nearest(
            positions,
            scores,
            images[0].w(),
            images[0].h(),
            x,
            y,
            positions.len() as int,
        );
        assert(map.at(x, y) == recorded(source));
    }
}

/// The frames, their positions and the scores leave no choice: two nearest-center syntheses of the
/// same size have the same source map and the same pixels.
pub proof fn nearest_center_is_unique(
    images: Seq<RgbImage>,
    positions: Seq<Position>,
    scores: Seq<Vec<Single>>,
    canvas: RgbImage,
    map: SourceMap,
    other_canvas: RgbImage,
    other_map: SourceMap,
)
    requires
        is_nearest_center(images, positions, scores, canvas, map),
        is_nearest_center(images, positions, scores, other_canvas, other_map),
        map.width == other_map.width,
        map.height == other_map.height,
    ensures
        map.data@ == other_map.data@,
        forall|x: int, y: int|
            canvas.has(x, y) ==> #[trigger] canvas.px(x, y) == other_canvas.px(x, y),
{
    let w = map.width as int;
    assert forall|k: int| 0 <= k < map.data@.len() implies map.data@[k] == other_map.data@[k] by {
        crate::grid::lemma_cell_of_index(w, map.height as int, k);
        assert(map.has(k % w, k / w) && other_map.has(k % w, k / w));
        assert(map.at(k % w, k / w) == other_map.at(k % w, k / w));
    }
    assert(map.data@ =~= other_map.data@);
    assert forall|x: int, y: int| canvas.has(x, y) implies #[trigger] canvas.px(x, y)
        == other_canvas.px(x, y) by {
        assert(map.has(x, y) && other_map.has(x, y));
        assert(map.at(x, y) == other_map.at(x, y));
    }
}

/// Of at most 255 frames, a canvas pixel comes from one that covers it and has the least score there,
/// and the earliest such frame; the color is that of the pixel of the frame. A pixel that no frame
/// covers is black and has no frame.
pub proof fn pixels_come_from_the_frame_with_the_least_score(
    images: Seq<RgbImage>,
    positions: Seq<Position>,
    scores: Seq<Vec<Single>>,
    canvas: RgbImage,
    map: SourceMap,
    x: int,
    y: int,
    i: int,
)
    requires
        is_nearest_center(images, positions, scores, canvas, map),
        positions.len() <= 255,
        map.has(x, y),
        0 <= i < positions.len(),
        forall|j: int|
            0 <= j < positions.len() && 0 <= x - (#[trigger] positions[j]).x < images[0].w() && 0
                <= y - positions[j].y < images[0].h() ==> !scores[j]@[(y - positions[j].y)
                * images[0].w() + (x - positions[j].x)].nan(),
    ensures
        ({
            let w = images[0].w();
            let h = images[0].h();
            let b = map.at(x, y) as int;
            let covered = 0 <= x - positions[i].x < w && 0 <= y - positions[i].y < h;
            &&& covered ==> b < positions.len()
            &&& b < positions.len() ==> {
                let p = positions[b];
                let best = scores[b]@[(y - p.y) * w + (x - p.x)];
                let other = scores[i]@[(y - positions[i].y) * w + (x - positions[i].x)];
                &&& 0 <= x - p.x < w && 0 <= y - p.y < h
                &&& canvas.px(x, y) == images[b].px(x - p.x, y - p.y)
                &&& covered ==> best.le(other)
                &&& covered && i < b ==> best.lt(other)
            }
            &&& b >= positions.len() ==> {
                &&& b == 255
                &&& canvas.px(x, y)[0] == 0 && canvas.px(x, y)[1] == 0 && canvas.px(x, y)[2] == 0
            }
        }),
{
    let n = positions.len() as int;
    nearest_is_closest(positions, scores, images[0].w(), images[0].h(), x, y, n);
    assert(map.at(x, y) == recorded(
        nearest(positions, scores, images[0].w(), images[0].h(), x, y, n),
    ));
    assert forall|j: int|
        0 <= j < n && covers(#[trigger] positions[j], images[0].w(), images[0].h(), x, y) implies
        !score_at(scores, images[0].w(), j, x - positions[j].x, y - positions[j].y).nan() by {}
}

/// A source map numbers the frames from zero on, again from zero after 256 frames, and keeps 255 for
/// pixels without a frame.
pub proof fn frame_numbers_wrap(i: int)
    requires
        0 <= i,
    ensures
        recorded(None) == 255,
        i < 256 ==> recorded(Some(i)) == i,
        recorded(Some(i + 256)) == recorded(Some(i)),
{
}

} // verus!
