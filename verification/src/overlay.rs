//! Pictures that show where frames meet and what a canvas repeats.

use vstd::prelude::*;

use crate::boundary::{countable, handoffs, on_boundary, source_boundary_map};
use crate::buffers::RgbImage;
use crate::canvas::same_size;
use crate::components::RiskyComponent;
use crate::duplicates::{DuplicateBand, DuplicatePatch, DuplicateReport};
use crate::evaluation::{is_visible, stands_out, EvaluationReport};
use crate::grid::{cell, lemma_cell_bound, lemma_index_of_cell, scanned};
use crate::single::Single;
use crate::source_map::SourceMap;

verus! {

/// Whether the second image is the first one with some pixels painted in one color.
pub open spec fn is_painted(
    before: RgbImage,
    region: spec_fn(int, int) -> bool,
    color: [u8; 3],
    after: RgbImage,
) -> bool {
    &&& after.w() == before.w()
    &&& after.h() == before.h()
    &&& forall|i: int, j: int|
        after.has(i, j) ==> #[trigger] after.px(i, j) == if region(i, j) {
            color
        } else {
            before.px(i, j)
        }
}

/// The pixels within `radius` of `(x, y)`, diagonals too.
pub open spec fn square(x: int, y: int, radius: int) -> spec_fn(int, int) -> bool {
    |i: int, j: int| x - radius <= i <= x + radius && y - radius <= j <= y + radius
}

/// Paints the pixels of the box `x0..=x1` by `y0..=y1`.
#[verifier::loop_isolation(false)]
fn paint_box(img: &mut RgbImage, x0: u32, y0: u32, x1: u32, y1: u32, color: [u8; 3])
    requires
        x1 < old(img).w(),
        y1 < old(img).h(),
    ensures
        is_painted(
            *old(img),
            |i: int, j: int| x0 <= i <= x1 && y0 <= j <= y1,
            color,
            *final(img),
        ),
{
    let ghost before = *img;
    if x1 < x0 || y1 < y0 {
        return;
    }
    for y in y0..y1 + 1
        invariant
            is_painted(
                before,
                |i: int, j: int| x0 <= i <= x1 && y0 <= j < y,
                color,
                *img,
            ),
    {
        for x in x0..x1 + 1
            invariant
                is_painted(
                    before,
                    |i: int, j: int|
                        (x0 <= i <= x1 && y0 <= j < y) || (x0 <= i < x && j == y),
                    color,
                    *img,
                ),
        {
            img.put_pixel(x, y, color);
        }
    }
}

fn below(a: u32, b: u32) -> (r: u32)
    ensures
        r == if a > b {
            a - b
        } else {
            0
        },
{
    if a > b {
        a - b
    } else {
        0
    }
}

fn capped(a: u32, b: u32, limit: u32) -> (r: u32)
    requires
        0 < limit,
    ensures
        r == if a + b < limit - 1 {
            a + b
        } else {
            limit - 1
        },
{
    let sum: u64 = a as u64 + b as u64;
    if sum < (limit - 1) as u64 {
        sum as u32
    } else {
        limit - 1
    }
}

/// Paints the pixels within `radius` of `(x, y)`.
pub fn draw_point_thick(img: &mut RgbImage, x: u32, y: u32, color: [u8; 3], radius: u32)
    requires
        old(img).w() > 0,
        old(img).h() > 0,
    ensures
        is_painted(
            *old(img),
            square(x as int, y as int, radius as int),
            color,
            *final(img),
        ),
{
    let (w, h) = img.dimensions();
    let x0: u32 = below(x, radius);
    let y0: u32 = below(y, radius);
    let x1: u32 = capped(x, radius, w);
    let y1: u32 = capped(y, radius, h);
    paint_box(img, x0, y0, x1, y1, color);
}

/// A rectangle to draw, given by two corners that belong to it.
#[derive(Debug, Clone, Copy)]
pub struct Stroke {
    pub x0: u32,
    pub y0: u32,
    pub x1: u32,
    pub y1: u32,
    pub color: [u8; 3],
}

/// The smaller one of a coordinate and the last coordinate of a side.
pub open spec fn clamped(v: u32, length: int) -> int {
    if v < length - 1 {
        v as int
    } else {
        length - 1
    }
}

/// The border of a rectangle, four pixels thick, inside an image of size `w` by `h`. Corners outside
/// the image are moved to its edge. The upper and the left border reach downwards and to the right
/// even where the rectangle is thinner than they are; the lower and the right one upwards and to
/// the left.
pub open spec fn border(s: Stroke, w: int, h: int) -> spec_fn(int, int) -> bool {
    let x0 = clamped(s.x0, w);
    let x1 = clamped(s.x1, w);
    let y0 = clamped(s.y0, h);
    let y1 = clamped(s.y1, h);
    |i: int, j: int|
        (x0 <= i <= x1 && (y0 <= j < y0 + 4 || y1 - 4 < j <= y1)) || (y0 <= j <= y1 && (x0 <= i < x0
            + 4 || x1 - 4 < i <= x1))
}

/// Draws the border of a rectangle, four pixels thick.
pub fn draw_rect(img: &mut RgbImage, x0: u32, y0: u32, x1: u32, y1: u32, color: [u8; 3])
    requires
        old(img).w() > 0,
        old(img).h() > 0,
    ensures
        is_painted(
            *old(img),
            border((Stroke { x0, y0, x1, y1, color }), old(img).w(), old(img).h()),
            color,
            *final(img),
        ),
{
    let (w, h) = img.dimensions();
    let x0: u32 = capped(x0, 0, w);
    let x1: u32 = capped(x1, 0, w);
    let y0: u32 = capped(y0, 0, h);
    let y1: u32 = capped(y1, 0, h);
    if x0 <= x1 {
        // the upper and the lower border
        paint_box(img, x0, y0, x1, capped(y0, 3, h), color);
        paint_box(img, x0, below(y1, 3), x1, y1, color);
    }
    if y0 <= y1 {
        // the left and the right border
        paint_box(img, x0, y0, capped(x0, 3, w), y1, color);
        paint_box(img, below(x1, 3), y0, x1, y1, color);
    }
}

/// The color of a pixel after the first `n` rectangles were drawn.
pub open spec fn stroked(img: RgbImage, strokes: Seq<Stroke>, i: int, j: int, n: int) -> [u8; 3]
    decreases n,
{
    if n <= 0 {
        img.px(i, j)
    } else if border(strokes[n - 1], img.w(), img.h())(i, j) {
        strokes[n - 1].color
    } else {
        stroked(img, strokes, i, j, n - 1)
    }
}

/// Whether the second image is the first one with the rectangles drawn on it, one after another.
pub open spec fn is_stroked(before: RgbImage, strokes: Seq<Stroke>, after: RgbImage) -> bool {
    &&& after.w() == before.w()
    &&& after.h() == before.h()
    &&& forall|i: int, j: int|
        after.has(i, j) ==> #[trigger] after.px(i, j) == stroked(
            before,
            strokes,
            i,
            j,
            strokes.len() as int,
        )
}

proof fn lemma_stroked_alike(
    a: RgbImage,
    b: RgbImage,
    strokes: Seq<Stroke>,
    i: int,
    j: int,
    n: int,
)
    requires
        a.w() == b.w(),
        a.h() == b.h(),
        a.px(i, j) == b.px(i, j),
    ensures
        stroked(a, strokes, i, j, n) == stroked(b, strokes, i, j, n),
    decreases n,
{
    if n > 0 {
        lemma_stroked_alike(a, b, strokes, i, j, n - 1);
    }
}

/// Draws rectangles on an image, one after another.
fn draw_all(img: &mut RgbImage, strokes: &Vec<Stroke>)
    requires
        strokes@.len() > 0 ==> old(img).w() > 0 && old(img).h() > 0,
    ensures
        is_stroked(*old(img), strokes@, *final(img)),
{
    let ghost before = *img;
    for k in 0..strokes.len()
        invariant
            strokes@.len() > 0 ==> before.w() > 0 && before.h() > 0,
            img.w() == before.w(),
            img.h() == before.h(),
            forall|i: int, j: int|
                img.has(i, j) ==> #[trigger] img.px(i, j) == stroked(
                    before,
                    strokes@,
                    i,
                    j,
                    k as int,
                ),
    {
        let s = strokes[k];
        draw_rect(img, s.x0, s.y0, s.x1, s.y1, s.color);
    }
}

/// Red.
pub open spec fn red() -> [u8; 3] {
    [255, 0, 0]
}

/// Yellow.
pub open spec fn yellow() -> [u8; 3] {
    [255, 230, 0]
}

/// Green.
pub open spec fn green() -> [u8; 3] {
    [0, 255, 0]
}

/// Cyan.
pub open spec fn cyan() -> [u8; 3] {
    [0, 255, 255]
}

/// White.
pub open spec fn white() -> [u8; 3] {
    [255, 255, 255]
}

/// One of the two rectangles of a pair of bands.
pub open spec fn band_stroke(w: int, d: DuplicateBand, lower: bool) -> Stroke {
    let y = if lower {
        d.y2
    } else {
        d.y1
    };
    Stroke { x0: 0, y0: y, x1: (w - 1) as u32, y1: (y + d.height) as u32, color: red() }
}

/// One of the two rectangles of a pair of patches.
pub open spec fn patch_stroke(d: DuplicatePatch, second: bool) -> Stroke {
    let r = if second {
        d.rect_b
    } else {
        d.rect_a
    };
    Stroke {
        x0: r[0],
        y0: r[1],
        x1: (r[0] + r[2]) as u32,
        y1: (r[1] + r[3]) as u32,
        color: if second {
            cyan()
        } else {
            green()
        },
    }
}

/// The rectangles of the first `n` pairs of bands.
pub open spec fn band_strokes(w: int, bands: Seq<DuplicateBand>, n: int) -> Seq<Stroke>
    decreases n,
{
    if n <= 0 {
        Seq::empty()
    } else {
        band_strokes(w, bands, n - 1).push(band_stroke(w, bands[n - 1], false)).push(
            band_stroke(w, bands[n - 1], true),
        )
    }
}

/// The rectangles of the pairs of bands, and of the first `n` pairs of patches.
pub open spec fn duplicate_strokes(w: int, report: DuplicateReport, n: int) -> Seq<Stroke>
    decreases n,
{
    if n <= 0 {
        band_strokes(w, report.band_duplicates@, report.band_duplicates@.len() as int)
    } else {
        duplicate_strokes(w, report, n - 1).push(
            patch_stroke(report.patch_duplicates@[n - 1], false),
        ).push(patch_stroke(report.patch_duplicates@[n - 1], true))
    }
}

/// Whether the ends of all rectangles of a report are coordinates.
pub open spec fn report_fits(report: DuplicateReport) -> bool {
    &&& forall|k: int|
        0 <= k < report.band_duplicates@.len() ==> {
            let d = #[trigger] report.band_duplicates@[k];
            d.y1 + d.height <= u32::MAX && d.y2 + d.height <= u32::MAX
        }
    &&& forall|k: int|
        0 <= k < report.patch_duplicates@.len() ==> {
            let d = #[trigger] report.patch_duplicates@[k];
            &&& d.rect_a[0] + d.rect_a[2] <= u32::MAX
            &&& d.rect_a[1] + d.rect_a[3] <= u32::MAX
            &&& d.rect_b[0] + d.rect_b[2] <= u32::MAX
            &&& d.rect_b[1] + d.rect_b[3] <= u32::MAX
        }
}

/// Marks the content that an image repeats: red rectangles around bands, and a green and a cyan one
/// around patches.
pub fn draw_duplicate_overlay(img: &RgbImage, report: &DuplicateReport) -> (out: RgbImage)
    requires
        report.band_duplicates@.len() + report.patch_duplicates@.len() > 0 ==> img.w() > 0
            && img.h() > 0,
        report_fits(*report),
    ensures
        is_stroked(
            *img,
            duplicate_strokes(img.w(), *report, report.patch_duplicates@.len() as int),
            out,
        ),
{
    let (w, h) = img.dimensions();
    let mut strokes: Vec<Stroke> = Vec::new();
    let red_color: [u8; 3] = [255, 0, 0];
    let green_color: [u8; 3] = [0, 255, 0];
    let cyan_color: [u8; 3] = [0, 255, 255];
    proof {
        assert(red_color =~= red());
        assert(green_color =~= green());
        assert(cyan_color =~= cyan());
    }
    for k in 0..report.band_duplicates.len()
        invariant
            w == img.w(),
            red_color == red(),
            report_fits(*report),
            report.band_duplicates@.len() > 0 ==> w > 0,
            strokes@ == band_strokes(w as int, report.band_duplicates@, k as int),
            strokes@.len() == 2 * k,
    {
        let d = report.band_duplicates[k];
        strokes.push(
            Stroke { x0: 0, y0: d.y1, x1: w - 1, y1: d.y1 + d.height, color: red_color },
        );
        strokes.push(
            Stroke { x0: 0, y0: d.y2, x1: w - 1, y1: d.y2 + d.height, color: red_color },
        );
    }
    for k in 0..report.patch_duplicates.len()
        invariant
            w == img.w(),
            green_color == green(),
            cyan_color == cyan(),
            report_fits(*report),
            strokes@ == duplicate_strokes(w as int, *report, k as int),
            strokes@.len() == 2 * report.band_duplicates@.len() + 2 * k,
    {
        let d = report.patch_duplicates[k];
        strokes.push(
            Stroke {
                x0: d.rect_a[0],
                y0: d.rect_a[1],
                x1: d.rect_a[0] + d.rect_a[2],
                y1: d.rect_a[1] + d.rect_a[3],
                color: green_color,
            },
        );
        strokes.push(
            Stroke {
                x0: d.rect_b[0],
                y0: d.rect_b[1],
                x1: d.rect_b[0] + d.rect_b[2],
                y1: d.rect_b[1] + d.rect_b[3],
                color: cyan_color,
            },
        );
    }
    let mut out = img.duplicate();
    let ghost copy = out;
    draw_all(&mut out, &strokes);
    proof {
        assert forall|i: int, j: int| out.has(i, j) implies #[trigger] out.px(i, j) == stroked(
            *img,
            strokes@,
            i,
            j,
            strokes@.len() as int,
        ) by {
            assert(copy.px(i, j) == img.px(i, j));
            lemma_stroked_alike(copy, *img, strokes@, i, j, strokes@.len() as int);
        }
    }
    out
}

/// The colors that tell frames apart.
pub open spec fn palette(source: int) -> [u8; 3] {
    let k = source % 7;
    if k == 0 {
        [255, 70, 70]
    } else if k == 1 {
        [70, 160, 255]
    } else if k == 2 {
        [70, 255, 120]
    } else if k == 3 {
        [255, 220, 70]
    } else if k == 4 {
        [210, 90, 255]
    } else if k == 5 {
        [255, 130, 40]
    } else {
        [40, 255, 240]
    }
}

fn palette_color(source: u8) -> (c: [u8; 3])
    ensures
        c == palette(source as int),
{
    let k: u8 = source % 7;
    let c: [u8; 3] = if k == 0 {
        [255, 70, 70]
    } else if k == 1 {
        [70, 160, 255]
    } else if k == 2 {
        [70, 255, 120]
    } else if k == 3 {
        [255, 220, 70]
    } else if k == 4 {
        [210, 90, 255]
    } else if k == 5 {
        [255, 130, 40]
    } else {
        [40, 255, 240]
    };
    assert(c =~= palette(source as int));
    c
}

/// Seven tenths of one level and three tenths of another.
pub open spec fn blended_level(p: u8, c: u8) -> u8 {
    ((p * 70 + c * 30) / 100) as u8
}

/// Seven tenths of one color and three tenths of another.
pub open spec fn blended(p: [u8; 3], c: [u8; 3]) -> [u8; 3] {
    [blended_level(p[0], c[0]), blended_level(p[1], c[1]), blended_level(p[2], c[2])]
}

fn blend_level(p: u8, c: u8) -> (r: u8)
    ensures
        r == blended_level(p, c),
{
    ((p as u16 * 70 + c as u16 * 30) / 100) as u8
}

fn blend(p: [u8; 3], c: [u8; 3]) -> (r: [u8; 3])
    ensures
        r == blended(p, c),
{
    let r: [u8; 3] = [blend_level(p[0], c[0]), blend_level(p[1], c[1]), blend_level(p[2], c[2])];
    assert(r =~= blended(p, c));
    r
}

/// The color of a pixel of a canvas whose frames are tinted: white on a boundary, mixed with the
/// color of its frame elsewhere, and unchanged where there is no frame.
pub open spec fn block_color(img: RgbImage, map: SourceMap, x: int, y: int) -> [u8; 3] {
    if on_boundary(map, x, y) {
        white()
    } else if map.assigned(x, y) {
        blended(img.px(x, y), palette(map.at(x, y) as int))
    } else {
        img.px(x, y)
    }
}

/// Tints each frame of a canvas in a color of its own, and draws the boundaries in white.
#[verifier::loop_isolation(false)]
pub fn draw_source_block_overlay(stitched: &RgbImage, source_map: &SourceMap) -> (out: RgbImage)
    requires
        same_size(*stitched, *source_map),
        countable(handoffs(*source_map, source_map.data@.len() as int)),
    ensures
        out.w() == stitched.w(),
        out.h() == stitched.h(),
        forall|x: int, y: int|
            out.has(x, y) ==> #[trigger] out.px(x, y) == block_color(
                *stitched,
                *source_map,
                x,
                y,
            ),
{
    let (w, h) = stitched.dimensions();
    let (boundary, _counts) = source_boundary_map(source_map);
    let white_color: [u8; 3] = [255, 255, 255];
    assert(white_color =~= white());
    let mut out = stitched.duplicate();
    for y in 0..h
        invariant
            out.w() == w,
            out.h() == h,
            forall|i: int, j: int|
                out.has(i, j) ==> #[trigger] out.px(i, j) == if scanned(i, j, 0, y as int) {
                    block_color(*stitched, *source_map, i, j)
                } else {
                    stitched.px(i, j)
                },
    {
        for x in 0..w
            invariant
                out.w() == w,
                out.h() == h,
                forall|i: int, j: int|
                    out.has(i, j) ==> #[trigger] out.px(i, j) == if scanned(
                        i,
                        j,
                        x as int,
                        y as int,
                    ) {
                        block_color(*stitched, *source_map, i, j)
                    } else {
                        stitched.px(i, j)
                    },
        {
            proof {
                lemma_cell_bound(w as int, h as int, x as int, y as int);
                lemma_index_of_cell(w as int, x as int, y as int);
                assert(boundary.len() == boundary@.len());
            }
            let s: u8 = source_map.get(x, y);
            if boundary[y as usize * w as usize + x as usize] {
                out.put_pixel(x, y, white_color);
            } else if s != SourceMap::UNASSIGNED {
                let p = out.get_pixel(x, y);
                out.put_pixel(x, y, blend(p, palette_color(s)));
            }
        }
    }
    out
}

/// Whether the pixel `(a, b)` is on a boundary that is visible.
pub open spec fn shows_seam(
    map: SourceMap,
    grad: Seq<Single>,
    contrast: Seq<Single>,
    a: int,
    b: int,
) -> bool {
    &&& map.has(a, b)
    &&& on_boundary(map, a, b)
    &&& stands_out(grad, contrast, cell(map.width as int, a, b))
}

/// Whether a visible boundary pixel before `(x, y)` leaves the pixel `(i, j)` red: it lies within two
/// pixels of it, and the pixel itself was not painted yellow later on.
pub open spec fn reddened(
    map: SourceMap,
    grad: Seq<Single>,
    contrast: Seq<Single>,
    i: int,
    j: int,
    x: int,
    y: int,
) -> bool {
    exists|a: int, b: int|
        {
            &&& #[trigger] shows_seam(map, grad, contrast, a, b)
            &&& scanned(a, b, x, y)
            &&& square(a, b, 2)(i, j)
            &&& !(on_boundary(map, i, j) && scanned(i, j, x, y) && scanned(a, b, i, j))
        }
}

/// The color of a pixel after the boundary pixels before `(x, y)` were drawn, row by row: each of
/// them in yellow, and those that are visible with a red square around them.
pub open spec fn seam_color(
    img: RgbImage,
    map: SourceMap,
    grad: Seq<Single>,
    contrast: Seq<Single>,
    i: int,
    j: int,
    x: int,
    y: int,
) -> [u8; 3] {
    if reddened(map, grad, contrast, i, j, x, y) {
        red()
    } else if on_boundary(map, i, j) && scanned(i, j, x, y) {
        yellow()
    } else {
        img.px(i, j)
    }
}

spec fn seams_drawn(
    img: RgbImage,
    map: SourceMap,
    grad: Seq<Single>,
    contrast: Seq<Single>,
    x: int,
    y: int,
    out: RgbImage,
) -> bool {
    &&& out.w() == img.w()
    &&& out.h() == img.h()
    &&& forall|i: int, j: int|
        out.has(i, j) ==> #[trigger] out.px(i, j) == seam_color(
            img,
            map,
            grad,
            contrast,
            i,
            j,
            x,
            y,
        )
}

/// How the next pixel changes which pixels are red.
proof fn lemma_reddened_step(
    map: SourceMap,
    grad: Seq<Single>,
    contrast: Seq<Single>,
    i: int,
    j: int,
    x: int,
    y: int,
)
    requires
        map.has(i, j),
        map.has(x, y),
    ensures
        reddened(map, grad, contrast, i, j, x + 1, y) == if shows_seam(map, grad, contrast, x, y)
            && square(x, y, 2)(i, j) {
            true
        } else if i == x && j == y && on_boundary(map, i, j) {
            false
        } else {
            reddened(map, grad, contrast, i, j, x, y)
        },
{
    let now = reddened(map, grad, contrast, i, j, x + 1, y);
    let was = reddened(map, grad, contrast, i, j, x, y);
    if shows_seam(map, grad, contrast, x, y) && square(x, y, 2)(i, j) {
        assert(now);
    } else {
        if was && !(i == x && j == y && on_boundary(map, i, j)) {
            let (a, b) = choose|a: int, b: int|
                {
                    &&& #[trigger] shows_seam(map, grad, contrast, a, b)
                    &&& scanned(a, b, x, y)
                    &&& square(a, b, 2)(i, j)
                    &&& !(on_boundary(map, i, j) && scanned(i, j, x, y) && scanned(a, b, i, j))
                };
            assert(shows_seam(map, grad, contrast, a, b));
            assert(now);
        }
        if now {
            let (a, b) = choose|a: int, b: int|
                {
                    &&& #[trigger] shows_seam(map, grad, contrast, a, b)
                    &&& scanned(a, b, x + 1, y)
                    &&& square(a, b, 2)(i, j)
                    &&& !(on_boundary(map, i, j) && scanned(i, j, x + 1, y) && scanned(
                        a,
                        b,
                        i,
                        j,
                    ))
                };
            assert(shows_seam(map, grad, contrast, a, b));
            assert(!(a == x && b == y));
            assert(was);
        }
    }
}

fn draw_seam_pixel(
    out: &mut RgbImage,
    x: u32,
    y: u32,
    on: bool,
    visible: bool,
    Ghost(img): Ghost<RgbImage>,
    Ghost(map): Ghost<SourceMap>,
    Ghost(grad): Ghost<Seq<Single>>,
    Ghost(contrast): Ghost<Seq<Single>>,
)
    requires
        same_size(img, map),
        map.has(x as int, y as int),
        on == on_boundary(map, x as int, y as int),
        visible == stands_out(grad, contrast, cell(map.width as int, x as int, y as int)),
        seams_drawn(img, map, grad, contrast, x as int, y as int, *old(out)),
    ensures
        seams_drawn(img, map, grad, contrast, x + 1, y as int, *final(out)),
{
    let ghost before = *out;
    if on {
        let yellow_color: [u8; 3] = [255, 230, 0];
        let red_color: [u8; 3] = [255, 0, 0];
        assert(yellow_color =~= yellow());
        assert(red_color =~= red());
        out.put_pixel(x, y, yellow_color);
        if visible {
            draw_point_thick(out, x, y, red_color, 2);
        }
    }
    proof {
        assert forall|i: int, j: int| out.has(i, j) implies #[trigger] out.px(i, j) == seam_color(
            img,
            map,
            grad,
            contrast,
            i,
            j,
            x + 1,
            y as int,
        ) by {
            lemma_reddened_step(map, grad, contrast, i, j, x as int, y as int);
            assert(before.px(i, j) == seam_color(
                img,
                map,
                grad,
                contrast,
                i,
                j,
                x as int,
                y as int,
            ));
        }
    }
}

/// The rectangles around groups of pixels.
pub open spec fn component_strokes(components: Seq<RiskyComponent>, n: int) -> Seq<Stroke>
    decreases n,
{
    if n <= 0 {
        Seq::empty()
    } else {
        let b = components[n - 1].bbox_xywh;
        let before = component_strokes(components, n - 1);
        if b[2] > 0 && b[3] > 0 {
            before.push(
                Stroke {
                    x0: b[0],
                    y0: b[1],
                    x1: (b[0] + b[2] - 1) as u32,
                    y1: (b[1] + b[3] - 1) as u32,
                    color: red(),
                },
            )
        } else {
            before
        }
    }
}

/// Whether the ends of all rectangles are coordinates.
pub open spec fn components_fit(components: Seq<RiskyComponent>) -> bool {
    forall|k: int|
        0 <= k < components.len() ==> {
            let b = (#[trigger] components[k]).bbox_xywh;
            b[0] + b[2] <= u32::MAX && b[1] + b[3] <= u32::MAX
        }
}

/// Marks the boundaries of a canvas in yellow, those that are visible in red, and the groups of
/// pixels at risk with red rectangles.
#[verifier::loop_isolation(false)]
pub fn draw_evaluation_overlay(
    stitched: &RgbImage,
    source_map: &SourceMap,
    grad: &[Single],
    contrast: &[Single],
    report: &EvaluationReport,
) -> (out: RgbImage)
    requires
        same_size(*stitched, *source_map),
        countable(handoffs(*source_map, source_map.data@.len() as int)),
        source_map.data@.len() <= grad@.len(),
        source_map.data@.len() <= contrast@.len(),
        report.high_risk_components@.len() > 0 ==> stitched.w() > 0 && stitched.h() > 0,
        components_fit(report.high_risk_components@),
    ensures
        exists|seams: RgbImage|
            {
                &&& seams.w() == stitched.w()
                &&& seams.h() == stitched.h()
                &&& forall|i: int, j: int|
                    seams.has(i, j) ==> #[trigger] seams.px(i, j) == seam_color(
                        *stitched,
                        *source_map,
                        grad@,
                        contrast@,
                        i,
                        j,
                        0,
                        stitched.h(),
                    )
                &&& #[trigger] is_stroked(
                    seams,
                    component_strokes(
                        report.high_risk_components@,
                        report.high_risk_components@.len() as int,
                    ),
                    out,
                )
            },
{
    let (w, h) = stitched.dimensions();
    let components = &report.high_risk_components;
    let (boundary, _counts) = source_boundary_map(source_map);
    let mut out = stitched.duplicate();
    for y in 0..h
        invariant
            seams_drawn(*stitched, *source_map, grad@, contrast@, 0, y as int, out),
    {
        for x in 0..w
            invariant
                seams_drawn(*stitched, *source_map, grad@, contrast@, x as int, y as int, out),
        {
            proof {
                lemma_cell_bound(w as int, h as int, x as int, y as int);
                lemma_index_of_cell(w as int, x as int, y as int);
                assert(boundary.len() == boundary@.len());
            }
            let k: usize = y as usize * w as usize + x as usize;
            draw_seam_pixel(
                &mut out,
                x,
                y,
                boundary[k],
                is_visible(grad, contrast, k),
                Ghost(*stitched),
                Ghost(*source_map),
                Ghost(grad@),
                Ghost(contrast@),
            );
        }
        proof {
            lemma_row_end(*stitched, *source_map, grad@, contrast@, y as int, out);
        }
    }
    let ghost seams = out;
    let red_color: [u8; 3] = [255, 0, 0];
    assert(red_color =~= red());
    let mut strokes: Vec<Stroke> = Vec::new();
    for k in 0..components.len()
        invariant
            strokes@ == component_strokes(components@, k as int),
            strokes@.len() <= k,
    {
        let b = components[k].bbox_xywh;
        if b[2] > 0 && b[3] > 0 {
            strokes.push(
                Stroke {
                    x0: b[0],
                    y0: b[1],
                    x1: (b[0] + b[2]) - 1,
                    y1: (b[1] + b[3]) - 1,
                    color: red_color,
                },
            );
        }
    }
    draw_all(&mut out, &strokes);
    assert(is_stroked(
        seams,
        component_strokes(components@, components@.len() as int),
        out,
    ));
    out
}

/// The end of a row is the start of the next one.
proof fn lemma_row_end(
    img: RgbImage,
    map: SourceMap,
    grad: Seq<Single>,
    contrast: Seq<Single>,
    y: int,
    out: RgbImage,
)
    requires
        same_size(img, map),
        seams_drawn(img, map, grad, contrast, map.width as int, y, out),
    ensures
        seams_drawn(img, map, grad, contrast, 0, y + 1, out),
{
    assert forall|i: int, j: int| out.has(i, j) implies #[trigger] out.px(i, j) == seam_color(
        img,
        map,
        grad,
        contrast,
        i,
        j,
        0,
        y + 1,
    ) by {
        assert(out.px(i, j) == seam_color(
            img,
            map,
            grad,
            contrast,
            i,
            j,
            map.width as int,
            y,
        ));
        let w = map.width as int;
        if reddened(map, grad, contrast, i, j, w, y) {
            let (a, b) = choose|a: int, b: int|
                {
                    &&& #[trigger] shows_seam(map, grad, contrast, a, b)
                    &&& scanned(a, b, w, y)
                    &&& square(a, b, 2)(i, j)
                    &&& !(on_boundary(map, i, j) && scanned(i, j, w, y) && scanned(a, b, i, j))
                };
            assert(shows_seam(map, grad, contrast, a, b));
        }
        if reddened(map, grad, contrast, i, j, 0, y + 1) {
            let (a, b) = choose|a: int, b: int|
                {
                    &&& #[trigger] shows_seam(map, grad, contrast, a, b)
                    &&& scanned(a, b, 0, y + 1)
                    &&& square(a, b, 2)(i, j)
                    &&& !(on_boundary(map, i, j) && scanned(i, j, 0, y + 1) && scanned(
                        a,
                        b,
                        i,
                        j,
                    ))
                };
            assert(shows_seam(map, grad, contrast, a, b));
        }
    }
}

/// The lines of a rectangle that lies on the image are four pixels thick: they hold the pixels of
/// the rectangle that are less than four away from one of its sides.
pub proof fn lines_are_four_pixels_thick(s: Stroke, w: int, h: int, i: int, j: int)
    requires
        s.x0 + 3 <= s.x1 < w,
        s.y0 + 3 <= s.y1 < h,
    ensures
        border(s, w, h)(i, j) <==> {
            &&& s.x0 <= i <= s.x1
            &&& s.y0 <= j <= s.y1
            &&& i - s.x0 < 4 || s.x1 - i < 4 || j - s.y0 < 4 || s.y1 - j < 4
        },
{
}

/// A corner beyond the image is drawn at its edge.
pub proof fn corners_stay_on_the_image(s: Stroke, w: int, h: int, i: int, j: int)
    requires
        0 < w <= u32::MAX,
        0 < h <= u32::MAX,
    ensures
        s.x0 >= w ==> border(s, w, h)(i, j) == border((Stroke { x0: (w - 1) as u32, ..s }), w, h)(i, j),
        s.y0 >= h ==> border(s, w, h)(i, j) == border((Stroke { y0: (h - 1) as u32, ..s }), w, h)(i, j),
        s.x1 >= w ==> border(s, w, h)(i, j) == border((Stroke { x1: (w - 1) as u32, ..s }), w, h)(i, j),
        s.y1 >= h ==> border(s, w, h)(i, j) == border((Stroke { y1: (h - 1) as u32, ..s }), w, h)(i, j),
{
}

proof fn lemma_stroked(img: RgbImage, strokes: Seq<Stroke>, i: int, j: int, n: int, k: int)
    requires
        0 <= k < n <= strokes.len(),
        border(strokes[k], img.w(), img.h())(i, j),
        forall|m: int| k < m < n ==> !border(#[trigger] strokes[m], img.w(), img.h())(i, j),
    ensures
        stroked(img, strokes, i, j, n) == strokes[k].color,
    decreases n,
{
    if k < n - 1 {
        assert(!border(strokes[n - 1], img.w(), img.h())(i, j));
        lemma_stroked(img, strokes, i, j, n - 1, k);
    }
}

proof fn lemma_not_stroked(img: RgbImage, strokes: Seq<Stroke>, i: int, j: int, n: int)
    requires
        0 <= n <= strokes.len(),
        forall|m: int| 0 <= m < n ==> !border(#[trigger] strokes[m], img.w(), img.h())(i, j),
    ensures
        stroked(img, strokes, i, j, n) == img.px(i, j),
    decreases n,
{
    if n > 0 {
        assert(!border(strokes[n - 1], img.w(), img.h())(i, j));
        lemma_not_stroked(img, strokes, i, j, n - 1);
    }
}

/// A pixel has the color of the last rectangle whose lines go through it.
pub proof fn later_rectangles_cover_earlier_ones(
    before: RgbImage,
    strokes: Seq<Stroke>,
    after: RgbImage,
    i: int,
    j: int,
    k: int,
)
    requires
        is_stroked(before, strokes, after),
        before.has(i, j),
        0 <= k < strokes.len(),
        border(strokes[k], before.w(), before.h())(i, j),
        forall|m: int|
            k < m < strokes.len() ==> !border(#[trigger] strokes[m], before.w(), before.h())(i, j),
    ensures
        after.px(i, j) == strokes[k].color,
{
    lemma_stroked(before, strokes, i, j, strokes.len() as int, k);
}

/// A pixel that no line goes through keeps its color.
pub proof fn pixels_off_the_lines_stay(
    before: RgbImage,
    strokes: Seq<Stroke>,
    after: RgbImage,
    i: int,
    j: int,
)
    requires
        is_stroked(before, strokes, after),
        before.has(i, j),
        forall|m: int|
            0 <= m < strokes.len() ==> !border(#[trigger] strokes[m], before.w(), before.h())(i, j),
    ensures
        after.px(i, j) == before.px(i, j),
{
    lemma_not_stroked(before, strokes, i, j, strokes.len() as int);
}

proof fn lemma_band_strokes(w: int, bands: Seq<DuplicateBand>, n: int, k: int)
    requires
        0 <= k < n <= bands.len(),
    ensures
        band_strokes(w, bands, n).len() == 2 * n,
        band_strokes(w, bands, n)[2 * k] == band_stroke(w, bands[k], false),
        band_strokes(w, bands, n)[2 * k + 1] == band_stroke(w, bands[k], true),
    decreases n,
{
    lemma_band_stroke_count(w, bands, n - 1);
    if k < n - 1 {
        lemma_band_strokes(w, bands, n - 1, k);
    }
}

proof fn lemma_band_stroke_count(w: int, bands: Seq<DuplicateBand>, n: int)
    requires
        0 <= n <= bands.len(),
    ensures
        band_strokes(w, bands, n).len() == 2 * n,
    decreases n,
{
    if n > 0 {
        lemma_band_stroke_count(w, bands, n - 1);
    }
}

proof fn lemma_duplicate_strokes(w: int, report: DuplicateReport, n: int, k: int)
    requires
        0 <= n <= report.patch_duplicates@.len(),
    ensures
        ({
            let bands = report.band_duplicates@.len() as int;
            let strokes = duplicate_strokes(w, report, n);
            &&& strokes.len() == 2 * bands + 2 * n
            &&& forall|m: int|
                0 <= m < 2 * bands ==> #[trigger] strokes[m] == band_strokes(
                    w,
                    report.band_duplicates@,
                    bands,
                )[m]
            &&& 0 <= k < n ==> strokes[2 * bands + 2 * k] == patch_stroke(
                report.patch_duplicates@[k],
                false,
            ) && strokes[2 * bands + 2 * k + 1] == patch_stroke(report.patch_duplicates@[k], true)
        }),
    decreases n,
{
    lemma_band_stroke_count(w, report.band_duplicates@, report.band_duplicates@.len() as int);
    if n > 0 {
        lemma_duplicate_strokes(w, report, n - 1, k);
    }
}

/// The rectangles of repeated content come two for each find, first those of the bands and then
/// those of the patches: across the image in red for the two bands, in green for the first patch and
/// in cyan for the second.
pub proof fn repeated_content_is_framed(w: int, report: DuplicateReport, b: int, p: int)
    requires
        0 < w <= u32::MAX,
        report_fits(report),
    ensures
        ({
            let bands = report.band_duplicates@;
            let patches = report.patch_duplicates@;
            let strokes = duplicate_strokes(w, report, patches.len() as int);
            let at = 2 * bands.len() + 2 * p;
            &&& strokes.len() == 2 * bands.len() + 2 * patches.len()
            &&& 0 <= b < bands.len() ==> {
                let u = strokes[2 * b];
                let l = strokes[2 * b + 1];
                &&& u.x0 == 0 && u.x1 == w - 1 && l.x0 == 0 && l.x1 == w - 1
                &&& u.y0 == bands[b].y1 && u.y1 == bands[b].y1 + bands[b].height
                &&& l.y0 == bands[b].y2 && l.y1 == bands[b].y2 + bands[b].height
                &&& u.color[0] == 255 && u.color[1] == 0 && u.color[2] == 0
                &&& l.color[0] == 255 && l.color[1] == 0 && l.color[2] == 0
            }
            &&& 0 <= p < patches.len() ==> {
                let f = strokes[at];
                let s = strokes[at + 1];
                let fr = patches[p].rect_a;
                let sr = patches[p].rect_b;
                &&& f.x0 == fr[0] && f.y0 == fr[1]
                &&& f.x1 == fr[0] + fr[2] && f.y1 == fr[1] + fr[3]
                &&& s.x0 == sr[0] && s.y0 == sr[1]
                &&& s.x1 == sr[0] + sr[2] && s.y1 == sr[1] + sr[3]
                &&& f.color[0] == 0 && f.color[1] == 255 && f.color[2] == 0
                &&& s.color[0] == 0 && s.color[1] == 255 && s.color[2] == 255
            }
        }),
{
    let bands = report.band_duplicates@;
    let patches = report.patch_duplicates@;
    lemma_duplicate_strokes(w, report, patches.len() as int, p);
    if 0 <= b < bands.len() {
        lemma_band_strokes(w, bands, bands.len() as int, b);
        let d = bands[b];
        assert(d.y1 + d.height <= u32::MAX);
    }
    if 0 <= p < patches.len() {
        let d = patches[p];
        assert(d.rect_a[0] + d.rect_a[2] <= u32::MAX);
    }
}

proof fn lemma_component_strokes(components: Seq<RiskyComponent>, n: int, k: int) -> (m: int)
    requires
        0 <= k < n <= components.len(),
        components[k].bbox_xywh[2] > 0,
        components[k].bbox_xywh[3] > 0,
    ensures
        ({
            let strokes = component_strokes(components, n);
            let b = components[k].bbox_xywh;
            &&& 0 <= m < strokes.len()
            &&& strokes[m] == (Stroke {
                x0: b[0],
                y0: b[1],
                x1: (b[0] + b[2] - 1) as u32,
                y1: (b[1] + b[3] - 1) as u32,
                color: red(),
            })
        }),
    decreases n,
{
    if k < n - 1 {
        lemma_component_strokes(components, n - 1, k)
    } else {
        component_strokes(components, n - 1).len() as int
    }
}

proof fn lemma_component_of_stroke(components: Seq<RiskyComponent>, n: int, m: int) -> (k: int)
    requires
        0 <= n <= components.len(),
        0 <= m < component_strokes(components, n).len(),
    ensures
        ({
            let s = component_strokes(components, n)[m];
            let b = components[k].bbox_xywh;
            &&& 0 <= k < n
            &&& b[2] > 0 && b[3] > 0
            &&& s == (Stroke {
                x0: b[0],
                y0: b[1],
                x1: (b[0] + b[2] - 1) as u32,
                y1: (b[1] + b[3] - 1) as u32,
                color: red(),
            })
        }),
    decreases n,
{
    if n > 0 && m < component_strokes(components, n - 1).len() {
        lemma_component_of_stroke(components, n - 1, m)
    } else {
        n - 1
    }
}

/// Every component with a box is framed in red, along the outermost pixels of its box, and nothing
/// else is.
pub proof fn components_are_framed(components: Seq<RiskyComponent>, k: int, m: int)
    requires
        components_fit(components),
    ensures
        ({
            let strokes = component_strokes(components, components.len() as int);
            &&& 0 <= k < components.len() && components[k].bbox_xywh[2] > 0
                && components[k].bbox_xywh[3] > 0 ==> exists|i: int|
                {
                    let b = components[k].bbox_xywh;
                    &&& 0 <= i < strokes.len()
                    &&& frames_box(#[trigger] component_strokes(
                        components,
                        components.len() as int,
                    )[i], b)
                }
            &&& 0 <= m < strokes.len() ==> exists|i: int|
                {
                    &&& 0 <= i < components.len()
                    &&& frames_box(strokes[m], (#[trigger] components[i]).bbox_xywh)
                }
        }),
{
    let strokes = component_strokes(components, components.len() as int);
    if 0 <= k < components.len() && components[k].bbox_xywh[2] > 0 && components[k].bbox_xywh[3]
        > 0 {
        let i = lemma_component_strokes(components, components.len() as int, k);
        assert(frames_box(strokes[i], components[k].bbox_xywh));
    }
    if 0 <= m < strokes.len() {
        let i = lemma_component_of_stroke(components, components.len() as int, m);
        assert(frames_box(strokes[m], components[i].bbox_xywh));
    }
}

/// Whether a red rectangle goes along the outermost pixels of a box.
pub open spec fn frames_box(s: Stroke, b: [u32; 4]) -> bool {
    &&& s.x0 == b[0] && s.y0 == b[1]
    &&& s.x1 + 1 == b[0] + b[2] && s.y1 + 1 == b[1] + b[3]
    &&& s.color[0] == 255 && s.color[1] == 0 && s.color[2] == 0
}

/// A tinted pixel keeps seven tenths of its level, and takes three tenths from the tint, rounded
/// down.
pub proof fn tints_mix_seven_to_three(p: u8, c: u8)
    ensures
        100 * blended_level(p, c) <= 70 * p + 30 * c < 100 * blended_level(p, c) + 100,
{
}

/// The tints repeat after seven frames, and no two of seven neighbors share one.
pub proof fn neighbors_have_different_tints(a: int, b: int)
    requires
        0 <= a < b,
    ensures
        palette(a + 7) == palette(a),
        b - a < 7 ==> palette(a) != palette(b),
        a % 7 == 0 ==> palette(a)[0] == 255 && palette(a)[1] == 70 && palette(a)[2] == 70,
        a % 7 == 1 ==> palette(a)[0] == 70 && palette(a)[1] == 160 && palette(a)[2] == 255,
        a % 7 == 2 ==> palette(a)[0] == 70 && palette(a)[1] == 255 && palette(a)[2] == 120,
        a % 7 == 3 ==> palette(a)[0] == 255 && palette(a)[1] == 220 && palette(a)[2] == 70,
        a % 7 == 4 ==> palette(a)[0] == 210 && palette(a)[1] == 90 && palette(a)[2] == 255,
        a % 7 == 5 ==> palette(a)[0] == 255 && palette(a)[1] == 130 && palette(a)[2] == 40,
        a % 7 == 6 ==> palette(a)[0] == 40 && palette(a)[1] == 255 && palette(a)[2] == 240,
{
    let c = palette(a);
    let d = palette(b);
    if c == d {
        assert(c[0] == d[0] && c[1] == d[1] && c[2] == d[2]);
    }
}

/// The boundaries of tinted frames are white, a pixel without a frame keeps its color, and every
/// other pixel is mixed with the tint of its frame.
pub proof fn frames_are_tinted(img: RgbImage, map: SourceMap, x: int, y: int)
    ensures
        ({
            let c = block_color(img, map, x, y);
            let s = map.data@[y * map.width + x];
            let p = img.px(x, y);
            let t = palette(s as int);
            &&& on_boundary(map, x, y) ==> c[0] == 255 && c[1] == 255 && c[2] == 255
            &&& !on_boundary(map, x, y) && s == 255 ==> c == p
            &&& !on_boundary(map, x, y) && s != 255 ==> {
                &&& 100 * c[0] <= 70 * p[0] + 30 * t[0] < 100 * c[0] + 100
                &&& 100 * c[1] <= 70 * p[1] + 30 * t[1] < 100 * c[1] + 100
                &&& 100 * c[2] <= 70 * p[2] + 30 * t[2] < 100 * c[2] + 100
            }
        }),
{
    let p = img.px(x, y);
    let t = palette(map.at(x, y) as int);
    tints_mix_seven_to_three(p[0], t[0]);
    tints_mix_seven_to_three(p[1], t[1]);
    tints_mix_seven_to_three(p[2], t[2]);
}

/// Whether the pixel `(a, b)` is on a boundary and stands out, and is no more than two pixels away
/// from `(i, j)` in its row and its column.
pub open spec fn seam_nearby(
    map: SourceMap,
    grad: Seq<Single>,
    contrast: Seq<Single>,
    i: int,
    j: int,
    a: int,
    b: int,
) -> bool {
    let k = b * map.width + a;
    &&& 0 <= a < map.width && 0 <= b < map.height
    &&& on_boundary(map, a, b)
    &&& 0x41e0_0000 < grad[k].bits <= 0x7f80_0000 || 0x4190_0000 < contrast[k].bits <= 0x7f80_0000
    &&& -2 <= a - i <= 2
    &&& -2 <= b - j <= 2
}

/// Once all seams are drawn, a pixel is red next to a boundary pixel that stands out; but a boundary
/// pixel that does not stand out itself is red only where such a pixel comes after it, and yellow
/// otherwise. All other pixels keep their color.
pub proof fn seams_are_red_where_they_stand_out(
    img: RgbImage,
    map: SourceMap,
    grad: Seq<Single>,
    contrast: Seq<Single>,
    i: int,
    j: int,
    a: int,
    b: int,
)
    requires
        map.has(i, j),
    ensures
        ({
            let c = seam_color(img, map, grad, contrast, i, j, 0, map.height as int);
            let near = seam_nearby(map, grad, contrast, i, j, a, b);
            let on = on_boundary(map, i, j);
            &&& near && (!on || b > j || (b == j && a >= i)) ==> c[0] == 255 && c[1] == 0 && c[2]
                == 0
            &&& (forall|u: int, v: int|
                #[trigger] seam_nearby(map, grad, contrast, i, j, u, v) ==> on && (v < j || (v == j
                    && u < i))) ==> if on {
                c[0] == 255 && c[1] == 230 && c[2] == 0
            } else {
                c == img.px(i, j)
            }
        }),
{
    let h = map.height as int;
    if seam_nearby(map, grad, contrast, i, j, a, b) {
        assert(shows_seam(map, grad, contrast, a, b));
    }
    if reddened(map, grad, contrast, i, j, 0, h) {
        let (u, v) = choose|u: int, v: int|
            {
                &&& #[trigger] shows_seam(map, grad, contrast, u, v)
                &&& scanned(u, v, 0, h)
                &&& square(u, v, 2)(i, j)
                &&& !(on_boundary(map, i, j) && scanned(i, j, 0, h) && scanned(u, v, i, j))
            };
        assert(seam_nearby(map, grad, contrast, i, j, u, v));
    }
}

/// A thick point is a square: it covers the pixels that are no further away than the radius, in the
/// row and in the column.
pub proof fn thick_points_are_squares(
    before: RgbImage,
    x: int,
    y: int,
    radius: int,
    color: [u8; 3],
    after: RgbImage,
    i: int,
    j: int,
)
    requires
        is_painted(before, square(x, y, radius), color, after),
        before.has(i, j),
    ensures
        after.px(i, j) == if -radius <= i - x <= radius && -radius <= j - y <= radius {
            color
        } else {
            before.px(i, j)
        },
{
}

} // verus!
