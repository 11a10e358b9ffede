//! Putting frames on a canvas.

use vstd::prelude::*;

use crate::buffers::RgbImage;
use crate::canvas::{faithful, faithful_at, same_size};
use crate::geometry::Position;
use crate::grid::{lemma_cell_bound, scanned};
use crate::source_map::SourceMap;

verus! {

/// Whether a frame at `pos` has a pixel for the canvas pixel `(x, y)`.
pub open spec fn shows(img: RgbImage, pos: Position, x: int, y: int) -> bool {
    img.has(x - pos.x, y - pos.y)
}

/// Whether the second canvas is the first one with a frame put on it wherever `takes` holds: those
/// pixels get the color of the frame and its number, and all others stay as they are.
pub open spec fn pasted(
    before: (RgbImage, SourceMap),
    img: RgbImage,
    pos: Position,
    source: u8,
    takes: spec_fn(int, int) -> bool,
    after: (RgbImage, SourceMap),
) -> bool {
    &&& same_size(after.0, after.1)
    &&& after.1.width == before.1.width
    &&& after.1.height == before.1.height
    &&& forall|x: int, y: int|
        after.1.has(x, y) ==> #[trigger] after.1.at(x, y) == if shows(img, pos, x, y) && takes(
            x,
            y,
        ) {
            source
        } else {
            before.1.at(x, y)
        }
    &&& forall|x: int, y: int|
        after.1.has(x, y) ==> #[trigger] after.0.px(x, y) == if shows(img, pos, x, y) && takes(
            x,
            y,
        ) {
            img.px(x - pos.x, y - pos.y)
        } else {
            before.0.px(x, y)
        }
}

/// Every pixel that the frame shows.
pub open spec fn everywhere() -> spec_fn(int, int) -> bool {
    |x: int, y: int| true
}

/// The pixels that have no frame yet.
pub open spec fn unassigned(map: SourceMap) -> spec_fn(int, int) -> bool {
    |x: int, y: int| !map.assigned(x, y)
}

/// The pixels that have no frame yet, and those of the rectangle that lie on the seam or below it.
/// `seam` holds a row for each column of the rectangle.
pub open spec fn below_seam(
    map: SourceMap,
    seam: Seq<u32>,
    rect: (u32, u32, u32, u32),
) -> spec_fn(int, int) -> bool {
    |x: int, y: int|
        !map.assigned(x, y) || (rect.0 <= x < rect.2 && rect.1 <= y < rect.3 && seam[x - rect.0]
            <= y)
}

/// Puts a whole frame on the canvas.
#[verifier::loop_isolation(false)]
pub fn paste_full(
    canvas: &mut RgbImage,
    source_map: &mut SourceMap,
    img: &RgbImage,
    pos: Position,
    source: u8,
)
    requires
        same_size(*old(canvas), *old(source_map)),
        old(source_map).width <= i32::MAX,
        old(source_map).height <= i32::MAX,
    ensures
        pasted(
            (*old(canvas), *old(source_map)),
            *img,
            pos,
            source,
            everywhere(),
            (*final(canvas), *final(source_map)),
        ),
{
    let ghost before = (*canvas, *source_map);
    let (w, h) = img.dimensions();
    let cw: i64 = source_map.width as i64;
    let ch: i64 = source_map.height as i64;
    for sy in 0..h
        invariant
            pasted(
                before,
                *img,
                pos,
                source,
                |x: int, y: int| scanned(x - pos.x, y - pos.y, 0, sy as int),
                (*canvas, *source_map),
            ),
    {
        for sx in 0..w
            invariant
                pasted(
                    before,
                    *img,
                    pos,
                    source,
                    |x: int, y: int| scanned(x - pos.x, y - pos.y, sx as int, sy as int),
                    (*canvas, *source_map),
                ),
        {
            let cx: i64 = pos.x as i64 + sx as i64;
            let cy: i64 = pos.y as i64 + sy as i64;
            if cx >= 0 && cy >= 0 && cx < cw && cy < ch {
                proof {
                    lemma_cell_bound(cw as int, ch as int, cx as int, cy as int);
                }
                canvas.put_pixel(cx as u32, cy as u32, img.get_pixel(sx, sy));
                source_map.set(cx as u32, cy as u32, source);
            }
        }
    }
}

/// Puts a frame on the canvas where no frame is yet.
#[verifier::loop_isolation(false)]
pub fn paste_unassigned(
    canvas: &mut RgbImage,
    source_map: &mut SourceMap,
    img: &RgbImage,
    pos: Position,
    source: u8,
)
    requires
        same_size(*old(canvas), *old(source_map)),
        old(source_map).width <= i32::MAX,
        old(source_map).height <= i32::MAX,
    ensures
        pasted(
            (*old(canvas), *old(source_map)),
            *img,
            pos,
            source,
            unassigned(*old(source_map)),
            (*final(canvas), *final(source_map)),
        ),
{
    let ghost before = (*canvas, *source_map);
    let (w, h) = img.dimensions();
    let cw: i64 = source_map.width as i64;
    let ch: i64 = source_map.height as i64;
    for sy in 0..h
        invariant
            pasted(
                before,
                *img,
                pos,
                source,
                |x: int, y: int|
                    scanned(x - pos.x, y - pos.y, 0, sy as int) && !before.1.assigned(x, y),
                (*canvas, *source_map),
            ),
    {
        for sx in 0..w
            invariant
                pasted(
                    before,
                    *img,
                    pos,
                    source,
                    |x: int, y: int|
                        scanned(x - pos.x, y - pos.y, sx as int, sy as int) && !before.1.assigned(
                            x,
                            y,
                        ),
                    (*canvas, *source_map),
                ),
        {
            let cx: i64 = pos.x as i64 + sx as i64;
            let cy: i64 = pos.y as i64 + sy as i64;
            if cx >= 0 && cy >= 0 && cx < cw && cy < ch {
                proof {
                    lemma_cell_bound(cw as int, ch as int, cx as int, cy as int);
                }
                if source_map.get(cx as u32, cy as u32) == SourceMap::UNASSIGNED {
                    canvas.put_pixel(cx as u32, cy as u32, img.get_pixel(sx, sy));
                    source_map.set(cx as u32, cy as u32, source);
                }
            }
        }
    }
}

/// Puts a frame on the canvas where no frame is yet and, inside the rectangle `x0..x1` by `y0..y1`,
/// from the seam downwards.
#[verifier::loop_isolation(false)]
pub fn paste_with_seam(
    canvas: &mut RgbImage,
    source_map: &mut SourceMap,
    incoming: &RgbImage,
    pos: Position,
    source: u8,
    seam: &[u32],
    x0: u32,
    y0: u32,
    x1: u32,
    y1: u32,
)
    requires
        same_size(*old(canvas), *old(source_map)),
        old(source_map).width <= i32::MAX,
        old(source_map).height <= i32::MAX,
        x1 - x0 <= seam@.len(),
    ensures
        pasted(
            (*old(canvas), *old(source_map)),
            *incoming,
            pos,
            source,
            below_seam(*old(source_map), seam@, (x0, y0, x1, y1)),
            (*final(canvas), *final(source_map)),
        ),
{
    let ghost before = (*canvas, *source_map);
    let ghost rect = (x0, y0, x1, y1);
    let (w, h) = incoming.dimensions();
    let cw: i64 = source_map.width as i64;
    let ch: i64 = source_map.height as i64;
    for sy in 0..h
        invariant
            pasted(
                before,
                *incoming,
                pos,
                source,
                |x: int, y: int|
                    scanned(x - pos.x, y - pos.y, 0, sy as int) && below_seam(
                        before.1,
                        seam@,
                        rect,
                    )(x, y),
                (*canvas, *source_map),
            ),
    {
        for sx in 0..w
            invariant
                pasted(
                    before,
                    *incoming,
                    pos,
                    source,
                    |x: int, y: int|
                        scanned(x - pos.x, y - pos.y, sx as int, sy as int) && below_seam(
                            before.1,
                            seam@,
                            rect,
                        )(x, y),
                    (*canvas, *source_map),
                ),
        {
            let cx: i64 = pos.x as i64 + sx as i64;
            let cy: i64 = pos.y as i64 + sy as i64;
            if cx >= 0 && cy >= 0 && cx < cw && cy < ch {
                let cxu: u32 = cx as u32;
                let cyu: u32 = cy as u32;
                proof {
                    lemma_cell_bound(cw as int, ch as int, cx as int, cy as int);
                }
                let replace = if source_map.get(cxu, cyu) == SourceMap::UNASSIGNED {
                    true
                } else if cxu >= x0 && cxu < x1 && cyu >= y0 && cyu < y1 {
                    cyu >= seam[(cxu - x0) as usize]
                } else {
                    false
                };
                assert(replace == below_seam(before.1, seam@, rect)(cxu as int, cyu as int));
                if replace {
                    canvas.put_pixel(cxu, cyu, incoming.get_pixel(sx, sy));
                    source_map.set(cxu, cyu, source);
                }
            }
        }
    }
}

/// Putting a frame on a faithful canvas under its own number keeps the canvas faithful, whichever
/// pixels it takes, and no pixel loses its frame.
pub proof fn pasting_keeps_a_canvas_faithful(
    images: Seq<RgbImage>,
    positions: Seq<Position>,
    before: (RgbImage, SourceMap),
    index: int,
    takes: spec_fn(int, int) -> bool,
    after: (RgbImage, SourceMap),
)
    requires
        faithful(images, positions, before.0, before.1),
        0 <= index < images.len(),
        index < positions.len(),
        index < SourceMap::UNASSIGNED,
        pasted(before, images[index], positions[index], index as u8, takes, after),
    ensures
        faithful(images, positions, after.0, after.1),
        forall|x: int, y: int|
            before.1.has(x, y) && before.1.assigned(x, y) ==> #[trigger] after.1.assigned(x, y),
{
    assert forall|x: int, y: int|
        #![trigger after.1.at(x, y)]
        after.1.has(x, y) implies faithful_at(
        images,
        positions,
        after.0,
        after.1,
        x,
        y,
    ) by {
        assert(before.1.at(x, y) == before.1.at(x, y));
        assert(after.0.px(x, y) == after.0.px(x, y));
    }
    assert forall|x: int, y: int| before.1.has(x, y) && before.1.assigned(x, y) implies
        #[trigger] after.1.assigned(x, y) by {
        assert(after.1.at(x, y) == after.1.at(x, y));
    }
}

/// A frame that is pasted changes nothing but the canvas pixels under it, and those that it takes
/// show its pixels and its number: all of them, those without a frame, or, with a seam, those
/// without a frame and those of the overlap from the row of the seam downwards.
pub proof fn pasting_takes_what_it_may(
    before: (RgbImage, SourceMap),
    img: RgbImage,
    pos: Position,
    source: u8,
    seam: Seq<u32>,
    rect: (u32, u32, u32, u32),
    after: (RgbImage, SourceMap),
    x: int,
    y: int,
)
    requires
        before.1.has(x, y),
        after.1.has(x, y),
    ensures
        ({
            let sx = x - pos.x;
            let sy = y - pos.y;
            let under = 0 <= sx < img.w() && 0 <= sy < img.h();
            let empty = before.1.data@[y * before.1.width + x] == 255;
            let below = rect.0 <= x < rect.2 && rect.1 <= y < rect.3 && y >= seam[x - rect.0];
            let taken = after.1.at(x, y) == source && after.0.px(x, y) == img.px(sx, sy);
            let kept = after.1.at(x, y) == before.1.at(x, y) && after.0.px(x, y) == before.0.px(
                x,
                y,
            );
            &&& pasted(before, img, pos, source, everywhere(), after) ==> if under {
                taken
            } else {
                kept
            }
            &&& pasted(before, img, pos, source, unassigned(before.1), after) ==> if under && empty {
                taken
            } else {
                kept
            }
            &&& pasted(before, img, pos, source, below_seam(before.1, seam, rect), after) ==> if under
                && (empty || below) {
                taken
            } else {
                kept
            }
        }),
{
}

} // verus!
