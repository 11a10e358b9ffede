//! Foreground masks: the pixels of a frame that belong to a moving subject.

use vstd::prelude::*;

use crate::buffers::GrayImage;
use crate::geometry::{covers, Position};
use crate::grid::{
    cell, in_grid, lemma_cell_bound, lemma_cell_of_index, lemma_cell_order, lemma_index_of_cell,
    scanned,
};
use crate::source_map::SourceMap;

verus! {

/// For each pixel of a frame, whether it belongs to the foreground.
#[derive(Debug, Clone)]
pub struct ForegroundMask {
    pub width: u32,
    pub height: u32,
    pub data: Vec<bool>,
}

impl ForegroundMask {
    /// The mask has one value for each pixel of its frame.
    pub open spec fn wf(&self) -> bool {
        &&& self.data@.len() == self.width * self.height
        &&& self.width * self.height <= u32::MAX
    }

    /// Whether `(x, y)` is a pixel of the frame.
    pub open spec fn has(&self, x: int, y: int) -> bool {
        in_grid(self.width as int, self.height as int, x, y)
    }

    /// The value at `(x, y)`.
    pub open spec fn at(&self, x: int, y: int) -> bool {
        self.data@[cell(self.width as int, x, y)]
    }

    /// A mask of the given size without foreground.
    pub fn new(width: u32, height: u32) -> (mask: ForegroundMask)
        requires
            width * height <= u32::MAX,
        ensures
            mask.wf(),
            mask.width == width,
            mask.height == height,
            forall|x: int, y: int| mask.has(x, y) ==> !#[trigger] mask.at(x, y),
    {
        let mask = ForegroundMask {
            width,
            height,
            data: vec![false; (width * height) as usize],
        };
        proof {
            assert forall|x: int, y: int| mask.has(x, y) implies !#[trigger] mask.at(x, y) by {
                lemma_cell_bound(width as int, height as int, x, y);
            }
        }
        mask
    }

    /// The value that stands at the row-major index of `(x, y)`.
    pub fn get(&self, x: u32, y: u32) -> (value: bool)
        requires
            cell(self.width as int, x as int, y as int) < self.data@.len(),
            cell(self.width as int, x as int, y as int) <= u32::MAX,
        ensures
            value == self.at(x as int, y as int),
    {
        proof {
            assert(0 <= y * self.width) by (nonlinear_arith);
        }
        self.data[(y * self.width + x) as usize]
    }

    /// Replaces the value that stands at the row-major index of `(x, y)`.
    pub fn set(&mut self, x: u32, y: u32, value: bool)
        requires
            cell(old(self).width as int, x as int, y as int) < old(self).data@.len(),
            cell(old(self).width as int, x as int, y as int) <= u32::MAX,
        ensures
            final(self).width == old(self).width,
            final(self).height == old(self).height,
            final(self).data@ == old(self).data@.update(
                cell(old(self).width as int, x as int, y as int),
                value,
            ),
            old(self).wf() ==> final(self).wf(),
            old(self).wf() && old(self).has(x as int, y as int) ==> forall|i: int, j: int|
                old(self).has(i, j) ==> #[trigger] final(self).at(i, j) == if i == x && j == y {
                    value
                } else {
                    old(self).at(i, j)
                },
    {
        proof {
            assert(0 <= y * self.width) by (nonlinear_arith);
        }
        let index: usize = (y * self.width + x) as usize;
        self.data.set(index, value);
        proof {
            if old(self).wf() && old(self).has(x as int, y as int) {
                assert forall|i: int, j: int| old(self).has(i, j) implies #[trigger] self.at(i, j)
                    == if i == x && j == y {
                    value
                } else {
                    old(self).at(i, j)
                } by {
                    lemma_cell_bound(self.width as int, self.height as int, i, j);
                    lemma_cell_order(self.width as int, i, j, x as int, y as int);
                }
            }
        }
    }

    /// The mask of the pixels that are brighter than the threshold.
    #[verifier::loop_isolation(false)]
    pub fn from_gray_image(img: &GrayImage, threshold: u8) -> (mask: ForegroundMask)
        requires
            img.w() * img.h() <= u32::MAX,
        ensures
            mask.wf(),
            mask.width == img.w(),
            mask.height == img.h(),
            forall|x: int, y: int|
                mask.has(x, y) ==> #[trigger] mask.at(x, y) == (img.px(x, y) > threshold),
    {
        let (width, height) = img.dimensions();
        let mut mask = ForegroundMask::new(width, height);
        for y in 0..height
            invariant
                mask.wf(),
                mask.width == width,
                mask.height == height,
                forall|i: int, j: int|
                    mask.has(i, j) && scanned(i, j, 0, y as int) ==> #[trigger] mask.at(i, j) == (
                    img.px(i, j) > threshold),
        {
            for x in 0..width
                invariant
                    mask.wf(),
                    mask.width == width,
                    mask.height == height,
                    forall|i: int, j: int|
                        mask.has(i, j) && scanned(i, j, x as int, y as int) ==> #[trigger] mask.at(
                            i,
                            j,
                        ) == (img.px(i, j) > threshold),
            {
                proof {
                    lemma_cell_bound(width as int, height as int, x as int, y as int);
                }
                mask.set(x, y, img.get_pixel(x, y) > threshold);
            }
        }
        mask
    }

    /// The mask as a grayscale image: white for the foreground and black elsewhere.
    #[verifier::loop_isolation(false)]
    pub fn to_gray_image(&self) -> (img: GrayImage)
        requires
            self.wf(),
            self.width * self.height <= isize::MAX,
        ensures
            img.w() == self.width,
            img.h() == self.height,
            forall|x: int, y: int|
                self.has(x, y) ==> #[trigger] img.px(x, y) == if self.at(x, y) {
                    255u8
                } else {
                    0u8
                },
    {
        let mut img = GrayImage::new(self.width, self.height);
        for y in 0..self.height
            invariant
                img.w() == self.width,
                img.h() == self.height,
                forall|i: int, j: int|
                    self.has(i, j) && scanned(i, j, 0, y as int) ==> #[trigger] img.px(i, j)
                        == if self.at(i, j) {
                        255u8
                    } else {
                        0u8
                    },
        {
            for x in 0..self.width
                invariant
                    img.w() == self.width,
                    img.h() == self.height,
                    forall|i: int, j: int|
                        self.has(i, j) && scanned(i, j, x as int, y as int) ==> #[trigger] img.px(
                            i,
                            j,
                        ) == if self.at(i, j) {
                            255u8
                        } else {
                            0u8
                        },
            {
                proof {
                    lemma_cell_bound(self.width as int, self.height as int, x as int, y as int);
                }
                img.put_pixel(
                    x,
                    y,
                    if self.get(x, y) {
                        255
                    } else {
                        0
                    },
                );
            }
        }
        img
    }
}

/// Writing a mask as a grayscale image and reading the image back with a threshold below white
/// gives the same mask.
pub proof fn mask_survives_a_grayscale_image(
    mask: ForegroundMask,
    img: GrayImage,
    threshold: u8,
    back: ForegroundMask,
)
    requires
        mask.wf(),
        threshold < 255,
        // `img` is what `to_gray_image` makes of `mask`
        img.w() == mask.width,
        img.h() == mask.height,
        forall|x: int, y: int|
            mask.has(x, y) ==> #[trigger] img.px(x, y) == if mask.at(x, y) {
                255u8
            } else {
                0u8
            },
        // `back` is what `from_gray_image` makes of `img`
        back.wf(),
        back.width == img.w(),
        back.height == img.h(),
        forall|x: int, y: int|
            back.has(x, y) ==> #[trigger] back.at(x, y) == (img.px(x, y) > threshold),
    ensures
        back.data@ == mask.data@,
{
    assert forall|k: int| 0 <= k < back.data@.len() implies back.data@[k] == mask.data@[k] by {
        let w = mask.width as int;
        lemma_cell_of_index(w, mask.height as int, k);
        assert(back.has(k % w, k / w));
        assert(back.at(k % w, k / w) == (img.px(k % w, k / w) > threshold));
    }
}

/// Whether the foreground of a frame at `pos` covers the canvas pixel `(cx, cy)`.
pub open spec fn mask_covers(mask: ForegroundMask, pos: Position, cx: int, cy: int) -> bool {
    covers(pos, mask.width as int, mask.height as int, cx, cy) && mask.at(cx - pos.x, cy - pos.y)
}

/// Whether the foreground of a frame at `pos` covers the canvas pixel `(cx, cy)`.
pub fn mask_covers_canvas_pixel(mask: &ForegroundMask, pos: Position, cx: u32, cy: u32) -> (r: bool)
    requires
        mask.wf(),
    ensures
        r == mask_covers(*mask, pos, cx as int, cy as int),
{
    let sx: i64 = cx as i64 - pos.x as i64;
    let sy: i64 = cy as i64 - pos.y as i64;
    if sx < 0 || sy < 0 || sx >= mask.width as i64 || sy >= mask.height as i64 {
        return false;
    }
    proof {
        lemma_cell_bound(mask.width as int, mask.height as int, sx as int, sy as int);
    }
    mask.get(sx as u32, sy as u32)
}

/// Whether two cells are at most `radius` apart in each direction.
pub open spec fn within(i: int, j: int, x: int, y: int, radius: int) -> bool {
    -radius <= i - x <= radius && -radius <= j - y <= radius
}

/// Whether a set cell of the mask lies within `radius` of `(x, y)`.
pub open spec fn near_set(mask: Seq<bool>, w: int, h: int, radius: int, x: int, y: int) -> bool {
    exists|i: int, j: int|
        in_grid(w, h, i, j) && within(i, j, x, y, radius) && #[trigger] mask[cell(w, i, j)]
}

/// The mask grown by `radius` in every direction, diagonals too.
pub open spec fn dilated(mask: Seq<bool>, w: int, h: int, radius: int) -> Seq<bool> {
    Seq::new(
        mask.len(),
        |k: int|
            if k < w * h {
                near_set(mask, w, h, radius, k % w, k / w)
            } else {
                mask[k]
            },
    )
}

/// Sets every cell of the box with the corners `(x0, y0)` and `(x1, y1)`.
#[verifier::loop_isolation(false)]
fn fill_box(out: &mut Vec<bool>, w: usize, h: usize, x0: usize, y0: usize, x1: usize, y1: usize)
    requires
        0 <= x0 <= x1 < w,
        0 <= y0 <= y1 < h,
        w * h <= old(out)@.len(),
    ensures
        final(out)@.len() == old(out)@.len(),
        forall|k: int| w * h <= k < old(out)@.len() ==> final(out)@[k] == old(out)@[k],
        forall|a: int, b: int|
            in_grid(w as int, h as int, a, b) ==> #[trigger] final(out)@[cell(w as int, a, b)] == (old(
                out,
            )@[cell(w as int, a, b)] || (x0 <= a <= x1 && y0 <= b <= y1)),
{
    let ghost start = out@;
    let len: usize = out.len();
    for yy in y0..y1 + 1
        invariant
            out@.len() == start.len(),
            start.len() == len,
            forall|k: int| w * h <= k < start.len() ==> out@[k] == start[k],
            forall|a: int, b: int|
                in_grid(w as int, h as int, a, b) ==> #[trigger] out@[cell(w as int, a, b)] == (
                start[cell(w as int, a, b)] || (x0 <= a <= x1 && y0 <= b < yy)),
    {
        for xx in x0..x1 + 1
            invariant
                out@.len() == start.len(),
                forall|k: int| w * h <= k < start.len() ==> out@[k] == start[k],
                forall|a: int, b: int|
                    in_grid(w as int, h as int, a, b) ==> #[trigger] out@[cell(w as int, a, b)] == (
                    start[cell(w as int, a, b)] || (x0 <= a <= x1 && y0 <= b < yy) || (x0 <= a < xx
                        && b == yy)),
        {
            proof {
                lemma_cell_bound(w as int, h as int, xx as int, yy as int);
                assert forall|a: int, b: int| in_grid(w as int, h as int, a, b) implies 0 <= #[trigger] cell(
                    w as int,
                    a,
                    b,
                ) < w * h && (cell(w as int, a, b) == cell(w as int, xx as int, yy as int) <==> a
                    == xx && b == yy) by {
                    lemma_cell_bound(w as int, h as int, a, b);
                    lemma_cell_order(w as int, a, b, xx as int, yy as int);
                }
            }
            out.set(yy * w + xx, true);
        }
    }
}

/// Whether a set cell of the mask that the scan has passed lies within `radius` of `(a, b)`.
spec fn reached(mask: Seq<bool>, w: int, h: int, radius: int, a: int, b: int, x: int, y: int) -> bool {
    exists|i: int, j: int|
        in_grid(w, h, i, j) && scanned(i, j, x, y) && within(i, j, a, b, radius)
            && #[trigger] mask[cell(w, i, j)]
}

/// Grows the set cells of a row-major mask by `radius` in every direction, diagonals too.
#[verifier::loop_isolation(false)]
#[verifier::rlimit(40)]
pub fn dilate_bool_mask(mask: &[bool], w: usize, h: usize, radius: usize) -> (out: Vec<bool>)
    requires
        radius > 0 && mask@.len() > 0 ==> w * h <= mask@.len(),
    ensures
        out@ == dilated(mask@, w as int, h as int, radius as int),
{
    let mut out: Vec<bool> = Vec::new();
    for i in 0..mask.len()
        invariant
            out@ == mask@.take(i as int),
    {
        out.push(mask[i]);
        assert(mask@.take(i + 1) =~= mask@.take(i as int).push(mask@[i as int]));
    }
    assert(out@ =~= mask@);
    if radius == 0 || mask.len() == 0 {
        proof {
            lemma_dilated_by_zero(mask@, w as int, h as int);
            assert(mask@.len() == 0 ==> mask@ =~= dilated(mask@, w as int, h as int, radius as int));
        }
        return out;
    }
    let ghost wi = w as int;
    let ghost hi = h as int;
    for y in 0..h
        invariant
            out@.len() == mask@.len(),
            forall|k: int| w * h <= k < mask@.len() ==> out@[k] == mask@[k],
            forall|a: int, b: int|
                in_grid(wi, hi, a, b) ==> #[trigger] out@[cell(wi, a, b)] == (mask@[cell(wi, a, b)]
                    || reached(mask@, wi, hi, radius as int, a, b, 0, y as int)),
    {
        for x in 0..w
            invariant
                out@.len() == mask@.len(),
                forall|k: int| w * h <= k < mask@.len() ==> out@[k] == mask@[k],
                forall|a: int, b: int|
                    in_grid(wi, hi, a, b) ==> #[trigger] out@[cell(wi, a, b)] == (mask@[cell(
                        wi,
                        a,
                        b,
                    )] || reached(mask@, wi, hi, radius as int, a, b, x as int, y as int)),
        {
            proof {
                lemma_cell_bound(wi, hi, x as int, y as int);
            }
            let ghost before = out@;
            if mask[y * w + x] {
                let y0: usize = if y < radius {
                    0
                } else {
                    y - radius
                };
                let y1: usize = if radius > h - 1 - y {
                    h - 1
                } else {
                    y + radius
                };
                let x0: usize = if x < radius {
                    0
                } else {
                    x - radius
                };
                let x1: usize = if radius > w - 1 - x {
                    w - 1
                } else {
                    x + radius
                };
                fill_box(&mut out, w, h, x0, y0, x1, y1);
                assert forall|a: int, b: int| in_grid(wi, hi, a, b) implies #[trigger] out@[cell(
                    wi,
                    a,
                    b,
                )] == (mask@[cell(wi, a, b)] || reached(
                    mask@,
                    wi,
                    hi,
                    radius as int,
                    a,
                    b,
                    x + 1,
                    y as int,
                )) by {
                    assert(before[cell(wi, a, b)] == (mask@[cell(wi, a, b)] || reached(
                        mask@,
                        wi,
                        hi,
                        radius as int,
                        a,
                        b,
                        x as int,
                        y as int,
                    )));
                    let inside = x0 <= a <= x1 && y0 <= b <= y1;
                    assert(inside == within(x as int, y as int, a, b, radius as int));
                    if inside {
                        assert(mask@[cell(wi, x as int, y as int)]);
                    }
                    if reached(mask@, wi, hi, radius as int, a, b, x as int, y as int) {
                        let (i, j) = choose|i: int, j: int|
                            in_grid(wi, hi, i, j) && scanned(i, j, x as int, y as int) && within(
                                i,
                                j,
                                a,
                                b,
                                radius as int,
                            ) && #[trigger] mask@[cell(wi, i, j)];
                        assert(scanned(i, j, x + 1, y as int));
                    }
                    if reached(mask@, wi, hi, radius as int, a, b, x + 1, y as int) && !inside {
                        let (i, j) = choose|i: int, j: int|
                            in_grid(wi, hi, i, j) && scanned(i, j, x + 1, y as int) && within(
                                i,
                                j,
                                a,
                                b,
                                radius as int,
                            ) && #[trigger] mask@[cell(wi, i, j)];
                        assert(scanned(i, j, x as int, y as int));
                    }
                }
            } else {
                assert forall|a: int, b: int| in_grid(wi, hi, a, b) implies #[trigger] out@[cell(
                    wi,
                    a,
                    b,
                )] == (mask@[cell(wi, a, b)] || reached(
                    mask@,
                    wi,
                    hi,
                    radius as int,
                    a,
                    b,
                    x + 1,
                    y as int,
                )) by {
                    if reached(mask@, wi, hi, radius as int, a, b, x as int, y as int) {
                        let (i, j) = choose|i: int, j: int|
                            in_grid(wi, hi, i, j) && scanned(i, j, x as int, y as int) && within(
                                i,
                                j,
                                a,
                                b,
                                radius as int,
                            ) && #[trigger] mask@[cell(wi, i, j)];
                        assert(scanned(i, j, x + 1, y as int));
                    }
                    if reached(mask@, wi, hi, radius as int, a, b, x + 1, y as int) {
                        let (i, j) = choose|i: int, j: int|
                            in_grid(wi, hi, i, j) && scanned(i, j, x + 1, y as int) && within(
                                i,
                                j,
                                a,
                                b,
                                radius as int,
                            ) && #[trigger] mask@[cell(wi, i, j)];
                        assert(scanned(i, j, x as int, y as int));
                    }
                }
            }
        }
        assert forall|a: int, b: int| in_grid(wi, hi, a, b) implies #[trigger] reached(
            mask@,
            wi,
            hi,
            radius as int,
            a,
            b,
            w as int,
            y as int,
        ) == reached(mask@, wi, hi, radius as int, a, b, 0, y + 1) by {
            assert(forall|i: int, j: int|
                in_grid(wi, hi, i, j) ==> #[trigger] scanned(i, j, w as int, y as int) == scanned(
                    i,
                    j,
                    0,
                    y + 1,
                ));
        }
    }
    proof {
        let full = dilated(mask@, wi, hi, radius as int);
        assert forall|k: int| 0 <= k < mask@.len() implies out@[k] == full[k] by {
            if k < w * h {
                lemma_cell_of_index(wi, hi, k);
                let a = k % wi;
                let b = k / wi;
                assert(out@[cell(wi, a, b)] == (mask@[cell(wi, a, b)] || reached(
                    mask@,
                    wi,
                    hi,
                    radius as int,
                    a,
                    b,
                    0,
                    h as int,
                )));
                if near_set(mask@, wi, hi, radius as int, a, b) {
                    let (i, j) = choose|i: int, j: int|
                        in_grid(wi, hi, i, j) && within(i, j, a, b, radius as int)
                            && #[trigger] mask@[cell(wi, i, j)];
                    assert(scanned(i, j, 0, h as int));
                }
                if mask@[cell(wi, a, b)] {
                    assert(within(a, b, a, b, radius as int));
                }
            }
        }
        assert(out@ =~= full);
    }
    out
}

/// Nothing changes for the radius zero.
proof fn lemma_dilated_by_zero(mask: Seq<bool>, w: int, h: int)
    requires
        0 <= w,
        0 <= h,
    ensures
        dilated(mask, w, h, 0) == mask,
{
    assert forall|k: int| 0 <= k < mask.len() implies dilated(mask, w, h, 0)[k] == mask[k] by {
        if k < w * h {
            lemma_cell_of_index(w, h, k);
            if mask[k] {
                assert(mask[cell(w, k % w, k / w)]);
            }
            if near_set(mask, w, h, 0, k % w, k / w) {
                let (i, j) = choose|i: int, j: int|
                    in_grid(w, h, i, j) && within(i, j, k % w, k / w, 0) && #[trigger] mask[cell(
                        w,
                        i,
                        j,
                    )];
                assert(i == k % w && j == k / w);
            }
        }
    }
    assert(dilated(mask, w, h, 0) =~= mask);
}

/// Dilation keeps the mask, grows with the radius, and changes nothing for radius zero.
pub proof fn dilation_only_grows(mask: Seq<bool>, w: int, h: int, r: int, s: int)
    requires
        0 <= r <= s,
        0 <= w,
        0 <= h,
        w * h <= mask.len(),
    ensures
        dilated(mask, w, h, 0) == mask,
        forall|k: int|
            0 <= k < mask.len() && mask[k] ==> #[trigger] dilated(mask, w, h, r)[k],
        forall|k: int|
            0 <= k < mask.len() && dilated(mask, w, h, r)[k] ==> #[trigger] dilated(
                mask,
                w,
                h,
                s,
            )[k],
{
    lemma_dilated_by_zero(mask, w, h);
    assert forall|k: int| 0 <= k < mask.len() && mask[k] implies #[trigger] dilated(
        mask,
        w,
        h,
        r,
    )[k] by {
        if k < w * h {
            lemma_cell_of_index(w, h, k);
            assert(mask[cell(w, k % w, k / w)]);
            assert(within(k % w, k / w, k % w, k / w, r));
        }
    }
    assert forall|k: int|
        0 <= k < mask.len() && dilated(mask, w, h, r)[k] implies #[trigger] dilated(
        mask,
        w,
        h,
        s,
    )[k] by {
        if k < w * h {
            let (i, j) = choose|i: int, j: int|
                in_grid(w, h, i, j) && within(i, j, k % w, k / w, r) && #[trigger] mask[cell(
                    w,
                    i,
                    j,
                )];
            assert(within(i, j, k % w, k / w, s));
        }
    }
}

/// Whether the foreground of the incoming frame, or of the frame that the map records, covers
/// the canvas pixel `(cx, cy)`.
pub open spec fn foreground_hit(
    map: SourceMap,
    masks: Seq<ForegroundMask>,
    positions: Seq<Position>,
    incoming: int,
    cx: int,
    cy: int,
) -> bool {
    ||| mask_covers(masks[incoming], positions[incoming], cx, cy)
    ||| {
        &&& map.assigned(cx, cy)
        &&& map.at(cx, cy) < masks.len()
        &&& mask_covers(masks[map.at(cx, cy) as int], positions[map.at(cx, cy) as int], cx, cy)
    }
}

/// The foreground pixels of an overlap of size `ow` by `oh` whose corner stands at `(x0, y0)`.
pub open spec fn foreground_hits(
    map: SourceMap,
    masks: Option<Seq<ForegroundMask>>,
    positions: Seq<Position>,
    incoming: int,
    x0: int,
    y0: int,
    ow: int,
    oh: int,
) -> Seq<bool> {
    Seq::new(
        (ow * oh) as nat,
        |k: int|
            match masks {
                Some(m) => incoming < m.len() && foreground_hit(
                    map,
                    m,
                    positions,
                    incoming,
                    x0 + k % ow,
                    y0 + k / ow,
                ),
                None => false,
            },
    )
}

/// The sequence that an optional slice of masks holds.
pub open spec fn mask_seq(masks: Option<&[ForegroundMask]>) -> Option<Seq<ForegroundMask>> {
    match masks {
        Some(m) => Some(m@),
        None => None,
    }
}

/// Whether the mask of a frame, if there is one, is well formed.
pub open spec fn mask_wf(masks: Option<Seq<ForegroundMask>>, i: int) -> bool {
    masks matches Some(m) ==> i < m.len() ==> m[i].wf()
}

/// Whether the masks of the first `n` frames are well formed.
pub open spec fn masks_wf(masks: Option<Seq<ForegroundMask>>, n: int) -> bool {
    forall|i: int| 0 <= i < n ==> #[trigger] mask_wf(masks, i)
}

/// Whether the masks that matter to an overlap can be read: where the incoming frame has one, that
/// mask and those of the frames that the map records are well formed, and their frames have
/// positions.
pub open spec fn masks_readable(
    map: SourceMap,
    masks: Option<Seq<ForegroundMask>>,
    positions: Seq<Position>,
    incoming: int,
    x0: int,
    y0: int,
    ow: int,
    oh: int,
) -> bool {
    masks matches Some(m) ==> incoming < m.len() ==> forall|x: int, y: int|
        #![trigger map.at(x, y)]
        x0 <= x < x0 + ow && y0 <= y < y0 + oh ==> {
            &&& incoming < positions.len()
            &&& m[incoming].wf()
            &&& map.assigned(x, y) && map.at(x, y) < m.len() ==> {
                &&& map.at(x, y) < positions.len()
                &&& m[map.at(x, y) as int].wf()
            }
        }
}

/// A row of flags, none of them set.
pub(crate) fn unmarked(n: usize) -> (v: Vec<bool>)
    ensures
        v@ == Seq::new(n as nat, |k: int| false),
{
    let v: Vec<bool> = vec![false; n];
    assert(v@ =~= Seq::new(n as nat, |k: int| false));
    v
}

/// The pixels of an overlap that the foreground of either of its two frames covers, grown by
/// `dilate`. Without masks, or without one for the incoming frame, there are none.
#[verifier::loop_isolation(false)]
pub fn foreground_mask_for_overlap(
    source_map: &SourceMap,
    masks: Option<&[ForegroundMask]>,
    positions: &[Position],
    incoming_idx: usize,
    x0: u32,
    y0: u32,
    ow: usize,
    oh: usize,
    dilate: u32,
) -> (mask: Vec<bool>)
    requires
        source_map.wf(),
        x0 + ow <= source_map.width,
        y0 + oh <= source_map.height,
        ow * oh <= usize::MAX,
        masks_readable(
            *source_map,
            mask_seq(masks),
            positions@,
            incoming_idx as int,
            x0 as int,
            y0 as int,
            ow as int,
            oh as int,
        ),
    ensures
        mask@ == dilated(
            foreground_hits(
                *source_map,
                mask_seq(masks),
                positions@,
                incoming_idx as int,
                x0 as int,
                y0 as int,
                ow as int,
                oh as int,
            ),
            ow as int,
            oh as int,
            dilate as int,
        ),
{
    let ghost hits = foreground_hits(
        *source_map,
        mask_seq(masks),
        positions@,
        incoming_idx as int,
        x0 as int,
        y0 as int,
        ow as int,
        oh as int,
    );
    proof {
        assert(0 <= ow * oh) by (nonlinear_arith);
        assert(0 * ow == 0) by (nonlinear_arith);
    }
    let mut mask = unmarked(ow * oh);
    if let Some(masks) = masks {
        if incoming_idx < masks.len() {
            for yy in 0..oh
                invariant
                    mask@.len() == hits.len(),
                    forall|k: int| 0 <= k < yy * ow ==> mask@[k] == hits[k],
                    forall|k: int| yy * ow <= k < mask@.len() ==> !mask@[k],
            {
                proof {
                    assert(yy * ow + ow == (yy + 1) * ow) by (nonlinear_arith);
                }
                for xx in 0..ow
                    invariant
                        mask@.len() == hits.len(),
                        yy * ow + ow == (yy + 1) * ow,
                        forall|k: int| 0 <= k < yy * ow + xx ==> mask@[k] == hits[k],
                        forall|k: int| yy * ow + xx <= k < mask@.len() ==> !mask@[k],
                {
                    proof {
                        lemma_cell_bound(ow as int, oh as int, xx as int, yy as int);
                        lemma_index_of_cell(ow as int, xx as int, yy as int);
                        lemma_cell_bound(
                            source_map.width as int,
                            source_map.height as int,
                            x0 + xx,
                            y0 + yy,
                        );
                    }
                    let cx: u32 = x0 + xx as u32;
                    let cy: u32 = y0 + yy as u32;
                    let existing = source_map.get(cx, cy);
                    let incoming_hit = mask_covers_canvas_pixel(
                        &masks[incoming_idx],
                        positions[incoming_idx],
                        cx,
                        cy,
                    );
                    let existing_hit = existing != SourceMap::UNASSIGNED && (existing as usize)
                        < masks.len() && mask_covers_canvas_pixel(
                        &masks[existing as usize],
                        positions[existing as usize],
                        cx,
                        cy,
                    );
                    if incoming_hit || existing_hit {
                        mask.set(yy * ow + xx, true);
                    }
                }
            }
            proof {
                assert(oh * ow == ow * oh) by (nonlinear_arith);
            }
        }
    }
    assert(mask@ =~= hits);
    dilate_bool_mask(&mask, ow, oh, dilate as usize)
}

/// A cell of a dilated mask is set exactly where a cell of the mask is set that is no further away
/// than the radius, in the row and in the column.
pub proof fn dilation_reaches_a_square(
    mask: Seq<bool>,
    w: int,
    h: int,
    radius: int,
    x: int,
    y: int,
)
    requires
        0 <= x < w,
        0 <= y < h,
        mask.len() == w * h,
    ensures
        dilated(mask, w, h, radius)[y * w + x] <==> exists|i: int, j: int|
            {
                &&& 0 <= i < w && 0 <= j < h
                &&& x - radius <= i <= x + radius
                &&& y - radius <= j <= y + radius
                &&& #[trigger] mask[j * w + i]
            },
{
    lemma_cell_bound(w, h, x, y);
    lemma_index_of_cell(w, x, y);
    if dilated(mask, w, h, radius)[y * w + x] {
        let (i, j) = choose|i: int, j: int|
            in_grid(w, h, i, j) && within(i, j, x, y, radius) && #[trigger] mask[cell(w, i, j)];
        assert(mask[j * w + i]);
    }
    if exists|i: int, j: int|
        {
            &&& 0 <= i < w && 0 <= j < h
            &&& x - radius <= i <= x + radius
            &&& y - radius <= j <= y + radius
            &&& #[trigger] mask[j * w + i]
        } {
        let (i, j) = choose|i: int, j: int|
            {
                &&& 0 <= i < w && 0 <= j < h
                &&& x - radius <= i <= x + radius
                &&& y - radius <= j <= y + radius
                &&& #[trigger] mask[j * w + i]
            };
        assert(mask[cell(w, i, j)]);
    }
}

/// A point of an overlap shows the foreground exactly where the mask of the incoming frame is set,
/// or that of the frame that the canvas has there.
pub proof fn foreground_comes_from_either_frame(
    map: SourceMap,
    masks: Seq<ForegroundMask>,
    positions: Seq<Position>,
    incoming: int,
    x0: int,
    y0: int,
    ow: int,
    oh: int,
    x: int,
    y: int,
)
    requires
        0 <= x < ow,
        0 <= y < oh,
        0 <= incoming < masks.len(),
    ensures
        ({
            let cx = x0 + x;
            let cy = y0 + y;
            let existing = map.data@[cy * map.width + cx] as int;
            let mask = masks[incoming];
            let sx = cx - positions[incoming].x;
            let sy = cy - positions[incoming].y;
            let other = masks[existing];
            let tx = cx - positions[existing].x;
            let ty = cy - positions[existing].y;
            foreground_hits(map, Some(masks), positions, incoming, x0, y0, ow, oh)[y * ow + x]
                <==> {
                ||| 0 <= sx < mask.width && 0 <= sy < mask.height && mask.data@[sy * mask.width
                    + sx]
                ||| existing != 255 && existing < masks.len() && 0 <= tx < other.width && 0 <= ty
                    < other.height && other.data@[ty * other.width + tx]
            }
        }),
{
    lemma_cell_bound(ow, oh, x, y);
    lemma_index_of_cell(ow, x, y);
}

} // verus!
