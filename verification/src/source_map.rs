//! Source maps: which frame each pixel of the canvas comes from.

use vstd::prelude::*;

use crate::buffers::GrayImage;
use crate::grid::{cell, in_grid, lemma_cell_bound, lemma_cell_of_index, lemma_cell_order, scanned};

verus! {

/// For each pixel of a canvas, the number of the frame that it was taken from.
#[derive(Debug, Clone)]
pub struct SourceMap {
    pub width: u32,
    pub height: u32,
    pub data: Vec<u8>,
}

impl SourceMap {
    /// The value of a pixel that no frame covers.
    pub const UNASSIGNED: u8 = 255;

    /// The map has one value for each pixel of its canvas.
    pub open spec fn wf(&self) -> bool {
        &&& self.data@.len() == self.width * self.height
        &&& self.width * self.height <= u32::MAX
    }

    /// Whether `(x, y)` is a pixel of the canvas.
    pub open spec fn has(&self, x: int, y: int) -> bool {
        in_grid(self.width as int, self.height as int, x, y)
    }

    /// The value at `(x, y)`.
    pub open spec fn at(&self, x: int, y: int) -> u8 {
        self.data@[cell(self.width as int, x, y)]
    }

    /// Whether a frame is recorded at `(x, y)`.
    pub open spec fn assigned(&self, x: int, y: int) -> bool {
        self.at(x, y) != SourceMap::UNASSIGNED
    }

    /// A map of the given size in which nothing is assigned.
    pub fn new(width: u32, height: u32) -> (map: SourceMap)
        requires
            width * height <= u32::MAX,
        ensures
            map.wf(),
            map.width == width,
            map.height == height,
            forall|x: int, y: int|
                map.has(x, y) ==> #[trigger] map.at(x, y) == SourceMap::UNASSIGNED,
    {
        let map = SourceMap {
            width,
            height,
            data: vec![SourceMap::UNASSIGNED; (width * height) as usize],
        };
        proof {
            assert forall|x: int, y: int| map.has(x, y) implies #[trigger] map.at(x, y)
                == SourceMap::UNASSIGNED by {
                lemma_cell_bound(width as int, height as int, x, y);
            }
        }
        map
    }

    /// The value that stands at the row-major index of `(x, y)`.
    pub fn get(&self, x: u32, y: u32) -> (value: u8)
        requires
            cell(self.width as int, x as int, y as int) < self.data@.len(),
            cell(self.width as int, x as int, y as int) <= u32::MAX,
        ensures
            value == self.at(x as int, y as int),
    {
        proof {
            assert(0 <= y * self.width) by (nonlinear_arith);
        }
        self.data[(y * self.width + x) as usize]
    }

    /// Replaces the value that stands at the row-major index of `(x, y)`.
    pub fn set(&mut self, x: u32, y: u32, value: u8)
        requires
            cell(old(self).width as int, x as int, y as int) < old(self).data@.len(),
            cell(old(self).width as int, x as int, y as int) <= u32::MAX,
        ensures
            final(self).width == old(self).width,
            final(self).height == old(self).height,
            final(self).data@ == old(self).data@.update(
                cell(old(self).width as int, x as int, y as int),
                value,
            ),
            old(self).wf() ==> final(self).wf(),
            old(self).wf() && old(self).has(x as int, y as int) ==> forall|i: int, j: int|
                old(self).has(i, j) ==> #[trigger] final(self).at(i, j) == if i == x && j == y {
                    value
                } else {
                    old(self).at(i, j)
                },
    {
        proof {
            assert(0 <= y * self.width) by (nonlinear_arith);
        }
        let index: usize = (y * self.width + x) as usize;
        self.data.set(index, value);
        proof {
            if old(self).wf() && old(self).has(x as int, y as int) {
                assert forall|i: int, j: int| old(self).has(i, j) implies #[trigger] self.at(i, j)
                    == if i == x && j == y {
                    value
                } else {
                    old(self).at(i, j)
                } by {
                    lemma_cell_bound(self.width as int, self.height as int, i, j);
                    lemma_cell_order(self.width as int, i, j, x as int, y as int);
                }
            }
        }
    }

    /// The level that stands for a value in a grayscale image: zero for an unassigned pixel, and
    /// one more than the number of the frame otherwise.
    pub open spec fn level(value: u8) -> u8 {
        if value == SourceMap::UNASSIGNED {
            0
        } else {
            (value + 1) as u8
        }
    }

    /// The value that a level of a grayscale image stands for.
    pub open spec fn value_of_level(level: u8) -> u8 {
        if level == 0 {
            SourceMap::UNASSIGNED
        } else {
            (level - 1) as u8
        }
    }

    /// The map as a grayscale image.
    #[verifier::loop_isolation(false)]
    pub fn to_gray_image(&self) -> (img: GrayImage)
        requires
            self.wf(),
            self.width * self.height <= isize::MAX,
        ensures
            img.w() == self.width,
            img.h() == self.height,
            forall|x: int, y: int|
                self.has(x, y) ==> #[trigger] img.px(x, y) == SourceMap::level(self.at(x, y)),
    {
        let mut img = GrayImage::new(self.width, self.height);
        for y in 0..self.height
            invariant
                img.w() == self.width,
                img.h() == self.height,
                forall|i: int, j: int|
                    self.has(i, j) && scanned(i, j, 0, y as int) ==> #[trigger] img.px(i, j)
                        == SourceMap::level(self.at(i, j)),
        {
            for x in 0..self.width
                invariant
                    img.w() == self.width,
                    img.h() == self.height,
                    forall|i: int, j: int|
                        self.has(i, j) && scanned(i, j, x as int, y as int) ==> #[trigger] img.px(
                            i,
                            j,
                        ) == SourceMap::level(self.at(i, j)),
            {
                proof {
                    lemma_cell_bound(self.width as int, self.height as int, x as int, y as int);
                }
                let v = self.get(x, y);
                let level: u8 = if v == SourceMap::UNASSIGNED {
                    0
                } else {
                    v + 1
                };
                img.put_pixel(x, y, level);
            }
        }
        img
    }

    /// The map that a grayscale image stands for.
    #[verifier::loop_isolation(false)]
    pub fn from_gray_image(img: &GrayImage) -> (map: SourceMap)
        requires
            img.w() * img.h() <= u32::MAX,
        ensures
            map.wf(),
            map.width == img.w(),
            map.height == img.h(),
            forall|x: int, y: int|
                map.has(x, y) ==> #[trigger] map.at(x, y) == SourceMap::value_of_level(
                    img.px(x, y),
                ),
    {
        let (width, height) = img.dimensions();
        let mut map = SourceMap::new(width, height);
        for y in 0..height
            invariant
                map.wf(),
                map.width == width,
                map.height == height,
                forall|i: int, j: int|
                    map.has(i, j) && scanned(i, j, 0, y as int) ==> #[trigger] map.at(i, j)
                        == SourceMap::value_of_level(img.px(i, j)),
        {
            for x in 0..width
                invariant
                    map.wf(),
                    map.width == width,
                    map.height == height,
                    forall|i: int, j: int|
                        map.has(i, j) && scanned(i, j, x as int, y as int) ==> #[trigger] map.at(
                            i,
                            j,
                        ) == SourceMap::value_of_level(img.px(i, j)),
            {
                proof {
                    lemma_cell_bound(width as int, height as int, x as int, y as int);
                }
                let p = img.get_pixel(x, y);
                map.set(
                    x,
                    y,
                    if p == 0 {
                        SourceMap::UNASSIGNED
                    } else {
                        p - 1
                    },
                );
            }
        }
        map
    }
}

/// Two maps of one size that agree at every pixel hold the same data.
pub proof fn maps_are_equal_when_their_pixels_are(a: SourceMap, b: SourceMap)
    requires
        a.wf(),
        b.wf(),
        a.width == b.width,
        a.height == b.height,
        forall|x: int, y: int| a.has(x, y) ==> #[trigger] a.at(x, y) == b.at(x, y),
    ensures
        a.data@ == b.data@,
{
    assert forall|k: int| 0 <= k < a.data@.len() implies a.data@[k] == b.data@[k] by {
        lemma_cell_of_index(a.width as int, a.height as int, k);
        assert(a.at(k % a.width as int, k / a.width as int) == b.at(
            k % a.width as int,
            k / a.width as int,
        ));
    }
}

/// Writing a source map as a grayscale image and reading the image back gives the same map.
pub proof fn source_map_survives_a_grayscale_image(map: SourceMap, img: GrayImage, back: SourceMap)
    requires
        map.wf(),
        // `img` is what `to_gray_image` makes of `map`
        img.w() == map.width,
        img.h() == map.height,
        forall|x: int, y: int|
            map.has(x, y) ==> #[trigger] img.px(x, y) == SourceMap::level(map.at(x, y)),
        // `back` is what `from_gray_image` makes of `img`
        back.wf(),
        back.width == img.w(),
        back.height == img.h(),
        forall|x: int, y: int|
            back.has(x, y) ==> #[trigger] back.at(x, y) == SourceMap::value_of_level(img.px(x, y)),
    ensures
        back.data@ == map.data@,
{
    assert forall|x: int, y: int| back.has(x, y) implies #[trigger] back.at(x, y) == map.at(
        x,
        y,
    ) by {
        assert(img.px(x, y) == SourceMap::level(map.at(x, y)));
    }
    maps_are_equal_when_their_pixels_are(back, map);
}

/// Reading a grayscale image as a source map and writing the map gives the same pixels.
pub proof fn grayscale_image_survives_a_source_map(img: GrayImage, map: SourceMap, back: GrayImage)
    requires
        // `map` is what `from_gray_image` makes of `img`
        map.wf(),
        map.width == img.w(),
        map.height == img.h(),
        forall|x: int, y: int|
            map.has(x, y) ==> #[trigger] map.at(x, y) == SourceMap::value_of_level(img.px(x, y)),
        // `back` is what `to_gray_image` makes of `map`
        back.w() == map.width,
        back.h() == map.height,
        forall|x: int, y: int|
            map.has(x, y) ==> #[trigger] back.px(x, y) == SourceMap::level(map.at(x, y)),
    ensures
        forall|x: int, y: int| img.has(x, y) ==> #[trigger] back.px(x, y) == img.px(x, y),
{
    assert forall|x: int, y: int| img.has(x, y) implies #[trigger] back.px(x, y) == img.px(
        x,
        y,
    ) by {
        assert(map.has(x, y));
        assert(map.at(x, y) == SourceMap::value_of_level(img.px(x, y)));
    }
}

/// In a grayscale image, a pixel without a frame is black, and frame after frame is one level
/// brighter than the one before.
pub proof fn levels_number_the_frames(value: u8)
    ensures
        SourceMap::level(255) == 0,
        value < 255 ==> SourceMap::level(value) == value + 1,
        SourceMap::value_of_level(0) == 255,
        value > 0 ==> SourceMap::value_of_level(value) == value - 1,
        SourceMap::UNASSIGNED == 255,
{
}

/// A source map holds its pixels row by row.
pub proof fn pixels_stand_row_by_row(map: SourceMap, x: int, y: int)
    ensures
        map.at(x, y) == map.data@[y * map.width + x],
        map.assigned(x, y) == (map.data@[y * map.width + x] != 255),
        map.has(x, y) <==> 0 <= x < map.width && 0 <= y < map.height,
        map.wf() <==> map.data@.len() == map.width * map.height && map.data@.len() <= u32::MAX,
{
}

} // verus!
