//! Source coordinate maps: the exact pixel of the exact frame behind each canvas pixel.

use vstd::prelude::*;

use crate::buffers::{Rgb16Image, RgbImage};
use crate::foreground::{mask_seq, masks_wf, ForegroundMask};
use crate::geometry::Position;
use crate::grid::{
    cell, count_where, in_grid, lemma_cell_bound, lemma_cell_order, lemma_count_bound,
    lemma_index_of_cell, scanned,
};
use crate::pixel::same_pixel;
use crate::source_map::SourceMap;
use crate::warp::{delta_of_column, is_protected, local_delta, LocalWarpReport};

verus! {

/// For each pixel of a canvas, the frame and the pixel of that frame that it was taken from.
#[derive(Debug, Clone)]
pub struct SourceCoordinateMap {
    pub width: u32,
    pub height: u32,
    pub sources: Vec<u8>,
    pub source_x: Vec<u16>,
    pub source_y: Vec<u16>,
}

/// How the pixels of a canvas compare with the pixels that a coordinate map names.
#[derive(Debug, Clone)]
pub struct SourceCoordinateVerification {
    pub checked_pixels: u32,
    pub mismatched_pixels: u32,
    pub out_of_bounds_pixels: u32,
    pub unassigned_pixels: u32,
}

impl SourceCoordinateMap {
    /// The frame number of a pixel that no frame covers.
    pub const UNASSIGNED: u8 = 255;

    /// The map has one entry for each pixel of its canvas.
    pub open spec fn wf(&self) -> bool {
        &&& self.sources@.len() == self.width * self.height
        &&& self.source_x@.len() == self.width * self.height
        &&& self.source_y@.len() == self.width * self.height
        &&& self.width * self.height <= u32::MAX
    }

    /// Whether `(x, y)` is a pixel of the canvas.
    pub open spec fn has(&self, x: int, y: int) -> bool {
        in_grid(self.width as int, self.height as int, x, y)
    }

    /// What the three tables hold at `(x, y)`.
    pub open spec fn stored(&self, x: int, y: int) -> (u8, u16, u16) {
        let k = cell(self.width as int, x, y);
        (self.sources@[k], self.source_x@[k], self.source_y@[k])
    }

    /// The frame and its pixel behind `(x, y)`, where there is one.
    pub open spec fn entry(&self, x: int, y: int) -> Option<(u8, u16, u16)> {
        if self.stored(x, y).0 == SourceCoordinateMap::UNASSIGNED {
            None
        } else {
            Some(self.stored(x, y))
        }
    }

    /// What the tables hold for an entry.
    pub open spec fn storage(entry: Option<(u8, u16, u16)>) -> (u8, u16, u16) {
        match entry {
            Some(e) => e,
            None => (SourceCoordinateMap::UNASSIGNED, 0, 0),
        }
    }

    /// A map of the given size in which nothing is assigned.
    pub fn new(width: u32, height: u32) -> (map: SourceCoordinateMap)
        requires
            width * height <= u32::MAX,
        ensures
            map.wf(),
            map.width == width,
            map.height == height,
            forall|x: int, y: int|
                map.has(x, y) ==> #[trigger] map.stored(x, y) == SourceCoordinateMap::storage(None),
    {
        let len: usize = (width * height) as usize;
        let map = SourceCoordinateMap {
            width,
            height,
            sources: vec![SourceCoordinateMap::UNASSIGNED; len],
            source_x: vec![0u16; len],
            source_y: vec![0u16; len],
        };
        proof {
            assert forall|x: int, y: int| map.has(x, y) implies #[trigger] map.stored(x, y)
                == SourceCoordinateMap::storage(None) by {
                lemma_cell_bound(width as int, height as int, x, y);
            }
        }
        map
    }

    /// The entry that stands at the row-major index of `(x, y)`.
    pub fn get(&self, x: u32, y: u32) -> (entry: Option<(u8, u16, u16)>)
        requires
            cell(self.width as int, x as int, y as int) < self.sources@.len(),
            cell(self.width as int, x as int, y as int) < self.source_x@.len(),
            cell(self.width as int, x as int, y as int) < self.source_y@.len(),
            cell(self.width as int, x as int, y as int) <= u32::MAX,
        ensures
            entry == self.entry(x as int, y as int),
    {
        proof {
            assert(0 <= y * self.width) by (nonlinear_arith);
        }
        let index: usize = (y * self.width + x) as usize;
        let source = self.sources[index];
        if source != SourceCoordinateMap::UNASSIGNED {
            Some((source, self.source_x[index], self.source_y[index]))
        } else {
            None
        }
    }

    /// Replaces the entry that stands at the row-major index of `(x, y)`.
    pub fn set(&mut self, x: u32, y: u32, source: u8, sx: u16, sy: u16)
        requires
            cell(old(self).width as int, x as int, y as int) < old(self).sources@.len(),
            cell(old(self).width as int, x as int, y as int) < old(self).source_x@.len(),
            cell(old(self).width as int, x as int, y as int) < old(self).source_y@.len(),
            cell(old(self).width as int, x as int, y as int) <= u32::MAX,
        ensures
            final(self).width == old(self).width,
            final(self).height == old(self).height,
            final(self).sources@ == old(self).sources@.update(
                cell(old(self).width as int, x as int, y as int),
                source,
            ),
            final(self).source_x@ == old(self).source_x@.update(
                cell(old(self).width as int, x as int, y as int),
                sx,
            ),
            final(self).source_y@ == old(self).source_y@.update(
                cell(old(self).width as int, x as int, y as int),
                sy,
            ),
            old(self).wf() ==> final(self).wf(),
            old(self).wf() && old(self).has(x as int, y as int) ==> forall|i: int, j: int|
                old(self).has(i, j) ==> #[trigger] final(self).stored(i, j) == if i == x && j == y {
                    (source, sx, sy)
                } else {
                    old(self).stored(i, j)
                },
    {
        proof {
            assert(0 <= y * self.width) by (nonlinear_arith);
        }
        let index: usize = (y * self.width + x) as usize;
        self.sources.set(index, source);
        self.source_x.set(index, sx);
        self.source_y.set(index, sy);
        proof {
            if old(self).wf() && old(self).has(x as int, y as int) {
                assert forall|i: int, j: int| old(self).has(i, j) implies #[trigger] self.stored(
                    i,
                    j,
                ) == if i == x && j == y {
                    (source, sx, sy)
                } else {
                    old(self).stored(i, j)
                } by {
                    lemma_cell_bound(self.width as int, self.height as int, i, j);
                    lemma_cell_order(self.width as int, i, j, x as int, y as int);
                }
            }
        }
    }

    /// The entry of a pixel that the source map takes from a frame, when the row is corrected by
    /// `delta`: none where the map records no frame with a position, or where the coordinate in
    /// the frame does not fit in 16 bits.
    pub open spec fn located(
        map: SourceMap,
        positions: Seq<Position>,
        x: int,
        y: int,
        delta: int,
    ) -> Option<(u8, u16, u16)> {
        let s = map.at(x, y);
        let sx = x - positions[s as int].x;
        let sy = y - positions[s as int].y + delta;
        if s != SourceMap::UNASSIGNED && s < positions.len() && 0 <= sx <= u16::MAX && 0 <= sy
            <= u16::MAX {
            Some((s, sx as u16, sy as u16))
        } else {
            None
        }
    }

    /// The correction at `(x, y)` under an optional warp.
    pub open spec fn delta_at(
        map: SourceMap,
        positions: Seq<Position>,
        warp: Option<&LocalWarpReport>,
        masks: Option<&[ForegroundMask]>,
        x: int,
        y: int,
    ) -> int {
        match warp {
            Some(w) => local_delta(*w, mask_seq(masks), positions, map.at(x, y) as int, x, y),
            None => 0,
        }
    }

    /// The coordinate map of a source map whose frames stand at the given positions.
    pub fn from_source_map(source_map: &SourceMap, positions: &[Position]) -> (map:
        SourceCoordinateMap)
        requires
            source_map.wf(),
        ensures
            map.wf(),
            map.width == source_map.width,
            map.height == source_map.height,
            forall|x: int, y: int|
                map.has(x, y) ==> #[trigger] map.stored(x, y) == SourceCoordinateMap::storage(
                    SourceCoordinateMap::located(*source_map, positions@, x, y, 0),
                ),
    {
        SourceCoordinateMap::from_source_map_with_local_warp(source_map, positions, None, None)
    }

    /// The coordinate map of a source map whose frames stand at the given positions and were
    /// corrected by a local warp. The foreground masks tell which pixels the warp left in place.
    #[verifier::loop_isolation(false)]
    pub fn from_source_map_with_local_warp(
        source_map: &SourceMap,
        positions: &[Position],
        local_warp: Option<&LocalWarpReport>,
        foreground_masks: Option<&[ForegroundMask]>,
    ) -> (map: SourceCoordinateMap)
        requires
            source_map.wf(),
            local_warp matches Some(warp) ==> warp.protect_foreground ==> masks_wf(
                mask_seq(foreground_masks),
                positions@.len() as int,
            ),
        ensures
            map.wf(),
            map.width == source_map.width,
            map.height == source_map.height,
            forall|x: int, y: int|
                map.has(x, y) ==> #[trigger] map.stored(x, y) == SourceCoordinateMap::storage(
                    SourceCoordinateMap::located(
                        *source_map,
                        positions@,
                        x,
                        y,
                        SourceCoordinateMap::delta_at(
                            *source_map,
                            positions@,
                            local_warp,
                            foreground_masks,
                            x,
                            y,
                        ),
                    ),
                ),
    {
        let ghost goal = |x: int, y: int|
            SourceCoordinateMap::storage(
                SourceCoordinateMap::located(
                    *source_map,
                    positions@,
                    x,
                    y,
                    SourceCoordinateMap::delta_at(
                        *source_map,
                        positions@,
                        local_warp,
                        foreground_masks,
                        x,
                        y,
                    ),
                ),
            );
        let mut map = SourceCoordinateMap::new(source_map.width, source_map.height);
        for y in 0..source_map.height
            invariant
                map.wf(),
                map.width == source_map.width,
                map.height == source_map.height,
                forall|i: int, j: int|
                    map.has(i, j) ==> #[trigger] map.stored(i, j) == if scanned(i, j, 0, y as int) {
                        goal(i, j)
                    } else {
                        SourceCoordinateMap::storage(None)
                    },
        {
            for x in 0..source_map.width
                invariant
                    map.wf(),
                    map.width == source_map.width,
                    map.height == source_map.height,
                    forall|i: int, j: int|
                        map.has(i, j) ==> #[trigger] map.stored(i, j) == if scanned(
                            i,
                            j,
                            x as int,
                            y as int,
                        ) {
                            goal(i, j)
                        } else {
                            SourceCoordinateMap::storage(None)
                        },
            {
                proof {
                    lemma_cell_bound(map.width as int, map.height as int, x as int, y as int);
                }
                let source = source_map.get(x, y);
                if source != SourceMap::UNASSIGNED && (source as usize) < positions.len() {
                    let source_idx: usize = source as usize;
                    let sx: i64 = x as i64 - positions[source_idx].x as i64;
                    let mut sy: i64 = y as i64 - positions[source_idx].y as i64;
                    if let Some(warp) = local_warp {
                        if source_idx < warp.deltas_by_source.len() && warp.strip_width > 0 {
                            if !(warp.protect_foreground && is_protected(
                                foreground_masks,
                                positions,
                                source_idx,
                                x,
                                y,
                            )) {
                                sy = sy + delta_of_column(
                                    &warp.deltas_by_source[source_idx],
                                    warp.strip_width,
                                    x,
                                ) as i64;
                            }
                        }
                    }
                    assert(sy == y - positions@[source_idx as int].y
                        + SourceCoordinateMap::delta_at(
                        *source_map,
                        positions@,
                        local_warp,
                        foreground_masks,
                        x as int,
                        y as int,
                    ));
                    if sx >= 0 && sy >= 0 && sx <= 65535 && sy <= 65535 {
                        map.set(x, y, source, sx as u16, sy as u16);
                    }
                }
            }
        }
        map
    }

    /// The 16-bit pixel that stands for an entry: black for none, and one more than the number of
    /// the frame, the column and the row otherwise.
    pub open spec fn encoded(entry: Option<(u8, u16, u16)>) -> [u16; 3] {
        match entry {
            Some(e) => [(e.0 + 1) as u16, e.1, e.2],
            None => [0, 0, 0],
        }
    }

    /// What the tables hold for a 16-bit pixel. Of the first channel, less one, the low eight bits
    /// are kept.
    pub open spec fn decoded(p: [u16; 3]) -> (u8, u16, u16) {
        if p[0] == 0 {
            SourceCoordinateMap::storage(None)
        } else {
            (((p[0] - 1) % 256) as u8, p[1], p[2])
        }
    }

    /// The map as a 16-bit image.
    #[verifier::loop_isolation(false)]
    pub fn to_rgb16_image(&self) -> (img: Rgb16Image)
        requires
            self.wf(),
            3 * self.width <= usize::MAX,
            6 * (self.width * self.height) <= isize::MAX,
        ensures
            img.w() == self.width,
            img.h() == self.height,
            forall|x: int, y: int|
                self.has(x, y) ==> #[trigger] img.px(x, y) == SourceCoordinateMap::encoded(
                    self.entry(x, y),
                ),
    {
        let black: [u16; 3] = [0, 0, 0];
        let mut img = Rgb16Image::from_pixel(self.width, self.height, black);
        for y in 0..self.height
            invariant
                img.w() == self.width,
                img.h() == self.height,
                forall|i: int, j: int|
                    self.has(i, j) ==> #[trigger] img.px(i, j) == if scanned(i, j, 0, y as int) {
                        SourceCoordinateMap::encoded(self.entry(i, j))
                    } else {
                        black
                    },
        {
            for x in 0..self.width
                invariant
                    img.w() == self.width,
                    img.h() == self.height,
                    forall|i: int, j: int|
                        self.has(i, j) ==> #[trigger] img.px(i, j) == if scanned(
                            i,
                            j,
                            x as int,
                            y as int,
                        ) {
                            SourceCoordinateMap::encoded(self.entry(i, j))
                        } else {
                            black
                        },
            {
                proof {
                    lemma_cell_bound(self.width as int, self.height as int, x as int, y as int);
                    assert(black@ =~= SourceCoordinateMap::encoded(None)@);
                }
                if let Some((source, sx, sy)) = self.get(x, y) {
                    let p: [u16; 3] = [source as u16 + 1, sx, sy];
                    assert(p@ =~= SourceCoordinateMap::encoded(Some((source, sx, sy)))@);
                    img.put_pixel(x, y, p);
                }
            }
        }
        img
    }

    /// The map that a 16-bit image stands for.
    #[verifier::loop_isolation(false)]
    pub fn from_rgb16_image(img: &Rgb16Image) -> (map: SourceCoordinateMap)
        requires
            img.w() * img.h() <= u32::MAX,
        ensures
            map.wf(),
            map.width == img.w(),
            map.height == img.h(),
            forall|x: int, y: int|
                map.has(x, y) ==> #[trigger] map.stored(x, y) == SourceCoordinateMap::decoded(
                    img.px(x, y),
                ),
    {
        let (width, height) = img.dimensions();
        let mut map = SourceCoordinateMap::new(width, height);
        for y in 0..height
            invariant
                map.wf(),
                map.width == width,
                map.height == height,
                forall|i: int, j: int|
                    map.has(i, j) ==> #[trigger] map.stored(i, j) == if scanned(i, j, 0, y as int) {
                        SourceCoordinateMap::decoded(img.px(i, j))
                    } else {
                        SourceCoordinateMap::storage(None)
                    },
        {
            for x in 0..width
                invariant
                    map.wf(),
                    map.width == width,
                    map.height == height,
                    forall|i: int, j: int|
                        map.has(i, j) ==> #[trigger] map.stored(i, j) == if scanned(
                            i,
                            j,
                            x as int,
                            y as int,
                        ) {
                            SourceCoordinateMap::decoded(img.px(i, j))
                        } else {
                            SourceCoordinateMap::storage(None)
                        },
            {
                proof {
                    lemma_cell_bound(width as int, height as int, x as int, y as int);
                }
                let p = img.get_pixel(x, y);
                if p[0] != 0 {
                    let source: u8 = ((p[0] - 1) % 256) as u8;
                    map.set(x, y, source, p[1], p[2]);
                }
            }
        }
        map
    }
}

/// Writing a coordinate map as a 16-bit image and reading the image back keeps every entry.
pub proof fn coordinate_map_survives_a_16_bit_image(
    map: SourceCoordinateMap,
    img: Rgb16Image,
    back: SourceCoordinateMap,
)
    requires
        map.wf(),
        // `img` is what `to_rgb16_image` makes of `map`
        img.w() == map.width,
        img.h() == map.height,
        forall|x: int, y: int|
            map.has(x, y) ==> #[trigger] img.px(x, y) == SourceCoordinateMap::encoded(
                map.entry(x, y),
            ),
        // `back` is what `from_rgb16_image` makes of `img`
        back.wf(),
        back.width == img.w(),
        back.height == img.h(),
        forall|x: int, y: int|
            back.has(x, y) ==> #[trigger] back.stored(x, y) == SourceCoordinateMap::decoded(
                img.px(x, y),
            ),
    ensures
        forall|x: int, y: int|
            map.has(x, y) ==> #[trigger] back.entry(x, y) == map.entry(x, y) && back.stored(x, y)
                == SourceCoordinateMap::storage(map.entry(x, y)),
{
    assert forall|x: int, y: int| map.has(x, y) implies #[trigger] back.entry(x, y) == map.entry(
        x,
        y,
    ) && back.stored(x, y) == SourceCoordinateMap::storage(map.entry(x, y)) by {
        assert(back.stored(x, y) == SourceCoordinateMap::decoded(img.px(x, y)));
        assert(img.px(x, y) == SourceCoordinateMap::encoded(map.entry(x, y)));
    }
}

/// Whether the pixel `k` of the canvas has no entry.
pub open spec fn unassigned_at(map: SourceCoordinateMap, k: int) -> bool {
    map.entry(k % map.width as int, k / map.width as int) is None
}

/// Whether the entry of the pixel `k` of the canvas names a pixel that does not exist.
pub open spec fn out_of_bounds_at(map: SourceCoordinateMap, inputs: Seq<RgbImage>, k: int) -> bool {
    map.entry(k % map.width as int, k / map.width as int) matches Some(e) && !(e.0 < inputs.len()
        && inputs[e.0 as int].has(e.1 as int, e.2 as int))
}

/// Whether the entry of the pixel `k` of the canvas names a pixel that exists.
pub open spec fn checked_at(map: SourceCoordinateMap, inputs: Seq<RgbImage>, k: int) -> bool {
    map.entry(k % map.width as int, k / map.width as int) matches Some(e) && e.0 < inputs.len()
        && inputs[e.0 as int].has(e.1 as int, e.2 as int)
}

/// Whether the pixel `k` of the canvas differs from the existing pixel that its entry names.
pub open spec fn mismatched_at(
    map: SourceCoordinateMap,
    inputs: Seq<RgbImage>,
    stitched: RgbImage,
    k: int,
) -> bool {
    &&& checked_at(map, inputs, k)
    &&& map.entry(k % map.width as int, k / map.width as int) matches Some(e)
    &&& stitched.px(k % map.width as int, k / map.width as int) != inputs[e.0 as int].px(
        e.1 as int,
        e.2 as int,
    )
}

/// Compares every pixel of a canvas with the pixel that the coordinate map names.
#[verifier::loop_isolation(false)]
pub fn verify_source_coordinate_map(
    stitched: &RgbImage,
    inputs: &[RgbImage],
    coord_map: &SourceCoordinateMap,
) -> (report: SourceCoordinateVerification)
    requires
        coord_map.wf(),
        stitched.w() == coord_map.width,
        stitched.h() == coord_map.height,
    ensures
        report.unassigned_pixels == count_where(
            coord_map.sources@.len(),
            |k: int| unassigned_at(*coord_map, k),
        ),
        report.out_of_bounds_pixels == count_where(
            coord_map.sources@.len(),
            |k: int| out_of_bounds_at(*coord_map, inputs@, k),
        ),
        report.checked_pixels == count_where(
            coord_map.sources@.len(),
            |k: int| checked_at(*coord_map, inputs@, k),
        ),
        report.mismatched_pixels == count_where(
            coord_map.sources@.len(),
            |k: int| mismatched_at(*coord_map, inputs@, *stitched, k),
        ),
{
    let ghost pu = |k: int| unassigned_at(*coord_map, k);
    let ghost po = |k: int| out_of_bounds_at(*coord_map, inputs@, k);
    let ghost pc = |k: int| checked_at(*coord_map, inputs@, k);
    let ghost pm = |k: int| mismatched_at(*coord_map, inputs@, *stitched, k);
    let w = coord_map.width;
    let h = coord_map.height;
    let mut report = SourceCoordinateVerification {
        checked_pixels: 0,
        mismatched_pixels: 0,
        out_of_bounds_pixels: 0,
        unassigned_pixels: 0,
    };
    let ghost mut done: nat = 0;
    proof {
        assert(0 * w == 0) by (nonlinear_arith);
    }
    for y in 0..h
        invariant
            done == y * w,
            report.unassigned_pixels == count_where(done, pu),
            report.out_of_bounds_pixels == count_where(done, po),
            report.checked_pixels == count_where(done, pc),
            report.mismatched_pixels == count_where(done, pm),
    {
        for x in 0..w
            invariant
                done == y * w + x,
                report.unassigned_pixels == count_where(done, pu),
                report.out_of_bounds_pixels == count_where(done, po),
                report.checked_pixels == count_where(done, pc),
                report.mismatched_pixels == count_where(done, pm),
        {
            proof {
                lemma_cell_bound(w as int, h as int, x as int, y as int);
                lemma_index_of_cell(w as int, x as int, y as int);
                lemma_count_bound(done, pu);
                lemma_count_bound(done, po);
                lemma_count_bound(done, pc);
                lemma_count_bound(done, pm);
                done = done + 1;
                assert(count_where(done, pu) == count_where((done - 1) as nat, pu) + if pu(
                    done - 1,
                ) {
                    1nat
                } else {
                    0nat
                });
            }
            match coord_map.get(x, y) {
                Some((source, sx, sy)) => {
                    let source_idx: usize = source as usize;
                    if source_idx < inputs.len() {
                        let (iw, ih) = inputs[source_idx].dimensions();
                        if (sx as u32) < iw && (sy as u32) < ih {
                            report.checked_pixels = report.checked_pixels + 1;
                            if !same_pixel(
                                stitched.get_pixel(x, y),
                                inputs[source_idx].get_pixel(sx as u32, sy as u32),
                            ) {
                                report.mismatched_pixels = report.mismatched_pixels + 1;
                            }
                        } else {
                            report.out_of_bounds_pixels = report.out_of_bounds_pixels + 1;
                        }
                    } else {
                        report.out_of_bounds_pixels = report.out_of_bounds_pixels + 1;
                    }
                },
                None => {
                    report.unassigned_pixels = report.unassigned_pixels + 1;
                },
            }
        }
        proof {
            assert(y * w + w == (y + 1) * w) by (nonlinear_arith);
        }
    }
    proof {
        assert(h * w == w * h) by (nonlinear_arith);
    }
    report
}

/// Every pixel of the canvas is unassigned, out of bounds or checked, and only one of these.
pub proof fn verification_accounts_for_every_pixel(
    map: SourceCoordinateMap,
    inputs: Seq<RgbImage>,
    n: nat,
)
    ensures
        count_where(n, |k: int| unassigned_at(map, k)) + count_where(
            n,
            |k: int| out_of_bounds_at(map, inputs, k),
        ) + count_where(n, |k: int| checked_at(map, inputs, k)) == n,
    decreases n,
{
    if n > 0 {
        verification_accounts_for_every_pixel(map, inputs, (n - 1) as nat);
    }
}

/// In a 16-bit image, the first channel numbers the frames from one, with zero for a pixel without a
/// frame, and the two others are its column and its row.
pub proof fn channels_hold_frame_column_and_row(s: u8, sx: u16, sy: u16)
    requires
        s < 255,
    ensures
        ({
            let p = SourceCoordinateMap::encoded(Some((s, sx, sy)));
            &&& p[0] == s + 1
            &&& p[1] == sx
            &&& p[2] == sy
            &&& SourceCoordinateMap::decoded(p) == (s, sx, sy)
        }),
        ({
            let p = SourceCoordinateMap::encoded(None);
            &&& p[0] == 0 && p[1] == 0 && p[2] == 0
            &&& SourceCoordinateMap::decoded(p).0 == 255
        }),
{
}

/// The coordinates of a canvas pixel are those of the pixel of its frame: to the right and below the
/// corner of the frame as the canvas pixel is, and `delta` rows further down. There are none without
/// a frame or a position, and where they do not fit in 16 bits.
pub proof fn coordinates_name_the_pixel_of_the_frame(
    map: SourceMap,
    positions: Seq<Position>,
    x: int,
    y: int,
    delta: int,
)
    ensures
        match SourceCoordinateMap::located(map, positions, x, y, delta) {
            Some((s, sx, sy)) => {
                &&& s == map.at(x, y)
                &&& s < 255
                &&& s < positions.len()
                &&& positions[s as int].x + sx == x
                &&& positions[s as int].y + sy == y + delta
            },
            None => {
                let s = map.at(x, y);
                ||| s == 255
                ||| s >= positions.len()
                ||| x < positions[s as int].x
                ||| x > positions[s as int].x + 65535
                ||| y + delta < positions[s as int].y
                ||| y + delta > positions[s as int].y + 65535
            },
        },
{
}

/// A canvas pixel whose color differs from the one that the coordinates name is counted as a
/// mismatch, one that agrees is not, and coordinates outside the frames are counted as out of
/// bounds.
pub proof fn verification_tells_right_from_wrong(
    map: SourceCoordinateMap,
    inputs: Seq<RgbImage>,
    stitched: RgbImage,
    x: int,
    y: int,
)
    requires
        map.wf(),
        map.has(x, y),
    ensures
        ({
            let k = y * map.width + x;
            let s = map.sources@[k];
            let sx = map.source_x@[k];
            let sy = map.source_y@[k];
            &&& unassigned_at(map, k) <==> s == 255
            &&& out_of_bounds_at(map, inputs, k) <==> s != 255 && (s >= inputs.len() || sx
                >= inputs[s as int].w() || sy >= inputs[s as int].h())
            &&& mismatched_at(map, inputs, stitched, k) <==> {
                &&& s != 255
                &&& s < inputs.len()
                &&& sx < inputs[s as int].w()
                &&& sy < inputs[s as int].h()
                &&& stitched.px(x, y) != inputs[s as int].px(sx as int, sy as int)
            }
        }),
{
    crate::grid::lemma_index_of_cell(map.width as int, x, y);
}

} // verus!
