//! Seams: where an incoming frame takes over from what is already on the canvas.

use vstd::prelude::*;

use crate::buffers::RgbImage;
use crate::canvas::same_size;
use crate::foreground::{
    dilated, foreground_hits, foreground_mask_for_overlap, mask_seq, masks_readable, unmarked,
    ForegroundMask,
};
use crate::geometry::{covers, Position};
use crate::grid::{cell, lemma_cell_bound, lemma_index_of_cell, scanned};
use crate::motion::{
    aligned_temporal_diff, is_motion_mask, mean_is, mean_of, motion_mask_for_overlap,
    pair_differences, takes_samples,
};
use crate::path::{
    grows, is_least_path, is_path, least_path, least_path_is_a_path, no_path_costs_less,
    not_negative, path_cost, takes_numbers,
};
use crate::pixel::{channel_distance, rgb_abs_diff};
use crate::single::Single;
use crate::source_map::SourceMap;

verus! {

/// What a seam avoids, and how strongly.
#[derive(Debug, Clone, Copy)]
pub struct SeamOptions {
    pub motion_weight: Single,
    pub motion_radius: u32,
    pub motion_threshold: Single,
    pub motion_mask_dilate: u32,
    pub motion_hard_penalty: Single,
    pub foreground_mask_dilate: u32,
    pub foreground_mask_penalty: Single,
    pub edge_weight: Single,
}

impl SeamOptions {
    /// Color differences and edges alone; the edges count with the weight 0.15.
    pub fn basic() -> (o: SeamOptions)
        ensures
            o == (SeamOptions {
                motion_weight: Single { bits: 0 },
                motion_radius: 0,
                motion_threshold: Single { bits: 0 },
                motion_mask_dilate: 0,
                motion_hard_penalty: Single { bits: 0 },
                foreground_mask_dilate: 0,
                foreground_mask_penalty: Single { bits: 0 },
                edge_weight: Single { bits: 0x3e19_999a },
            }),
    {
        SeamOptions {
            motion_weight: Single::zero(),
            motion_radius: 0,
            motion_threshold: Single::zero(),
            motion_mask_dilate: 0,
            motion_hard_penalty: Single::zero(),
            foreground_mask_dilate: 0,
            foreground_mask_penalty: Single::zero(),
            edge_weight: Single { bits: 0x3e19_999a },
        }
    }

    /// The given options, without foreground masks.
    pub fn motion_aware(
        motion_weight: Single,
        motion_radius: u32,
        motion_threshold: Single,
        motion_mask_dilate: u32,
        motion_hard_penalty: Single,
        edge_weight: Single,
    ) -> (o: SeamOptions)
        ensures
            o == (SeamOptions {
                motion_weight,
                motion_radius,
                motion_threshold,
                motion_mask_dilate,
                motion_hard_penalty,
                foreground_mask_dilate: 0,
                foreground_mask_penalty: Single { bits: 0 },
                edge_weight,
            }),
    {
        SeamOptions {
            motion_weight,
            motion_radius,
            motion_threshold,
            motion_mask_dilate,
            motion_hard_penalty,
            foreground_mask_dilate: 0,
            foreground_mask_penalty: Single::zero(),
            edge_weight,
        }
    }

    /// The same options with a penalty for seams through the foreground.
    pub fn with_foreground_mask(self, dilate: u32, penalty: Single) -> (o: SeamOptions)
        ensures
            o == (SeamOptions {
                foreground_mask_dilate: dilate,
                foreground_mask_penalty: penalty,
                ..self
            }),
    {
        SeamOptions {
            motion_weight: self.motion_weight,
            motion_radius: self.motion_radius,
            motion_threshold: self.motion_threshold,
            motion_mask_dilate: self.motion_mask_dilate,
            motion_hard_penalty: self.motion_hard_penalty,
            foreground_mask_dilate: dilate,
            foreground_mask_penalty: penalty,
            edge_weight: self.edge_weight,
        }
    }
}

/// Whether a canvas pixel has a frame and lies under a frame of size `w` by `h` at `pos`.
pub open spec fn overlaps(map: SourceMap, pos: Position, w: int, h: int, x: int, y: int) -> bool {
    map.has(x, y) && covers(pos, w, h, x, y) && map.assigned(x, y)
}

/// Whether a rectangle, given by its corners, is the smallest one that holds every canvas pixel
/// that overlaps. There is none where no pixel does.
pub open spec fn is_overlap_rect(
    map: SourceMap,
    pos: Position,
    w: int,
    h: int,
    rect: Option<(u32, u32, u32, u32)>,
) -> bool {
    match rect {
        Some(r) => {
            &&& forall|x: int, y: int| #[trigger]
                overlaps(map, pos, w, h, x, y) ==> r.0 <= x < r.2 && r.1 <= y < r.3
            &&& exists|x: int, y: int| #[trigger] overlaps(map, pos, w, h, x, y) && x == r.0
            &&& exists|x: int, y: int| #[trigger] overlaps(map, pos, w, h, x, y) && y == r.1
            &&& exists|x: int, y: int| #[trigger] overlaps(map, pos, w, h, x, y) && x == r.2 - 1
            &&& exists|x: int, y: int| #[trigger] overlaps(map, pos, w, h, x, y) && y == r.3 - 1
        },
        None => forall|x: int, y: int| !#[trigger] overlaps(map, pos, w, h, x, y),
    }
}

fn clamp_low(v: i32) -> (r: u32)
    ensures
        r == if v > 0 {
            v as int
        } else {
            0
        },
{
    if v > 0 {
        v as u32
    } else {
        0
    }
}

fn clamp_high(limit: u32, start: i32, length: u32) -> (r: u32)
    ensures
        r == if start + length < 0 {
            0
        } else if start + length < limit {
            start + length
        } else {
            limit as int
        },
{
    let end: i64 = start as i64 + length as i64;
    if end < 0 {
        0
    } else if end < limit as i64 {
        end as u32
    } else {
        limit
    }
}

/// The smallest rectangle that holds every canvas pixel that has a frame already and lies under a
/// frame of size `w` by `h` at `pos`, which may be off the canvas.
#[verifier::loop_isolation(false)]
pub fn overlap_rect_with_existing(source_map: &SourceMap, pos: Position, w: u32, h: u32) -> (rect:
    Option<(u32, u32, u32, u32)>)
    requires
        source_map.wf(),
        source_map.width <= i32::MAX,
        source_map.height <= i32::MAX,
    ensures
        is_overlap_rect(*source_map, pos, w as int, h as int, rect),
{
    let x0: u32 = clamp_low(pos.x);
    let y0: u32 = clamp_low(pos.y);
    let x1: u32 = clamp_high(source_map.width, pos.x, w);
    let y1: u32 = clamp_high(source_map.height, pos.y, h);
    if x1 <= x0 || y1 <= y0 {
        return None;
    }
    let mut min_x: u32 = x1;
    let mut min_y: u32 = y1;
    let mut max_x: u32 = x0;
    let mut max_y: u32 = y0;
    let mut found: bool = false;
    let ghost mut left: int = 0;
    let ghost mut top: int = 0;
    let ghost mut right: int = 0;
    let ghost mut bottom: int = 0;
    for y in y0..y1
        invariant
            x0 <= max_x < x1,
            y0 <= max_y < y1,
            found ==> {
                &&& overlaps(*source_map, pos, w as int, h as int, min_x as int, left)
                &&& overlaps(*source_map, pos, w as int, h as int, top, min_y as int)
                &&& overlaps(*source_map, pos, w as int, h as int, max_x as int, right)
                &&& overlaps(*source_map, pos, w as int, h as int, bottom, max_y as int)
            },
            !found ==> min_x == x1 && min_y == y1 && max_x == x0 && max_y == y0,
            forall|i: int, j: int| #[trigger]
                overlaps(*source_map, pos, w as int, h as int, i, j) && scanned(
                    i,
                    j,
                    x0 as int,
                    y as int,
                ) ==> found && min_x <= i <= max_x && min_y <= j <= max_y,
    {
        for x in x0..x1
            invariant
                x0 <= max_x < x1,
                y0 <= max_y < y1,
                found ==> {
                    &&& overlaps(*source_map, pos, w as int, h as int, min_x as int, left)
                    &&& overlaps(*source_map, pos, w as int, h as int, top, min_y as int)
                    &&& overlaps(*source_map, pos, w as int, h as int, max_x as int, right)
                    &&& overlaps(*source_map, pos, w as int, h as int, bottom, max_y as int)
                },
                !found ==> min_x == x1 && min_y == y1 && max_x == x0 && max_y == y0,
                forall|i: int, j: int| #[trigger]
                    overlaps(*source_map, pos, w as int, h as int, i, j) && scanned(
                        i,
                        j,
                        x as int,
                        y as int,
                    ) ==> found && min_x <= i <= max_x && min_y <= j <= max_y,
        {
            proof {
                lemma_cell_bound(
                    source_map.width as int,
                    source_map.height as int,
                    x as int,
                    y as int,
                );
            }
            if source_map.get(x, y) != SourceMap::UNASSIGNED {
                assert(overlaps(*source_map, pos, w as int, h as int, x as int, y as int));
                if x < min_x {
                    min_x = x;
                    proof {
                        left = y as int;
                    }
                }
                if y < min_y {
                    min_y = y;
                    proof {
                        top = x as int;
                    }
                }
                if x >= max_x {
                    max_x = x;
                    proof {
                        right = y as int;
                    }
                }
                if y >= max_y {
                    max_y = y;
                    proof {
                        bottom = x as int;
                    }
                }
                found = true;
            }
        }
    }
    if found {
        let rect = (min_x, min_y, (max_x + 1) as u32, (max_y + 1) as u32);
        proof {
            assert(overlaps(*source_map, pos, w as int, h as int, rect.2 - 1, right));
            assert(overlaps(*source_map, pos, w as int, h as int, bottom, rect.3 - 1));
            assert forall|x: int, y: int| #[trigger]
                overlaps(*source_map, pos, w as int, h as int, x, y) implies rect.0 <= x < rect.2
                && rect.1 <= y < rect.3 by {
                assert(scanned(x, y, x0 as int, y1 as int));
            }
        }
        Some(rect)
    } else {
        proof {
            assert forall|x: int, y: int| !#[trigger]
                overlaps(*source_map, pos, w as int, h as int, x, y) by {
                if overlaps(*source_map, pos, w as int, h as int, x, y) {
                    assert(scanned(x, y, x0 as int, y1 as int));
                }
            }
        }
        None
    }
}

/// A pixel and its neighbors, as far as the image has them.
#[derive(Debug, Clone, Copy)]
pub struct Surroundings {
    pub center: [u8; 3],
    pub left: Option<[u8; 3]>,
    pub above: Option<[u8; 3]>,
    pub right: Option<[u8; 3]>,
    pub below: Option<[u8; 3]>,
}

/// The pixel `(x, y)` of an image, if it has one.
pub open spec fn pixel_at(img: RgbImage, x: int, y: int) -> Option<[u8; 3]> {
    if img.has(x, y) {
        Some(img.px(x, y))
    } else {
        None
    }
}

/// The pixel `(x, y)` of an image and its neighbors.
pub open spec fn surroundings(img: RgbImage, x: int, y: int) -> Surroundings {
    Surroundings {
        center: img.px(x, y),
        left: pixel_at(img, x - 1, y),
        above: pixel_at(img, x, y - 1),
        right: pixel_at(img, x + 1, y),
        below: pixel_at(img, x, y + 1),
    }
}

/// The pixel `(x, y)` of an image and its neighbors.
pub fn surroundings_of(img: &RgbImage, x: u32, y: u32) -> (s: Surroundings)
    requires
        img.has(x as int, y as int),
    ensures
        s == surroundings(*img, x as int, y as int),
{
    let (w, h) = img.dimensions();
    Surroundings {
        center: img.get_pixel(x, y),
        left: if x > 0 {
            Some(img.get_pixel(x - 1, y))
        } else {
            None
        },
        above: if y > 0 {
            Some(img.get_pixel(x, y - 1))
        } else {
            None
        },
        right: if x < w - 1 {
            Some(img.get_pixel(x + 1, y))
        } else {
            None
        },
        below: if y < h - 1 {
            Some(img.get_pixel(x, y + 1))
        } else {
            None
        },
    }
}

/// All that the cost of a seam at one pixel of an overlap depends on besides the options.
#[derive(Debug, Clone, Copy)]
pub struct SeamCell {
    /// The sum over the channels of the differences between the canvas and the incoming frame.
    pub color: u32,
    pub canvas: Surroundings,
    pub incoming: Surroundings,
    /// The penalty for a seam that comes close to the upper or the lower edge of the overlap.
    pub margin_penalty: u32,
    /// The mean difference of the two frames around the pixel, where motion counts.
    pub motion: Option<Single>,
    /// Whether the pixel is marked as moving.
    pub hard_motion: bool,
    /// Whether the pixel is marked as foreground.
    pub foreground: bool,
}

/// The penalty for a seam in the row `y` of an overlap of height `h`: eight for each row by which
/// it is closer than twelve rows to an edge.
pub open spec fn margin_penalty(h: int, y: int) -> int {
    let margin = if y < h - 1 - y {
        y
    } else {
        h - 1 - y
    };
    if margin < 12 {
        (12 - margin) * 8
    } else {
        0
    }
}

fn margin_penalty_of(h: usize, y: usize) -> (p: u32)
    requires
        y < h,
    ensures
        p == margin_penalty(h as int, y as int),
{
    let margin: usize = if y < h - 1 - y {
        y
    } else {
        h - 1 - y
    };
    if margin < 12 {
        (12 - margin as u32) * 8
    } else {
        0
    }
}

/// An overlap of the canvas with an incoming frame.
pub struct Overlap {
    pub canvas: RgbImage,
    pub map: SourceMap,
    pub images: Seq<RgbImage>,
    pub positions: Seq<Position>,
    pub masks: Option<Seq<ForegroundMask>>,
    pub options: SeamOptions,
    pub incoming: int,
    pub x0: int,
    pub y0: int,
    pub x1: int,
    pub y1: int,
}

impl Overlap {
    /// The width of the overlap.
    pub open spec fn w(&self) -> int {
        self.x1 - self.x0
    }

    /// The height of the overlap.
    pub open spec fn h(&self) -> int {
        self.y1 - self.y0
    }

    /// Whether the overlap lies on the canvas and under the incoming frame, and the masks can be
    /// read where the foreground has a penalty.
    pub open spec fn wf(&self) -> bool {
        let pos = self.positions[self.incoming];
        let img = self.images[self.incoming];
        &&& same_size(self.canvas, self.map)
        &&& self.map.width <= i32::MAX
        &&& self.map.height <= i32::MAX
        &&& 0 <= self.incoming < self.images.len() <= self.positions.len()
        &&& (Single { bits: 0 }).lt(self.options.foreground_mask_penalty) ==> masks_readable(
            self.map,
            self.masks,
            self.positions,
            self.incoming,
            self.x0,
            self.y0,
            self.w(),
            self.h(),
        )
        &&& 0 <= self.x0 <= self.x1 <= self.map.width
        &&& 0 <= self.y0 <= self.y1 <= self.map.height
        &&& pos.x <= self.x0 && self.x1 <= pos.x + img.w()
        &&& pos.y <= self.y0 && self.y1 <= pos.y + img.h()
    }

    /// Whether a mask marks the pixels that motion bars. There are none where motion has no
    /// penalty.
    pub open spec fn is_hard_mask<M: Fn(&Vec<u32>) -> Single>(
        &self,
        mean: M,
        mask: Seq<bool>,
    ) -> bool {
        if (Single { bits: 0 }).lt(self.options.motion_hard_penalty) {
            is_motion_mask(
                mean,
                self.map,
                self.images,
                self.positions,
                self.incoming,
                self.x0,
                self.y0,
                self.w(),
                self.h(),
                self.options.motion_radius as int,
                self.options.motion_threshold,
                self.options.motion_mask_dilate as int,
                mask,
            )
        } else {
            mask == Seq::new((self.w() * self.h()) as nat, |k: int| false)
        }
    }

    /// The pixels that the foreground bars. There are none where it has no penalty.
    pub open spec fn foreground_mask(&self) -> Seq<bool> {
        if (Single { bits: 0 }).lt(self.options.foreground_mask_penalty) {
            dilated(
                foreground_hits(
                    self.map,
                    self.masks,
                    self.positions,
                    self.incoming,
                    self.x0,
                    self.y0,
                    self.w(),
                    self.h(),
                ),
                self.w(),
                self.h(),
                self.options.foreground_mask_dilate as int,
            )
        } else {
            Seq::new((self.w() * self.h()) as nat, |k: int| false)
        }
    }

    /// Whether a cell describes the pixel in the column `x` and the row `y` of the overlap.
    pub open spec fn is_cell<M: Fn(&Vec<u32>) -> Single>(
        &self,
        mean: M,
        hard_mask: Seq<bool>,
        x: int,
        y: int,
        c: SeamCell,
    ) -> bool {
        let cx = self.x0 + x;
        let cy = self.y0 + y;
        let pos = self.positions[self.incoming];
        let img = self.images[self.incoming];
        &&& c.color == channel_distance(
            self.canvas.px(cx, cy),
            img.px(cx - pos.x, cy - pos.y),
        )
        &&& c.canvas == surroundings(self.canvas, cx, cy)
        &&& c.incoming == surroundings(img, cx - pos.x, cy - pos.y)
        &&& c.margin_penalty == margin_penalty(self.h(), y)
        &&& if (Single { bits: 0 }).lt(self.options.motion_weight) {
            c.motion matches Some(m) && mean_is(
                mean,
                pair_differences(
                    self.images,
                    self.positions,
                    self.map.at(cx, cy),
                    self.incoming,
                    cx,
                    cy,
                    self.options.motion_radius as int,
                ),
                m,
            )
        } else {
            c.motion is None
        }
        &&& c.hard_motion == hard_mask[cell(self.w(), x, y)]
        &&& c.foreground == self.foreground_mask()[cell(self.w(), x, y)]
    }

    /// Whether `v` is the cost of a seam at the pixel in the column `x` and the row `y`.
    pub open spec fn is_cost<M: Fn(&Vec<u32>) -> Single, C: Fn(SeamOptions, SeamCell) -> Single>(
        &self,
        mean: M,
        cost: C,
        hard_mask: Seq<bool>,
        x: int,
        y: int,
        v: Single,
    ) -> bool {
        exists|c: SeamCell|
            self.is_cell(mean, hard_mask, x, y, c) && #[trigger] call_ensures(
                cost,
                (self.options, c),
                v,
            )
    }

    /// Whether the costs, row by row, are those of the pixels of the overlap.
    pub open spec fn are_costs<M: Fn(&Vec<u32>) -> Single, C: Fn(SeamOptions, SeamCell) -> Single>(
        &self,
        mean: M,
        cost: C,
        hard_mask: Seq<bool>,
        costs: Seq<Single>,
    ) -> bool {
        &&& costs.len() == self.w() * self.h()
        &&& forall|k: int|
            0 <= k < costs.len() ==> self.is_cost(
                mean,
                cost,
                hard_mask,
                k % self.w(),
                k / self.w(),
                #[trigger] costs[k],
            )
    }

    /// Whether a seam, with a row of the canvas for each column of the overlap, is the path of
    /// least cost through the overlap.
    pub open spec fn is_seam<
        M: Fn(&Vec<u32>) -> Single,
        C: Fn(SeamOptions, SeamCell) -> Single,
        A: Fn(Single, Single) -> Single,
    >(&self, mean: M, cost: C, plus: A, seam: Seq<u32>) -> bool {
        if self.w() == 0 || self.h() == 0 {
            seam.len() == 0
        } else {
            exists|hard_mask: Seq<bool>, costs: Seq<Single>, rows: Seq<usize>|
                {
                    &&& self.is_hard_mask(mean, hard_mask)
                    &&& #[trigger] self.are_costs(mean, cost, hard_mask, costs)
                    &&& #[trigger] is_least_path(plus, costs, self.w(), self.h(), rows)
                    &&& seam.len() == self.w()
                    &&& forall|x: int|
                        0 <= x < self.w() ==> #[trigger] seam[x] == self.y0 + rows[x]
                }
        }
    }
}

/// Whether a function takes any cell under the options.
pub open spec fn takes_cells<C: Fn(SeamOptions, SeamCell) -> Single>(
    cost: C,
    options: SeamOptions,
) -> bool {
    forall|c: SeamCell| #[trigger] call_requires(cost, (options, c))
}

/// The rows of a seam lie in the overlap, and neighbors are at most one row apart.
pub proof fn seam_crosses_the_overlap<
    M: Fn(&Vec<u32>) -> Single,
    C: Fn(SeamOptions, SeamCell) -> Single,
    A: Fn(Single, Single) -> Single,
>(o: Overlap, mean: M, cost: C, plus: A, seam: Seq<u32>)
    requires
        o.wf(),
        o.h() > 0,
        o.is_seam(mean, cost, plus, seam),
    ensures
        seam.len() == o.w(),
        forall|x: int| 0 <= x < seam.len() ==> o.y0 <= #[trigger] seam[x] < o.y1,
        forall|x: int| 1 <= x < seam.len() ==> -1 <= #[trigger] seam[x] - seam[x - 1] <= 1,
{
    if o.w() > 0 {
        let (hard_mask, costs, rows) = choose|
            hard_mask: Seq<bool>,
            costs: Seq<Single>,
            rows: Seq<usize>,
        |
            {
                &&& o.is_hard_mask(mean, hard_mask)
                &&& #[trigger] o.are_costs(mean, cost, hard_mask, costs)
                &&& #[trigger] is_least_path(plus, costs, o.w(), o.h(), rows)
                &&& seam.len() == o.w()
                &&& forall|x: int| 0 <= x < o.w() ==> #[trigger] seam[x] == o.y0 + rows[x]
            };
        least_path_is_a_path(plus, costs, o.w(), o.h(), rows);
        assert forall|x: int| 1 <= x < seam.len() implies -1 <= #[trigger] seam[x] - seam[x - 1]
            <= 1 by {
            assert(seam[x - 1] == o.y0 + rows[x - 1]);
            assert(-1 <= rows[x] - rows[x - 1] <= 1);
        }
    }
}

/// The costs of a seam at the pixels of an overlap, row by row.
#[verifier::loop_isolation(false)]
fn seam_costs<M: Fn(&Vec<u32>) -> Single, C: Fn(SeamOptions, SeamCell) -> Single>(
    canvas: &RgbImage,
    source_map: &SourceMap,
    images: &[RgbImage],
    positions: &[Position],
    incoming_idx: usize,
    x0: u32,
    y0: u32,
    x1: u32,
    y1: u32,
    options: SeamOptions,
    hard_mask: &Vec<bool>,
    foreground_mask: &Vec<bool>,
    mean: &M,
    cost: &C,
    Ghost(o): Ghost<Overlap>,
) -> (costs: Vec<Single>)
    requires
        o.canvas == *canvas,
        o.map == *source_map,
        o.images == images@,
        o.positions == positions@,
        o.incoming == incoming_idx,
        o.x0 == x0,
        o.y0 == y0,
        o.x1 == x1,
        o.y1 == y1,
        o.options == options,
        o.wf(),
        hard_mask@.len() == o.w() * o.h(),
        foreground_mask@.len() == o.w() * o.h(),
        foreground_mask@ == o.foreground_mask(),
        takes_samples(*mean),
        takes_cells(*cost, options),
    ensures
        o.are_costs(*mean, *cost, hard_mask@, costs@),
{
    let ow: usize = (x1 - x0) as usize;
    let oh: usize = (y1 - y0) as usize;
    let incoming = &images[incoming_idx];
    let pos = positions[incoming_idx];
    let mut costs: Vec<Single> = Vec::new();
    proof {
        assert(0 * ow == 0) by (nonlinear_arith);
        assert(hard_mask.len() == hard_mask@.len());
    }
    for yy in 0..oh
        invariant
            costs@.len() == yy * ow,
            forall|k: int|
                0 <= k < costs@.len() ==> o.is_cost(
                    *mean,
                    *cost,
                    hard_mask@,
                    k % o.w(),
                    k / o.w(),
                    #[trigger] costs@[k],
                ),
    {
        for xx in 0..ow
            invariant
                costs@.len() == yy * ow + xx,
                forall|k: int|
                    0 <= k < costs@.len() ==> o.is_cost(
                        *mean,
                        *cost,
                        hard_mask@,
                        k % o.w(),
                        k / o.w(),
                        #[trigger] costs@[k],
                    ),
        {
            proof {
                lemma_index_of_cell(ow as int, xx as int, yy as int);
                lemma_cell_bound(ow as int, oh as int, xx as int, yy as int);
                lemma_cell_bound(
                    source_map.width as int,
                    source_map.height as int,
                    x0 + xx,
                    y0 + yy,
                );
            }
            let cx: u32 = x0 + xx as u32;
            let cy: u32 = y0 + yy as u32;
            let sx: u32 = (cx as i64 - pos.x as i64) as u32;
            let sy: u32 = (cy as i64 - pos.y as i64) as u32;
            let zero = Single::zero();
            let motion = if zero.is_below(options.motion_weight) {
                let pairs = aligned_temporal_diff(
                    images,
                    positions,
                    source_map.get(cx, cy),
                    incoming_idx,
                    cx,
                    cy,
                    options.motion_radius,
                );
                Some(mean_of(mean, &pairs))
            } else {
                None
            };
            let c = SeamCell {
                color: rgb_abs_diff(canvas.get_pixel(cx, cy), incoming.get_pixel(sx, sy)),
                canvas: surroundings_of(canvas, cx, cy),
                incoming: surroundings_of(incoming, sx, sy),
                margin_penalty: margin_penalty_of(oh, yy),
                motion,
                hard_motion: hard_mask[yy * ow + xx],
                foreground: foreground_mask[yy * ow + xx],
            };
            let v = cost(options, c);
            assert(o.is_cell(*mean, hard_mask@, xx as int, yy as int, c));
            assert(o.is_cost(*mean, *cost, hard_mask@, xx as int, yy as int, v));
            costs.push(v);
        }
        proof {
            assert(yy * ow + ow == (yy + 1) * ow) by (nonlinear_arith);
        }
    }
    proof {
        assert(oh * ow == ow * oh) by (nonlinear_arith);
    }
    costs
}

/// The overlap that a seam crosses.
pub open spec fn overlap(
    canvas: RgbImage,
    map: SourceMap,
    images: Seq<RgbImage>,
    positions: Seq<Position>,
    incoming: int,
    rect: (u32, u32, u32, u32),
    options: SeamOptions,
    masks: Option<Seq<ForegroundMask>>,
) -> Overlap {
    Overlap {
        canvas,
        map,
        images,
        positions,
        masks,
        options,
        incoming,
        x0: rect.0 as int,
        y0: rect.1 as int,
        x1: rect.2 as int,
        y1: rect.3 as int,
    }
}

/// The seam between the canvas and an incoming frame of a vertical pan: for each column of the
/// overlap `x0..x1` by `y0..y1`, the first row that the incoming frame takes. It is the path of
/// least cost through the overlap. The costs come from `cost`, which is handed the options and
/// what there is at the pixel, the means of differences from `mean`, and sums from `plus`.
pub fn find_vertical_pan_seam<
    M: Fn(&Vec<u32>) -> Single,
    C: Fn(SeamOptions, SeamCell) -> Single,
    A: Fn(Single, Single) -> Single,
>(
    canvas: &RgbImage,
    source_map: &SourceMap,
    images: &[RgbImage],
    positions: &[Position],
    incoming_idx: usize,
    x0: u32,
    y0: u32,
    x1: u32,
    y1: u32,
    seam_options: SeamOptions,
    foreground_masks: Option<&[ForegroundMask]>,
    mean: &M,
    cost: &C,
    plus: &A,
) -> (seam: Vec<u32>)
    requires
        overlap(
            *canvas,
            *source_map,
            images@,
            positions@,
            incoming_idx as int,
            (x0, y0, x1, y1),
            seam_options,
            mask_seq(foreground_masks),
        ).wf(),
        takes_samples(*mean),
        takes_cells(*cost, seam_options),
        takes_numbers(*plus),
    ensures
        overlap(
            *canvas,
            *source_map,
            images@,
            positions@,
            incoming_idx as int,
            (x0, y0, x1, y1),
            seam_options,
            mask_seq(foreground_masks),
        ).is_seam(*mean, *cost, *plus, seam@),
{
    let ghost o = overlap(
        *canvas,
        *source_map,
        images@,
        positions@,
        incoming_idx as int,
        (x0, y0, x1, y1),
        seam_options,
        mask_seq(foreground_masks),
    );
    let ow: usize = (x1 - x0) as usize;
    let oh: usize = (y1 - y0) as usize;
    if ow == 0 || oh == 0 {
        return Vec::new();
    }
    proof {
        // the overlap is a part of the canvas, whose pixels can be counted
        assert(0 < ow * oh <= source_map.width * source_map.height) by (nonlinear_arith)
            requires
                0 < ow <= source_map.width,
                0 < oh <= source_map.height,
        ;
        assert(source_map.data.len() == source_map.width * source_map.height);
    }
    let zero = Single::zero();
    let hard_mask = if zero.is_below(seam_options.motion_hard_penalty) {
        motion_mask_for_overlap(
            source_map,
            images,
            positions,
            incoming_idx,
            x0,
            y0,
            ow,
            oh,
            seam_options.motion_radius,
            seam_options.motion_threshold,
            seam_options.motion_mask_dilate,
            mean,
        )
    } else {
        unmarked(ow * oh)
    };
    let foreground_mask = if zero.is_below(seam_options.foreground_mask_penalty) {
        foreground_mask_for_overlap(
            source_map,
            foreground_masks,
            positions,
            incoming_idx,
            x0,
            y0,
            ow,
            oh,
            seam_options.foreground_mask_dilate,
        )
    } else {
        unmarked(ow * oh)
    };
    let costs = seam_costs(
        canvas,
        source_map,
        images,
        positions,
        incoming_idx,
        x0,
        y0,
        x1,
        y1,
        seam_options,
        &hard_mask,
        &foreground_mask,
        mean,
        cost,
        Ghost(o),
    );
    let rows = least_path(&costs, ow, oh, plus);
    proof {
        least_path_is_a_path(*plus, costs@, ow as int, oh as int, rows@);
    }
    let mut seam: Vec<u32> = Vec::new();
    for x in 0..ow
        invariant
            is_path(ow as int, oh as int, rows@),
            oh == y1 - y0,
            seam@.len() == x,
            forall|i: int| 0 <= i < x ==> #[trigger] seam@[i] == y0 + rows@[i],
    {
        assert(rows@[x as int] < oh);
        seam.push(y0 + rows[x] as u32);
    }
    assert(o.are_costs(*mean, *cost, hard_mask@, costs@));
    assert(is_least_path(*plus, costs@, o.w(), o.h(), rows@));
    seam
}

/// Rows nearer than twelve to the upper or the lower edge of the overlap cost eight for each row that
/// they are too near, and no others cost anything; the two edges count alike.
pub proof fn edges_of_the_overlap_are_avoided(h: int, y: int)
    requires
        0 <= y < h,
    ensures
        margin_penalty(h, y) == margin_penalty(h, h - 1 - y),
        margin_penalty(h, y) == 0 <==> 12 <= y && 12 <= h - 1 - y,
        y <= h - 1 - y && y < 12 ==> margin_penalty(h, y) + 8 * y == 96,
{
}

/// What the price of a cell of the overlap is made of: the pixels of the canvas and of the incoming
/// frame that meet there, each with its four neighbors where it has them, the distance of the two,
/// and motion and foreground where they have a weight.
pub proof fn cells_hold_the_pixels_that_meet<M: Fn(&Vec<u32>) -> Single>(
    o: Overlap,
    mean: M,
    hard_mask: Seq<bool>,
    x: int,
    y: int,
    c: SeamCell,
)
    requires
        o.wf(),
        o.is_hard_mask(mean, hard_mask),
        0 <= x < o.x1 - o.x0,
        0 <= y < o.y1 - o.y0,
        o.is_cell(mean, hard_mask, x, y, c),
    ensures
        ({
            let cx = o.x0 + x;
            let cy = o.y0 + y;
            let img = o.images[o.incoming];
            let sx = cx - o.positions[o.incoming].x;
            let sy = cy - o.positions[o.incoming].y;
            let zero = Single { bits: 0 };
            &&& c.color == channel_distance(o.canvas.px(cx, cy), img.px(sx, sy))
            &&& c.canvas.center == o.canvas.px(cx, cy) && c.incoming.center == img.px(sx, sy)
            &&& c.canvas.left == if cx > 0 {
                Some(o.canvas.px(cx - 1, cy))
            } else {
                None
            }
            &&& c.canvas.above == if cy > 0 {
                Some(o.canvas.px(cx, cy - 1))
            } else {
                None
            }
            &&& c.canvas.right == if cx + 1 < o.canvas.w() {
                Some(o.canvas.px(cx + 1, cy))
            } else {
                None
            }
            &&& c.canvas.below == if cy + 1 < o.canvas.h() {
                Some(o.canvas.px(cx, cy + 1))
            } else {
                None
            }
            &&& c.incoming.left == if sx > 0 {
                Some(img.px(sx - 1, sy))
            } else {
                None
            }
            &&& c.incoming.above == if sy > 0 {
                Some(img.px(sx, sy - 1))
            } else {
                None
            }
            &&& c.incoming.right == if sx + 1 < img.w() {
                Some(img.px(sx + 1, sy))
            } else {
                None
            }
            &&& c.incoming.below == if sy + 1 < img.h() {
                Some(img.px(sx, sy + 1))
            } else {
                None
            }
            &&& c.motion is Some <==> zero.lt(o.options.motion_weight)
            &&& c.hard_motion ==> zero.lt(o.options.motion_hard_penalty)
            &&& c.foreground ==> zero.lt(o.options.foreground_mask_penalty)
        }),
{
    lemma_cell_bound(o.w(), o.h(), x, y);
}

/// The rectangle of an overlap is the smallest one that holds every canvas pixel that has a frame and
/// lies under the incoming one.
pub proof fn overlap_rectangles_are_tight(
    map: SourceMap,
    pos: Position,
    w: int,
    h: int,
    r: (u32, u32, u32, u32),
    x0: int,
    y0: int,
    x1: int,
    y1: int,
    x: int,
    y: int,
)
    requires
        is_overlap_rect(map, pos, w, h, Some(r)),
        // another rectangle that holds all those pixels
        forall|u: int, v: int|
            #![trigger map.at(u, v)]
            0 <= u < map.width && 0 <= v < map.height && 0 <= u - pos.x < w && 0 <= v - pos.y < h
                && map.at(u, v) != 255 ==> x0 <= u < x1 && y0 <= v < y1,
    ensures
        x0 <= r.0 < r.2 <= x1,
        y0 <= r.1 < r.3 <= y1,
        0 <= x < map.width && 0 <= y < map.height && 0 <= x - pos.x < w && 0 <= y - pos.y < h
            && map.data@[y * map.width + x] != 255 ==> r.0 <= x < r.2 && r.1 <= y < r.3,
{
    let a = choose|x: int, y: int| #[trigger] overlaps(map, pos, w, h, x, y) && x == r.0;
    let b = choose|x: int, y: int| #[trigger] overlaps(map, pos, w, h, x, y) && y == r.1;
    let c = choose|x: int, y: int| #[trigger] overlaps(map, pos, w, h, x, y) && x == r.2 - 1;
    let d = choose|x: int, y: int| #[trigger] overlaps(map, pos, w, h, x, y) && y == r.3 - 1;
    assert(map.at(a.0, a.1) != 255 && map.at(b.0, b.1) != 255);
    assert(map.at(c.0, c.1) != 255 && map.at(d.0, d.1) != 255);
    if 0 <= x < map.width && 0 <= y < map.height && 0 <= x - pos.x < w && 0 <= y - pos.y < h
        && map.data@[y * map.width + x] != 255 {
        assert(overlaps(map, pos, w, h, x, y));
    }
}

/// A seam goes where it costs least: where sums grow with their terms and no cell has a negative
/// price, every other way across the overlap costs at least as much. A way costs the prices of its
/// cells, and one and a half for each change of its row.
pub proof fn seams_cost_least<
    M: Fn(&Vec<u32>) -> Single,
    C: Fn(SeamOptions, SeamCell) -> Single,
    A: Fn(Single, Single) -> Single,
>(
    o: Overlap,
    mean: M,
    cost: C,
    plus: A,
    sum: spec_fn(Single, Single) -> Single,
    seam: Seq<u32>,
    other: Seq<usize>,
)
    requires
        o.wf(),
        o.w() > 0,
        o.h() > 0,
        o.is_seam(mean, cost, plus, seam),
        grows(sum),
        forall|a: Single, b: Single, r: Single| #[trigger]
            call_ensures(plus, (a, b), r) ==> r == sum(a, b),
        forall|c: SeamCell, r: Single| #[trigger]
            call_ensures(cost, (o.options, c), r) ==> not_negative(r),
        is_path(o.w(), o.h(), other),
    ensures
        exists|hard_mask: Seq<bool>, costs: Seq<Single>, rows: Seq<usize>|
            {
                &&& #[trigger] o.is_hard_mask(mean, hard_mask)
                &&& #[trigger] prices(o, mean, cost, hard_mask, costs)
                &&& rows.len() == o.x1 - o.x0
                &&& forall|x: int| 0 <= x < rows.len() ==> seam[x] == o.y0 + #[trigger] rows[x]
                &&& (#[trigger] path_cost(sum, costs, o.x1 - o.x0, rows, o.x1 - o.x0 - 1)).le(
                    path_cost(sum, costs, o.x1 - o.x0, other, o.x1 - o.x0 - 1),
                )
            },
{
    let (hard_mask, costs, rows) = choose|
        hard_mask: Seq<bool>,
        costs: Seq<Single>,
        rows: Seq<usize>,
    |
        {
            &&& o.is_hard_mask(mean, hard_mask)
            &&& #[trigger] o.are_costs(mean, cost, hard_mask, costs)
            &&& #[trigger] is_least_path(plus, costs, o.w(), o.h(), rows)
            &&& seam.len() == o.w()
            &&& forall|x: int| 0 <= x < o.w() ==> #[trigger] seam[x] == o.y0 + rows[x]
        };
    assert forall|k: int| 0 <= k < costs.len() implies not_negative(#[trigger] costs[k]) by {
        assert(o.is_cost(mean, cost, hard_mask, k % o.w(), k / o.w(), costs[k]));
    }
    no_path_costs_less(plus, sum, costs, o.w(), o.h(), rows, other);
    least_path_is_a_path(plus, costs, o.w(), o.h(), rows);
    assert(prices(o, mean, cost, hard_mask, costs)) by {
        assert forall|x: int, y: int| 0 <= x < o.w() && 0 <= y < o.h() implies o.is_cost(
            mean,
            cost,
            hard_mask,
            x,
            y,
            #[trigger] costs[y * (o.x1 - o.x0) + x],
        ) by {
            lemma_cell_bound(o.w(), o.h(), x, y);
            lemma_index_of_cell(o.w(), x, y);
            assert(o.is_cost(
                mean,
                cost,
                hard_mask,
                cell(o.w(), x, y) % o.w(),
                cell(o.w(), x, y) / o.w(),
                costs[cell(o.w(), x, y)],
            ));
        }
    }
    assert forall|x: int| 0 <= x < rows.len() implies seam[x] == o.y0 + #[trigger] rows[x] by {
        assert(seam[x] == o.y0 + rows[x]);
    }
}

/// Whether a list, row by row, holds a price for each cell of an overlap.
pub open spec fn prices<M: Fn(&Vec<u32>) -> Single, C: Fn(SeamOptions, SeamCell) -> Single>(
    o: Overlap,
    mean: M,
    cost: C,
    hard_mask: Seq<bool>,
    costs: Seq<Single>,
) -> bool {
    forall|x: int, y: int|
        0 <= x < o.x1 - o.x0 && 0 <= y < o.y1 - o.y0 ==> o.is_cost(
            mean,
            cost,
            hard_mask,
            x,
            y,
            #[trigger] costs[y * (o.x1 - o.x0) + x],
        )
}

} // verus!
