//! Synthesis of vertical pans: frame after frame is put on the canvas, from the top down, and
//! each takes over from what is there along a seam.

use vstd::prelude::*;

use crate::buffers::RgbImage;
use crate::canvas::{black, canvas_size_ok, faithful, faithful_at, same_size};
use crate::error::StitchError;
use crate::foreground::{mask_seq, mask_wf, masks_wf, ForegroundMask};
use crate::geometry::{mostly_vertical, span_x, span_y, Position};
use crate::motion::takes_samples;
use crate::nearest::{
    frames_fit, is_nearest_center, record, recorded, synthesize_nearest_center_with_source_map,
};
use crate::order::{ascending, is_sorting, stable_sort};
use crate::paste::{
    below_seam, everywhere, paste_full, paste_unassigned, paste_with_seam, pasted,
    pasting_keeps_a_canvas_faithful, shows, unassigned,
};
use crate::path::takes_numbers;
use crate::seam::{
    find_vertical_pan_seam, is_overlap_rect, overlap, overlap_rect_with_existing, overlaps,
    seam_crosses_the_overlap, takes_cells, SeamCell, SeamOptions,
};
use crate::single::Single;
use crate::source_map::SourceMap;

verus! {

/// Whether a frame is switched on. Without flags every frame is.
pub open spec fn is_on(active: Option<Seq<bool>>, i: int) -> bool {
    active matches Some(a) ==> a[i]
}

/// Those of the first `n` frames that are switched on.
pub open spec fn frames_on(active: Option<Seq<bool>>, n: int) -> Seq<usize>
    decreases n,
{
    if n <= 0 {
        Seq::empty()
    } else {
        let before = frames_on(active, n - 1);
        if is_on(active, n - 1) {
            before.push((n - 1) as usize)
        } else {
            before
        }
    }
}

/// The frames that are put on the canvas with seams: those that are switched on, or all where none
/// is.
pub open spec fn seamed(active: Option<Seq<bool>>, n: int) -> Seq<usize> {
    if frames_on(active, n).len() > 0 {
        frames_on(active, n)
    } else {
        frames_on(None, n)
    }
}

/// The flags that an optional slice holds.
pub open spec fn flag_seq(active: Option<&[bool]>) -> Option<Seq<bool>> {
    match active {
        Some(a) => Some(a@),
        None => None,
    }
}

/// The vertical coordinates, as keys to sort by.
pub open spec fn height_keys(positions: Seq<Position>) -> Seq<i64> {
    Seq::new(positions.len(), |i: int| positions[i].y as i64)
}

/// What the synthesis of a pan starts from.
pub struct Pan {
    pub images: Seq<RgbImage>,
    pub positions: Seq<Position>,
    pub options: SeamOptions,
    pub masks: Option<Seq<ForegroundMask>>,
    pub active: Option<Seq<bool>>,
}

impl Pan {
    /// Whether the parts belong together: there is a position for each frame, each frame is at
    /// least as large as the first one, the masks of the frames are well formed where the
    /// foreground has a penalty, and there are flags for each frame where there are any.
    pub open spec fn wf(&self) -> bool {
        &&& 0 < self.images.len() <= self.positions.len()
        &&& self.images[0].w() <= i32::MAX
        &&& self.images[0].h() <= i32::MAX
        &&& forall|i: int|
            0 <= i < self.images.len() ==> self.images[0].w() <= (#[trigger] self.images[i]).w()
                && self.images[0].h() <= self.images[i].h()
        &&& (Single { bits: 0 }).lt(self.options.foreground_mask_penalty) ==> masks_wf(
            self.masks,
            self.images.len() as int,
        )
        &&& self.active matches Some(a) ==> self.images.len() <= a.len()
    }

    /// Whether the second canvas is the first one with a frame put on it, along a seam where the
    /// frame overlaps what is there, and whole where it does not.
    pub open spec fn is_step<
        M: Fn(&Vec<u32>) -> Single,
        C: Fn(SeamOptions, SeamCell) -> Single,
        A: Fn(Single, Single) -> Single,
    >(
        &self,
        mean: M,
        cost: C,
        plus: A,
        before: (RgbImage, SourceMap),
        i: int,
        after: (RgbImage, SourceMap),
    ) -> bool {
        let img = self.images[i];
        let pos = self.positions[i];
        let source = recorded(Some(i));
        ||| {
            &&& is_overlap_rect(before.1, pos, self.images[0].w(), self.images[0].h(), None)
            &&& pasted(before, img, pos, source, everywhere(), after)
        }
        ||| exists|rect: (u32, u32, u32, u32), seam: Seq<u32>|
            {
                &&& is_overlap_rect(
                    before.1,
                    pos,
                    self.images[0].w(),
                    self.images[0].h(),
                    Some(rect),
                )
                &&& overlap(
                    before.0,
                    before.1,
                    self.images,
                    self.positions,
                    i,
                    rect,
                    self.options,
                    self.masks,
                ).is_seam(mean, cost, plus, seam)
                &&& #[trigger] pasted(
                    before,
                    img,
                    pos,
                    source,
                    below_seam(before.1, seam, rect),
                    after,
                )
            }
    }

    /// Whether the canvases follow from one another by putting the frames of `order` on them.
    pub open spec fn are_steps<
        M: Fn(&Vec<u32>) -> Single,
        C: Fn(SeamOptions, SeamCell) -> Single,
        A: Fn(Single, Single) -> Single,
    >(
        &self,
        mean: M,
        cost: C,
        plus: A,
        order: Seq<usize>,
        states: Seq<(RgbImage, SourceMap)>,
    ) -> bool {
        forall|k: int|
            #![trigger states[k]]
            1 <= k < states.len() ==> self.is_step(
                mean,
                cost,
                plus,
                states[k - 1],
                order[k - 1] as int,
                states[k],
            )
    }

    /// Whether the second canvas is the first one with the frame `i` put where there is none, if
    /// that frame is switched off.
    pub open spec fn is_fill(
        &self,
        before: (RgbImage, SourceMap),
        i: int,
        after: (RgbImage, SourceMap),
    ) -> bool {
        if is_on(self.active, i) {
            after == before
        } else {
            pasted(
                before,
                self.images[i],
                self.positions[i],
                recorded(Some(i)),
                unassigned(before.1),
                after,
            )
        }
    }

    /// Whether the canvases follow from one another by filling in the frames that are switched
    /// off.
    pub open spec fn are_fills(&self, fills: Seq<(RgbImage, SourceMap)>) -> bool {
        forall|k: int|
            #![trigger fills[k]]
            1 <= k < fills.len() ==> self.is_fill(fills[k - 1], k - 1, fills[k])
    }

    /// Whether a canvas is the synthesis of the pan: from a blank canvas, the frames are put on
    /// it with seams, from the top down, and then those that are switched off fill what is left.
    pub open spec fn is_synthesis<
        M: Fn(&Vec<u32>) -> Single,
        C: Fn(SeamOptions, SeamCell) -> Single,
        A: Fn(Single, Single) -> Single,
    >(&self, mean: M, cost: C, plus: A, canvas: RgbImage, map: SourceMap) -> bool {
        exists|
            order: Seq<usize>,
            states: Seq<(RgbImage, SourceMap)>,
            fills: Seq<(RgbImage, SourceMap)>,
        |
            {
                &&& is_sorting(
                    height_keys(self.positions),
                    seamed(self.active, self.images.len() as int),
                    order,
                )
                &&& states.len() == order.len() + 1
                &&& blank(states[0])
                &&& #[trigger] self.are_steps(mean, cost, plus, order, states)
                &&& fills.len() == self.images.len() + 1
                &&& fills[0] == states.last()
                &&& #[trigger] self.are_fills(fills)
                &&& fills.last() == (canvas, map)
            }
    }
}

/// Whether a canvas is black and has no frame anywhere.
pub open spec fn blank(state: (RgbImage, SourceMap)) -> bool {
    &&& same_size(state.0, state.1)
    &&& forall|x: int, y: int|
        state.1.has(x, y) ==> #[trigger] state.1.at(x, y) == SourceMap::UNASSIGNED
    &&& forall|x: int, y: int| state.1.has(x, y) ==> #[trigger] state.0.px(x, y) == black()
}

/// Those of the frames that are switched on, in ascending order.
fn collect_on(active: Option<&[bool]>, n: usize) -> (items: Vec<usize>)
    requires
        active matches Some(a) ==> n <= a@.len(),
    ensures
        items@ == frames_on(flag_seq(active), n as int),
        ascending(items@, n as int),
{
    let mut items: Vec<usize> = Vec::new();
    for i in 0..n
        invariant
            active matches Some(a) ==> n <= a@.len(),
            items@ == frames_on(flag_seq(active), i as int),
            ascending(items@, i as int),
    {
        let on = match active {
            Some(a) => a[i],
            None => true,
        };
        if on {
            items.push(i);
        }
    }
    items
}

proof fn lemma_all_on(n: int)
    requires
        0 <= n,
    ensures
        frames_on(None, n).len() == n,
    decreases n,
{
    if n > 0 {
        lemma_all_on(n - 1);
    }
}

/// The frames that are put on the canvas with seams, from the top down.
fn seam_order(active: Option<&[bool]>, positions: &[Position], n: usize) -> (order: Vec<usize>)
    requires
        0 < n <= positions@.len(),
        active matches Some(a) ==> n <= a@.len(),
    ensures
        is_sorting(height_keys(positions@), seamed(flag_seq(active), n as int), order@),
        order@.len() > 0,
        forall|k: int| 0 <= k < order@.len() ==> #[trigger] order@[k] < n,
{
    let mut items = collect_on(active, n);
    if items.len() == 0 {
        items = collect_on(None, n);
        proof {
            lemma_all_on(n as int);
        }
    }
    let mut keys: Vec<i64> = Vec::new();
    for i in 0..positions.len()
        invariant
            keys@ == height_keys(positions@).take(i as int),
    {
        keys.push(positions[i].y as i64);
        assert(height_keys(positions@).take(i + 1) =~= height_keys(positions@).take(
            i as int,
        ).push(positions@[i as int].y as i64));
    }
    assert(keys@ =~= height_keys(positions@));
    let order = stable_sort(&keys, &items);
    proof {
        assert forall|k: int| 0 <= k < order@.len() implies #[trigger] order@[k] < n by {
            assert(order@.contains(order@[k]));
            assert(items@.contains(order@[k]));
        }
    }
    order
}

/// Whether a map records none but the first `n` frames.
spec fn sources_below(map: SourceMap, n: int) -> bool {
    forall|x: int, y: int|
        map.has(x, y) && map.assigned(x, y) ==> #[trigger] map.at(x, y) < n
}

/// Puts a frame on the canvas, along a seam where it overlaps what is there.
fn place_frame<
    M: Fn(&Vec<u32>) -> Single,
    C: Fn(SeamOptions, SeamCell) -> Single,
    A: Fn(Single, Single) -> Single,
>(
    canvas: &mut RgbImage,
    source_map: &mut SourceMap,
    images: &[RgbImage],
    positions: &[Position],
    idx: usize,
    seam_options: SeamOptions,
    foreground_masks: Option<&[ForegroundMask]>,
    mean: &M,
    cost: &C,
    plus: &A,
    Ghost(pan): Ghost<Pan>,
)
    requires
        pan.wf(),
        pan.images == images@,
        pan.positions == positions@,
        pan.options == seam_options,
        pan.masks == mask_seq(foreground_masks),
        sources_below(*old(source_map), images@.len() as int),
        idx < images@.len(),
        same_size(*old(canvas), *old(source_map)),
        old(source_map).width <= i32::MAX,
        old(source_map).height <= i32::MAX,
        takes_samples(*mean),
        takes_cells(*cost, seam_options),
        takes_numbers(*plus),
    ensures
        pan.is_step(
            *mean,
            *cost,
            *plus,
            (*old(canvas), *old(source_map)),
            idx as int,
            (*final(canvas), *final(source_map)),
        ),
        sources_below(*final(source_map), images@.len() as int),
{
    let ghost before = (*canvas, *source_map);
    let (w, h) = images[0].dimensions();
    let pos = positions[idx];
    proof {
        assert(images@[idx as int] == pan.images[idx as int]);
        assert(pan.positions[idx as int] == pos);
    }
    match overlap_rect_with_existing(source_map, pos, w, h) {
        Some((x0, y0, x1, y1)) => {
            proof {
                let (a, b) = choose|x: int, y: int| #[trigger]
                    overlaps(*source_map, pos, w as int, h as int, x, y) && x == x0;
                let (c, d) = choose|x: int, y: int| #[trigger]
                    overlaps(*source_map, pos, w as int, h as int, x, y) && y == y0;
                let (e, f) = choose|x: int, y: int| #[trigger]
                    overlaps(*source_map, pos, w as int, h as int, x, y) && x == x1 - 1;
                let (g, i) = choose|x: int, y: int| #[trigger]
                    overlaps(*source_map, pos, w as int, h as int, x, y) && y == y1 - 1;
                assert(overlaps(*source_map, pos, w as int, h as int, a, b));
                assert(overlaps(*source_map, pos, w as int, h as int, c, d));
                assert(overlaps(*source_map, pos, w as int, h as int, e, f));
                assert(overlaps(*source_map, pos, w as int, h as int, g, i));
                let penalty = seam_options.foreground_mask_penalty;
                if (Single { bits: 0 }).lt(penalty) {
                    assert(mask_wf(pan.masks, idx as int));
                    assert forall|x: int, y: int|
                        #![trigger source_map.at(x, y)]
                        x0 <= x < x1 && y0 <= y < y1 && source_map.assigned(x, y) implies
                        source_map.at(x, y) < images@.len() && mask_wf(
                        pan.masks,
                        source_map.at(x, y) as int,
                    ) by {
                        assert(source_map.has(x, y));
                    }
                }
            }
            let seam = find_vertical_pan_seam(
                canvas,
                source_map,
                images,
                positions,
                idx,
                x0,
                y0,
                x1,
                y1,
                seam_options,
                foreground_masks,
                mean,
                cost,
                plus,
            );
            proof {
                seam_crosses_the_overlap(
                    overlap(
                        *canvas,
                        *source_map,
                        images@,
                        positions@,
                        idx as int,
                        (x0, y0, x1, y1),
                        seam_options,
                        mask_seq(foreground_masks),
                    ),
                    *mean,
                    *cost,
                    *plus,
                    seam@,
                );
            }
            paste_with_seam(
                canvas,
                source_map,
                &images[idx],
                pos,
                record(idx),
                &seam,
                x0,
                y0,
                x1,
                y1,
            );
            assert(pasted(
                before,
                pan.images[idx as int],
                pan.positions[idx as int],
                recorded(Some(idx as int)),
                below_seam(before.1, seam@, (x0, y0, x1, y1)),
                (*canvas, *source_map),
            ));
        },
        None => {
            paste_full(canvas, source_map, &images[idx], pos, record(idx));
        },
    }
}

/// The synthesis of a vertical pan, with its source map. Where the frames spread further
/// horizontally than they do vertically, it is the nearest-center synthesis instead.
pub fn synthesize_vertical_seams_with_source_map_opts<
    M: Fn(&Vec<u32>) -> Single,
    C: Fn(SeamOptions, SeamCell) -> Single,
    A: Fn(Single, Single) -> Single,
>(
    images: &[RgbImage],
    positions: &[Position],
    canvas_w: u32,
    canvas_h: u32,
    seam_options: SeamOptions,
    active_sources: Option<&[bool]>,
    foreground_masks: Option<&[ForegroundMask]>,
    scores: &[Vec<Single>],
    mean: &M,
    cost: &C,
    plus: &A,
) -> (r: Result<(RgbImage, SourceMap), StitchError>)
    requires
        images@.len() > 0 ==> {
            &&& canvas_size_ok(canvas_w as int, canvas_h as int)
            &&& if span_y(positions@) < span_x(positions@) {
                frames_fit(images@, positions@, scores@)
            } else {
                (Pan {
                    images: images@,
                    positions: positions@,
                    options: seam_options,
                    masks: mask_seq(foreground_masks),
                    active: flag_seq(active_sources),
                }).wf()
            }
        },
        images@.len() > 0 && span_x(positions@) <= span_y(positions@) ==> {
            &&& takes_samples(*mean)
            &&& takes_cells(*cost, seam_options)
            &&& takes_numbers(*plus)
        },
    ensures
        r is Err <==> images@.len() == 0,
        r matches Err(e) ==> e == StitchError::NoFrames,
        r matches Ok((canvas, map)) ==> {
            &&& map.width == canvas_w
            &&& map.height == canvas_h
            &&& same_size(canvas, map)
            &&& if span_y(positions@) < span_x(positions@) {
                is_nearest_center(images@, positions@, scores@, canvas, map)
            } else {
                (Pan {
                    images: images@,
                    positions: positions@,
                    options: seam_options,
                    masks: mask_seq(foreground_masks),
                    active: flag_seq(active_sources),
                }).is_synthesis(*mean, *cost, *plus, canvas, map)
            }
        },
{
    if images.len() == 0 {
        return Err(StitchError::NoFrames);
    }
    if !mostly_vertical(positions) {
        return synthesize_nearest_center_with_source_map(
            images,
            positions,
            canvas_w,
            canvas_h,
            scores,
        );
    }
    let ghost pan = Pan {
        images: images@,
        positions: positions@,
        options: seam_options,
        masks: mask_seq(foreground_masks),
        active: flag_seq(active_sources),
    };
    let order = seam_order(active_sources, positions, images.len());
    let fill: [u8; 3] = [0, 0, 0];
    assert(fill =~= black());
    let mut canvas = RgbImage::from_pixel(canvas_w, canvas_h, fill);
    let mut source_map = SourceMap::new(canvas_w, canvas_h);
    let ghost mut states: Seq<(RgbImage, SourceMap)> = seq![(canvas, source_map)];
    for k in 0..order.len()
        invariant
            pan.wf(),
            pan.images == images@,
            pan.positions == positions@,
            pan.options == seam_options,
            pan.masks == mask_seq(foreground_masks),
            sources_below(source_map, images@.len() as int),
            takes_samples(*mean),
            takes_cells(*cost, seam_options),
            takes_numbers(*plus),
            canvas_size_ok(canvas_w as int, canvas_h as int),
            same_size(canvas, source_map),
            source_map.width == canvas_w,
            source_map.height == canvas_h,
            forall|j: int| 0 <= j < order@.len() ==> #[trigger] order@[j] < images@.len(),
            states.len() == k + 1,
            states.last() == (canvas, source_map),
            blank(states[0]),
            pan.are_steps(*mean, *cost, *plus, order@, states),
    {
        place_frame(
            &mut canvas,
            &mut source_map,
            images,
            positions,
            order[k],
            seam_options,
            foreground_masks,
            mean,
            cost,
            plus,
            Ghost(pan),
        );
        proof {
            let was = states;
            states = states.push((canvas, source_map));
            assert forall|j: int|
                #![trigger states[j]]
                1 <= j < states.len() implies pan.is_step(
                *mean,
                *cost,
                *plus,
                states[j - 1],
                order@[j - 1] as int,
                states[j],
            ) by {
                assert(states[j - 1] == was[j - 1]);
                if j < was.len() {
                    assert(states[j] == was[j]);
                }
            }
        }
    }
    let ghost mut fills: Seq<(RgbImage, SourceMap)> = seq![(canvas, source_map)];
    for i in 0..images.len()
        invariant
            pan.wf(),
            pan.images == images@,
            pan.positions == positions@,
            pan.active == flag_seq(active_sources),
            canvas_size_ok(canvas_w as int, canvas_h as int),
            same_size(canvas, source_map),
            source_map.width == canvas_w,
            source_map.height == canvas_h,
            fills.len() == i + 1,
            fills[0] == states.last(),
            fills.last() == (canvas, source_map),
            pan.are_fills(fills),
    {
        let off = match active_sources {
            Some(a) => !a[i],
            None => false,
        };
        if off {
            paste_unassigned(&mut canvas, &mut source_map, &images[i], positions[i], record(i));
        }
        proof {
            let was = fills;
            fills = fills.push((canvas, source_map));
            assert forall|j: int|
                #![trigger fills[j]]
                1 <= j < fills.len() implies pan.is_fill(fills[j - 1], j - 1, fills[j]) by {
                assert(fills[j - 1] == was[j - 1]);
                if j < was.len() {
                    assert(fills[j] == was[j]);
                }
            }
        }
    }
    proof {
        assert(pan.are_steps(*mean, *cost, *plus, order@, states));
        assert(pan.are_fills(fills));
    }
    Ok((canvas, source_map))
}

/// The synthesis of a vertical pan with seams that avoid color differences and edges.
pub fn synthesize_vertical_seams_with_source_map<
    M: Fn(&Vec<u32>) -> Single,
    C: Fn(SeamOptions, SeamCell) -> Single,
    A: Fn(Single, Single) -> Single,
>(
    images: &[RgbImage],
    positions: &[Position],
    canvas_w: u32,
    canvas_h: u32,
    scores: &[Vec<Single>],
    mean: &M,
    cost: &C,
    plus: &A,
) -> (r: Result<(RgbImage, SourceMap), StitchError>)
    requires
        images@.len() > 0 ==> {
            &&& canvas_size_ok(canvas_w as int, canvas_h as int)
            &&& if span_y(positions@) < span_x(positions@) {
                frames_fit(images@, positions@, scores@)
            } else {
                plain_pan(images@, positions@, basic_options()).wf()
            }
        },
        images@.len() > 0 && span_x(positions@) <= span_y(positions@) ==> {
            &&& takes_samples(*mean)
            &&& takes_cells(*cost, basic_options())
            &&& takes_numbers(*plus)
        },
    ensures
        r is Err <==> images@.len() == 0,
        r matches Err(e) ==> e == StitchError::NoFrames,
        r matches Ok((canvas, map)) ==> {
            &&& map.width == canvas_w
            &&& map.height == canvas_h
            &&& same_size(canvas, map)
            &&& if span_y(positions@) < span_x(positions@) {
                is_nearest_center(images@, positions@, scores@, canvas, map)
            } else {
                plain_pan(images@, positions@, basic_options()).is_synthesis(
                    *mean,
                    *cost,
                    *plus,
                    canvas,
                    map,
                )
            }
        },
{
    synthesize_vertical_seams_with_source_map_opts(
        images,
        positions,
        canvas_w,
        canvas_h,
        SeamOptions::basic(),
        None,
        None,
        scores,
        mean,
        cost,
        plus,
    )
}

/// The synthesis of a vertical pan with seams that avoid motion too: the options ask for the weight
/// two, the radius six and the threshold twelve.
pub fn synthesize_vertical_seams_motion_with_source_map<
    M: Fn(&Vec<u32>) -> Single,
    C: Fn(SeamOptions, SeamCell) -> Single,
    A: Fn(Single, Single) -> Single,
>(
    images: &[RgbImage],
    positions: &[Position],
    canvas_w: u32,
    canvas_h: u32,
    scores: &[Vec<Single>],
    mean: &M,
    cost: &C,
    plus: &A,
) -> (r: Result<(RgbImage, SourceMap), StitchError>)
    requires
        images@.len() > 0 ==> {
            &&& canvas_size_ok(canvas_w as int, canvas_h as int)
            &&& if span_y(positions@) < span_x(positions@) {
                frames_fit(images@, positions@, scores@)
            } else {
                plain_pan(images@, positions@, motion_options()).wf()
            }
        },
        images@.len() > 0 && span_x(positions@) <= span_y(positions@) ==> {
            &&& takes_samples(*mean)
            &&& takes_cells(*cost, motion_options())
            &&& takes_numbers(*plus)
        },
    ensures
        r is Err <==> images@.len() == 0,
        r matches Err(e) ==> e == StitchError::NoFrames,
        r matches Ok((canvas, map)) ==> {
            &&& map.width == canvas_w
            &&& map.height == canvas_h
            &&& same_size(canvas, map)
            &&& if span_y(positions@) < span_x(positions@) {
                is_nearest_center(images@, positions@, scores@, canvas, map)
            } else {
                plain_pan(images@, positions@, motion_options()).is_synthesis(
                    *mean,
                    *cost,
                    *plus,
                    canvas,
                    map,
                )
            }
        },
{
    synthesize_vertical_seams_with_source_map_opts(
        images,
        positions,
        canvas_w,
        canvas_h,
        SeamOptions::motion_aware(
            Single { bits: 0x4000_0000 },
            6,
            Single { bits: 0x4140_0000 },
            0,
            Single::zero(),
            Single { bits: 0x3e19_999a },
        ),
        None,
        None,
        scores,
        mean,
        cost,
        plus,
    )
}

/// A pan with every frame switched on and no foreground masks.
pub open spec fn plain_pan(
    images: Seq<RgbImage>,
    positions: Seq<Position>,
    options: SeamOptions,
) -> Pan {
    Pan { images, positions, options, masks: None, active: None }
}

/// The options of `SeamOptions::basic`.
pub open spec fn basic_options() -> SeamOptions {
    SeamOptions {
        motion_weight: Single { bits: 0 },
        motion_radius: 0,
        motion_threshold: Single { bits: 0 },
        motion_mask_dilate: 0,
        motion_hard_penalty: Single { bits: 0 },
        foreground_mask_dilate: 0,
        foreground_mask_penalty: Single { bits: 0 },
        edge_weight: Single { bits: 0x3e19_999a },
    }
}

/// The basic options, with the weight two, the radius six and the threshold twelve for motion.
pub open spec fn motion_options() -> SeamOptions {
    SeamOptions {
        motion_weight: Single { bits: 0x4000_0000 },
        motion_radius: 6,
        motion_threshold: Single { bits: 0x4140_0000 },
        ..basic_options()
    }
}

/// Whether a canvas has a frame wherever the frame `i` has a pixel.
pub open spec fn covered_by(pan: Pan, map: SourceMap, i: int) -> bool {
    forall|x: int, y: int|
        map.has(x, y) && shows(pan.images[i], pan.positions[i], x, y) ==> #[trigger] map.assigned(
            x,
            y,
        )
}

proof fn lemma_on_is_listed(active: Option<Seq<bool>>, n: int, i: int)
    requires
        0 <= i < n <= usize::MAX,
        is_on(active, i),
    ensures
        frames_on(active, n).contains(i as usize),
    decreases n,
{
    let before = frames_on(active, n - 1);
    if i == n - 1 {
        assert(before.push(i as usize)[before.len() as int] == i as usize);
    } else {
        lemma_on_is_listed(active, n - 1, i);
        let k = choose|k: int| 0 <= k < before.len() && before[k] == i as usize;
        assert(frames_on(active, n)[k] == i as usize);
    }
}

proof fn lemma_listed_is_frame(active: Option<Seq<bool>>, n: int, i: usize)
    requires
        0 <= n <= usize::MAX,
        frames_on(active, n).contains(i),
    ensures
        i < n,
    decreases n,
{
    if n > 0 {
        let before = frames_on(active, n - 1);
        let k = choose|k: int| 0 <= k < frames_on(active, n).len() && frames_on(active, n)[k] == i;
        if k < before.len() {
            assert(before[k] == i);
            lemma_listed_is_frame(active, n - 1, i);
        }
    }
}

/// What a step keeps: the canvas stays faithful, the frames that were covered stay covered, and the
/// new one is.
proof fn lemma_placing(
    pan: Pan,
    before: (RgbImage, SourceMap),
    i: int,
    takes: spec_fn(int, int) -> bool,
    after: (RgbImage, SourceMap),
)
    requires
        pan.wf(),
        pan.images.len() <= 255,
        0 <= i < pan.images.len(),
        faithful(pan.images, pan.positions, before.0, before.1),
        pasted(before, pan.images[i], pan.positions[i], recorded(Some(i)), takes, after),
        forall|x: int, y: int|
            before.1.has(x, y) && !before.1.assigned(x, y) ==> #[trigger] takes(x, y),
    ensures
        faithful(pan.images, pan.positions, after.0, after.1),
        covered_by(pan, after.1, i),
        forall|j: int| #[trigger] covered_by(pan, before.1, j) ==> covered_by(pan, after.1, j),
{
    assert(recorded(Some(i)) == i as u8);
    pasting_keeps_a_canvas_faithful(pan.images, pan.positions, before, i, takes, after);
    assert forall|x: int, y: int|
        after.1.has(x, y) && shows(pan.images[i], pan.positions[i], x, y) implies
        #[trigger] after.1.assigned(x, y) by {
        assert(after.1.at(x, y) == after.1.at(x, y));
        if !before.1.assigned(x, y) {
            assert(takes(x, y));
        } else {
            assert(after.1.assigned(x, y));
        }
    }
    assert forall|j: int| #[trigger] covered_by(pan, before.1, j) implies covered_by(
        pan,
        after.1,
        j,
    ) by {
        assert forall|x: int, y: int|
            after.1.has(x, y) && shows(pan.images[j], pan.positions[j], x, y) implies
            #[trigger] after.1.assigned(x, y) by {
            assert(before.1.assigned(x, y));
        }
    }
}

proof fn lemma_steps<
    M: Fn(&Vec<u32>) -> Single,
    C: Fn(SeamOptions, SeamCell) -> Single,
    A: Fn(Single, Single) -> Single,
>(
    pan: Pan,
    mean: M,
    cost: C,
    plus: A,
    order: Seq<usize>,
    states: Seq<(RgbImage, SourceMap)>,
    k: int,
)
    requires
        pan.wf(),
        pan.images.len() <= 255,
        0 <= k < states.len() == order.len() + 1,
        blank(states[0]),
        pan.are_steps(mean, cost, plus, order, states),
        forall|j: int| 0 <= j < order.len() ==> #[trigger] order[j] < pan.images.len(),
    ensures
        faithful(pan.images, pan.positions, states[k].0, states[k].1),
        forall|j: int| 0 <= j < k ==> covered_by(pan, states[k].1, #[trigger] order[j] as int),
    decreases k,
{
    if k == 0 {
        assert forall|x: int, y: int|
            #![trigger states[0].1.at(x, y)]
            states[0].1.has(x, y) implies faithful_at(
            pan.images,
            pan.positions,
            states[0].0,
            states[0].1,
            x,
            y,
        ) by {
            assert(states[0].1.at(x, y) == SourceMap::UNASSIGNED);
            assert(states[0].0.px(x, y) == black());
        }
    } else {
        lemma_steps(pan, mean, cost, plus, order, states, k - 1);
        let before = states[k - 1];
        let after = states[k];
        let i = order[k - 1] as int;
        assert(order[k - 1] < pan.images.len());
        assert(pan.is_step(mean, cost, plus, before, i, after));
        if is_overlap_rect(before.1, pan.positions[i], pan.images[0].w(), pan.images[0].h(), None)
            && pasted(
            before,
            pan.images[i],
            pan.positions[i],
            recorded(Some(i)),
            everywhere(),
            after,
        ) {
            lemma_placing(pan, before, i, everywhere(), after);
        } else {
            let (rect, seam) = choose|rect: (u32, u32, u32, u32), seam: Seq<u32>|
                {
                    &&& is_overlap_rect(
                        before.1,
                        pan.positions[i],
                        pan.images[0].w(),
                        pan.images[0].h(),
                        Some(rect),
                    )
                    &&& overlap(
                        before.0,
                        before.1,
                        pan.images,
                        pan.positions,
                        i,
                        rect,
                        pan.options,
                        pan.masks,
                    ).is_seam(mean, cost, plus, seam)
                    &&& #[trigger] pasted(
                        before,
                        pan.images[i],
                        pan.positions[i],
                        recorded(Some(i)),
                        below_seam(before.1, seam, rect),
                        after,
                    )
                };
            lemma_placing(pan, before, i, below_seam(before.1, seam, rect), after);
        }
    }
}

proof fn lemma_fills(pan: Pan, fills: Seq<(RgbImage, SourceMap)>, k: int)
    requires
        pan.wf(),
        pan.images.len() <= 255,
        0 <= k < fills.len() == pan.images.len() + 1,
        faithful(pan.images, pan.positions, fills[0].0, fills[0].1),
        pan.are_fills(fills),
    ensures
        faithful(pan.images, pan.positions, fills[k].0, fills[k].1),
        forall|j: int| #[trigger]
            covered_by(pan, fills[0].1, j) ==> covered_by(pan, fills[k].1, j),
        forall|j: int|
            0 <= j < k && !is_on(pan.active, j) ==> #[trigger] covered_by(pan, fills[k].1, j),
    decreases k,
{
    if k > 0 {
        lemma_fills(pan, fills, k - 1);
        let before = fills[k - 1];
        assert(pan.is_fill(before, k - 1, fills[k]));
        if !is_on(pan.active, k - 1) {
            lemma_placing(pan, before, k - 1, unassigned(before.1), fills[k]);
        }
        assert forall|j: int| 0 <= j < k && !is_on(pan.active, j) implies #[trigger] covered_by(
            pan,
            fills[k].1,
            j,
        ) by {
            if j < k - 1 {
                assert(covered_by(pan, before.1, j));
            }
        }
        assert forall|j: int| #[trigger] covered_by(pan, fills[0].1, j) implies covered_by(
            pan,
            fills[k].1,
            j,
        ) by {
            assert(covered_by(pan, before.1, j));
        }
    }
}

/// Where every frame number fits below the value for unassigned pixels, the synthesis of a pan is
/// faithful to its source map, and a pixel is unassigned exactly where no frame shows it.
pub proof fn synthesis_is_faithful<
    M: Fn(&Vec<u32>) -> Single,
    C: Fn(SeamOptions, SeamCell) -> Single,
    A: Fn(Single, Single) -> Single,
>(pan: Pan, mean: M, cost: C, plus: A, canvas: RgbImage, map: SourceMap)
    requires
        pan.wf(),
        pan.images.len() <= 255,
        pan.is_synthesis(mean, cost, plus, canvas, map),
    ensures
        faithful(pan.images, pan.positions, canvas, map),
        forall|x: int, y: int|
            map.has(x, y) ==> (#[trigger] map.assigned(x, y) <==> exists|i: int|
                0 <= i < pan.images.len() && #[trigger] shows(
                    pan.images[i],
                    pan.positions[i],
                    x,
                    y,
                )),
{
    let n = pan.images.len() as int;
    let (order, states, fills) = choose|
        order: Seq<usize>,
        states: Seq<(RgbImage, SourceMap)>,
        fills: Seq<(RgbImage, SourceMap)>,
    |
        {
            &&& is_sorting(height_keys(pan.positions), seamed(pan.active, n), order)
            &&& states.len() == order.len() + 1
            &&& blank(states[0])
            &&& #[trigger] pan.are_steps(mean, cost, plus, order, states)
            &&& fills.len() == n + 1
            &&& fills[0] == states.last()
            &&& #[trigger] pan.are_fills(fills)
            &&& fills.last() == (canvas, map)
        };
    assert forall|j: int| 0 <= j < order.len() implies #[trigger] order[j] < n by {
        assert(order.contains(order[j]));
        if frames_on(pan.active, n).len() > 0 {
            lemma_listed_is_frame(pan.active, n, order[j]);
        } else {
            lemma_listed_is_frame(None, n, order[j]);
        }
    }
    lemma_steps(pan, mean, cost, plus, order, states, order.len() as int);
    lemma_fills(pan, fills, n);
    assert forall|i: int| 0 <= i < n implies #[trigger] covered_by(pan, map, i) by {
        if is_on(pan.active, i) {
            lemma_on_is_listed(pan.active, n, i);
            assert(order.contains(i as usize));
            let k = choose|k: int| 0 <= k < order.len() && order[k] == i as usize;
            assert(covered_by(pan, states.last().1, order[k] as int));
        }
    }
    assert forall|x: int, y: int| map.has(x, y) implies (#[trigger] map.assigned(x, y)
        <==> exists|i: int|
        0 <= i < n && #[trigger] shows(pan.images[i], pan.positions[i], x, y)) by {
        assert(map.at(x, y) == map.at(x, y));
        if map.assigned(x, y) {
            let s = map.at(x, y) as int;
            assert(shows(pan.images[s], pan.positions[s], x, y));
        }
        if exists|i: int| 0 <= i < n && #[trigger] shows(pan.images[i], pan.positions[i], x, y) {
            let i = choose|i: int|
                0 <= i < n && #[trigger] shows(pan.images[i], pan.positions[i], x, y);
            assert(covered_by(pan, map, i));
        }
    }
}

proof fn lemma_listed_is_on(active: Option<Seq<bool>>, n: int, i: usize)
    requires
        0 <= n <= usize::MAX,
        frames_on(active, n).contains(i),
    ensures
        is_on(active, i as int),
    decreases n,
{
    if n > 0 {
        let before = frames_on(active, n - 1);
        let k = choose|k: int| 0 <= k < frames_on(active, n).len() && frames_on(active, n)[k] == i;
        if k < before.len() {
            assert(before[k] == i);
            lemma_listed_is_on(active, n - 1, i);
        }
    }
}

/// The frames that a canvas shows were put on it.
proof fn lemma_steps_show<
    M: Fn(&Vec<u32>) -> Single,
    C: Fn(SeamOptions, SeamCell) -> Single,
    A: Fn(Single, Single) -> Single,
>(
    pan: Pan,
    mean: M,
    cost: C,
    plus: A,
    order: Seq<usize>,
    states: Seq<(RgbImage, SourceMap)>,
    k: int,
    x: int,
    y: int,
)
    requires
        pan.images.len() <= 255,
        0 <= k < states.len() == order.len() + 1,
        blank(states[0]),
        pan.are_steps(mean, cost, plus, order, states),
        forall|j: int| 0 <= j < order.len() ==> #[trigger] order[j] < pan.images.len(),
        states[k].1.has(x, y),
        states[k].1.assigned(x, y),
    ensures
        order.contains(states[k].1.at(x, y) as usize),
    decreases k,
{
    assert(states[k].1.at(x, y) == states[k].1.at(x, y));
    if k > 0 {
        let i = order[k - 1];
        assert(i < pan.images.len());
        assert(pan.is_step(mean, cost, plus, states[k - 1], i as int, states[k]));
        assert(recorded(Some(i as int)) == i as u8);
        if states[k].1.at(x, y) != i as u8 {
            assert(states[k].1.at(x, y) == states[k - 1].1.at(x, y));
            lemma_steps_show(pan, mean, cost, plus, order, states, k - 1, x, y);
        }
    } else {
        assert(states[0].1.at(x, y) == SourceMap::UNASSIGNED);
    }
}

/// Filling in frames leaves what is on the canvas.
proof fn lemma_fills_keep(pan: Pan, fills: Seq<(RgbImage, SourceMap)>, k: int, x: int, y: int)
    requires
        0 <= k < fills.len(),
        pan.are_fills(fills),
        fills[0].1.has(x, y),
        fills[0].1.assigned(x, y),
    ensures
        fills[k].1.has(x, y),
        fills[k].1.at(x, y) == fills[0].1.at(x, y),
    decreases k,
{
    if k > 0 {
        lemma_fills_keep(pan, fills, k - 1, x, y);
        assert(pan.is_fill(fills[k - 1], k - 1, fills[k]));
        assert(fills[k].1.at(x, y) == fills[k].1.at(x, y));
    }
}

/// Of at most 255 frames, one that is switched off shows only where no frame that is switched on
/// has a pixel.
pub proof fn switched_off_frames_only_fill<
    M: Fn(&Vec<u32>) -> Single,
    C: Fn(SeamOptions, SeamCell) -> Single,
    A: Fn(Single, Single) -> Single,
>(pan: Pan, mean: M, cost: C, plus: A, canvas: RgbImage, map: SourceMap)
    requires
        pan.wf(),
        pan.images.len() <= 255,
        pan.is_synthesis(mean, cost, plus, canvas, map),
    ensures
        forall|x: int, y: int, i: int|
            map.has(x, y) && map.assigned(x, y) && !is_on(pan.active, map.at(x, y) as int) && 0 <= i
                < pan.images.len() && is_on(pan.active, i) ==> !#[trigger] shows(
                pan.images[i],
                pan.positions[i],
                x,
                y,
            ),
{
    let n = pan.images.len() as int;
    let (order, states, fills) = choose|
        order: Seq<usize>,
        states: Seq<(RgbImage, SourceMap)>,
        fills: Seq<(RgbImage, SourceMap)>,
    |
        {
            &&& is_sorting(height_keys(pan.positions), seamed(pan.active, n), order)
            &&& states.len() == order.len() + 1
            &&& blank(states[0])
            &&& #[trigger] pan.are_steps(mean, cost, plus, order, states)
            &&& fills.len() == n + 1
            &&& fills[0] == states.last()
            &&& #[trigger] pan.are_fills(fills)
            &&& fills.last() == (canvas, map)
        };
    assert forall|x: int, y: int, i: int|
        map.has(x, y) && map.assigned(x, y) && !is_on(pan.active, map.at(x, y) as int) && 0 <= i < n
            && is_on(pan.active, i) implies !#[trigger] shows(
        pan.images[i],
        pan.positions[i],
        x,
        y,
    ) by {
        if shows(pan.images[i], pan.positions[i], x, y) {
            lemma_on_is_listed(pan.active, n, i);
            assert forall|j: int| 0 <= j < order.len() implies #[trigger] order[j] < n by {
                assert(order.contains(order[j]));
                lemma_listed_is_frame(pan.active, n, order[j]);
            }
            lemma_steps(pan, mean, cost, plus, order, states, order.len() as int);
            assert(order.contains(i as usize));
            let k = choose|k: int| 0 <= k < order.len() && order[k] == i as usize;
            assert(covered_by(pan, states.last().1, order[k] as int));
            lemma_fills_size(pan, fills, n);
            assert(states.last().1.assigned(x, y));
            lemma_steps_show(pan, mean, cost, plus, order, states, order.len() as int, x, y);
            lemma_fills_keep(pan, fills, n, x, y);
            lemma_listed_is_on(pan.active, n, map.at(x, y) as usize);
        }
    }
}

proof fn lemma_fills_size(pan: Pan, fills: Seq<(RgbImage, SourceMap)>, k: int)
    requires
        0 <= k < fills.len(),
        pan.are_fills(fills),
    ensures
        fills[k].1.width == fills[0].1.width,
        fills[k].1.height == fills[0].1.height,
    decreases k,
{
    if k > 0 {
        lemma_fills_size(pan, fills, k - 1);
        assert(pan.is_fill(fills[k - 1], k - 1, fills[k]));
    }
}

/// What a step records elsewhere than for its own frame was recorded before it.
proof fn lemma_steps_look_back<
    M: Fn(&Vec<u32>) -> Single,
    C: Fn(SeamOptions, SeamCell) -> Single,
    A: Fn(Single, Single) -> Single,
>(
    pan: Pan,
    mean: M,
    cost: C,
    plus: A,
    order: Seq<usize>,
    states: Seq<(RgbImage, SourceMap)>,
    k: int,
    m: int,
    x: int,
    y: int,
    source: int,
)
    requires
        pan.images.len() <= 255,
        0 <= k <= m < states.len() == order.len() + 1,
        pan.are_steps(mean, cost, plus, order, states),
        forall|j: int| 0 <= j < order.len() ==> #[trigger] order[j] < pan.images.len(),
        forall|j: int| k <= j < m ==> #[trigger] order[j] != source,
        states[m].1.has(x, y),
        states[m].1.at(x, y) == source,
    ensures
        states[k].1.has(x, y),
        states[k].1.at(x, y) == source,
    decreases m - k,
{
    if k < m {
        let i = order[m - 1];
        assert(i < pan.images.len() && i != source);
        assert(pan.is_step(mean, cost, plus, states[m - 1], i as int, states[m]));
        assert(recorded(Some(i as int)) == i as u8);
        assert(states[m].1.at(x, y) == states[m - 1].1.at(x, y));
        lemma_steps_look_back(pan, mean, cost, plus, order, states, k, m - 1, x, y, source);
    }
}

/// Only frames that are put on the canvas before a step are on it.
proof fn lemma_recorded_before<
    M: Fn(&Vec<u32>) -> Single,
    C: Fn(SeamOptions, SeamCell) -> Single,
    A: Fn(Single, Single) -> Single,
>(
    pan: Pan,
    mean: M,
    cost: C,
    plus: A,
    order: Seq<usize>,
    states: Seq<(RgbImage, SourceMap)>,
    k: int,
    x: int,
    y: int,
    source: int,
)
    requires
        pan.images.len() <= 255,
        0 <= source < pan.images.len(),
        0 <= k < states.len() == order.len() + 1,
        blank(states[0]),
        pan.are_steps(mean, cost, plus, order, states),
        forall|j: int| 0 <= j < order.len() ==> #[trigger] order[j] < pan.images.len(),
        forall|j: int| 0 <= j < k ==> #[trigger] order[j] != source,
        states[k].1.has(x, y),
    ensures
        states[k].1.at(x, y) != source,
{
    if states[k].1.at(x, y) == source {
        lemma_steps_look_back(pan, mean, cost, plus, order, states, 0, k, x, y, source);
        assert(states[0].1.at(x, y) == SourceMap::UNASSIGNED);
    }
}

/// What a frame that is switched on shows was on the canvas before the others filled in.
proof fn lemma_fills_look_back(
    pan: Pan,
    fills: Seq<(RgbImage, SourceMap)>,
    k: int,
    x: int,
    y: int,
    source: int,
)
    requires
        pan.images.len() <= 255,
        0 <= k < fills.len() <= pan.images.len() + 1,
        pan.are_fills(fills),
        0 <= source < pan.images.len(),
        is_on(pan.active, source),
        fills[k].1.has(x, y),
        fills[k].1.at(x, y) == source,
    ensures
        fills[0].1.has(x, y),
        fills[0].1.at(x, y) == source,
    decreases k,
{
    if k > 0 {
        assert(pan.is_fill(fills[k - 1], k - 1, fills[k]));
        if !is_on(pan.active, k - 1) {
            assert(recorded(Some(k - 1)) == (k - 1) as u8);
            assert(fills[k].1.at(x, y) == fills[k - 1].1.at(x, y));
        }
        lemma_fills_look_back(pan, fills, k - 1, x, y, source);
    }
}

/// Where a frame takes one place of a column that had another frame, and leaves another such place,
/// the place that it leaves is above.
proof fn lemma_step_parts<
    M: Fn(&Vec<u32>) -> Single,
    C: Fn(SeamOptions, SeamCell) -> Single,
    A: Fn(Single, Single) -> Single,
>(
    pan: Pan,
    mean: M,
    cost: C,
    plus: A,
    before: (RgbImage, SourceMap),
    i: int,
    after: (RgbImage, SourceMap),
    x: int,
    y: int,
    z: int,
)
    requires
        pan.images.len() <= 255,
        0 <= i < pan.images.len(),
        pan.images[i].w() == pan.images[0].w(),
        pan.images[i].h() == pan.images[0].h(),
        pan.is_step(mean, cost, plus, before, i, after),
        before.1.has(x, y),
        before.1.has(x, z),
        before.1.assigned(x, y),
        before.1.assigned(x, z),
        shows(pan.images[i], pan.positions[i], x, y),
        shows(pan.images[i], pan.positions[i], x, z),
        after.1.has(x, y),
        after.1.has(x, z),
        after.1.at(x, y) != i,
        after.1.at(x, z) == i,
        before.1.at(x, z) != i,
    ensures
        y < z,
{
    let pos = pan.positions[i];
    let w = pan.images[0].w();
    let h = pan.images[0].h();
    assert(recorded(Some(i)) == i as u8);
    assert(overlaps(before.1, pos, w, h, x, y));
    assert(overlaps(before.1, pos, w, h, x, z));
    let (rect, seam) = choose|rect: (u32, u32, u32, u32), seam: Seq<u32>|
        {
            &&& is_overlap_rect(before.1, pos, w, h, Some(rect))
            &&& overlap(
                before.0,
                before.1,
                pan.images,
                pan.positions,
                i,
                rect,
                pan.options,
                pan.masks,
            ).is_seam(mean, cost, plus, seam)
            &&& #[trigger] pasted(
                before,
                pan.images[i],
                pos,
                recorded(Some(i)),
                below_seam(before.1, seam, rect),
                after,
            )
        };
    let takes = below_seam(before.1, seam, rect);
    assert(!takes(x, y));
    assert(takes(x, z));
}

/// Before the lower one of two frames is put on the canvas, the places of the upper one are taken,
/// and none of them by the lower one.
proof fn lemma_upper_was_there<
    M: Fn(&Vec<u32>) -> Single,
    C: Fn(SeamOptions, SeamCell) -> Single,
    A: Fn(Single, Single) -> Single,
>(
    pan: Pan,
    mean: M,
    cost: C,
    plus: A,
    order: Seq<usize>,
    states: Seq<(RgbImage, SourceMap)>,
    a: int,
    b: int,
    x: int,
    y: int,
    z: int,
    upper: int,
    lower: int,
)
    requires
        pan.wf(),
        pan.images.len() <= 255,
        0 <= a < b < order.len(),
        states.len() == order.len() + 1,
        blank(states[0]),
        pan.are_steps(mean, cost, plus, order, states),
        forall|j: int| 0 <= j < order.len() ==> #[trigger] order[j] < pan.images.len(),
        order[a] == upper,
        forall|j: int| 0 <= j < b ==> #[trigger] order[j] != lower,
        0 <= lower < pan.images.len(),
        states[b].1.has(x, y),
        states[b].1.has(x, z),
        shows(pan.images[upper], pan.positions[upper], x, y),
        shows(pan.images[upper], pan.positions[upper], x, z),
    ensures
        states[b].1.assigned(x, y),
        states[b].1.assigned(x, z),
        states[b].1.at(x, z) != lower,
{
    lemma_recorded_before(pan, mean, cost, plus, order, states, b, x, z, lower);
    lemma_steps(pan, mean, cost, plus, order, states, b);
    assert(covered_by(pan, states[b].1, order[a] as int));
}

/// Of two frames of a pan that are switched on, the upper one keeps to the top whatever the order in
/// which they were taken: in a column that both of them have pixels in, no pixel of the lower frame
/// stands above one of the upper frame. Of frames at the same height, the earlier one counts as the
/// upper one.
pub proof fn upper_frames_stay_above<
    M: Fn(&Vec<u32>) -> Single,
    C: Fn(SeamOptions, SeamCell) -> Single,
    A: Fn(Single, Single) -> Single,
>(
    pan: Pan,
    mean: M,
    cost: C,
    plus: A,
    canvas: RgbImage,
    map: SourceMap,
    upper: int,
    lower: int,
    x: int,
    y: int,
    z: int,
)
    requires
        pan.wf(),
        pan.images.len() <= 255,
        forall|i: int|
            0 <= i < pan.images.len() ==> (#[trigger] pan.images[i]).w() == pan.images[0].w()
                && pan.images[i].h() == pan.images[0].h(),
        pan.is_synthesis(mean, cost, plus, canvas, map),
        0 <= upper < pan.images.len(),
        0 <= lower < pan.images.len(),
        is_on(pan.active, upper),
        is_on(pan.active, lower),
        pan.positions[upper].y < pan.positions[lower].y || (pan.positions[upper].y
            == pan.positions[lower].y && upper < lower),
        // both frames have pixels at both places of the column
        map.has(x, y),
        map.has(x, z),
        pan.images[upper].has(x - pan.positions[upper].x, y - pan.positions[upper].y),
        pan.images[upper].has(x - pan.positions[upper].x, z - pan.positions[upper].y),
        pan.images[lower].has(x - pan.positions[lower].x, y - pan.positions[lower].y),
        pan.images[lower].has(x - pan.positions[lower].x, z - pan.positions[lower].y),
        map.at(x, y) == upper,
        map.at(x, z) == lower,
    ensures
        y < z,
{
    let n = pan.images.len() as int;
    let (order, states, fills) = choose|
        order: Seq<usize>,
        states: Seq<(RgbImage, SourceMap)>,
        fills: Seq<(RgbImage, SourceMap)>,
    |
        {
            &&& is_sorting(height_keys(pan.positions), seamed(pan.active, n), order)
            &&& states.len() == order.len() + 1
            &&& blank(states[0])
            &&& #[trigger] pan.are_steps(mean, cost, plus, order, states)
            &&& fills.len() == n + 1
            &&& fills[0] == states.last()
            &&& #[trigger] pan.are_fills(fills)
            &&& fills.last() == (canvas, map)
        };
    lemma_on_is_listed(pan.active, n, upper);
    lemma_on_is_listed(pan.active, n, lower);
    assert forall|j: int| 0 <= j < order.len() implies #[trigger] order[j] < n by {
        assert(order.contains(order[j]));
        lemma_listed_is_frame(pan.active, n, order[j]);
    }
    assert(order.contains(upper as usize) && order.contains(lower as usize));
    let a = choose|a: int| 0 <= a < order.len() && order[a] == upper as usize;
    let b = choose|b: int| 0 <= b < order.len() && order[b] == lower as usize;
    let keys = height_keys(pan.positions);
    assert(a < b) by {
        if b < a {
            assert(crate::order::before(keys, order[b], order[a]));
        }
    }
    assert forall|j: int| 0 <= j < order.len() && j != a implies #[trigger] order[j] != upper by {
        if j < a {
            assert(crate::order::before(keys, order[j], order[a]));
        } else {
            assert(crate::order::before(keys, order[a], order[j]));
        }
    }
    assert forall|j: int| 0 <= j < order.len() && j != b implies #[trigger] order[j] != lower by {
        if j < b {
            assert(crate::order::before(keys, order[j], order[b]));
        } else {
            assert(crate::order::before(keys, order[b], order[j]));
        }
    }
    lemma_fills_look_back(pan, fills, n, x, y, upper);
    lemma_fills_look_back(pan, fills, n, x, z, lower);
    let last = order.len() as int;
    lemma_steps_look_back(pan, mean, cost, plus, order, states, b + 1, last, x, y, upper);
    lemma_steps_look_back(pan, mean, cost, plus, order, states, b + 1, last, x, z, lower);
    assert(pan.is_step(mean, cost, plus, states[b], lower, states[b + 1]));
    lemma_upper_was_there(pan, mean, cost, plus, order, states, a, b, x, y, z, upper, lower);
    lemma_step_parts(pan, mean, cost, plus, states[b], lower, states[b + 1], x, y, z);
}

/// The frames that are put down with seams are those whose flag is set; without flags, or where no
/// flag is set, all of them.
pub proof fn flagged_frames_get_seams(flags: Seq<bool>, n: int, i: int)
    requires
        0 <= i < n <= usize::MAX,
    ensures
        seamed(Some(flags), n).contains(i as usize) <==> flags[i] || forall|j: int|
            0 <= j < n ==> !#[trigger] flags[j],
        seamed(None, n).contains(i as usize),
{
    lemma_on_is_listed(None, n, i);
    if flags[i] {
        lemma_on_is_listed(Some(flags), n, i);
    }
    if exists|j: int| 0 <= j < n && #[trigger] flags[j] {
        let j = choose|j: int| 0 <= j < n && #[trigger] flags[j];
        lemma_on_is_listed(Some(flags), n, j);
        if frames_on(Some(flags), n).contains(i as usize) {
            lemma_listed_is_on(Some(flags), n, i as usize);
        }
    } else {
        if frames_on(Some(flags), n).len() > 0 {
            let k = frames_on(Some(flags), n)[0];
            assert(frames_on(Some(flags), n).contains(k));
            lemma_listed_is_on(Some(flags), n, k);
            lemma_listed_is_frame(Some(flags), n, k);
            assert(flags[k as int]);
        }
    }
}

/// Frames that are switched off fill what is left in the order in which they were captured: a pixel
/// that one of them fills is shown by no earlier one of them.
pub proof fn earlier_frames_fill_first<
    M: Fn(&Vec<u32>) -> Single,
    C: Fn(SeamOptions, SeamCell) -> Single,
    A: Fn(Single, Single) -> Single,
>(
    pan: Pan,
    mean: M,
    cost: C,
    plus: A,
    canvas: RgbImage,
    map: SourceMap,
    flags: Seq<bool>,
    earlier: int,
    x: int,
    y: int,
)
    requires
        pan.wf(),
        pan.images.len() <= 255,
        pan.active == Some(flags),
        // some frame is switched on
        exists|i: int| 0 <= i < pan.images.len() && #[trigger] flags[i],
        pan.is_synthesis(mean, cost, plus, canvas, map),
        map.has(x, y),
        map.data@[y * map.width + x] < pan.images.len(),
        !flags[map.data@[y * map.width + x] as int],
        0 <= earlier < map.data@[y * map.width + x],
        !flags[earlier],
    ensures
        !pan.images[earlier].has(x - pan.positions[earlier].x, y - pan.positions[earlier].y),
{
    let n = pan.images.len() as int;
    let (order, states, fills) = choose|
        order: Seq<usize>,
        states: Seq<(RgbImage, SourceMap)>,
        fills: Seq<(RgbImage, SourceMap)>,
    |
        {
            &&& is_sorting(height_keys(pan.positions), seamed(pan.active, n), order)
            &&& states.len() == order.len() + 1
            &&& blank(states[0])
            &&& #[trigger] pan.are_steps(mean, cost, plus, order, states)
            &&& fills.len() == n + 1
            &&& fills[0] == states.last()
            &&& #[trigger] pan.are_fills(fills)
            &&& fills.last() == (canvas, map)
        };
    let source = map.at(x, y) as int;
    assert forall|j: int| 0 <= j < order.len() implies (#[trigger] order[j]) < n
        && flags[order[j] as int] by {
        assert(order.contains(order[j]));
        assert(seamed(pan.active, n).contains(order[j]));
        let on = choose|i: int| 0 <= i < n && #[trigger] flags[i];
        lemma_on_is_listed(pan.active, n, on);
        lemma_listed_is_on(pan.active, n, order[j]);
        lemma_listed_is_frame(pan.active, n, order[j]);
    }
    lemma_states_have_frames(pan, mean, cost, plus, order, states, order.len() as int);
    lemma_fill_found(pan, fills, n, x, y, source, flags);
    assert(pan.is_fill(fills[source], source, fills[source + 1]));
    lemma_filled_before(pan, fills, source, x, y, earlier);
}

proof fn lemma_states_have_frames<
    M: Fn(&Vec<u32>) -> Single,
    C: Fn(SeamOptions, SeamCell) -> Single,
    A: Fn(Single, Single) -> Single,
>(
    pan: Pan,
    mean: M,
    cost: C,
    plus: A,
    order: Seq<usize>,
    states: Seq<(RgbImage, SourceMap)>,
    k: int,
)
    requires
        pan.images.len() <= 255,
        states.len() == order.len() + 1,
        0 <= k < states.len(),
        blank(states[0]),
        pan.are_steps(mean, cost, plus, order, states),
        forall|j: int| 0 <= j < order.len() ==> (#[trigger] order[j]) < pan.images.len(),
    ensures
        forall|x: int, y: int|
            states[k].1.has(x, y) ==> #[trigger] states[k].1.at(x, y) == SourceMap::UNASSIGNED
                || exists|j: int|
                0 <= j < order.len() && #[trigger] order[j] == states[k].1.at(x, y),
    decreases k,
{
    if k > 0 {
        lemma_states_have_frames(pan, mean, cost, plus, order, states, k - 1);
        let i = order[k - 1] as int;
        assert(pan.is_step(mean, cost, plus, states[k - 1], i, states[k]));
        assert forall|x: int, y: int| states[k].1.has(x, y) implies #[trigger] states[k].1.at(x, y)
            == SourceMap::UNASSIGNED || exists|j: int|
            0 <= j < order.len() && #[trigger] order[j] == states[k].1.at(x, y) by {
            assert(recorded(Some(i)) == i);
            assert(order[k - 1] == i);
            assert(states[k].1.at(x, y) == i || states[k].1.at(x, y) == states[k - 1].1.at(x, y));
        }
    }
}

/// A pixel that ends with a frame that is switched off was left until that frame filled it.
proof fn lemma_fill_found(
    pan: Pan,
    fills: Seq<(RgbImage, SourceMap)>,
    k: int,
    x: int,
    y: int,
    source: int,
    flags: Seq<bool>,
)
    requires
        pan.images.len() <= 255,
        pan.active == Some(flags),
        0 <= k < fills.len() <= pan.images.len() + 1,
        pan.are_fills(fills),
        0 <= source < pan.images.len(),
        !flags[source],
        fills[k].1.has(x, y),
        fills[k].1.at(x, y) == source,
        fills[0].1.has(x, y) ==> fills[0].1.at(x, y) == SourceMap::UNASSIGNED || flags[fills[0].1.at(
            x,
            y,
        ) as int],
    ensures
        source < k,
        fills[source].1.has(x, y),
        fills[source].1.at(x, y) == SourceMap::UNASSIGNED,
    decreases k,
{
    if k > 0 {
        assert(pan.is_fill(fills[k - 1], k - 1, fills[k]));
        if is_on(pan.active, k - 1) {
            lemma_fill_found(pan, fills, k - 1, x, y, source, flags);
        } else {
            assert(recorded(Some(k - 1)) == (k - 1) as u8);
            if fills[k - 1].1.at(x, y) == source {
                lemma_fill_found(pan, fills, k - 1, x, y, source, flags);
            } else {
                assert(fills[k].1.at(x, y) != fills[k - 1].1.at(x, y));
                assert(source == k - 1);
            }
        }
    }
}

/// A pixel that is still left was shown by no frame that could have filled it.
proof fn lemma_filled_before(
    pan: Pan,
    fills: Seq<(RgbImage, SourceMap)>,
    k: int,
    x: int,
    y: int,
    earlier: int,
)
    requires
        pan.images.len() <= 255,
        0 <= earlier < k < fills.len() <= pan.images.len() + 1,
        pan.are_fills(fills),
        !is_on(pan.active, earlier),
        fills[k].1.has(x, y),
        fills[k].1.at(x, y) == SourceMap::UNASSIGNED,
    ensures
        !shows(pan.images[earlier], pan.positions[earlier], x, y),
    decreases k,
{
    assert(pan.is_fill(fills[k - 1], k - 1, fills[k]));
    assert(recorded(Some(k - 1)) == (k - 1) as u8);
    if earlier < k - 1 {
        if !is_on(pan.active, k - 1) {
            assert(fills[k].1.at(x, y) == fills[k - 1].1.at(x, y));
        }
        lemma_filled_before(pan, fills, k - 1, x, y, earlier);
    }
}

} // verus!
