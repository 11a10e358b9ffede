//! Stitching: from the frames of a pan to a canvas and a report.

use vstd::prelude::*;

use crate::alignment::{OverlapWindow, PanMode, ShiftLimits};
use crate::buffers::RgbImage;
use crate::canvas::{canvas_size_ok, faithful, same_size};
use crate::coord_map::{mismatched_at, out_of_bounds_at, SourceCoordinateMap};
use crate::duplicates::{
    detect_duplicates, is_duplicate_report, takes_feature, takes_features, takes_rects,
    DuplicateReport,
};
use crate::error::StitchError;
use crate::foreground::{mask_seq, masks_wf, ForegroundMask};
use crate::geometry::{
    canvas_fits, highest, lowest, lowest_and_highest_bound_the_values, normalize_positions,
    normalized, offset_x, offset_y, offsets_fit, position_bounds, positions_from_shifts, span_x,
    span_y, xs, ys, Position, Shift,
};
use crate::grid::count_where;
use crate::local_warp::{is_rendering, render_local_warped_from_source_map, takes_corrections};
use crate::monotonic::{is_active, monotonic_active_sources};
use crate::motion::takes_samples;
use crate::nearest::{
    is_nearest_center, scores_cover, synthesize_nearest_center_with_source_map,
};
use crate::paste::shows;
use crate::path::takes_numbers;
use crate::rounding::{three_quarters, three_quarters_of};
use crate::seam::{takes_cells, SeamCell, SeamOptions};
use crate::shifts::{estimate_shifts, has_shift, is_refusal, is_shift, takes_pairs};
use crate::single::Single;
use crate::source_map::SourceMap;
use crate::vertical::{basic_options, synthesize_vertical_seams_with_source_map_opts, Pan};
use crate::warp::{local_delta, LocalWarpReport};

verus! {

/// How the frame of each pixel is chosen.
#[derive(Debug, Clone, Copy, PartialEq, Eq, Structural)]
pub enum SourceSelection {
    /// The frame whose center is closest.
    NearestCenter,
    /// Seams that avoid color differences and edges.
    SeamDp,
    /// Seams that avoid motion too.
    SeamDpMotion,
}

/// What to do with the frames of a pan.
#[derive(Debug, Clone)]
pub struct StitchOptions {
    pub mode: PanMode,
    pub source_selection: SourceSelection,
    pub min_shift_y: i32,
    pub max_shift_y: Option<i32>,
    pub min_shift_x: i32,
    pub max_shift_x: Option<i32>,
    pub max_drift_x: i32,
    pub max_drift_y: i32,
    pub align_scale: usize,
    pub snap_x: i32,
    pub check_duplicates: bool,
    pub monotonic_frame_filter: bool,
    pub foreground_masks: Option<Vec<ForegroundMask>>,
    pub foreground_mask_dilate: u32,
    pub foreground_mask_penalty: Single,
    pub local_warp: bool,
    pub local_warp_strip_width: u32,
    pub local_warp_max_dy: i32,
    pub local_warp_protect_foreground: bool,
    pub seam_motion_weight: Single,
    pub seam_motion_radius: u32,
    pub seam_motion_threshold: Single,
    pub seam_motion_mask_dilate: u32,
    pub seam_motion_hard_penalty: Single,
    pub seam_edge_weight: Single,
}

impl Default for StitchOptions {
    /// Nearest centers, shifts of at least thirty pixels with a drift of at most sixty, and none of
    /// the optional steps. The weight of motion is 2, its threshold 12, and the weight of edges
    /// 0.15.
    fn default() -> (o: StitchOptions)
        ensures
            o == (StitchOptions {
                mode: PanMode::Auto,
                source_selection: SourceSelection::NearestCenter,
                min_shift_y: 30,
                max_shift_y: None,
                min_shift_x: 30,
                max_shift_x: None,
                max_drift_x: 60,
                max_drift_y: 60,
                align_scale: 4,
                snap_x: 3,
                check_duplicates: false,
                monotonic_frame_filter: false,
                foreground_masks: None,
                foreground_mask_dilate: 0,
                foreground_mask_penalty: Single { bits: 0 },
                local_warp: false,
                local_warp_strip_width: 128,
                local_warp_max_dy: 4,
                local_warp_protect_foreground: true,
                seam_motion_weight: Single { bits: 0x4000_0000 },
                seam_motion_radius: 6,
                seam_motion_threshold: Single { bits: 0x4140_0000 },
                seam_motion_mask_dilate: 0,
                seam_motion_hard_penalty: Single { bits: 0 },
                seam_edge_weight: Single { bits: 0x3e19_999a },
            }),
    {
        StitchOptions {
            mode: PanMode::Auto,
            source_selection: SourceSelection::NearestCenter,
            min_shift_y: 30,
            max_shift_y: None,
            min_shift_x: 30,
            max_shift_x: None,
            max_drift_x: 60,
            max_drift_y: 60,
            align_scale: 4,
            snap_x: 3,
            check_duplicates: false,
            monotonic_frame_filter: false,
            foreground_masks: None,
            foreground_mask_dilate: 0,
            foreground_mask_penalty: Single::zero(),
            local_warp: false,
            local_warp_strip_width: 128,
            local_warp_max_dy: 4,
            local_warp_protect_foreground: true,
            seam_motion_weight: Single { bits: 0x4000_0000 },
            seam_motion_radius: 6,
            seam_motion_threshold: Single { bits: 0x4140_0000 },
            seam_motion_mask_dilate: 0,
            seam_motion_hard_penalty: Single::zero(),
            seam_edge_weight: Single { bits: 0x3e19_999a },
        }
    }
}

/// How a canvas came about.
#[derive(Debug, Clone)]
pub struct StitchReport {
    pub shifts: Vec<Shift>,
    pub raw_positions: Vec<Position>,
    pub normalized_positions: Vec<Position>,
    pub canvas_width: u32,
    pub canvas_height: u32,
    pub local_warp: Option<LocalWarpReport>,
    pub duplicate_report: Option<DuplicateReport>,
}

/// The first frame from `k` on that differs in size from the first one.
pub open spec fn odd_frame(images: Seq<RgbImage>, k: int) -> Option<int>
    decreases images.len() - k,
{
    if k < 0 || k >= images.len() {
        None
    } else if images[k].w() != images[0].w() || images[k].h() != images[0].h() {
        Some(k)
    } else {
        odd_frame(images, k + 1)
    }
}

/// The first mask from `k` on that does not have the given size.
pub open spec fn odd_mask(masks: Seq<ForegroundMask>, w: int, h: int, k: int) -> Option<int>
    decreases masks.len() - k,
{
    if k < 0 || k >= masks.len() {
        None
    } else if masks[k].width != w || masks[k].height != h {
        Some(k)
    } else {
        odd_mask(masks, w, h, k + 1)
    }
}

/// Why the frames and the masks cannot be stitched, if they cannot.
pub open spec fn objection(
    images: Seq<RgbImage>,
    masks: Option<Seq<ForegroundMask>>,
) -> Option<StitchError> {
    if images.len() < 2 {
        Some(StitchError::TooFewFrames)
    } else {
        let w = images[0].w();
        let h = images[0].h();
        match odd_frame(images, 0) {
            Some(k) => Some(
                StitchError::FrameSizeMismatch {
                    width: w as u32,
                    height: h as u32,
                    frame: k as usize,
                    frame_width: images[k].w() as u32,
                    frame_height: images[k].h() as u32,
                },
            ),
            None => match masks {
                None => None,
                Some(m) => if m.len() != images.len() {
                    Some(
                        StitchError::MaskCountMismatch {
                            masks: m.len() as usize,
                            frames: images.len() as usize,
                        },
                    )
                } else {
                    match odd_mask(m, w, h, 0) {
                        Some(k) => Some(
                            StitchError::MaskSizeMismatch {
                                mask: k as usize,
                                mask_width: m[k].width,
                                mask_height: m[k].height,
                                width: w as u32,
                                height: h as u32,
                            },
                        ),
                        None => None,
                    }
                },
            },
        }
    }
}

/// Says why the frames and the masks cannot be stitched, if they cannot: there are fewer than two
/// frames, a frame differs in size from the first one, there is not one mask for each frame, or
/// a mask differs in size from the frames.
pub fn check_inputs(images: &[RgbImage], masks: Option<&[ForegroundMask]>) -> (r: Result<
    (),
    StitchError,
>)
    ensures
        match objection(images@, mask_seq(masks)) {
            Some(e) => r == Err::<(), StitchError>(e),
            None => r is Ok,
        },
{
    if images.len() < 2 {
        return Err(StitchError::TooFewFrames);
    }
    let (w, h) = images[0].dimensions();
    for k in 0..images.len()
        invariant
            images@.len() >= 2,
            w == images@[0].w(),
            h == images@[0].h(),
            odd_frame(images@, 0) == odd_frame(images@, k as int),
    {
        let (fw, fh) = images[k].dimensions();
        if fw != w || fh != h {
            return Err(
                StitchError::FrameSizeMismatch {
                    width: w,
                    height: h,
                    frame: k,
                    frame_width: fw,
                    frame_height: fh,
                },
            );
        }
    }
    if let Some(m) = masks {
        if m.len() != images.len() {
            return Err(
                StitchError::MaskCountMismatch { masks: m.len(), frames: images.len() },
            );
        }
        for k in 0..m.len()
            invariant
                images@.len() >= 2,
                w == images@[0].w(),
                h == images@[0].h(),
                odd_frame(images@, 0) is None,
                mask_seq(masks) == Some(m@),
                m@.len() == images@.len(),
                odd_mask(m@, w as int, h as int, 0) == odd_mask(m@, w as int, h as int, k as int),
        {
            if m[k].width != w || m[k].height != h {
                return Err(
                    StitchError::MaskSizeMismatch {
                        mask: k,
                        mask_width: m[k].width,
                        mask_height: m[k].height,
                        width: w,
                        height: h,
                    },
                );
            }
        }
    }
    Ok(())
}

proof fn lemma_no_odd_frame(images: Seq<RgbImage>, k: int)
    requires
        0 <= k,
        odd_frame(images, k) is None,
    ensures
        forall|i: int|
            k <= i < images.len() ==> (#[trigger] images[i]).w() == images[0].w() && images[i].h()
                == images[0].h(),
    decreases images.len() - k,
{
    if k < images.len() {
        lemma_no_odd_frame(images, k + 1);
    }
}

/// The limit of a shift that is not given: three quarters of the length of the frame, computed in
/// single precision and rounded to the nearest whole number.
pub open spec fn usual_limit(length: int) -> int {
    three_quarters(length)
}

/// The limit of a shift that is not given.
pub fn default_max_shift(length: u32) -> (r: i32)
    ensures
        r == usual_limit(length as int),
{
    three_quarters_of(length)
}

/// How far the content may move under the options.
pub open spec fn shift_limits(opts: StitchOptions, w: int, h: int) -> ShiftLimits {
    ShiftLimits {
        min_x: opts.min_shift_x,
        max_x: match opts.max_shift_x {
            Some(m) => m,
            None => usual_limit(w) as i32,
        },
        min_y: opts.min_shift_y,
        max_y: match opts.max_shift_y {
            Some(m) => m,
            None => usual_limit(h) as i32,
        },
        max_drift_x: opts.max_drift_x,
        max_drift_y: opts.max_drift_y,
    }
}

fn limits_of(opts: &StitchOptions, w: u32, h: u32) -> (l: ShiftLimits)
    ensures
        l == shift_limits(*opts, w as int, h as int),
{
    ShiftLimits {
        min_x: opts.min_shift_x,
        max_x: match opts.max_shift_x {
            Some(m) => m,
            None => default_max_shift(w),
        },
        min_y: opts.min_shift_y,
        max_y: match opts.max_shift_y {
            Some(m) => m,
            None => default_max_shift(h),
        },
        max_drift_x: opts.max_drift_x,
        max_drift_y: opts.max_drift_y,
    }
}

/// The positions of the frames, with the first one at the origin.
pub open spec fn places(shifts: Seq<Shift>) -> Seq<Position> {
    Seq::new(
        shifts.len() + 1,
        |k: int| Position { x: offset_x(shifts, k) as i32, y: offset_y(shifts, k) as i32 },
    )
}

/// The positions of the frames on the canvas.
pub open spec fn places_on_canvas(raw: Seq<Position>) -> Seq<Position> {
    Seq::new(
        raw.len(),
        |i: int| Position { x: normalized(raw, i).0 as i32, y: normalized(raw, i).1 as i32 },
    )
}

/// Whether there can be a canvas for frames of size `w` by `h` with these shifts.
pub open spec fn canvas_possible(shifts: Seq<Shift>, w: int, h: int) -> bool {
    &&& offsets_fit(shifts)
    &&& canvas_fits(places(shifts), w, h)
    &&& canvas_size_ok(span_x(places(shifts)) + w, span_y(places(shifts)) + h)
}

/// Where the frames are, and how large the canvas is.
pub struct Layout {
    pub raw: Vec<Position>,
    pub positions: Vec<Position>,
    pub width: u32,
    pub height: u32,
}

/// Whether every place of a frame fits in a position.
fn places_fit(shifts: &[Shift]) -> (r: bool)
    ensures
        r == offsets_fit(shifts@),
{
    let mut x: i64 = 0;
    let mut y: i64 = 0;
    for i in 0..shifts.len()
        invariant
            x == offset_x(shifts@, i as int),
            y == offset_y(shifts@, i as int),
            i32::MIN <= x <= i32::MAX,
            i32::MIN <= y <= i32::MAX,
            forall|k: int|
                0 <= k <= i ==> i32::MIN <= #[trigger] offset_x(shifts@, k) <= i32::MAX
                    && i32::MIN <= offset_y(shifts@, k) <= i32::MAX,
    {
        x = x - shifts[i].dx as i64;
        y = y - shifts[i].dy as i64;
        assert(x == offset_x(shifts@, i + 1));
        assert(y == offset_y(shifts@, i + 1));
        assert(offsets_fit(shifts@) ==> i32::MIN <= x <= i32::MAX && i32::MIN <= y <= i32::MAX);
        if x < i32::MIN as i64 || x > i32::MAX as i64 || y < i32::MIN as i64 || y > i32::MAX as i64 {
            return false;
        }
    }
    true
}

/// Whether a canvas of this size can be made.
fn size_fits(w: i64, h: i64) -> (r: bool)
    requires
        0 <= w <= 0x2_0000_0000,
        0 <= h <= 0x2_0000_0000,
    ensures
        r == canvas_size_ok(w as int, h as int),
{
    if w > i32::MAX as i64 || h > i32::MAX as i64 {
        return false;
    }
    proof {
        assert(0 <= w * h <= 0x7fff_ffff * 0x7fff_ffff) by (nonlinear_arith)
            requires
                0 <= w <= 0x7fff_ffff,
                0 <= h <= 0x7fff_ffff,
        ;
    }
    let n: u64 = w as u64 * h as u64;
    n <= u32::MAX as u64 && 3 * w as u64 <= usize::MAX as u64 && 3 * n <= isize::MAX as u64
}

/// The layout of frames of size `w` by `h` with these shifts, if there can be a canvas for them.
pub fn lay_out(shifts: &[Shift], w: u32, h: u32) -> (r: Option<Layout>)
    ensures
        r is Some <==> canvas_possible(shifts@, w as int, h as int),
        r matches Some(l) ==> {
            &&& l.raw@ == places(shifts@)
            &&& l.positions@ == places_on_canvas(l.raw@)
            &&& l.width == span_x(l.raw@) + w
            &&& l.height == span_y(l.raw@) + h
        },
{
    if !places_fit(shifts) {
        return None;
    }
    let raw = positions_from_shifts(shifts);
    assert(raw@ =~= places(shifts@));
    let b = position_bounds(&raw);
    proof {
        lowest_and_highest_bound_the_values(xs(raw@));
        lowest_and_highest_bound_the_values(ys(raw@));
        assert(lowest(xs(raw@)) <= xs(raw@)[0]);
        assert(lowest(ys(raw@)) <= ys(raw@)[0]);
    }
    let width: i64 = b.max_x as i64 - b.min_x as i64 + w as i64;
    let height: i64 = b.max_y as i64 - b.min_y as i64 + h as i64;
    if w > i32::MAX as u32 || h > i32::MAX as u32 || !size_fits(width, height) {
        return None;
    }
    let (positions, canvas_w, canvas_h) = normalize_positions(&raw, w, h);
    proof {
        crate::geometry::normalized_frames_just_fill_the_canvas(raw@, w as int, h as int);
        assert(positions@ =~= places_on_canvas(raw@));
    }
    Some(Layout { raw, positions, width: canvas_w, height: canvas_h })
}

/// The options of the seams.
pub open spec fn seam_options(opts: StitchOptions) -> SeamOptions {
    let base = if opts.source_selection == SourceSelection::SeamDpMotion {
        SeamOptions {
            motion_weight: opts.seam_motion_weight,
            motion_radius: opts.seam_motion_radius,
            motion_threshold: opts.seam_motion_threshold,
            motion_mask_dilate: opts.seam_motion_mask_dilate,
            motion_hard_penalty: opts.seam_motion_hard_penalty,
            foreground_mask_dilate: 0,
            foreground_mask_penalty: Single { bits: 0 },
            edge_weight: opts.seam_edge_weight,
        }
    } else {
        basic_options()
    };
    SeamOptions {
        foreground_mask_dilate: opts.foreground_mask_dilate,
        foreground_mask_penalty: opts.foreground_mask_penalty,
        ..base
    }
}

/// The options of the seams: those of the motion where the selection asks for them, and the basic
/// ones otherwise.
pub fn seam_options_of(opts: &StitchOptions) -> (o: SeamOptions)
    ensures
        o == seam_options(*opts),
{
    let base = match opts.source_selection {
        SourceSelection::SeamDpMotion => SeamOptions::motion_aware(
            opts.seam_motion_weight,
            opts.seam_motion_radius,
            opts.seam_motion_threshold,
            opts.seam_motion_mask_dilate,
            opts.seam_motion_hard_penalty,
            opts.seam_edge_weight,
        ),
        _ => SeamOptions::basic(),
    };
    base.with_foreground_mask(opts.foreground_mask_dilate, opts.foreground_mask_penalty)
}

/// The masks of the options.
pub open spec fn mask_list(opts: StitchOptions) -> Option<Seq<ForegroundMask>> {
    match opts.foreground_masks {
        Some(v) => Some(v@),
        None => None,
    }
}

/// Which frames the options switch on.
pub open spec fn active_list(opts: StitchOptions, raw: Seq<Position>) -> Option<Seq<bool>> {
    if opts.monotonic_frame_filter {
        Some(Seq::new(raw.len(), |i: int| is_active(raw, i)))
    } else {
        None
    }
}

/// Whether a canvas is what the options make of the frames at the given positions.
pub open spec fn is_composed<
    M: Fn(&Vec<u32>) -> Single,
    C: Fn(SeamOptions, SeamCell) -> Single,
    A: Fn(Single, Single) -> Single,
>(
    mean: M,
    cost: C,
    plus: A,
    images: Seq<RgbImage>,
    opts: StitchOptions,
    scores: Seq<Vec<Single>>,
    raw: Seq<Position>,
    canvas: RgbImage,
    map: SourceMap,
) -> bool {
    let positions = places_on_canvas(raw);
    if opts.source_selection == SourceSelection::NearestCenter || span_y(positions) < span_x(
        positions,
    ) {
        is_nearest_center(images, positions, scores, canvas, map)
    } else {
        (Pan {
            images,
            positions,
            options: seam_options(opts),
            masks: mask_list(opts),
            active: active_list(opts, raw),
        }).is_synthesis(mean, cost, plus, canvas, map)
    }
}

/// Whether a canvas went through the local warp where the options ask for it, and is unchanged
/// otherwise.
pub open spec fn is_corrected<W: Fn(&Vec<u32>, i32) -> Single>(
    warp_score: W,
    images: Seq<RgbImage>,
    opts: StitchOptions,
    raw: Seq<Position>,
    map: SourceMap,
    composed: RgbImage,
    stitched: RgbImage,
    warp: Option<LocalWarpReport>,
) -> bool {
    if opts.local_warp {
        warp matches Some(report) && is_rendering(
            warp_score,
            images,
            mask_list(opts),
            places_on_canvas(raw),
            map,
            opts.local_warp_strip_width,
            opts.local_warp_max_dy,
            opts.local_warp_protect_foreground,
            stitched,
            report,
        )
    } else {
        warp is None && stitched == composed
    }
}

/// Whether a canvas was searched for repeated content where the options ask for it.
pub open spec fn is_checked<
    F: Fn(&RgbImage, [u32; 4], u32, u32) -> Vec<Single>,
    E: Fn(&Vec<Single>) -> Single,
    D: Fn(&Vec<Single>, &Vec<Single>) -> Single,
>(
    feature: F,
    energy: E,
    dot: D,
    opts: StitchOptions,
    stitched: RgbImage,
    found: Option<DuplicateReport>,
) -> bool {
    if opts.check_duplicates {
        found matches Some(report) && is_duplicate_report(feature, energy, dot, stitched, report)
    } else {
        found is None
    }
}

/// Whether these are the shifts between the frames.
pub open spec fn are_shifts<P: Fn(usize, OverlapWindow) -> Single>(
    correlate: P,
    images: Seq<RgbImage>,
    opts: StitchOptions,
    shifts: Seq<Shift>,
) -> bool {
    &&& shifts.len() == images.len() - 1
    &&& forall|i: int|
        0 <= i < shifts.len() ==> is_shift(
            correlate,
            images,
            i,
            opts.align_scale as int,
            opts.mode,
            shift_limits(opts, images[0].w(), images[0].h()),
            opts.snap_x as int,
            #[trigger] shifts[i],
        )
}

/// Whether the search for the shifts ends with this error at the pair `i`.
pub open spec fn is_lost<P: Fn(usize, OverlapWindow) -> Single>(
    correlate: P,
    images: Seq<RgbImage>,
    opts: StitchOptions,
    e: StitchError,
    i: int,
) -> bool {
    let limits = shift_limits(opts, images[0].w(), images[0].h());
    let scale = opts.align_scale as int;
    &&& 0 <= i < images.len() - 1
    &&& is_refusal(correlate, images, i, scale, opts.mode, limits, e)
    &&& forall|j: int|
        0 <= j < i ==> #[trigger] has_shift(
            correlate,
            images,
            j,
            scale,
            opts.mode,
            limits,
            opts.snap_x as int,
        )
}

/// Whether a canvas and its source map are as large as frames with these shifts need them to be.
pub open spec fn spans_frames(
    images: Seq<RgbImage>,
    shifts: Seq<Shift>,
    canvas: RgbImage,
    map: SourceMap,
) -> bool {
    &&& same_size(canvas, map)
    &&& map.width == span_x(places(shifts)) + images[0].w()
    &&& map.height == span_y(places(shifts)) + images[0].h()
}

/// Whether a canvas and what is known about it come from frames with these shifts, before it is
/// decided whether repeated content is acceptable.
pub open spec fn is_draft<
    M: Fn(&Vec<u32>) -> Single,
    C: Fn(SeamOptions, SeamCell) -> Single,
    A: Fn(Single, Single) -> Single,
    W: Fn(&Vec<u32>, i32) -> Single,
    F: Fn(&RgbImage, [u32; 4], u32, u32) -> Vec<Single>,
    E: Fn(&Vec<Single>) -> Single,
    D: Fn(&Vec<Single>, &Vec<Single>) -> Single,
>(
    mean: M,
    cost: C,
    plus: A,
    warp_score: W,
    feature: F,
    energy: E,
    dot: D,
    images: Seq<RgbImage>,
    opts: StitchOptions,
    scores: Seq<Vec<Single>>,
    shifts: Seq<Shift>,
    stitched: RgbImage,
    map: SourceMap,
    warp: Option<LocalWarpReport>,
    found: Option<DuplicateReport>,
) -> bool {
    &&& spans_frames(images, shifts, stitched, map)
    &&& is_checked(feature, energy, dot, opts, stitched, found)
    &&& exists|composed: RgbImage|
        {
            &&& #[trigger] is_composed(
                mean,
                cost,
                plus,
                images,
                opts,
                scores,
                places(shifts),
                composed,
                map,
            )
            &&& is_corrected(
                warp_score,
                images,
                opts,
                places(shifts),
                map,
                composed,
                stitched,
                warp,
            )
        }
}

/// Whether there is a source map with which a canvas is a draft.
pub open spec fn has_draft<
    M: Fn(&Vec<u32>) -> Single,
    C: Fn(SeamOptions, SeamCell) -> Single,
    A: Fn(Single, Single) -> Single,
    W: Fn(&Vec<u32>, i32) -> Single,
    F: Fn(&RgbImage, [u32; 4], u32, u32) -> Vec<Single>,
    E: Fn(&Vec<Single>) -> Single,
    D: Fn(&Vec<Single>, &Vec<Single>) -> Single,
>(
    mean: M,
    cost: C,
    plus: A,
    warp_score: W,
    feature: F,
    energy: E,
    dot: D,
    images: Seq<RgbImage>,
    opts: StitchOptions,
    scores: Seq<Vec<Single>>,
    shifts: Seq<Shift>,
    stitched: RgbImage,
    warp: Option<LocalWarpReport>,
    found: Option<DuplicateReport>,
) -> bool {
    exists|map: SourceMap| #[trigger]
        is_draft(
            mean,
            cost,
            plus,
            warp_score,
            feature,
            energy,
            dot,
            images,
            opts,
            scores,
            shifts,
            stitched,
            map,
            warp,
            found,
        )
}

/// Whether the options make a stitch read the cells of the masks: for seams with a penalty on the
/// foreground, or for a local warp.
pub open spec fn reads_masks(opts: StitchOptions) -> bool {
    ||| opts.local_warp
    ||| opts.source_selection != SourceSelection::NearestCenter && (Single { bits: 0 }).lt(
        opts.foreground_mask_penalty,
    )
}

/// Whether the options make a stitch read the cells of the masks.
pub fn masks_are_read(opts: &StitchOptions) -> (r: bool)
    ensures
        r == reads_masks(*opts),
{
    opts.local_warp || (opts.source_selection != SourceSelection::NearestCenter
        && Single::zero().is_below(opts.foreground_mask_penalty))
}

/// Whether frames, options and scores can be worked with once nothing speaks against the frames:
/// sizes are coordinates, the scale is not zero, masks that are read are well formed, and there is
/// a table of scores for each frame.
pub open spec fn workable(
    images: Seq<RgbImage>,
    opts: StitchOptions,
    scores: Seq<Vec<Single>>,
) -> bool {
    &&& images[0].w() <= i32::MAX
    &&& images[0].h() <= i32::MAX
    &&& images[0].w() * images[0].h() <= usize::MAX
    &&& 0 < opts.align_scale
    &&& reads_masks(opts) ==> masks_wf(mask_list(opts), images.len() as int)
    &&& scores_cover(scores, images.len() as int, images[0].w(), images[0].h())
}

fn mask_slice(opts: &StitchOptions) -> (m: Option<&[ForegroundMask]>)
    ensures
        mask_seq(m) == mask_list(*opts),
{
    match &opts.foreground_masks {
        Some(v) => Some(v.as_slice()),
        None => None,
    }
}

/// The canvas that the options make of the frames at the given positions.
fn compose<
    M: Fn(&Vec<u32>) -> Single,
    C: Fn(SeamOptions, SeamCell) -> Single,
    A: Fn(Single, Single) -> Single,
>(
    images: &[RgbImage],
    opts: &StitchOptions,
    scores: &[Vec<Single>],
    layout: &Layout,
    mean: &M,
    cost: &C,
    plus: &A,
) -> (r: Result<(RgbImage, SourceMap), StitchError>)
    requires
        objection(images@, mask_list(*opts)) is None,
        workable(images@, *opts, scores@),
        layout.raw@.len() == images@.len(),
        layout.positions@ == places_on_canvas(layout.raw@),
        canvas_fits(layout.raw@, images@[0].w(), images@[0].h()),
        canvas_size_ok(layout.width as int, layout.height as int),
        takes_samples(*mean),
        takes_cells(*cost, seam_options(*opts)),
        takes_numbers(*plus),
    ensures
        r matches Ok((canvas, map)) && {
            &&& map.width == layout.width
            &&& map.height == layout.height
            &&& same_size(canvas, map)
            &&& is_composed(
                *mean,
                *cost,
                *plus,
                images@,
                *opts,
                scores@,
                layout.raw@,
                canvas,
                map,
            )
        },
{
    proof {
        lemma_no_odd_frame(images@, 0);
        crate::geometry::normalized_frames_just_fill_the_canvas(
            layout.raw@,
            images@[0].w(),
            images@[0].h(),
        );
        assert forall|i: int| 0 <= i < layout.positions@.len() implies {
            let p = #[trigger] layout.positions@[i];
            p.x == normalized(layout.raw@, i).0 && p.y == normalized(layout.raw@, i).1 && 0 <= p.x
                && 0 <= p.y
        } by {
            assert(0 <= normalized(layout.raw@, i).0);
        }
    }
    if opts.source_selection == SourceSelection::NearestCenter {
        return synthesize_nearest_center_with_source_map(
            images,
            &layout.positions,
            layout.width,
            layout.height,
            scores,
        );
    }
    let masks = mask_slice(opts);
    let options = seam_options_of(opts);
    if opts.monotonic_frame_filter {
        let active = monotonic_active_sources(&layout.raw);
        let r = synthesize_vertical_seams_with_source_map_opts(
            images,
            &layout.positions,
            layout.width,
            layout.height,
            options,
            Some(active.as_slice()),
            masks,
            scores,
            mean,
            cost,
            plus,
        );
        proof {
            assert(Some(active@) == active_list(*opts, layout.raw@)) by {
                assert(active@ =~= Seq::new(
                    layout.raw@.len(),
                    |i: int| is_active(layout.raw@, i),
                ));
            }
        }
        r
    } else {
        synthesize_vertical_seams_with_source_map_opts(
            images,
            &layout.positions,
            layout.width,
            layout.height,
            options,
            None,
            masks,
            scores,
            mean,
            cost,
            plus,
        )
    }
}

/// Whether a report tells how the canvas came about.
pub open spec fn tells_layout(
    images: Seq<RgbImage>,
    shifts: Seq<Shift>,
    report: StitchReport,
) -> bool {
    let raw = places(shifts);
    &&& report.shifts@ == shifts
    &&& report.raw_positions@ == raw
    &&& report.normalized_positions@ == places_on_canvas(raw)
    &&& report.canvas_width == span_x(raw) + images[0].w()
    &&& report.canvas_height == span_y(raw) + images[0].h()
}

/// Whether a stitch ends with this error after the frames were accepted: a pair of frames has no
/// shift, the canvas would be too large, or the canvas repeats content.
pub open spec fn fails_with<
    P: Fn(usize, OverlapWindow) -> Single,
    M: Fn(&Vec<u32>) -> Single,
    C: Fn(SeamOptions, SeamCell) -> Single,
    A: Fn(Single, Single) -> Single,
    W: Fn(&Vec<u32>, i32) -> Single,
    F: Fn(&RgbImage, [u32; 4], u32, u32) -> Vec<Single>,
    E: Fn(&Vec<Single>) -> Single,
    D: Fn(&Vec<Single>, &Vec<Single>) -> Single,
>(
    correlate: P,
    mean: M,
    cost: C,
    plus: A,
    warp_score: W,
    feature: F,
    energy: E,
    dot: D,
    images: Seq<RgbImage>,
    opts: StitchOptions,
    scores: Seq<Vec<Single>>,
    e: StitchError,
) -> bool {
    ||| exists|i: int| #[trigger] is_lost(correlate, images, opts, e, i)
    ||| e == StitchError::CanvasTooLarge && exists|shifts: Seq<Shift>|
        {
            &&& #[trigger] are_shifts(correlate, images, opts, shifts)
            &&& !canvas_possible(shifts, images[0].w(), images[0].h())
        }
    ||| e == StitchError::DuplicateContent && exists|
        shifts: Seq<Shift>,
        stitched: RgbImage,
        map: SourceMap,
        warp: Option<LocalWarpReport>,
        found: DuplicateReport,
    |
        {
            &&& are_shifts(correlate, images, opts, shifts)
            &&& canvas_possible(shifts, images[0].w(), images[0].h())
            &&& #[trigger] is_draft(
                mean,
                cost,
                plus,
                warp_score,
                feature,
                energy,
                dot,
                images,
                opts,
                scores,
                shifts,
                stitched,
                map,
                warp,
                Some(found),
            )
            &&& !found.passed
        }
}

/// Stitches the frames of a pan. The shifts between the frames are found with the help of
/// `correlate`; `scores` tells how close the pixels of each frame are to its center; `mean`, `cost`
/// and `plus` judge seams, `warp_score` corrections, and `feature`, `energy` and `dot` repeated
/// content.
pub fn stitch_images_with_source_map<
    P: Fn(usize, OverlapWindow) -> Single,
    M: Fn(&Vec<u32>) -> Single,
    C: Fn(SeamOptions, SeamCell) -> Single,
    A: Fn(Single, Single) -> Single,
    W: Fn(&Vec<u32>, i32) -> Single,
    F: Fn(&RgbImage, [u32; 4], u32, u32) -> Vec<Single>,
    E: Fn(&Vec<Single>) -> Single,
    D: Fn(&Vec<Single>, &Vec<Single>) -> Single,
>(
    images: &[RgbImage],
    opts: &StitchOptions,
    scores: &[Vec<Single>],
    correlate: &P,
    mean: &M,
    cost: &C,
    plus: &A,
    warp_score: &W,
    feature: &F,
    energy: &E,
    dot: &D,
) -> (r: Result<(RgbImage, SourceMap, StitchReport), StitchError>)
    requires
        objection(images@, mask_list(*opts)) is None ==> workable(images@, *opts, scores@),
        objection(images@, mask_list(*opts)) is None ==> takes_pairs(
            *correlate,
            images@,
            opts.align_scale as int,
        ),
        takes_samples(*mean),
        takes_cells(*cost, seam_options(*opts)),
        takes_numbers(*plus),
        takes_corrections(*warp_score),
        forall|img: RgbImage| #[trigger] takes_rects(*feature, img),
        takes_feature(*energy),
        takes_features(*dot),
    ensures
        match objection(images@, mask_list(*opts)) {
            Some(e) => r == Err::<(RgbImage, SourceMap, StitchReport), StitchError>(e),
            None => match r {
                Ok((stitched, map, report)) => {
                    &&& same_size(stitched, map)
                    &&& map.width == report.canvas_width
                    &&& map.height == report.canvas_height
                    &&& are_shifts(*correlate, images@, *opts, report.shifts@)
                    &&& canvas_possible(report.shifts@, images@[0].w(), images@[0].h())
                    &&& tells_layout(images@, report.shifts@, report)
                    &&& is_draft(
                        *mean,
                        *cost,
                        *plus,
                        *warp_score,
                        *feature,
                        *energy,
                        *dot,
                        images@,
                        *opts,
                        scores@,
                        report.shifts@,
                        stitched,
                        map,
                        report.local_warp,
                        report.duplicate_report,
                    )
                    &&& report.duplicate_report matches Some(found) ==> found.passed
                },
                Err(e) => fails_with(
                    *correlate,
                    *mean,
                    *cost,
                    *plus,
                    *warp_score,
                    *feature,
                    *energy,
                    *dot,
                    images@,
                    *opts,
                    scores@,
                    e,
                ),
            },
        },
{
    let masks = mask_slice(opts);
    if let Err(e) = check_inputs(images, masks) {
        return Err(e);
    }
    proof {
        lemma_no_odd_frame(images@, 0);
    }
    let (w, h) = images[0].dimensions();
    let limits = limits_of(opts, w, h);
    let shifts = match estimate_shifts(
        images,
        opts.align_scale,
        opts.mode,
        limits,
        opts.snap_x,
        correlate,
    ) {
        Ok(shifts) => shifts,
        Err(e) => {
            proof {
                let i = choose|i: int|
                    0 <= i < images@.len() - 1 && #[trigger] is_refusal(
                        *correlate,
                        images@,
                        i,
                        opts.align_scale as int,
                        opts.mode,
                        limits,
                        e,
                    ) && forall|j: int|
                        0 <= j < i ==> #[trigger] has_shift(
                            *correlate,
                            images@,
                            j,
                            opts.align_scale as int,
                            opts.mode,
                            limits,
                            opts.snap_x as int,
                        );
                assert(is_lost(*correlate, images@, *opts, e, i));
            }
            return Err(e);
        },
    };
    assert(are_shifts(*correlate, images@, *opts, shifts@));
    let layout = match lay_out(&shifts, w, h) {
        Some(layout) => layout,
        None => {
            return Err(StitchError::CanvasTooLarge);
        },
    };
    let (composed, source_map) = match compose(images, opts, scores, &layout, mean, cost, plus) {
        Ok(pair) => pair,
        Err(e) => {
            return Err(e);
        },
    };
    let ghost flat = composed;
    let (stitched, local_warp) = if opts.local_warp {
        match render_local_warped_from_source_map(
            images,
            masks,
            &layout.positions,
            &source_map,
            opts.local_warp_strip_width,
            opts.local_warp_max_dy,
            opts.local_warp_protect_foreground,
            warp_score,
        ) {
            Ok((warped, report)) => (warped, Some(report)),
            Err(e) => {
                return Err(e);
            },
        }
    } else {
        (composed, None)
    };
    assert(is_corrected(
        *warp_score,
        images@,
        *opts,
        layout.raw@,
        source_map,
        flat,
        stitched,
        local_warp,
    ));
    let duplicate_report = if opts.check_duplicates {
        Some(detect_duplicates(&stitched, feature, energy, dot))
    } else {
        None
    };
    assert(is_draft(
        *mean,
        *cost,
        *plus,
        *warp_score,
        *feature,
        *energy,
        *dot,
        images@,
        *opts,
        scores@,
        shifts@,
        stitched,
        source_map,
        local_warp,
        duplicate_report,
    ));
    if let Some(found) = &duplicate_report {
        if !found.passed {
            return Err(StitchError::DuplicateContent);
        }
    }
    let report = StitchReport {
        shifts,
        raw_positions: layout.raw,
        normalized_positions: layout.positions,
        canvas_width: layout.width,
        canvas_height: layout.height,
        local_warp,
        duplicate_report,
    };
    Ok((stitched, source_map, report))
}

/// Stitches the frames of a pan, without handing out the source map.
pub fn stitch_images<
    P: Fn(usize, OverlapWindow) -> Single,
    M: Fn(&Vec<u32>) -> Single,
    C: Fn(SeamOptions, SeamCell) -> Single,
    A: Fn(Single, Single) -> Single,
    W: Fn(&Vec<u32>, i32) -> Single,
    F: Fn(&RgbImage, [u32; 4], u32, u32) -> Vec<Single>,
    E: Fn(&Vec<Single>) -> Single,
    D: Fn(&Vec<Single>, &Vec<Single>) -> Single,
>(
    images: &[RgbImage],
    opts: &StitchOptions,
    scores: &[Vec<Single>],
    correlate: &P,
    mean: &M,
    cost: &C,
    plus: &A,
    warp_score: &W,
    feature: &F,
    energy: &E,
    dot: &D,
) -> (r: Result<(RgbImage, StitchReport), StitchError>)
    requires
        objection(images@, mask_list(*opts)) is None ==> workable(images@, *opts, scores@),
        objection(images@, mask_list(*opts)) is None ==> takes_pairs(
            *correlate,
            images@,
            opts.align_scale as int,
        ),
        takes_samples(*mean),
        takes_cells(*cost, seam_options(*opts)),
        takes_numbers(*plus),
        takes_corrections(*warp_score),
        forall|img: RgbImage| #[trigger] takes_rects(*feature, img),
        takes_feature(*energy),
        takes_features(*dot),
    ensures
        match objection(images@, mask_list(*opts)) {
            Some(e) => r == Err::<(RgbImage, StitchReport), StitchError>(e),
            None => match r {
                Ok((stitched, report)) => {
                    &&& stitched.w() == report.canvas_width
                    &&& stitched.h() == report.canvas_height
                    &&& are_shifts(*correlate, images@, *opts, report.shifts@)
                    &&& canvas_possible(report.shifts@, images@[0].w(), images@[0].h())
                    &&& tells_layout(images@, report.shifts@, report)
                    &&& has_draft(
                        *mean,
                        *cost,
                        *plus,
                        *warp_score,
                        *feature,
                        *energy,
                        *dot,
                        images@,
                        *opts,
                        scores@,
                        report.shifts@,
                        stitched,
                        report.local_warp,
                        report.duplicate_report,
                    )
                    &&& report.duplicate_report matches Some(found) ==> found.passed
                },
                Err(e) => fails_with(
                    *correlate,
                    *mean,
                    *cost,
                    *plus,
                    *warp_score,
                    *feature,
                    *energy,
                    *dot,
                    images@,
                    *opts,
                    scores@,
                    e,
                ),
            },
        },
{
    match stitch_images_with_source_map(
        images,
        opts,
        scores,
        correlate,
        mean,
        cost,
        plus,
        warp_score,
        feature,
        energy,
        dot,
    ) {
        Ok((stitched, map, report)) => {
            proof {
                if objection(images@, mask_list(*opts)) is None {
                    assert(is_draft(
                        *mean,
                        *cost,
                        *plus,
                        *warp_score,
                        *feature,
                        *energy,
                        *dot,
                        images@,
                        *opts,
                        scores@,
                        report.shifts@,
                        stitched,
                        map,
                        report.local_warp,
                        report.duplicate_report,
                    ));
                    assert(has_draft(
                        *mean,
                        *cost,
                        *plus,
                        *warp_score,
                        *feature,
                        *energy,
                        *dot,
                        images@,
                        *opts,
                        scores@,
                        report.shifts@,
                        stitched,
                        report.local_warp,
                        report.duplicate_report,
                    ));
                }
            }
            Ok((stitched, report))
        },
        Err(e) => Err(e),
    }
}

/// Of at most 255 frames, whatever the way in which their pixels are chosen, the canvas is faithful
/// to its source map: each pixel with a frame is the pixel of that frame at that place, and a
/// pixel has no frame exactly where no frame shows it.
pub proof fn composed_canvas_is_faithful<
    M: Fn(&Vec<u32>) -> Single,
    C: Fn(SeamOptions, SeamCell) -> Single,
    A: Fn(Single, Single) -> Single,
>(
    mean: M,
    cost: C,
    plus: A,
    images: Seq<RgbImage>,
    opts: StitchOptions,
    scores: Seq<Vec<Single>>,
    shifts: Seq<Shift>,
    canvas: RgbImage,
    map: SourceMap,
)
    requires
        objection(images, mask_list(opts)) is None,
        workable(images, opts, scores),
        images.len() <= 255,
        shifts.len() + 1 == images.len(),
        canvas_possible(shifts, images[0].w(), images[0].h()),
        is_composed(mean, cost, plus, images, opts, scores, places(shifts), canvas, map),
    ensures
        faithful(images, places_on_canvas(places(shifts)), canvas, map),
        forall|x: int, y: int|
            map.has(x, y) ==> (#[trigger] map.assigned(x, y) <==> exists|i: int|
                0 <= i < images.len() && #[trigger] shows(
                    images[i],
                    places_on_canvas(places(shifts))[i],
                    x,
                    y,
                )),
{
    let raw = places(shifts);
    let positions = places_on_canvas(raw);
    let w = images[0].w();
    let h = images[0].h();
    lemma_no_odd_frame(images, 0);
    crate::geometry::normalized_frames_just_fill_the_canvas(raw, w, h);
    assert forall|i: int| 0 <= i < positions.len() implies {
        let p = #[trigger] positions[i];
        0 <= p.x && 0 <= p.y
    } by {
        assert(0 <= normalized(raw, i).0);
    }
    if opts.source_selection == SourceSelection::NearestCenter || span_y(positions) < span_x(
        positions,
    ) {
        crate::nearest::nearest_center_is_faithful(images, positions, scores, canvas, map);
        assert forall|x: int, y: int| map.has(x, y) implies (#[trigger] map.assigned(x, y)
            <==> exists|i: int|
            0 <= i < images.len() && #[trigger] shows(images[i], positions[i], x, y)) by {
            if map.assigned(x, y) {
                let i = choose|i: int|
                    0 <= i < positions.len() && crate::geometry::covers(
                        #[trigger] positions[i],
                        w,
                        h,
                        x,
                        y,
                    );
                assert(images[i].w() == w);
                assert(shows(images[i], positions[i], x, y));
            }
            if exists|i: int|
                0 <= i < images.len() && #[trigger] shows(images[i], positions[i], x, y) {
                let i = choose|i: int|
                    0 <= i < images.len() && #[trigger] shows(images[i], positions[i], x, y);
                assert(images[i].w() == w && images[i].h() == h);
                assert(crate::geometry::covers(positions[i], w, h, x, y));
            }
        }
    } else {
        crate::vertical::synthesis_is_faithful(
            Pan {
                images,
                positions,
                options: seam_options(opts),
                masks: mask_list(opts),
                active: active_list(opts, raw),
            },
            mean,
            cost,
            plus,
            canvas,
            map,
        );
    }
}

/// Of at most 255 frames, the canvas of a stitch agrees with the coordinate map that is made of its
/// source map, its positions and its warp: a verification finds no mismatches, and without a warp
/// no pixels out of bounds either.
pub proof fn stitched_canvas_verifies<
    M: Fn(&Vec<u32>) -> Single,
    C: Fn(SeamOptions, SeamCell) -> Single,
    A: Fn(Single, Single) -> Single,
    W: Fn(&Vec<u32>, i32) -> Single,
    F: Fn(&RgbImage, [u32; 4], u32, u32) -> Vec<Single>,
    E: Fn(&Vec<Single>) -> Single,
    D: Fn(&Vec<Single>, &Vec<Single>) -> Single,
>(
    mean: M,
    cost: C,
    plus: A,
    warp_score: W,
    feature: F,
    energy: E,
    dot: D,
    images: Seq<RgbImage>,
    opts: StitchOptions,
    scores: Seq<Vec<Single>>,
    shifts: Seq<Shift>,
    stitched: RgbImage,
    map: SourceMap,
    warp: Option<LocalWarpReport>,
    found: Option<DuplicateReport>,
    coords: SourceCoordinateMap,
)
    requires
        objection(images, mask_list(opts)) is None,
        workable(images, opts, scores),
        images.len() <= 255,
        shifts.len() + 1 == images.len(),
        canvas_possible(shifts, images[0].w(), images[0].h()),
        is_draft(
            mean,
            cost,
            plus,
            warp_score,
            feature,
            energy,
            dot,
            images,
            opts,
            scores,
            shifts,
            stitched,
            map,
            warp,
            found,
        ),
        // `coords` is what `SourceCoordinateMap::from_source_map_with_local_warp` makes of them
        coords.wf(),
        coords.width == map.width,
        coords.height == map.height,
        forall|x: int, y: int|
            coords.has(x, y) ==> #[trigger] coords.stored(x, y) == SourceCoordinateMap::storage(
                SourceCoordinateMap::located(
                    map,
                    places_on_canvas(places(shifts)),
                    x,
                    y,
                    match warp {
                        Some(report) => local_delta(
                            report,
                            mask_list(opts),
                            places_on_canvas(places(shifts)),
                            map.at(x, y) as int,
                            x,
                            y,
                        ),
                        None => 0,
                    },
                ),
            ),
    ensures
        count_where(
            coords.sources@.len(),
            |k: int| mismatched_at(coords, images, stitched, k),
        ) == 0,
        warp is None ==> count_where(
            coords.sources@.len(),
            |k: int| out_of_bounds_at(coords, images, k),
        ) == 0,
{
    let raw = places(shifts);
    let positions = places_on_canvas(raw);
    let composed = choose|composed: RgbImage|
        {
            &&& #[trigger] is_composed(
                mean,
                cost,
                plus,
                images,
                opts,
                scores,
                raw,
                composed,
                map,
            )
            &&& is_corrected(warp_score, images, opts, raw, map, composed, stitched, warp)
        };
    composed_canvas_is_faithful(mean, cost, plus, images, opts, scores, shifts, composed, map);
    match warp {
        Some(report) => {
            crate::local_warp::warped_canvas_matches_its_coordinates(
                images,
                mask_list(opts),
                positions,
                map,
                report,
                stitched,
                coords,
            );
        },
        None => {
            crate::canvas::faithful_canvas_verifies(images, positions, stitched, map, coords);
        },
    }
}

proof fn lemma_odd_frame(images: Seq<RgbImage>, from: int, k: int)
    requires
        0 <= from <= k < images.len(),
        images[k].w() != images[0].w() || images[k].h() != images[0].h(),
        forall|j: int|
            from <= j < k ==> (#[trigger] images[j]).w() == images[0].w() && images[j].h()
                == images[0].h(),
    ensures
        odd_frame(images, from) == Some(k),
    decreases images.len() - from,
{
    if from < k {
        lemma_odd_frame(images, from + 1, k);
    }
}

proof fn lemma_all_frames_fit(images: Seq<RgbImage>, from: int)
    requires
        0 <= from,
        forall|j: int|
            from <= j < images.len() ==> (#[trigger] images[j]).w() == images[0].w()
                && images[j].h() == images[0].h(),
    ensures
        odd_frame(images, from) is None,
    decreases images.len() - from,
{
    if from < images.len() {
        lemma_all_frames_fit(images, from + 1);
    }
}

proof fn lemma_odd_mask(masks: Seq<ForegroundMask>, w: int, h: int, from: int, k: int)
    requires
        0 <= from <= k < masks.len(),
        masks[k].width != w || masks[k].height != h,
        forall|j: int|
            from <= j < k ==> (#[trigger] masks[j]).width == w && masks[j].height == h,
    ensures
        odd_mask(masks, w, h, from) == Some(k),
    decreases masks.len() - from,
{
    if from < k {
        lemma_odd_mask(masks, w, h, from + 1, k);
    }
}

proof fn lemma_all_masks_fit(masks: Seq<ForegroundMask>, w: int, h: int, from: int)
    requires
        0 <= from,
        forall|j: int|
            from <= j < masks.len() ==> (#[trigger] masks[j]).width == w && masks[j].height == h,
    ensures
        odd_mask(masks, w, h, from) is None,
    decreases masks.len() - from,
{
    if from < masks.len() {
        lemma_all_masks_fit(masks, w, h, from + 1);
    }
}

/// Fewer than two frames are refused.
pub proof fn single_frames_are_refused(
    images: Seq<RgbImage>,
    masks: Option<Seq<ForegroundMask>>,
)
    requires
        images.len() < 2,
    ensures
        objection(images, masks) == Some(StitchError::TooFewFrames),
{
}

/// Of two or more frames, the first one that differs in size from the very first one is refused, and
/// named with both sizes.
pub proof fn first_frame_of_another_size_is_named(
    images: Seq<RgbImage>,
    masks: Option<Seq<ForegroundMask>>,
    k: int,
)
    requires
        0 <= k < images.len(),
        images[k].w() != images[0].w() || images[k].h() != images[0].h(),
        forall|j: int|
            0 <= j < k ==> (#[trigger] images[j]).w() == images[0].w() && images[j].h()
                == images[0].h(),
    ensures
        objection(images, masks) == Some(
            StitchError::FrameSizeMismatch {
                width: images[0].w() as u32,
                height: images[0].h() as u32,
                frame: k as usize,
                frame_width: images[k].w() as u32,
                frame_height: images[k].h() as u32,
            },
        ),
{
    lemma_odd_frame(images, 0, k);
}

/// Two or more frames of one size are accepted without masks. With masks there has to be one for each
/// frame, of the size of the frames; otherwise the numbers are told, or the first mask of another
/// size is named.
pub proof fn masks_have_to_match_the_frames(
    images: Seq<RgbImage>,
    masks: Seq<ForegroundMask>,
    k: int,
)
    requires
        images.len() >= 2,
        forall|j: int|
            0 <= j < images.len() ==> (#[trigger] images[j]).w() == images[0].w() && images[j].h()
                == images[0].h(),
    ensures
        objection(images, None) is None,
        masks.len() != images.len() ==> objection(images, Some(masks)) == Some(
            StitchError::MaskCountMismatch {
                masks: masks.len() as usize,
                frames: images.len() as usize,
            },
        ),
        masks.len() == images.len() && 0 <= k < masks.len() && (masks[k].width != images[0].w()
            || masks[k].height != images[0].h()) && (forall|j: int|
            0 <= j < k ==> (#[trigger] masks[j]).width == images[0].w() && masks[j].height
                == images[0].h()) ==> objection(images, Some(masks)) == Some(
            StitchError::MaskSizeMismatch {
                mask: k as usize,
                mask_width: masks[k].width,
                mask_height: masks[k].height,
                width: images[0].w() as u32,
                height: images[0].h() as u32,
            },
        ),
        masks.len() == images.len() && (forall|j: int|
            0 <= j < masks.len() ==> (#[trigger] masks[j]).width == images[0].w()
                && masks[j].height == images[0].h()) ==> objection(images, Some(masks)) is None,
{
    lemma_all_frames_fit(images, 0);
    let w = images[0].w();
    let h = images[0].h();
    if 0 <= k < masks.len() && (masks[k].width != w || masks[k].height != h) && (forall|j: int|
        0 <= j < k ==> (#[trigger] masks[j]).width == w && masks[j].height == h) {
        lemma_odd_mask(masks, w, h, 0, k);
    }
    if forall|j: int|
        0 <= j < masks.len() ==> (#[trigger] masks[j]).width == w && masks[j].height == h {
        lemma_all_masks_fit(masks, w, h, 0);
    }
}

/// Where the options set no limit, a pan may move by three quarters of a side, to the nearest pixel.
/// All other limits are those of the options.
pub proof fn pans_move_by_three_quarters(opts: StitchOptions, w: int, h: int)
    requires
        0 <= w <= 5592405,
        0 <= h <= 5592405,
    ensures
        ({
            let l = shift_limits(opts, w, h);
            &&& opts.max_shift_x is None ==> -2 < 4 * l.max_x - 3 * w <= 2
            &&& opts.max_shift_y is None ==> -2 < 4 * l.max_y - 3 * h <= 2
            &&& opts.max_shift_x matches Some(m) ==> l.max_x == m
            &&& opts.max_shift_y matches Some(m) ==> l.max_y == m
            &&& l.min_x == opts.min_shift_x && l.min_y == opts.min_shift_y
            &&& l.max_drift_x == opts.max_drift_x && l.max_drift_y == opts.max_drift_y
        }),
{
    crate::rounding::short_lengths_have_exact_quarters(w);
    crate::rounding::short_lengths_have_exact_quarters(h);
}

/// The first frame lies at the origin, and each frame where the shift of the content between it and
/// the frame before leads, against the content. On the canvas all of them are moved alike, so that
/// they lie on it and touch its upper and its left edge.
pub proof fn frames_lie_where_the_shifts_lead(
    shifts: Seq<Shift>,
    w: int,
    h: int,
    k: int,
    i: int,
)
    requires
        0 <= w,
        0 <= h,
        canvas_possible(shifts, w, h),
        0 <= k < shifts.len(),
        0 <= i <= shifts.len(),
    ensures
        ({
            let raw = places(shifts);
            let p = places_on_canvas(raw);
            &&& raw.len() == shifts.len() + 1 && p.len() == raw.len()
            &&& raw[0].x == 0 && raw[0].y == 0
            &&& raw[k + 1].x == raw[k].x - shifts[k].dx
            &&& raw[k + 1].y == raw[k].y - shifts[k].dy
            &&& p[k + 1].x - p[k].x == -shifts[k].dx
            &&& p[k + 1].y - p[k].y == -shifts[k].dy
            &&& 0 <= p[i].x && p[i].x + w <= span_x(raw) + w
            &&& 0 <= p[i].y && p[i].y + h <= span_y(raw) + h
            &&& exists|j: int| 0 <= j < p.len() && (#[trigger] p[j]).x == 0
            &&& exists|j: int| 0 <= j < p.len() && (#[trigger] p[j]).y == 0
            &&& exists|j: int| 0 <= j < p.len() && (#[trigger] p[j]).x == span_x(raw)
            &&& exists|j: int| 0 <= j < p.len() && (#[trigger] p[j]).y == span_y(raw)
        }),
{
    let raw = places(shifts);
    let p = places_on_canvas(raw);
    crate::geometry::normalized_frames_just_fill_the_canvas(raw, w, h);
    assert forall|j: int| 0 <= j < raw.len() implies (#[trigger] p[j]).x == normalized(raw, j).0
        && p[j].y == normalized(raw, j).1 && raw[j].x == offset_x(shifts, j) && raw[j].y
        == offset_y(shifts, j) by {
        assert(normalized(raw, j).0 + w <= span_x(raw) + w);
        assert(i32::MIN <= offset_x(shifts, j) <= i32::MAX);
        assert(i32::MIN <= offset_y(shifts, j) <= i32::MAX);
    }
    assert(p[0].x == normalized(raw, 0).0);
    assert(p[k].x == normalized(raw, k).0 && p[k + 1].x == normalized(raw, k + 1).0);
    assert(p[i].x == normalized(raw, i).0);
    let a = choose|j: int| 0 <= j < raw.len() && (#[trigger] normalized(raw, j)).0 == 0;
    let b = choose|j: int| 0 <= j < raw.len() && (#[trigger] normalized(raw, j)).1 == 0;
    let c = choose|j: int|
        0 <= j < raw.len() && (#[trigger] normalized(raw, j)).0 + w == span_x(raw) + w;
    let d = choose|j: int|
        0 <= j < raw.len() && (#[trigger] normalized(raw, j)).1 + h == span_y(raw) + h;
    assert(p[a].x == 0 && p[b].y == 0 && p[c].x == span_x(raw) && p[d].y == span_y(raw));
}

/// A canvas is refused only where a coordinate or a size does not fit: the offsets of the frames, the
/// sides of the canvas, the number of its pixels and the number of their bytes.
pub proof fn canvases_that_fit_are_accepted(shifts: Seq<Shift>, w: int, h: int)
    requires
        0 < w,
        0 < h,
        forall|k: int|
            0 <= k <= shifts.len() ==> -0x8000_0000 <= #[trigger] offset_x(shifts, k) <= 0x7fff_ffff,
        forall|k: int|
            0 <= k <= shifts.len() ==> -0x8000_0000 <= #[trigger] offset_y(shifts, k) <= 0x7fff_ffff,
        span_x(places(shifts)) + w <= 0x7fff_ffff,
        span_y(places(shifts)) + h <= 0x7fff_ffff,
        (span_x(places(shifts)) + w) * (span_y(places(shifts)) + h) <= 0xffff_ffff,
        3 * ((span_x(places(shifts)) + w) * (span_y(places(shifts)) + h)) <= isize::MAX,
    ensures
        canvas_possible(shifts, w, h),
{
    let raw = places(shifts);
    lowest_and_highest_bound_the_values(xs(raw));
    lowest_and_highest_bound_the_values(ys(raw));
    assert(lowest(xs(raw)) <= xs(raw)[0] <= highest(xs(raw)));
    assert(lowest(ys(raw)) <= ys(raw)[0] <= highest(ys(raw)));
    let a = span_x(raw) + w;
    let b = span_y(raw) + h;
    assert(a <= a * b) by (nonlinear_arith)
        requires
            0 <= a,
            1 <= b,
    ;
}

/// Seams take motion into account only where the selection asks for it, with the numbers of the
/// options; otherwise they weigh edges by 0.15 and leave motion aside. The foreground counts with the
/// numbers of the options either way.
pub proof fn motion_counts_where_it_is_selected(opts: StitchOptions)
    ensures
        ({
            let o = seam_options(opts);
            &&& o.foreground_mask_dilate == opts.foreground_mask_dilate
            &&& o.foreground_mask_penalty == opts.foreground_mask_penalty
            &&& opts.source_selection == SourceSelection::SeamDpMotion ==> {
                &&& o.motion_weight == opts.seam_motion_weight
                &&& o.motion_radius == opts.seam_motion_radius
                &&& o.motion_threshold == opts.seam_motion_threshold
                &&& o.motion_mask_dilate == opts.seam_motion_mask_dilate
                &&& o.motion_hard_penalty == opts.seam_motion_hard_penalty
                &&& o.edge_weight == opts.seam_edge_weight
            }
            &&& opts.source_selection != SourceSelection::SeamDpMotion ==> {
                &&& o.motion_weight.bits == 0
                &&& o.motion_hard_penalty.bits == 0
                &&& o.edge_weight.bits == 0x3e19_999a
            }
        }),
{
}

/// The optional steps are made exactly where the options ask for them: a local warp is reported, or
/// the composed canvas stays as it is; repeated content is reported, or not looked for. Frames are
/// switched off only by the filter.
pub proof fn optional_steps_follow_the_options<
    W: Fn(&Vec<u32>, i32) -> Single,
    F: Fn(&RgbImage, [u32; 4], u32, u32) -> Vec<Single>,
    E: Fn(&Vec<Single>) -> Single,
    D: Fn(&Vec<Single>, &Vec<Single>) -> Single,
>(
    warp_score: W,
    feature: F,
    energy: E,
    dot: D,
    images: Seq<RgbImage>,
    opts: StitchOptions,
    raw: Seq<Position>,
    map: SourceMap,
    composed: RgbImage,
    stitched: RgbImage,
    warp: Option<LocalWarpReport>,
    found: Option<DuplicateReport>,
    i: int,
)
    requires
        is_corrected(warp_score, images, opts, raw, map, composed, stitched, warp),
        is_checked(feature, energy, dot, opts, stitched, found),
    ensures
        warp is Some <==> opts.local_warp,
        !opts.local_warp ==> stitched == composed,
        warp matches Some(report) ==> {
            &&& report.max_dy == opts.local_warp_max_dy
            &&& report.protect_foreground == opts.local_warp_protect_foreground
            &&& opts.local_warp_strip_width > 0 ==> report.strip_width
                == opts.local_warp_strip_width
        },
        found is Some <==> opts.check_duplicates,
        active_list(opts, raw) is Some <==> opts.monotonic_frame_filter,
        active_list(opts, raw) matches Some(flags) ==> flags.len() == raw.len() && (0 <= i
            < raw.len() ==> flags[i] == is_active(raw, i)),
{
}

/// A canvas is put together by the nearest centers where they are selected, and where the frames
/// spread further sideways than up and down; in all other cases with seams.
pub proof fn wide_pans_take_the_nearest_centers<
    M: Fn(&Vec<u32>) -> Single,
    C: Fn(SeamOptions, SeamCell) -> Single,
    A: Fn(Single, Single) -> Single,
>(
    mean: M,
    cost: C,
    plus: A,
    images: Seq<RgbImage>,
    opts: StitchOptions,
    scores: Seq<Vec<Single>>,
    shifts: Seq<Shift>,
    canvas: RgbImage,
    map: SourceMap,
)
    requires
        images.len() == shifts.len() + 1,
        0 <= images[0].w(),
        0 <= images[0].h(),
        canvas_possible(shifts, images[0].w(), images[0].h()),
        is_composed(mean, cost, plus, images, opts, scores, places(shifts), canvas, map),
    ensures
        ({
            let raw = places(shifts);
            let centers = is_nearest_center(images, places_on_canvas(raw), scores, canvas, map);
            let seams = (Pan {
                images,
                positions: places_on_canvas(raw),
                options: seam_options(opts),
                masks: mask_list(opts),
                active: active_list(opts, raw),
            }).is_synthesis(mean, cost, plus, canvas, map);
            &&& opts.source_selection == SourceSelection::NearestCenter ==> centers
            &&& span_x(raw) > span_y(raw) ==> centers
            &&& opts.source_selection != SourceSelection::NearestCenter && span_x(raw) <= span_y(raw)
                ==> seams
        }),
{
    let raw = places(shifts);
    lemma_spans_stay(shifts, images[0].w(), images[0].h());
}

/// Moving all frames alike does not change how far they spread.
proof fn lemma_spans_stay(shifts: Seq<Shift>, w: int, h: int)
    requires
        0 <= w,
        0 <= h,
        canvas_possible(shifts, w, h),
    ensures
        span_x(places_on_canvas(places(shifts))) == span_x(places(shifts)),
        span_y(places_on_canvas(places(shifts))) == span_y(places(shifts)),
{
    let raw = places(shifts);
    let p = places_on_canvas(raw);
    crate::geometry::normalized_frames_just_fill_the_canvas(raw, w, h);
    lowest_and_highest_bound_the_values(xs(p));
    lowest_and_highest_bound_the_values(ys(p));
    assert forall|j: int| 0 <= j < raw.len() implies (#[trigger] p[j]).x == normalized(raw, j).0
        && p[j].y == normalized(raw, j).1 by {
        assert(normalized(raw, j).0 + w <= span_x(raw) + w);
    }
    let a = choose|j: int| 0 <= j < raw.len() && (#[trigger] normalized(raw, j)).0 == 0;
    let b = choose|j: int| 0 <= j < raw.len() && (#[trigger] normalized(raw, j)).1 == 0;
    let c = choose|j: int|
        0 <= j < raw.len() && (#[trigger] normalized(raw, j)).0 + w == span_x(raw) + w;
    let d = choose|j: int|
        0 <= j < raw.len() && (#[trigger] normalized(raw, j)).1 + h == span_y(raw) + h;
    assert(xs(p)[a] == 0 && ys(p)[b] == 0 && xs(p)[c] == span_x(raw) && ys(p)[d] == span_y(raw)) by {
        assert(p[a].x == normalized(raw, a).0 && p[b].y == normalized(raw, b).1);
        assert(p[c].x == normalized(raw, c).0 && p[d].y == normalized(raw, d).1);
    }
    let e = choose|j: int| 0 <= j < xs(p).len() && xs(p)[j] == lowest(xs(p));
    let f = choose|j: int| 0 <= j < xs(p).len() && xs(p)[j] == highest(xs(p));
    let g = choose|j: int| 0 <= j < ys(p).len() && ys(p)[j] == lowest(ys(p));
    let k = choose|j: int| 0 <= j < ys(p).len() && ys(p)[j] == highest(ys(p));
    assert(0 <= p[e].x && p[f].x <= span_x(raw) && 0 <= p[g].y && p[k].y <= span_y(raw));
}

} // verus!
