//! Estimating the displacements between consecutive frames.
//!
//! How well two frames agree under a displacement is for a function of the caller to say: it is
//! handed the number of the pair and the window of pixels to compare.

use vstd::prelude::*;

use crate::alignment::{
    absolute, allowed_in_full, allowed_when_scaled, choose_coarse, choose_fine, coarse_candidates,
    comparable, fine_candidates, is_first_best, lists_in_scan_order, overlap_window, scale_up,
    snap_shift, some_candidate_is_best, window, OverlapWindow, PanMode, ShiftLimits,
};
use crate::buffers::RgbImage;
use crate::error::StitchError;
use crate::geometry::Shift;
use crate::rounding::{round_ratio, rounded_ratio};
use crate::single::Single;

verus! {

/// Whether a function takes every window in which two alignment images of size `w` by `h` can be
/// compared.
pub open spec fn takes_windows<F: Fn(usize, OverlapWindow) -> Single>(
    correlate: F,
    pair: usize,
    w: int,
    h: int,
) -> bool {
    forall|dx: int, dy: int|
        comparable(w, h, dx, dy) ==> #[trigger] call_requires(
            correlate,
            (pair, window(w, h, dx, dy)),
        )
}

/// Whether a function takes every window of consecutive frames whose alignment images have the same
/// size.
pub open spec fn takes_pairs<F: Fn(usize, OverlapWindow) -> Single>(
    correlate: F,
    images: Seq<RgbImage>,
    scale: int,
) -> bool {
    forall|i: int|
        0 <= i < images.len() - 1 && #[trigger] alike(images, i, scale) ==> takes_windows(
            correlate,
            i as usize,
            scaled_length(images[i].w(), scale),
            scaled_length(images[i].h(), scale),
        )
}

/// Whether `s` is the score of a displacement: what the function gives for its window, or negative
/// infinity where the frames overlap too little.
pub open spec fn is_correlation<F: Fn(usize, OverlapWindow) -> Single>(
    correlate: F,
    pair: usize,
    w: int,
    h: int,
    dx: int,
    dy: int,
    s: Single,
) -> bool {
    if comparable(w, h, dx, dy) {
        call_ensures(correlate, (pair, window(w, h, dx, dy)), s)
    } else {
        s == (Single { bits: 0xff80_0000 })
    }
}

/// The score of a displacement of two alignment images of size `w` by `h`.
pub fn ncc_content_shift<F: Fn(usize, OverlapWindow) -> Single>(
    pair: usize,
    w: usize,
    h: usize,
    dx: i32,
    dy: i32,
    correlate: &F,
) -> (s: Single)
    requires
        w <= i32::MAX,
        h <= i32::MAX,
        takes_windows(*correlate, pair, w as int, h as int),
    ensures
        is_correlation(*correlate, pair, w as int, h as int, dx as int, dy as int, s),
{
    match overlap_window(w, h, dx, dy) {
        Some(win) => correlate(pair, win),
        None => Single::neg_infinity(),
    }
}

/// A displacement of alignment images: the candidate itself, or where it is one of the frames, the
/// candidate divided by the scale.
pub open spec fn tried(candidate: (i32, i32), scale: Option<int>) -> (int, int) {
    match scale {
        Some(d) => (
            rounded_ratio(candidate.0 as int, d),
            rounded_ratio(candidate.1 as int, d),
        ),
        None => (candidate.0 as int, candidate.1 as int),
    }
}

/// Whether the scores are those of the candidates. With a scale, the candidates are displacements
/// of the frames.
pub open spec fn are_scores<F: Fn(usize, OverlapWindow) -> Single>(
    correlate: F,
    pair: usize,
    w: int,
    h: int,
    scale: Option<int>,
    candidates: Seq<(i32, i32)>,
    scores: Seq<Single>,
) -> bool {
    &&& scores.len() == candidates.len()
    &&& forall|k: int|
        0 <= k < scores.len() ==> is_correlation(
            correlate,
            pair,
            w,
            h,
            tried(candidates[k], scale).0,
            tried(candidates[k], scale).1,
            #[trigger] scores[k],
        )
}

/// An optional number, as a whole number.
spec fn whole(n: Option<u32>) -> Option<int> {
    match n {
        Some(d) => Some(d as int),
        None => None,
    }
}

fn score_all<F: Fn(usize, OverlapWindow) -> Single>(
    pair: usize,
    w: usize,
    h: usize,
    scale: Option<u32>,
    candidates: &Vec<(i32, i32)>,
    correlate: &F,
) -> (scores: Vec<Single>)
    requires
        w <= i32::MAX,
        h <= i32::MAX,
        scale matches Some(d) ==> 0 < d,
        takes_windows(*correlate, pair, w as int, h as int),
    ensures
        are_scores(*correlate, pair, w as int, h as int, whole(scale), candidates@, scores@),
{
    let mut scores: Vec<Single> = Vec::new();
    for i in 0..candidates.len()
        invariant
            w <= i32::MAX,
            h <= i32::MAX,
            scale matches Some(d) ==> 0 < d,
            takes_windows(*correlate, pair, w as int, h as int),
            scores@.len() == i,
            forall|k: int|
                0 <= k < i ==> is_correlation(
                    *correlate,
                    pair,
                    w as int,
                    h as int,
                    tried(candidates@[k], whole(scale)).0,
                    tried(candidates@[k], whole(scale)).1,
                    #[trigger] scores@[k],
                ),
    {
        let (dx_full, dy_full) = candidates[i];
        let (dx, dy) = match scale {
            Some(d) => (round_ratio(dx_full, d), round_ratio(dy_full, d)),
            None => (dx_full, dy_full),
        };
        scores.push(ncc_content_shift(pair, w, h, dx, dy, correlate));
    }
    scores
}

/// Two alignment images and what may have moved between them.
pub struct Search {
    pub pair: usize,
    pub w: int,
    pub h: int,
    pub scale: int,
    pub mode: PanMode,
    pub limits: ShiftLimits,
}

impl Search {
    /// Whether these are the candidates of the scaled frames and their scores.
    pub open spec fn are_coarse<F: Fn(usize, OverlapWindow) -> Single>(
        &self,
        correlate: F,
        candidates: Seq<(i32, i32)>,
        scores: Seq<Single>,
    ) -> bool {
        &&& lists_in_scan_order(
            candidates,
            20 - self.w,
            self.w - 20,
            20 - self.h,
            self.h - 20,
            |dx: int, dy: int| allowed_when_scaled(self.mode, self.limits, self.scale, dx, dy),
        )
        &&& are_scores(correlate, self.pair, self.w, self.h, None, candidates, scores)
    }

    /// Whether these are the candidates of the full frames around a displacement, and their
    /// scores.
    pub open spec fn are_fine<F: Fn(usize, OverlapWindow) -> Single>(
        &self,
        correlate: F,
        start: Shift,
        candidates: Seq<(i32, i32)>,
        scores: Seq<Single>,
    ) -> bool {
        &&& lists_in_scan_order(
            candidates,
            start.dx - 3 * self.scale,
            start.dx + 3 * self.scale,
            start.dy - 3 * self.scale,
            start.dy + 3 * self.scale,
            |dx: int, dy: int| allowed_in_full(self.mode, self.limits, dx, dy),
        )
        &&& are_scores(
            correlate,
            self.pair,
            self.w,
            self.h,
            Some(self.scale),
            candidates,
            scores,
        )
    }

    /// Whether `start` stands for the first of the best candidates of the scaled frames, with a
    /// score that is finite.
    pub open spec fn is_start(
        &self,
        candidates: Seq<(i32, i32)>,
        scores: Seq<Single>,
        start: Shift,
    ) -> bool {
        exists|k: int|
            {
                &&& is_first_best(scores, k)
                &&& (#[trigger] scores[k]).finite()
                &&& start.score == scores[k]
                &&& start.dx == candidates[k].0 * self.scale
                &&& start.dy == candidates[k].1 * self.scale
            }
    }

    /// Whether `found` is the first of the best candidates of the full frames where one beats
    /// `start`, and `start` itself otherwise.
    pub open spec fn is_refined(
        &self,
        start: Shift,
        candidates: Seq<(i32, i32)>,
        scores: Seq<Single>,
        found: Shift,
    ) -> bool {
        if exists|j: int| 0 <= j < scores.len() && start.score.lt(#[trigger] scores[j]) {
            exists|k: int|
                {
                    &&& is_first_best(scores, k)
                    &&& found.score == #[trigger] scores[k]
                    &&& (found.dx, found.dy) == candidates[k]
                }
        } else {
            found == start
        }
    }

    /// Whether the search finds this displacement: the best one of the scaled frames, refined on
    /// the full ones.
    pub open spec fn finds<F: Fn(usize, OverlapWindow) -> Single>(
        &self,
        correlate: F,
        found: Shift,
    ) -> bool {
        exists|
            coarse: Seq<(i32, i32)>,
            coarse_scores: Seq<Single>,
            start: Shift,
            fine: Seq<(i32, i32)>,
            fine_scores: Seq<Single>,
        |
            {
                &&& #[trigger] self.are_coarse(correlate, coarse, coarse_scores)
                &&& self.is_start(coarse, coarse_scores, start)
                &&& #[trigger] self.are_fine(correlate, start, fine, fine_scores)
                &&& self.is_refined(start, fine, fine_scores, found)
            }
    }

    /// Whether the search finds nothing: no candidate of the scaled frames has a score that is the
    /// best one and finite.
    pub open spec fn fails<F: Fn(usize, OverlapWindow) -> Single>(&self, correlate: F) -> bool {
        exists|coarse: Seq<(i32, i32)>, coarse_scores: Seq<Single>|
            {
                &&& #[trigger] self.are_coarse(correlate, coarse, coarse_scores)
                &&& forall|start: Shift| !self.is_start(coarse, coarse_scores, start)
            }
    }
}

/// The search between two alignment images.
pub open spec fn search(
    pair: usize,
    w: usize,
    h: usize,
    scale: usize,
    mode: PanMode,
    limits: ShiftLimits,
) -> Search {
    Search { pair, w: w as int, h: h as int, scale: scale as int, mode, limits }
}

/// The displacement between two alignment images that were scaled down by `scale`.
pub fn find_pair_shift<F: Fn(usize, OverlapWindow) -> Single>(
    pair: usize,
    a_w: usize,
    a_h: usize,
    b_w: usize,
    b_h: usize,
    scale: usize,
    mode: PanMode,
    limits: ShiftLimits,
    correlate: &F,
) -> (r: Result<Shift, StitchError>)
    requires
        0 < scale <= i32::MAX,
        a_w <= i32::MAX,
        a_h <= i32::MAX,
        a_w * scale <= i32::MAX,
        a_h * scale <= i32::MAX,
        a_w == b_w && a_h == b_h ==> takes_windows(*correlate, pair, a_w as int, a_h as int),
    ensures
        a_w != b_w || a_h != b_h ==> r == Err::<Shift, StitchError>(
            StitchError::AlignmentSizeMismatch,
        ),
        a_w == b_w && a_h == b_h ==> match r {
            Ok(found) => search(pair, a_w, a_h, scale, mode, limits).finds(*correlate, found),
            Err(e) => e == (StitchError::NoValidShift { mode }) && search(
                pair,
                a_w,
                a_h,
                scale,
                mode,
                limits,
            ).fails(*correlate),
        },
{
    let ghost s = search(pair, a_w, a_h, scale, mode, limits);
    let coarse = match coarse_candidates(a_w, a_h, b_w, b_h, scale, mode, limits) {
        Ok(found) => found,
        Err(e) => {
            return Err(e);
        },
    };
    let coarse_scores = score_all(pair, a_w, a_h, None, &coarse, correlate);
    assert(s.are_coarse(*correlate, coarse@, coarse_scores@));
    let best = match choose_coarse(mode, &coarse, &coarse_scores) {
        Ok(best) => best,
        Err(e) => {
            proof {
                assert forall|start: Shift| !s.is_start(coarse@, coarse_scores@, start) by {
                    if s.is_start(coarse@, coarse_scores@, start) {
                        let k = choose|k: int|
                            is_first_best(coarse_scores@, k) && (
                            #[trigger] coarse_scores@[k]).finite();
                        assert(is_first_best(coarse_scores@, k));
                    }
                }
            }
            return Err(e);
        },
    };
    let ghost k = choose|k: int|
        {
            &&& is_first_best(coarse_scores@, k)
            &&& best.score == #[trigger] coarse_scores@[k]
            &&& best.score.finite()
            &&& (best.dx, best.dy) == coarse@[k]
        };
    proof {
        lemma_scaled_range(best.dx as int, a_w as int, scale as int);
        lemma_scaled_range(best.dy as int, a_h as int, scale as int);
    }
    let start = scale_up(best, scale);
    assert(coarse_scores@[k].finite());
    assert(s.is_start(coarse@, coarse_scores@, start));
    let fine = fine_candidates(start.dx, start.dy, scale, mode, limits);
    let fine_scores = score_all(pair, a_w, a_h, Some(scale as u32), &fine, correlate);
    assert(s.are_fine(*correlate, start, fine@, fine_scores@));
    let found = choose_fine(start, &fine, &fine_scores);
    assert(s.is_refined(start, fine@, fine_scores@, found));
    Ok(found)
}

proof fn lemma_scaled_range(d: int, w: int, scale: int)
    requires
        20 - w <= d <= w - 20,
        0 < scale,
        w * scale <= i32::MAX,
    ensures
        i32::MIN <= d * scale - 3 * scale,
        d * scale + 3 * scale <= i32::MAX,
        i32::MIN <= d * scale <= i32::MAX,
{
    assert(-(w * scale) + 20 * scale <= d * scale <= w * scale - 20 * scale) by (nonlinear_arith)
        requires
            20 - w <= d <= w - 20,
            0 < scale,
    ;
}

/// The length of a side of an alignment image.
pub open spec fn scaled_length(length: int, scale: int) -> int {
    if length / scale < 1 {
        1
    } else {
        length / scale
    }
}

/// The length of a side of the alignment image of a frame: its own divided by the scale, and at
/// least one.
pub fn alignment_length(length: u32, scale: usize) -> (r: usize)
    requires
        0 < scale,
        length <= i32::MAX,
    ensures
        r == scaled_length(length as int, scale as int),
        1 <= r <= i32::MAX,
        scale <= i32::MAX ==> r * scale <= i32::MAX,
{
    let n: usize = length as usize / scale;
    proof {
        let l = length as int;
        let s = scale as int;
        assert(0 <= l / s <= l && (l / s) * s <= l) by (nonlinear_arith)
            requires
                l >= 0,
                s > 0,
        ;
    }
    if n < 1 {
        1
    } else {
        n
    }
}

/// The search between a frame and the next one.
pub open spec fn pair_search(
    images: Seq<RgbImage>,
    i: int,
    scale: int,
    mode: PanMode,
    limits: ShiftLimits,
) -> Search {
    Search {
        pair: i as usize,
        w: scaled_length(images[i].w(), scale),
        h: scaled_length(images[i].h(), scale),
        scale,
        mode,
        limits,
    }
}

/// Whether the alignment images of a frame and the next one have the same size.
pub open spec fn alike(images: Seq<RgbImage>, i: int, scale: int) -> bool {
    &&& scaled_length(images[i].w(), scale) == scaled_length(images[i + 1].w(), scale)
    &&& scaled_length(images[i].h(), scale) == scaled_length(images[i + 1].h(), scale)
}

/// Whether `s` is the displacement from a frame to the next one: the one that the search finds,
/// with a small horizontal part dropped.
pub open spec fn is_shift<F: Fn(usize, OverlapWindow) -> Single>(
    correlate: F,
    images: Seq<RgbImage>,
    i: int,
    scale: int,
    mode: PanMode,
    limits: ShiftLimits,
    snap_x: int,
    s: Shift,
) -> bool {
    &&& alike(images, i, scale)
    &&& exists|found: Shift|
        {
            &&& #[trigger] pair_search(images, i, scale, mode, limits).finds(correlate, found)
            &&& s.dx == if absolute(found.dx as int) <= snap_x {
                0
            } else {
                found.dx as int
            }
            &&& s.dy == found.dy
            &&& s.score == found.score
        }
}

/// Whether the search between a frame and the next one ends with this error.
pub open spec fn is_refusal<F: Fn(usize, OverlapWindow) -> Single>(
    correlate: F,
    images: Seq<RgbImage>,
    i: int,
    scale: int,
    mode: PanMode,
    limits: ShiftLimits,
    e: StitchError,
) -> bool {
    if alike(images, i, scale) {
        e == (StitchError::NoValidShift { mode }) && pair_search(
            images,
            i,
            scale,
            mode,
            limits,
        ).fails(correlate)
    } else {
        e == StitchError::AlignmentSizeMismatch
    }
}

/// Whether there is a displacement from a frame to the next one.
pub open spec fn has_shift<F: Fn(usize, OverlapWindow) -> Single>(
    correlate: F,
    images: Seq<RgbImage>,
    i: int,
    scale: int,
    mode: PanMode,
    limits: ShiftLimits,
    snap_x: int,
) -> bool {
    exists|s: Shift| is_shift(correlate, images, i, scale, mode, limits, snap_x, s)
}

/// Where the scale is larger than the frames, their alignment images are single pixels, and there
/// is no displacement to try.
proof fn lemma_nothing_to_try<F: Fn(usize, OverlapWindow) -> Single>(
    correlate: F,
    images: Seq<RgbImage>,
    scale: int,
    mode: PanMode,
    limits: ShiftLimits,
)
    requires
        images.len() > 1,
        i32::MAX < scale,
        forall|i: int|
            0 <= i < images.len() ==> (#[trigger] images[i]).w() <= i32::MAX && images[i].h()
                <= i32::MAX,
    ensures
        is_refusal(correlate, images, 0, scale, mode, limits, StitchError::NoValidShift { mode }),
{
    assert forall|i: int| 0 <= i < images.len() implies (#[trigger] images[i]).w() / scale == 0
        && images[i].h() / scale == 0 by {
        vstd::arithmetic::div_mod::lemma_basic_div(images[i].w(), scale);
        vstd::arithmetic::div_mod::lemma_basic_div(images[i].h(), scale);
    }
    assert(images[0].w() / scale == 0 && images[1].w() / scale == 0);
    let s = pair_search(images, 0, scale, mode, limits);
    assert(s.are_coarse(correlate, Seq::empty(), Seq::empty()));
}

/// The displacements between consecutive frames. The first pair without one ends the search.
pub fn estimate_shifts<F: Fn(usize, OverlapWindow) -> Single>(
    images: &[RgbImage],
    scale: usize,
    mode: PanMode,
    limits: ShiftLimits,
    snap_x: i32,
    correlate: &F,
) -> (r: Result<Vec<Shift>, StitchError>)
    requires
        images@.len() > 0,
        0 < scale,
        forall|i: int|
            0 <= i < images@.len() ==> (#[trigger] images@[i]).w() <= i32::MAX && images@[i].h()
                <= i32::MAX,
        takes_pairs(*correlate, images@, scale as int),
    ensures
        match r {
            Ok(shifts) => {
                &&& shifts@.len() == images@.len() - 1
                &&& forall|i: int|
                    0 <= i < shifts@.len() ==> is_shift(
                        *correlate,
                        images@,
                        i,
                        scale as int,
                        mode,
                        limits,
                        snap_x as int,
                        #[trigger] shifts@[i],
                    )
            },
            Err(e) => exists|i: int|
                0 <= i < images@.len() - 1 && #[trigger] is_refusal(
                    *correlate,
                    images@,
                    i,
                    scale as int,
                    mode,
                    limits,
                    e,
                ) && forall|j: int|
                    0 <= j < i ==> #[trigger] has_shift(
                        *correlate,
                        images@,
                        j,
                        scale as int,
                        mode,
                        limits,
                        snap_x as int,
                    ),
        },
{
    let mut shifts: Vec<Shift> = Vec::new();
    if scale > i32::MAX as usize && images.len() > 1 {
        proof {
            lemma_nothing_to_try(*correlate, images@, scale as int, mode, limits);
        }
        return Err(StitchError::NoValidShift { mode });
    }
    for i in 0..images.len() - 1
        invariant
            images@.len() > 0,
            0 < scale,
            images@.len() > 1 ==> scale <= i32::MAX,
            forall|k: int|
                0 <= k < images@.len() ==> (#[trigger] images@[k]).w() <= i32::MAX
                    && images@[k].h() <= i32::MAX,
            takes_pairs(*correlate, images@, scale as int),
            shifts@.len() == i,
            forall|k: int|
                0 <= k < i ==> is_shift(
                    *correlate,
                    images@,
                    k,
                    scale as int,
                    mode,
                    limits,
                    snap_x as int,
                    #[trigger] shifts@[k],
                ),
    {
        let (w0, h0) = images[i].dimensions();
        let (w1, h1) = images[i + 1].dimensions();
        assert(images@[i + 1].w() <= i32::MAX);
        let a_w: usize = alignment_length(w0, scale);
        let a_h: usize = alignment_length(h0, scale);
        let b_w: usize = alignment_length(w1, scale);
        let b_h: usize = alignment_length(h1, scale);
        assert(alike(images@, i as int, scale as int) <==> a_w == b_w && a_h == b_h);
        match find_pair_shift(i, a_w, a_h, b_w, b_h, scale, mode, limits, correlate) {
            Ok(found) => {
                let s = Shift {
                    dx: snap_shift(found.dx, snap_x),
                    dy: found.dy,
                    score: found.score,
                };
                assert(pair_search(images@, i as int, scale as int, mode, limits).finds(
                    *correlate,
                    found,
                ));
                shifts.push(s);
            },
            Err(e) => {
                assert(is_refusal(
                    *correlate,
                    images@,
                    i as int,
                    scale as int,
                    mode,
                    limits,
                    e,
                ));
                proof {
                    assert forall|j: int| 0 <= j < i implies #[trigger] has_shift(
                        *correlate,
                        images@,
                        j,
                        scale as int,
                        mode,
                        limits,
                        snap_x as int,
                    ) by {
                        assert(is_shift(
                            *correlate,
                            images@,
                            j,
                            scale as int,
                            mode,
                            limits,
                            snap_x as int,
                            shifts@[j],
                        ));
                    }
                }
                return Err(e);
            },
        }
    }
    Ok(shifts)
}

/// Whether a displacement of the frames is at most three scaled pixels from another one.
pub open spec fn within_reach(start: Shift, scale: int, dx: i32, dy: i32) -> bool {
    &&& -3 * scale <= dx - start.dx <= 3 * scale
    &&& -3 * scale <= dy - start.dy <= 3 * scale
}

/// No displacement of the scaled frames that is allowed and can be compared has a higher score than
/// the one that is found.
pub proof fn found_shift_beats_every_scaled_displacement<F: Fn(usize, OverlapWindow) -> Single>(
    s: Search,
    correlate: F,
    value: spec_fn(OverlapWindow) -> Single,
    found: Shift,
    dx: i32,
    dy: i32,
)
    requires
        s.finds(correlate, found),
        forall|win: OverlapWindow, v: Single| #[trigger]
            call_ensures(correlate, (s.pair, win), v) ==> v == value(win),
        20 - s.w <= dx <= s.w - 20,
        20 - s.h <= dy <= s.h - 20,
        allowed_when_scaled(s.mode, s.limits, s.scale, dx as int, dy as int),
        comparable(s.w, s.h, dx as int, dy as int),
    ensures
        !found.score.nan(),
        !found.score.lt(value(window(s.w, s.h, dx as int, dy as int))),
{
    let (coarse, coarse_scores, start, fine, fine_scores) = choose|
        coarse: Seq<(i32, i32)>,
        coarse_scores: Seq<Single>,
        start: Shift,
        fine: Seq<(i32, i32)>,
        fine_scores: Seq<Single>,
    |
        {
            &&& #[trigger] s.are_coarse(correlate, coarse, coarse_scores)
            &&& s.is_start(coarse, coarse_scores, start)
            &&& #[trigger] s.are_fine(correlate, start, fine, fine_scores)
            &&& s.is_refined(start, fine, fine_scores, found)
        };
    assert(coarse.contains((dx, dy)));
    let j = choose|j: int| 0 <= j < coarse.len() && coarse[j] == (dx, dy);
    assert(is_correlation(correlate, s.pair, s.w, s.h, dx as int, dy as int, coarse_scores[j]));
    assert(coarse_scores[j] == value(window(s.w, s.h, dx as int, dy as int)));
    assert(!start.score.lt(coarse_scores[j]) && !start.score.nan());
    if exists|i: int| 0 <= i < fine_scores.len() && start.score.lt(#[trigger] fine_scores[i]) {
        let i = choose|i: int| 0 <= i < fine_scores.len() && start.score.lt(
            #[trigger] fine_scores[i],
        );
        let k = choose|k: int|
            {
                &&& is_first_best(fine_scores, k)
                &&& found.score == #[trigger] fine_scores[k]
                &&& (found.dx, found.dy) == fine[k]
            };
        assert(!fine_scores[k].lt(fine_scores[i]));
    }
}

/// The displacement that is found is the best one of the scaled frames, multiplied by the scale, or
/// an allowed one of the frames around it. None of those around it that can be compared has a
/// higher score.
pub proof fn found_shift_is_refined_around_a_scaled_one<F: Fn(usize, OverlapWindow) -> Single>(
    s: Search,
    correlate: F,
    value: spec_fn(OverlapWindow) -> Single,
    found: Shift,
)
    requires
        s.finds(correlate, found),
        0 < s.scale,
        forall|win: OverlapWindow, v: Single| #[trigger]
            call_ensures(correlate, (s.pair, win), v) ==> v == value(win),
    ensures
        exists|start: Shift|
            {
                &&& start.dx as int % s.scale == 0 && start.dy as int % s.scale == 0
                &&& allowed_when_scaled(
                    s.mode,
                    s.limits,
                    s.scale,
                    start.dx as int / s.scale,
                    start.dy as int / s.scale,
                )
                &&& start.score.finite()
                &&& #[trigger] within_reach(start, s.scale, found.dx, found.dy)
                &&& (found.dx == start.dx && found.dy == start.dy) || allowed_in_full(
                    s.mode,
                    s.limits,
                    found.dx as int,
                    found.dy as int,
                )
                &&& !found.score.lt(start.score)
                &&& forall|dx: i32, dy: i32|
                    {
                        let tx = rounded_ratio(dx as int, s.scale);
                        let ty = rounded_ratio(dy as int, s.scale);
                        #[trigger] within_reach(start, s.scale, dx, dy) && allowed_in_full(
                            s.mode,
                            s.limits,
                            dx as int,
                            dy as int,
                        ) && comparable(s.w, s.h, tx, ty) ==> !found.score.lt(
                            value(window(s.w, s.h, tx, ty)),
                        )
                    }
            },
{
    let (coarse, coarse_scores, start, fine, fine_scores) = choose|
        coarse: Seq<(i32, i32)>,
        coarse_scores: Seq<Single>,
        start: Shift,
        fine: Seq<(i32, i32)>,
        fine_scores: Seq<Single>,
    |
        {
            &&& #[trigger] s.are_coarse(correlate, coarse, coarse_scores)
            &&& s.is_start(coarse, coarse_scores, start)
            &&& #[trigger] s.are_fine(correlate, start, fine, fine_scores)
            &&& s.is_refined(start, fine, fine_scores, found)
        };
    let k = choose|k: int|
        {
            &&& is_first_best(coarse_scores, k)
            &&& (#[trigger] coarse_scores[k]).finite()
            &&& start.score == coarse_scores[k]
            &&& start.dx == coarse[k].0 * s.scale
            &&& start.dy == coarse[k].1 * s.scale
        };
    vstd::arithmetic::div_mod::lemma_div_multiples_vanish(coarse[k].0 as int, s.scale);
    vstd::arithmetic::div_mod::lemma_mod_multiples_basic(coarse[k].0 as int, s.scale);
    vstd::arithmetic::div_mod::lemma_div_multiples_vanish(coarse[k].1 as int, s.scale);
    vstd::arithmetic::div_mod::lemma_mod_multiples_basic(coarse[k].1 as int, s.scale);
    assert(s.scale * coarse[k].0 == coarse[k].0 * s.scale) by (nonlinear_arith);
    assert(s.scale * coarse[k].1 == coarse[k].1 * s.scale) by (nonlinear_arith);
    assert forall|dx: i32, dy: i32|
        #[trigger] within_reach(start, s.scale, dx, dy) && allowed_in_full(
            s.mode,
            s.limits,
            dx as int,
            dy as int,
        ) && comparable(
            s.w,
            s.h,
            rounded_ratio(dx as int, s.scale),
            rounded_ratio(dy as int, s.scale),
        ) implies !found.score.lt(
        value(
            window(
                s.w,
                s.h,
                rounded_ratio(dx as int, s.scale),
                rounded_ratio(dy as int, s.scale),
            ),
        ),
    ) by {
        assert(fine.contains((dx, dy)));
        let j = choose|j: int| 0 <= j < fine.len() && fine[j] == (dx, dy);
        assert(is_correlation(
            correlate,
            s.pair,
            s.w,
            s.h,
            tried(fine[j], Some(s.scale)).0,
            tried(fine[j], Some(s.scale)).1,
            fine_scores[j],
        ));
        if start.score.lt(fine_scores[j]) {
            let m = choose|m: int|
                {
                    &&& is_first_best(fine_scores, m)
                    &&& found.score == #[trigger] fine_scores[m]
                    &&& (found.dx, found.dy) == fine[m]
                };
            assert(!fine_scores[m].lt(fine_scores[j]));
        } else if exists|i: int| 0 <= i < fine_scores.len() && start.score.lt(
            #[trigger] fine_scores[i],
        ) {
            let m = choose|m: int|
                {
                    &&& is_first_best(fine_scores, m)
                    &&& found.score == #[trigger] fine_scores[m]
                    &&& (found.dx, found.dy) == fine[m]
                };
            assert(!fine_scores[m].lt(fine_scores[j]));
        }
    }
    assert(within_reach(start, s.scale, found.dx, found.dy) && !found.score.lt(start.score)) by {
        if exists|i: int| 0 <= i < fine_scores.len() && start.score.lt(#[trigger] fine_scores[i]) {
            let i = choose|i: int| 0 <= i < fine_scores.len() && start.score.lt(
                #[trigger] fine_scores[i],
            );
            let m = choose|m: int|
                {
                    &&& is_first_best(fine_scores, m)
                    &&& found.score == #[trigger] fine_scores[m]
                    &&& (found.dx, found.dy) == fine[m]
                };
            assert(!fine_scores[m].lt(fine_scores[i]));
            assert(start.dx - 3 * s.scale <= fine[m].0 <= start.dx + 3 * s.scale);
        }
    }
    assert(found.dx == start.dx && found.dy == start.dy || allowed_in_full(
        s.mode,
        s.limits,
        found.dx as int,
        found.dy as int,
    ));
}

/// Where a displacement of the scaled frames is allowed, can be compared and has a finite score, and
/// no score is infinitely great, a displacement is found.
pub proof fn finite_score_is_enough<F: Fn(usize, OverlapWindow) -> Single>(
    s: Search,
    correlate: F,
    value: spec_fn(OverlapWindow) -> Single,
    dx: i32,
    dy: i32,
)
    requires
        forall|win: OverlapWindow, v: Single| #[trigger]
            call_ensures(correlate, (s.pair, win), v) ==> v == value(win),
        forall|win: OverlapWindow| (#[trigger] value(win)).bits != 0x7f80_0000,
        20 - s.w <= dx <= s.w - 20,
        20 - s.h <= dy <= s.h - 20,
        allowed_when_scaled(s.mode, s.limits, s.scale, dx as int, dy as int),
        comparable(s.w, s.h, dx as int, dy as int),
        value(window(s.w, s.h, dx as int, dy as int)).finite(),
        0 < s.scale,
        s.w * s.scale <= i32::MAX,
        s.h * s.scale <= i32::MAX,
    ensures
        !s.fails(correlate),
{
    if s.fails(correlate) {
        let (coarse, scores) = choose|coarse: Seq<(i32, i32)>, scores: Seq<Single>|
            {
                &&& #[trigger] s.are_coarse(correlate, coarse, scores)
                &&& forall|start: Shift| !s.is_start(coarse, scores, start)
            };
        assert(coarse.contains((dx, dy)));
        let j = choose|j: int| 0 <= j < coarse.len() && coarse[j] == (dx, dy);
        assert(is_correlation(correlate, s.pair, s.w, s.h, dx as int, dy as int, scores[j]));
        let k = some_candidate_is_best(scores, j);
        assert(!scores[k].lt(scores[j]));
        assert(is_correlation(
            correlate,
            s.pair,
            s.w,
            s.h,
            tried(coarse[k], None).0,
            tried(coarse[k], None).1,
            scores[k],
        ));
        assert(scores[k].finite());
        let a = coarse[k].0 as int;
        let b = coarse[k].1 as int;
        lemma_scaled_range(a, s.w, s.scale);
        lemma_scaled_range(b, s.h, s.scale);
        let start = Shift {
            dx: (a * s.scale) as i32,
            dy: (b * s.scale) as i32,
            score: scores[k],
        };
        assert(s.is_start(coarse, scores, start));
    }
}

/// A shift between frames is the displacement that is found, with a sideways part of at most `snap_x`
/// dropped and every other one kept.
pub proof fn small_sideways_parts_are_dropped<F: Fn(usize, OverlapWindow) -> Single>(
    correlate: F,
    images: Seq<RgbImage>,
    i: int,
    scale: int,
    mode: PanMode,
    limits: ShiftLimits,
    snap_x: int,
    s: Shift,
)
    requires
        is_shift(correlate, images, i, scale, mode, limits, snap_x, s),
    ensures
        s.dx == 0 || s.dx > snap_x || s.dx < -snap_x,
        exists|found: Shift|
            {
                &&& #[trigger] pair_search(images, i, scale, mode, limits).finds(correlate, found)
                &&& s.dy == found.dy
                &&& s.score == found.score
                &&& s.dx == found.dx || (s.dx == 0 && -snap_x <= found.dx <= snap_x)
            },
{
}

/// A side of an alignment image has one pixel for each whole block of `scale` pixels of the frame,
/// and one where there is no whole block.
pub proof fn alignment_sides_count_whole_blocks(length: int, scale: int)
    requires
        0 <= length,
        0 < scale,
    ensures
        ({
            let n = scaled_length(length, scale);
            if length < scale {
                n == 1
            } else {
                n * scale <= length < (n + 1) * scale
            }
        }),
{
    vstd::arithmetic::div_mod::lemma_fundamental_div_mod(length, scale);
    let q = length / scale;
    assert(q * scale == scale * q) by (nonlinear_arith);
    assert((q + 1) * scale == q * scale + scale) by (nonlinear_arith);
    if length < scale {
        vstd::arithmetic::div_mod::lemma_basic_div(length, scale);
    } else {
        assert(q >= 1) by (nonlinear_arith)
            requires
                scale <= length,
                0 < scale,
                q == length / scale,
        ;
    }
}

/// A displacement that leaves too little to compare scores less than any number.
pub proof fn small_overlaps_score_least<F: Fn(usize, OverlapWindow) -> Single>(
    correlate: F,
    pair: usize,
    w: int,
    h: int,
    dx: int,
    dy: int,
    s: Single,
    other: Single,
)
    requires
        is_correlation(correlate, pair, w, h, dx, dy, s),
        w - dx < 40 || w + dx < 40 || h - dy < 40 || h + dy < 40,
        other.finite(),
    ensures
        s.lt(other),
        !s.nan(),
        !s.finite(),
{
}

/// Frames that can be aligned are refused only where no displacement is valid, with the mode of the
/// search; frames whose alignment images differ in size are refused for that.
pub proof fn refusals_tell_the_reason<F: Fn(usize, OverlapWindow) -> Single>(
    correlate: F,
    images: Seq<RgbImage>,
    i: int,
    scale: int,
    mode: PanMode,
    limits: ShiftLimits,
    e: StitchError,
)
    requires
        is_refusal(correlate, images, i, scale, mode, limits, e),
    ensures
        ({
            let same = scaled_length(images[i].w(), scale) == scaled_length(
                images[i + 1].w(),
                scale,
            ) && scaled_length(images[i].h(), scale) == scaled_length(images[i + 1].h(), scale);
            &&& !same ==> e == StitchError::AlignmentSizeMismatch
            &&& same ==> e == (StitchError::NoValidShift { mode }) && pair_search(
                images,
                i,
                scale,
                mode,
                limits,
            ).fails(correlate)
        }),
{
}

} // verus!
