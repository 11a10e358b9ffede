//! The search for the displacement between two frames.
//!
//! The scores of the candidates are computed by the caller. This module says which displacements
//! are tried, in which order, which part of the frames each of them compares, and which one wins.

use vstd::prelude::*;

use crate::error::StitchError;
use crate::geometry::Shift;
use crate::grid::{in_grid, scanned};
use crate::single::Single;

verus! {

/// The directions in which the camera may have panned.
#[derive(Debug, Clone, Copy, PartialEq, Eq, Structural)]
pub enum PanMode {
    Auto,
    Vertical,
    Horizontal,
}

/// How far the content may move in the direction of the pan and across it.
#[derive(Debug, Clone, Copy)]
pub struct ShiftLimits {
    pub min_x: i32,
    pub max_x: i32,
    pub min_y: i32,
    pub max_y: i32,
    pub max_drift_x: i32,
    pub max_drift_y: i32,
}

/// The absolute value.
pub open spec fn absolute(v: int) -> int {
    if v < 0 {
        -v
    } else {
        v
    }
}

/// Whether a displacement is a vertical pan: far enough vertically, not too far, and with little
/// horizontal drift.
pub open spec fn is_vertical(dx: int, dy: int, min_y: int, max_y: int, drift_x: int) -> bool {
    min_y <= absolute(dy) <= max_y && absolute(dx) <= drift_x
}

/// Whether a displacement is a horizontal pan.
pub open spec fn is_horizontal(dx: int, dy: int, min_x: int, max_x: int, drift_y: int) -> bool {
    min_x <= absolute(dx) <= max_x && absolute(dy) <= drift_y
}

/// Whether the mode allows a displacement.
pub open spec fn allowed(
    mode: PanMode,
    dx: int,
    dy: int,
    min_x: int,
    max_x: int,
    min_y: int,
    max_y: int,
    drift_x: int,
    drift_y: int,
) -> bool {
    match mode {
        PanMode::Auto => is_vertical(dx, dy, min_y, max_y, drift_x) || is_horizontal(
            dx,
            dy,
            min_x,
            max_x,
            drift_y,
        ),
        PanMode::Vertical => is_vertical(dx, dy, min_y, max_y, drift_x),
        PanMode::Horizontal => is_horizontal(dx, dy, min_x, max_x, drift_y),
    }
}

fn abs_i64(v: i64) -> (r: i64)
    requires
        v > i64::MIN,
    ensures
        r == absolute(v as int),
{
    if v < 0 {
        -v
    } else {
        v
    }
}

fn is_allowed(
    mode: PanMode,
    dx: i64,
    dy: i64,
    min_x: i64,
    max_x: i64,
    min_y: i64,
    max_y: i64,
    drift_x: i64,
    drift_y: i64,
) -> (r: bool)
    requires
        dx > i64::MIN,
        dy > i64::MIN,
    ensures
        r == allowed(
            mode,
            dx as int,
            dy as int,
            min_x as int,
            max_x as int,
            min_y as int,
            max_y as int,
            drift_x as int,
            drift_y as int,
        ),
{
    let ax: i64 = abs_i64(dx);
    let ay: i64 = abs_i64(dy);
    let vertical = ay >= min_y && ay <= max_y && ax <= drift_x;
    let horizontal = ax >= min_x && ax <= max_x && ay <= drift_y;
    match mode {
        PanMode::Auto => vertical || horizontal,
        PanMode::Vertical => vertical,
        PanMode::Horizontal => horizontal,
    }
}

/// Whether the mode allows a displacement of the scaled frames.
pub fn candidate_allowed_scaled(
    mode: PanMode,
    dx: i32,
    dy: i32,
    min_sx: i32,
    max_sx: i32,
    min_sy: i32,
    max_sy: i32,
    drift_sx: i32,
    drift_sy: i32,
) -> (r: bool)
    ensures
        r == allowed(
            mode,
            dx as int,
            dy as int,
            min_sx as int,
            max_sx as int,
            min_sy as int,
            max_sy as int,
            drift_sx as int,
            drift_sy as int,
        ),
{
    is_allowed(
        mode,
        dx as i64,
        dy as i64,
        min_sx as i64,
        max_sx as i64,
        min_sy as i64,
        max_sy as i64,
        drift_sx as i64,
        drift_sy as i64,
    )
}

/// Whether the mode allows a displacement of the full frames.
pub fn candidate_allowed_full(
    mode: PanMode,
    dx: i32,
    dy: i32,
    min_x: i32,
    max_x: i32,
    min_y: i32,
    max_y: i32,
    max_drift_x: i32,
    max_drift_y: i32,
) -> (r: bool)
    ensures
        r == allowed(
            mode,
            dx as int,
            dy as int,
            min_x as int,
            max_x as int,
            min_y as int,
            max_y as int,
            max_drift_x as int,
            max_drift_y as int,
        ),
{
    is_allowed(
        mode,
        dx as i64,
        dy as i64,
        min_x as i64,
        max_x as i64,
        min_y as i64,
        max_y as i64,
        max_drift_x as i64,
        max_drift_y as i64,
    )
}

/// The automatic mode allows exactly what one of the two others allows.
pub proof fn auto_mode_joins_the_other_modes(
    dx: int,
    dy: int,
    min_x: int,
    max_x: int,
    min_y: int,
    max_y: int,
    drift_x: int,
    drift_y: int,
)
    ensures
        allowed(PanMode::Auto, dx, dy, min_x, max_x, min_y, max_y, drift_x, drift_y) == (allowed(
            PanMode::Vertical,
            dx,
            dy,
            min_x,
            max_x,
            min_y,
            max_y,
            drift_x,
            drift_y,
        ) || allowed(
            PanMode::Horizontal,
            dx,
            dy,
            min_x,
            max_x,
            min_y,
            max_y,
            drift_x,
            drift_y,
        )),
{
}

/// Every mode treats a pan and its reverse alike.
pub proof fn reverse_pans_are_allowed_alike(
    mode: PanMode,
    dx: int,
    dy: int,
    min_x: int,
    max_x: int,
    min_y: int,
    max_y: int,
    drift_x: int,
    drift_y: int,
)
    ensures
        allowed(mode, dx, dy, min_x, max_x, min_y, max_y, drift_x, drift_y) == allowed(
            mode,
            -dx,
            -dy,
            min_x,
            max_x,
            min_y,
            max_y,
            drift_x,
            drift_y,
        ),
{
}

/// Whether `found` lists exactly the displacements of the box that satisfy `wanted`, row by row.
pub open spec fn lists_in_scan_order(
    found: Seq<(i32, i32)>,
    x_lo: int,
    x_hi: int,
    y_lo: int,
    y_hi: int,
    wanted: spec_fn(int, int) -> bool,
) -> bool {
    &&& forall|k: int|
        0 <= k < found.len() ==> x_lo <= (#[trigger] found[k]).0 <= x_hi && y_lo <= found[k].1
            <= y_hi && wanted(found[k].0 as int, found[k].1 as int)
    &&& forall|a: int, b: int|
        0 <= a < b < found.len() ==> scanned(
            (#[trigger] found[a]).0 as int,
            found[a].1 as int,
            (#[trigger] found[b]).0 as int,
            found[b].1 as int,
        )
    &&& forall|dx: i32, dy: i32|
        x_lo <= dx <= x_hi && y_lo <= dy <= y_hi && wanted(dx as int, dy as int)
            ==> #[trigger] found.contains((dx, dy))
}

/// Two lists of the same displacements in scan order are equal.
pub proof fn scan_order_is_unique(
    a: Seq<(i32, i32)>,
    b: Seq<(i32, i32)>,
    x_lo: int,
    x_hi: int,
    y_lo: int,
    y_hi: int,
    wanted: spec_fn(int, int) -> bool,
)
    requires
        lists_in_scan_order(a, x_lo, x_hi, y_lo, y_hi, wanted),
        lists_in_scan_order(b, x_lo, x_hi, y_lo, y_hi, wanted),
    ensures
        a == b,
{
    lemma_scan_prefix(a, b, x_lo, x_hi, y_lo, y_hi, wanted, a.len());
    lemma_scan_prefix(b, a, x_lo, x_hi, y_lo, y_hi, wanted, b.len());
    assert(a =~= b);
}

proof fn lemma_scan_prefix(
    a: Seq<(i32, i32)>,
    b: Seq<(i32, i32)>,
    x_lo: int,
    x_hi: int,
    y_lo: int,
    y_hi: int,
    wanted: spec_fn(int, int) -> bool,
    n: nat,
)
    requires
        lists_in_scan_order(a, x_lo, x_hi, y_lo, y_hi, wanted),
        lists_in_scan_order(b, x_lo, x_hi, y_lo, y_hi, wanted),
        n <= a.len(),
    ensures
        n <= b.len(),
        forall|k: int| 0 <= k < n ==> a[k] == b[k],
    decreases n,
{
    if n > 0 {
        let m = (n - 1) as nat;
        lemma_scan_prefix(a, b, x_lo, x_hi, y_lo, y_hi, wanted, m);
        let v = a[m as int];
        assert(b.contains((v.0, v.1)));
        let j = choose|j: int| 0 <= j < b.len() && b[j] == v;
        // `v` cannot stand earlier in `b`, where it would repeat an element of `a`
        if j < m {
            assert(a[j] == v);
        }
        let u = b[m as int];
        assert(a.contains((u.0, u.1)));
        let i = choose|i: int| 0 <= i < a.len() && a[i] == u;
        if i < m {
            assert(b[i] == u);
            assert(scanned(b[i].0 as int, b[i].1 as int, u.0 as int, u.1 as int));
        }
        if i > m && j > m {
            assert(scanned(a[m as int].0 as int, a[m as int].1 as int, a[i].0 as int, a[i].1 as int));
            assert(scanned(b[m as int].0 as int, b[m as int].1 as int, b[j].0 as int, b[j].1 as int));
        }
    }
}

/// The displacements of a box that the mode allows, row by row.
#[verifier::loop_isolation(false)]
fn scan_candidates(
    mode: PanMode,
    x_lo: i64,
    x_hi: i64,
    y_lo: i64,
    y_hi: i64,
    min_x: i64,
    max_x: i64,
    min_y: i64,
    max_y: i64,
    drift_x: i64,
    drift_y: i64,
) -> (found: Vec<(i32, i32)>)
    requires
        i32::MIN <= x_lo,
        x_hi <= i32::MAX,
        i32::MIN <= y_lo,
        y_hi <= i32::MAX,
        x_lo <= i32::MAX,
        y_lo <= i32::MAX,
    ensures
        lists_in_scan_order(
            found@,
            x_lo as int,
            x_hi as int,
            y_lo as int,
            y_hi as int,
            |dx: int, dy: int|
                allowed(
                    mode,
                    dx,
                    dy,
                    min_x as int,
                    max_x as int,
                    min_y as int,
                    max_y as int,
                    drift_x as int,
                    drift_y as int,
                ),
        ),
{
    let ghost wanted = |dx: int, dy: int|
        allowed(
            mode,
            dx,
            dy,
            min_x as int,
            max_x as int,
            min_y as int,
            max_y as int,
            drift_x as int,
            drift_y as int,
        );
    let mut found: Vec<(i32, i32)> = Vec::new();
    let mut dy: i64 = y_lo;
    while dy <= y_hi
        invariant
            y_lo <= dy <= i32::MAX + 1,
            forall|k: int|
                0 <= k < found@.len() ==> x_lo <= (#[trigger] found@[k]).0 <= x_hi && y_lo
                    <= found@[k].1 < dy && found@[k].1 <= y_hi && wanted(
                    found@[k].0 as int,
                    found@[k].1 as int,
                ),
            forall|a: int, b: int|
                0 <= a < b < found@.len() ==> scanned(
                    (#[trigger] found@[a]).0 as int,
                    found@[a].1 as int,
                    (#[trigger] found@[b]).0 as int,
                    found@[b].1 as int,
                ),
            forall|i: i32, j: i32|
                x_lo <= i <= x_hi && y_lo <= j < dy && wanted(i as int, j as int)
                    ==> #[trigger] found@.contains((i, j)),
        decreases y_hi + 1 - dy,
    {
        let mut dx: i64 = x_lo;
        while dx <= x_hi
            invariant
                x_lo <= dx <= i32::MAX + 1,
                y_lo <= dy <= y_hi,
                forall|k: int|
                    0 <= k < found@.len() ==> x_lo <= (#[trigger] found@[k]).0 <= x_hi && y_lo
                        <= found@[k].1 <= dy && scanned(
                        found@[k].0 as int,
                        found@[k].1 as int,
                        dx as int,
                        dy as int,
                    ) && wanted(found@[k].0 as int, found@[k].1 as int),
                forall|a: int, b: int|
                    0 <= a < b < found@.len() ==> scanned(
                        (#[trigger] found@[a]).0 as int,
                        found@[a].1 as int,
                        (#[trigger] found@[b]).0 as int,
                        found@[b].1 as int,
                    ),
                forall|i: i32, j: i32|
                    x_lo <= i <= x_hi && y_lo <= j && scanned(
                        i as int,
                        j as int,
                        dx as int,
                        dy as int,
                    ) && wanted(i as int, j as int) ==> #[trigger] found@.contains((i, j)),
            decreases x_hi + 1 - dx,
        {
            let ghost before = found@;
            if is_allowed(mode, dx, dy, min_x, max_x, min_y, max_y, drift_x, drift_y) {
                found.push((dx as i32, dy as i32));
                assert(found@[before.len() as int] == (dx as i32, dy as i32));
                assert(found@.contains((dx as i32, dy as i32)));
            }
            assert forall|i: i32, j: i32|
                x_lo <= i <= x_hi && y_lo <= j && scanned(i as int, j as int, dx + 1, dy as int)
                    && wanted(i as int, j as int) implies #[trigger] found@.contains((i, j)) by {
                if i == dx && j == dy {
                } else {
                    assert(before.contains((i, j)));
                    let k = choose|k: int| 0 <= k < before.len() && before[k] == (i, j);
                    assert(found@[k] == (i, j));
                }
            }
            dx = dx + 1;
        }
        assert forall|i: i32, j: i32|
            x_lo <= i <= x_hi && y_lo <= j < dy + 1 && wanted(i as int, j as int)
            implies #[trigger] found@.contains((i, j)) by {
            assert(scanned(i as int, j as int, dx as int, dy as int));
        }
        dy = dy + 1;
    }
    found
}

/// A limit of the full frames, in pixels of the scaled ones.
pub open spec fn scaled_limit(limit: int, scale: int) -> int {
    if limit <= 0 {
        0
    } else {
        limit / scale
    }
}

/// The larger of two numbers.
pub open spec fn larger_of(a: int, b: int) -> int {
    if a < b {
        b
    } else {
        a
    }
}

/// Whether the mode allows a displacement of frames that were scaled down. The least distance is
/// at least one pixel, and the greatest distance is larger than the least one.
pub open spec fn allowed_when_scaled(
    mode: PanMode,
    limits: ShiftLimits,
    scale: int,
    dx: int,
    dy: int,
) -> bool {
    let min_x = larger_of(1, scaled_limit(limits.min_x as int, scale));
    let min_y = larger_of(1, scaled_limit(limits.min_y as int, scale));
    allowed(
        mode,
        dx,
        dy,
        min_x,
        larger_of(min_x + 1, scaled_limit(limits.max_x as int, scale)),
        min_y,
        larger_of(min_y + 1, scaled_limit(limits.max_y as int, scale)),
        scaled_limit(limits.max_drift_x as int, scale),
        scaled_limit(limits.max_drift_y as int, scale),
    )
}

/// Whether the mode allows a displacement of the full frames.
pub open spec fn allowed_in_full(mode: PanMode, limits: ShiftLimits, dx: int, dy: int) -> bool {
    allowed(
        mode,
        dx,
        dy,
        limits.min_x as int,
        limits.max_x as int,
        limits.min_y as int,
        limits.max_y as int,
        limits.max_drift_x as int,
        limits.max_drift_y as int,
    )
}

fn scale_down(limit: i32, scale: i64) -> (r: i64)
    requires
        scale > 0,
    ensures
        r == scaled_limit(limit as int, scale as int),
        0 <= r <= i32::MAX,
{
    if limit <= 0 {
        0
    } else {
        proof {
            assert(0 <= (limit as int) / (scale as int) <= limit) by (nonlinear_arith)
                requires
                    limit > 0,
                    scale > 0,
            ;
        }
        limit as i64 / scale
    }
}

/// The displacements to try between two alignment images of the given sizes, row by row. They
/// leave at least twenty rows and columns of overlap.
pub fn coarse_candidates(
    a_w: usize,
    a_h: usize,
    b_w: usize,
    b_h: usize,
    scale: usize,
    mode: PanMode,
    limits: ShiftLimits,
) -> (r: Result<Vec<(i32, i32)>, StitchError>)
    requires
        0 < scale <= i32::MAX,
        a_w <= i32::MAX,
        a_h <= i32::MAX,
    ensures
        r is Err <==> a_w != b_w || a_h != b_h,
        r matches Err(e) ==> e == StitchError::AlignmentSizeMismatch,
        r matches Ok(found) ==> lists_in_scan_order(
            found@,
            20 - a_w,
            a_w - 20,
            20 - a_h,
            a_h - 20,
            |dx: int, dy: int| allowed_when_scaled(mode, limits, scale as int, dx, dy),
        ),
{
    if a_w != b_w || a_h != b_h {
        return Err(StitchError::AlignmentSizeMismatch);
    }
    let s: i64 = scale as i64;
    let min_x: i64 = scale_down(limits.min_x, s);
    let min_x: i64 = if min_x < 1 {
        1
    } else {
        min_x
    };
    let min_y: i64 = scale_down(limits.min_y, s);
    let min_y: i64 = if min_y < 1 {
        1
    } else {
        min_y
    };
    let max_x: i64 = scale_down(limits.max_x, s);
    let max_x: i64 = if max_x < min_x + 1 {
        min_x + 1
    } else {
        max_x
    };
    let max_y: i64 = scale_down(limits.max_y, s);
    let max_y: i64 = if max_y < min_y + 1 {
        min_y + 1
    } else {
        max_y
    };
    let drift_x: i64 = scale_down(limits.max_drift_x, s);
    let drift_y: i64 = scale_down(limits.max_drift_y, s);
    let reach_x: i64 = a_w as i64 - 20;
    let reach_y: i64 = a_h as i64 - 20;
    let found = scan_candidates(
        mode,
        -reach_x,
        reach_x,
        -reach_y,
        reach_y,
        min_x,
        max_x,
        min_y,
        max_y,
        drift_x,
        drift_y,
    );
    Ok(found)
}

/// The displacements to try around the best one of the scaled frames, row by row: up to three
/// pixels of the scaled frames away in each direction.
pub fn fine_candidates(
    best_dx: i32,
    best_dy: i32,
    scale: usize,
    mode: PanMode,
    limits: ShiftLimits,
) -> (found: Vec<(i32, i32)>)
    requires
        0 < scale <= i32::MAX,
        i32::MIN <= best_dx - 3 * scale,
        best_dx + 3 * scale <= i32::MAX,
        i32::MIN <= best_dy - 3 * scale,
        best_dy + 3 * scale <= i32::MAX,
    ensures
        lists_in_scan_order(
            found@,
            best_dx - 3 * scale,
            best_dx + 3 * scale,
            best_dy - 3 * scale,
            best_dy + 3 * scale,
            |dx: int, dy: int| allowed_in_full(mode, limits, dx, dy),
        ),
{
    let r: i64 = 3 * scale as i64;
    scan_candidates(
        mode,
        best_dx as i64 - r,
        best_dx as i64 + r,
        best_dy as i64 - r,
        best_dy as i64 + r,
        limits.min_x as i64,
        limits.max_x as i64,
        limits.min_y as i64,
        limits.max_y as i64,
        limits.max_drift_x as i64,
        limits.max_drift_y as i64,
    )
}

/// Whether `k` is the first of the best scores.
pub open spec fn is_first_best(scores: Seq<Single>, k: int) -> bool {
    &&& 0 <= k < scores.len()
    &&& !scores[k].nan()
    &&& forall|j: int| 0 <= j < scores.len() ==> !scores[k].lt(#[trigger] scores[j])
    &&& forall|j: int| 0 <= j < k ==> !scores[k].le(#[trigger] scores[j])
}

/// The first of the best scores, if it is above the floor.
pub fn first_best_above(scores: &[Single], floor: Single) -> (best: Option<usize>)
    requires
        !floor.nan(),
    ensures
        best is None <==> forall|j: int| 0 <= j < scores@.len() ==> !floor.lt(#[trigger] scores@[j]),
        best matches Some(k) ==> is_first_best(scores@, k as int) && floor.lt(scores@[k as int]),
{
    let mut best: Option<usize> = None;
    let mut top = floor;
    for i in 0..scores.len()
        invariant
            !top.nan(),
            best is None ==> top == floor,
            best matches Some(k) ==> k < i && top == scores@[k as int] && floor.lt(top) && forall|
                j: int,
            |
                0 <= j < k ==> !top.le(#[trigger] scores@[j]),
            forall|j: int| 0 <= j < i ==> !top.lt(#[trigger] scores@[j]),
    {
        if top.is_below(scores[i]) {
            top = scores[i];
            best = Some(i);
        }
    }
    best
}

/// The winning displacement of the scaled frames, and its score. There is none where no score is
/// above negative infinity, or where the best score is infinite.
pub fn choose_coarse(mode: PanMode, candidates: &[(i32, i32)], scores: &[Single]) -> (r: Result<
    Shift,
    StitchError,
>)
    requires
        candidates@.len() == scores@.len(),
    ensures
        r is Ok <==> exists|k: int|
            is_first_best(scores@, k) && (#[trigger] scores@[k]).finite(),
        r matches Err(e) ==> e == (StitchError::NoValidShift { mode }),
        r matches Ok(s) ==> exists|k: int|
            {
                &&& is_first_best(scores@, k)
                &&& s.score == #[trigger] scores@[k]
                &&& s.score.finite()
                &&& (s.dx, s.dy) == candidates@[k]
            },
{
    let best = first_best_above(scores, Single::neg_infinity());
    match best {
        Some(k) => {
            if scores[k].is_finite() {
                let (dx, dy) = candidates[k];
                Ok(Shift { dx, dy, score: scores[k] })
            } else {
                proof {
                    assert forall|j: int| is_first_best(scores@, j) implies !(
                    #[trigger] scores@[j]).finite() by {
                        assert(!scores@[j].lt(scores@[k as int]));
                    }
                }
                Err(StitchError::NoValidShift { mode })
            }
        },
        None => {
            proof {
                assert forall|j: int| is_first_best(scores@, j) implies !(
                #[trigger] scores@[j]).finite() by {
                    assert(!(Single { bits: 0xff80_0000 }).lt(scores@[j]));
                }
            }
            Err(StitchError::NoValidShift { mode })
        },
    }
}

/// The displacement of the full frames that a displacement of the scaled ones stands for.
pub fn scale_up(coarse: Shift, scale: usize) -> (full: Shift)
    requires
        i32::MIN <= coarse.dx * scale <= i32::MAX,
        i32::MIN <= coarse.dy * scale <= i32::MAX,
        scale <= i32::MAX,
    ensures
        full == (Shift {
            dx: (coarse.dx * scale) as i32,
            dy: (coarse.dy * scale) as i32,
            score: coarse.score,
        }),
{
    Shift {
        dx: coarse.dx * scale as i32,
        dy: coarse.dy * scale as i32,
        score: coarse.score,
    }
}

/// The winning displacement of the full frames: the first of the best candidates where it beats
/// the displacement it refines, and that displacement otherwise.
pub fn choose_fine(start: Shift, candidates: &[(i32, i32)], scores: &[Single]) -> (s: Shift)
    requires
        candidates@.len() == scores@.len(),
        !start.score.nan(),
    ensures
        (forall|j: int| 0 <= j < scores@.len() ==> !start.score.lt(#[trigger] scores@[j])) ==> s
            == start,
        !(forall|j: int| 0 <= j < scores@.len() ==> !start.score.lt(#[trigger] scores@[j]))
            ==> exists|k: int|
            {
                &&& is_first_best(scores@, k)
                &&& s.score == #[trigger] scores@[k]
                &&& (s.dx, s.dy) == candidates@[k]
            },
{
    match first_best_above(scores, start.score) {
        Some(k) => {
            let (dx, dy) = candidates[k];
            Shift { dx, dy, score: scores[k] }
        },
        None => start,
    }
}

/// Only one candidate can be the first of the best.
pub proof fn first_best_is_unique(scores: Seq<Single>, i: int, j: int)
    requires
        is_first_best(scores, i),
        is_first_best(scores, j),
    ensures
        i == j,
{
    if i < j {
        assert(!scores[j].le(scores[i]));
        assert(!scores[i].lt(scores[j]));
    } else if j < i {
        assert(!scores[i].le(scores[j]));
        assert(!scores[j].lt(scores[i]));
    }
}

/// A horizontal displacement, or none where it is within the tolerance.
pub fn snap_shift(dx: i32, snap: i32) -> (r: i32)
    ensures
        r == if absolute(dx as int) <= snap {
            0
        } else {
            dx as int
        },
{
    if abs_i64(dx as i64) <= snap as i64 {
        0
    } else {
        dx
    }
}

/// The parts of two images that show the same content under a displacement.
#[derive(Debug, Clone, Copy)]
pub struct OverlapWindow {
    /// The corner of the part of the first image.
    pub ax: usize,
    pub ay: usize,
    /// The corner of the part of the second image.
    pub bx: usize,
    pub by: usize,
    pub width: usize,
    pub height: usize,
}

/// Whether two images of size `w` by `h` overlap enough under a displacement to be compared: they
/// are displaced at all, by less than their size less ten pixels, and share at least forty columns
/// and forty rows.
pub open spec fn comparable(w: int, h: int, dx: int, dy: int) -> bool {
    &&& absolute(dx) < w - 10
    &&& absolute(dy) < h - 10
    &&& !(dx == 0 && dy == 0)
    &&& w - absolute(dx) >= 40
    &&& h - absolute(dy) >= 40
}

/// The parts of two images of size `w` by `h` that show the same content under a displacement.
pub open spec fn window(w: int, h: int, dx: int, dy: int) -> OverlapWindow {
    OverlapWindow {
        ax: larger_of(0, -dx) as usize,
        ay: larger_of(0, -dy) as usize,
        bx: larger_of(0, dx) as usize,
        by: larger_of(0, dy) as usize,
        width: (w - absolute(dx)) as usize,
        height: (h - absolute(dy)) as usize,
    }
}

/// A pixel of the first image lies in the window exactly where its displaced twin is a pixel of the
/// second one, and the twin stands at the same place of the window.
pub proof fn window_holds_the_shared_pixels(w: int, h: int, dx: int, dy: int, x: int, y: int)
    requires
        comparable(w, h, dx, dy),
        w <= i32::MAX,
        h <= i32::MAX,
    ensures
        ({
            let win = window(w, h, dx, dy);
            &&& win.bx == win.ax + dx
            &&& win.by == win.ay + dy
            &&& (win.ax <= x < win.ax + win.width && win.ay <= y < win.ay + win.height) <==> (
            in_grid(w, h, x, y) && in_grid(w, h, x + dx, y + dy))
        }),
{
}

/// The parts of two images of the same size to compare under a displacement.
pub fn overlap_window(w: usize, h: usize, dx: i32, dy: i32) -> (r: Option<OverlapWindow>)
    requires
        w <= i32::MAX,
        h <= i32::MAX,
    ensures
        r == if comparable(w as int, h as int, dx as int, dy as int) {
            Some(window(w as int, h as int, dx as int, dy as int))
        } else {
            None
        },
{
    let wi: i64 = w as i64;
    let hi: i64 = h as i64;
    let dxi: i64 = dx as i64;
    let dyi: i64 = dy as i64;
    if abs_i64(dxi) >= wi - 10 || abs_i64(dyi) >= hi - 10 || (dx == 0 && dy == 0) {
        return None;
    }
    let ax0: i64 = if dxi < 0 {
        -dxi
    } else {
        0
    };
    let ay0: i64 = if dyi < 0 {
        -dyi
    } else {
        0
    };
    let ax1: i64 = if dxi < 0 {
        wi
    } else {
        wi - dxi
    };
    let ay1: i64 = if dyi < 0 {
        hi
    } else {
        hi - dyi
    };
    let ow: i64 = ax1 - ax0;
    let oh: i64 = ay1 - ay0;
    if ow < 40 || oh < 40 {
        return None;
    }
    Some(
        OverlapWindow {
            ax: ax0 as usize,
            ay: ay0 as usize,
            bx: (ax0 + dxi) as usize,
            by: (ay0 + dyi) as usize,
            width: ow as usize,
            height: oh as usize,
        },
    )
}

/// Whether a coordinate of a side lies on the side after a displacement too.
pub open spec fn stays_on_side(length: int, d: int, x: int) -> bool {
    0 <= x < length && 0 <= x + d < length
}

/// Two images are compared under a displacement exactly if it is one, it is shorter than each side
/// less ten, and the pixels that both images share make up at least forty columns and forty rows. A
/// displacement and its reverse are compared alike.
pub proof fn comparison_needs_forty_shared_rows_and_columns(w: int, h: int, dx: int, dy: int)
    ensures
        comparable(w, h, dx, dy) <==> {
            &&& dx != 0 || dy != 0
            &&& 10 - w < dx < w - 10
            &&& 10 - h < dy < h - 10
            &&& exists|x: int| #[trigger] stays_on_side(w, dx, x) && stays_on_side(w, dx, x + 39)
            &&& exists|y: int| #[trigger] stays_on_side(h, dy, y) && stays_on_side(h, dy, y + 39)
        },
        comparable(w, h, dx, dy) == comparable(w, h, -dx, -dy),
        comparable(w, h, dx, dy) == comparable(w, h, dx, -dy),
        comparable(w, h, dx, dy) == comparable(h, w, dy, dx),
{
    let a = if dx < 0 {
        -dx
    } else {
        0
    };
    let b = if dy < 0 {
        -dy
    } else {
        0
    };
    if comparable(w, h, dx, dy) {
        assert(stays_on_side(w, dx, a) && stays_on_side(w, dx, a + 39));
        assert(stays_on_side(h, dy, b) && stays_on_side(h, dy, b + 39));
    }
}

/// Which displacements of the frames are allowed: a vertical pan moves by its least to its greatest
/// amount up or down and drifts sideways no further than it may, and a horizontal one likewise with
/// the directions exchanged.
pub proof fn allowed_pans_move_far_and_drift_little(limits: ShiftLimits, dx: int, dy: int)
    ensures
        allowed_in_full(PanMode::Vertical, limits, dx, dy) <==> {
            &&& limits.min_y <= dy || limits.min_y <= -dy
            &&& -limits.max_y <= dy <= limits.max_y
            &&& -limits.max_drift_x <= dx <= limits.max_drift_x
        },
        allowed_in_full(PanMode::Horizontal, limits, dx, dy) <==> {
            &&& limits.min_x <= dx || limits.min_x <= -dx
            &&& -limits.max_x <= dx <= limits.max_x
            &&& -limits.max_drift_y <= dy <= limits.max_drift_y
        },
        allowed_in_full(PanMode::Auto, limits, dx, dy) <==> allowed_in_full(
            PanMode::Vertical,
            limits,
            dx,
            dy,
        ) || allowed_in_full(PanMode::Horizontal, limits, dx, dy),
{
}

/// Which displacements `d` along a pan and `e` across it are allowed in scaled pixels: at least one
/// pixel and no less than the least amount reaches into, no more than the greatest amount holds or
/// one more than the least, and no more drift than there may be.
pub open spec fn moves_in_scaled_pixels(
    d: int,
    e: int,
    scale: int,
    least: int,
    greatest: int,
    drift: int,
) -> bool {
    let far = if d < 0 {
        -d
    } else {
        d
    };
    let aside = if e < 0 {
        -e
    } else {
        e
    };
    &&& far >= 1
    &&& least < (far + 1) * scale
    &&& far * scale <= greatest || far <= 2 || (far - 1) * scale <= least
    &&& aside == 0 || aside * scale <= drift
}

/// The limits of a displacement hold for scaled frames too, in whole scaled pixels.
pub proof fn scaled_limits_are_the_limits_in_scaled_pixels(
    limits: ShiftLimits,
    scale: int,
    dx: int,
    dy: int,
)
    requires
        0 < scale,
    ensures
        allowed_when_scaled(PanMode::Vertical, limits, scale, dx, dy) <==> moves_in_scaled_pixels(
            dy,
            dx,
            scale,
            limits.min_y as int,
            limits.max_y as int,
            limits.max_drift_x as int,
        ),
        allowed_when_scaled(PanMode::Horizontal, limits, scale, dx, dy) <==> moves_in_scaled_pixels(
            dx,
            dy,
            scale,
            limits.min_x as int,
            limits.max_x as int,
            limits.max_drift_y as int,
        ),
        allowed_when_scaled(PanMode::Auto, limits, scale, dx, dy) <==> allowed_when_scaled(
            PanMode::Vertical,
            limits,
            scale,
            dx,
            dy,
        ) || allowed_when_scaled(PanMode::Horizontal, limits, scale, dx, dy),
{
    let ax = absolute(dx);
    let ay = absolute(dy);
    lemma_scaled_limit(limits.min_y as int, scale, ay);
    lemma_scaled_limit(limits.min_y as int, scale, ay - 1);
    lemma_scaled_limit(limits.max_y as int, scale, ay);
    lemma_scaled_limit(limits.max_drift_x as int, scale, ax);
    lemma_scaled_limit(limits.min_x as int, scale, ax);
    lemma_scaled_limit(limits.min_x as int, scale, ax - 1);
    lemma_scaled_limit(limits.max_x as int, scale, ax);
    lemma_scaled_limit(limits.max_drift_y as int, scale, ay);
}

proof fn lemma_scaled_limit(limit: int, scale: int, n: int)
    requires
        0 < scale,
        -1 <= n,
    ensures
        0 < n ==> (n <= scaled_limit(limit, scale) <==> n * scale <= limit),
        0 <= n ==> (scaled_limit(limit, scale) <= n <==> limit < (n + 1) * scale),
        0 <= scaled_limit(limit, scale),
{
    if 0 <= n {
        assert(0 < (n + 1) * scale) by (nonlinear_arith)
            requires
                0 <= n,
                0 < scale,
        ;
    }
    if 0 < n {
        assert(0 < n * scale) by (nonlinear_arith)
            requires
                0 < n,
                0 < scale,
        ;
    }
    if limit > 0 {
        let q = limit / scale;
        vstd::arithmetic::div_mod::lemma_fundamental_div_mod(limit, scale);
        assert(q * scale == scale * q) by (nonlinear_arith);
        if n <= q {
            assert(n * scale <= q * scale) by (nonlinear_arith)
                requires
                    n <= q,
                    0 < scale,
            ;
        } else {
            assert((q + 1) * scale <= n * scale) by (nonlinear_arith)
                requires
                    q + 1 <= n,
                    0 < scale,
            ;
            assert((q + 1) * scale == q * scale + scale) by (nonlinear_arith);
        }
        if q <= n {
            assert((q + 1) * scale <= (n + 1) * scale) by (nonlinear_arith)
                requires
                    q <= n,
                    0 < scale,
            ;
            assert((q + 1) * scale == q * scale + scale) by (nonlinear_arith);
        } else {
            assert((n + 1) * scale <= q * scale) by (nonlinear_arith)
                requires
                    n + 1 <= q,
                    0 < scale,
            ;
        }
        assert(0 <= q) by (nonlinear_arith)
            requires
                q == limit / scale,
                limit > 0,
                scale > 0,
        ;
    }
}

/// What makes a candidate the best one: its score is a number, no score is greater, and every
/// earlier one is smaller or no number.
pub proof fn best_candidate_is_the_first_of_the_greatest(scores: Seq<Single>, k: int, j: int)
    requires
        is_first_best(scores, k),
        0 <= j < scores.len(),
        !scores[j].nan(),
    ensures
        0 <= k < scores.len(),
        !scores[k].nan(),
        scores[j].rank() <= scores[k].rank(),
        j < k ==> scores[j].rank() < scores[k].rank(),
{
}

/// Where one of the scores is a number, there is a best one.
pub proof fn some_candidate_is_best(scores: Seq<Single>, j: int) -> (k: int)
    requires
        0 <= j < scores.len(),
        !scores[j].nan(),
    ensures
        is_first_best(scores, k),
    decreases scores.len(),
{
    let rest = scores.drop_last();
    let n = rest.len() as int;
    if exists|i: int| 0 <= i < n && !(#[trigger] rest[i]).nan() {
        let i = choose|i: int| 0 <= i < n && !(#[trigger] rest[i]).nan();
        let k = some_candidate_is_best(rest, i);
        assert forall|m: int| 0 <= m < n implies scores[m] == #[trigger] rest[m] by {}
        if rest[k].lt(scores[n]) {
            assert forall|m: int| 0 <= m < n implies !scores[n].le(#[trigger] scores[m]) by {
                assert(!rest[k].lt(rest[m]));
            }
            assert forall|m: int| 0 <= m < scores.len() implies !scores[n].lt(
                #[trigger] scores[m],
            ) by {
                if m < n {
                    assert(!rest[k].lt(rest[m]));
                }
            }
            n
        } else {
            assert forall|m: int| 0 <= m < scores.len() implies !scores[k].lt(
                #[trigger] scores[m],
            ) by {
                if m < n {
                    assert(!rest[k].lt(rest[m]));
                }
            }
            assert forall|m: int| 0 <= m < k implies !scores[k].le(#[trigger] scores[m]) by {
                assert(!rest[k].le(rest[m]));
            }
            k
        }
    } else {
        assert(j == n) by {
            if j < n {
                assert(!rest[j].nan());
            }
        }
        assert forall|m: int| 0 <= m < n implies (#[trigger] scores[m]).nan() by {
            assert(rest[m].nan());
        }
        n
    }
}

} // verus!
