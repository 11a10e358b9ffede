//! Local warping: small vertical corrections of the frames, strip by strip.

use vstd::prelude::*;

use crate::foreground::{mask_covers, mask_covers_canvas_pixel, mask_seq, mask_wf, ForegroundMask};
use crate::geometry::Position;

verus! {

/// The corrections that were applied, and how many pixels they moved.
#[derive(Debug, Clone)]
pub struct LocalWarpReport {
    pub strip_width: u32,
    pub max_dy: i32,
    pub protect_foreground: bool,
    pub shifted_pixels: u32,
    pub deltas_by_source: Vec<Vec<i32>>,
}

/// The correction of a column: that of the strip it lies in, or of the last strip beyond it.
pub open spec fn strip_delta(deltas: Seq<i32>, strip_width: int, x: int) -> int {
    if deltas.len() == 0 {
        0
    } else if x / strip_width < deltas.len() {
        deltas[x / strip_width] as int
    } else {
        deltas.last() as int
    }
}

/// Whether the foreground of a frame covers a canvas pixel.
pub open spec fn protected(
    masks: Option<Seq<ForegroundMask>>,
    positions: Seq<Position>,
    source: int,
    x: int,
    y: int,
) -> bool {
    masks matches Some(m) && source < m.len() && mask_covers(m[source], positions[source], x, y)
}

/// The correction that applies to the canvas pixel `(x, y)` when it is taken from `source`.
pub open spec fn local_delta(
    warp: LocalWarpReport,
    masks: Option<Seq<ForegroundMask>>,
    positions: Seq<Position>,
    source: int,
    x: int,
    y: int,
) -> int {
    if source < warp.deltas_by_source@.len() && warp.strip_width > 0 && !(warp.protect_foreground
        && protected(masks, positions, source, x, y)) {
        strip_delta(warp.deltas_by_source@[source]@, warp.strip_width as int, x)
    } else {
        0
    }
}

/// Whether the foreground of a frame covers a canvas pixel.
pub fn is_protected(
    masks: Option<&[ForegroundMask]>,
    positions: &[Position],
    source: usize,
    x: u32,
    y: u32,
) -> (r: bool)
    requires
        mask_wf(mask_seq(masks), source as int),
        source < positions@.len(),
    ensures
        r == protected(mask_seq(masks), positions@, source as int, x as int, y as int),
{
    match masks {
        Some(m) => source < m.len() && mask_covers_canvas_pixel(
            &m[source],
            positions[source],
            x,
            y,
        ),
        None => false,
    }
}

/// The correction of a column.
pub fn delta_of_column(deltas: &Vec<i32>, strip_width: u32, x: u32) -> (d: i32)
    requires
        strip_width > 0,
    ensures
        d == strip_delta(deltas@, strip_width as int, x as int),
{
    let n: usize = deltas.len();
    if n == 0 {
        return 0;
    }
    let strip: usize = (x / strip_width) as usize;
    if strip < n {
        deltas[strip]
    } else {
        deltas[n - 1]
    }
}

/// The columns of a strip share its correction, and columns beyond the last strip have that of the
/// last one.
pub proof fn columns_of_a_strip_share_its_correction(
    deltas: Seq<i32>,
    strip_width: int,
    strip: int,
    x: int,
)
    requires
        0 < strip_width,
        0 <= strip,
        strip * strip_width <= x < strip * strip_width + strip_width,
    ensures
        strip < deltas.len() ==> strip_delta(deltas, strip_width, x) == deltas[strip],
        0 < deltas.len() <= strip ==> strip_delta(deltas, strip_width, x) == deltas[deltas.len()
            - 1],
        deltas.len() == 0 ==> strip_delta(deltas, strip_width, x) == 0,
{
    vstd::arithmetic::div_mod::lemma_fundamental_div_mod_converse(
        x,
        strip_width,
        strip,
        x - strip * strip_width,
    );
}

/// A pixel is corrected exactly where its frame has corrections and the foreground that covers it, if
/// any, is not protected.
pub proof fn corrections_spare_the_protected_foreground(
    warp: LocalWarpReport,
    masks: Seq<ForegroundMask>,
    positions: Seq<Position>,
    source: int,
    x: int,
    y: int,
)
    requires
        warp.strip_width > 0,
        0 <= source,
    ensures
        ({
            let p = positions[source];
            let m = masks[source];
            let covered = source < masks.len() && 0 <= x - p.x < m.width && 0 <= y - p.y < m.height
                && m.data@[(y - p.y) * m.width + (x - p.x)];
            let delta = local_delta(warp, Some(masks), positions, source, x, y);
            &&& source >= warp.deltas_by_source@.len() ==> delta == 0
            &&& warp.protect_foreground && covered ==> delta == 0
            &&& source < warp.deltas_by_source@.len() && !(warp.protect_foreground && covered)
                ==> delta == strip_delta(
                warp.deltas_by_source@[source]@,
                warp.strip_width as int,
                x,
            )
        }),
{
}

} // verus!
