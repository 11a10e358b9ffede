//! Canvases: a stitched image together with the map of where its pixels come from.

use vstd::prelude::*;

use crate::buffers::RgbImage;
use crate::coord_map::{mismatched_at, out_of_bounds_at, SourceCoordinateMap};
use crate::geometry::Position;
use crate::grid::{count_where, lemma_cell_of_index, lemma_count_zero};
use crate::source_map::SourceMap;

verus! {

/// The color of a canvas pixel that no frame covers.
pub open spec fn black() -> [u8; 3] {
    [0, 0, 0]
}

/// Whether a canvas of this size can be made: coordinates are signed, map indices are 32 bits
/// wide, the bytes of a row can be counted, and the three bytes of every pixel have to fit in a
/// vector.
pub open spec fn canvas_size_ok(w: int, h: int) -> bool {
    &&& 0 <= w <= i32::MAX
    &&& 0 <= h <= i32::MAX
    &&& w * h <= u32::MAX
    &&& 3 * w <= usize::MAX
    &&& 3 * (w * h) <= isize::MAX
}

/// Whether a canvas and a source map have the same size.
pub open spec fn same_size(canvas: RgbImage, map: SourceMap) -> bool {
    map.wf() && canvas.w() == map.width && canvas.h() == map.height
}

/// Whether a canvas pixel is what the source map says of it: the pixel of the recorded frame, at
/// the place that the position of the frame gives, or black where no frame is recorded.
pub open spec fn faithful_at(
    images: Seq<RgbImage>,
    positions: Seq<Position>,
    canvas: RgbImage,
    map: SourceMap,
    x: int,
    y: int,
) -> bool {
    let s = map.at(x, y) as int;
    if map.assigned(x, y) {
        &&& s < images.len()
        &&& s < positions.len()
        &&& images[s].has(x - positions[s].x, y - positions[s].y)
        &&& canvas.px(x, y) == images[s].px(x - positions[s].x, y - positions[s].y)
    } else {
        canvas.px(x, y) == black()
    }
}

/// Whether every canvas pixel is what the source map says of it.
pub open spec fn faithful(
    images: Seq<RgbImage>,
    positions: Seq<Position>,
    canvas: RgbImage,
    map: SourceMap,
) -> bool {
    &&& same_size(canvas, map)
    &&& forall|x: int, y: int|
        #![trigger map.at(x, y)]
        map.has(x, y) ==> faithful_at(images, positions, canvas, map, x, y)
}

/// The coordinate map that is derived from the source map of a faithful canvas names, for every
/// pixel that it names, an existing pixel of the same color: a verification of the canvas finds
/// neither mismatches nor pixels out of bounds.
pub proof fn faithful_canvas_verifies(
    images: Seq<RgbImage>,
    positions: Seq<Position>,
    canvas: RgbImage,
    map: SourceMap,
    coords: SourceCoordinateMap,
)
    requires
        faithful(images, positions, canvas, map),
        // `coords` is what `SourceCoordinateMap::from_source_map` makes of `map`
        coords.wf(),
        coords.width == map.width,
        coords.height == map.height,
        forall|x: int, y: int|
            coords.has(x, y) ==> #[trigger] coords.stored(x, y) == SourceCoordinateMap::storage(
                SourceCoordinateMap::located(map, positions, x, y, 0),
            ),
    ensures
        count_where(
            coords.sources@.len(),
            |k: int| mismatched_at(coords, images, canvas, k),
        ) == 0,
        count_where(coords.sources@.len(), |k: int| out_of_bounds_at(coords, images, k)) == 0,
{
    let n = coords.sources@.len();
    let p = |k: int| mismatched_at(coords, images, canvas, k);
    let q = |k: int| out_of_bounds_at(coords, images, k);
    assert forall|k: int| 0 <= k < n implies !#[trigger] p(k) && !q(k) by {
        let w = coords.width as int;
        lemma_cell_of_index(w, coords.height as int, k);
        let x = k % w;
        let y = k / w;
        assert(coords.has(x, y) && map.has(x, y));
        assert(coords.stored(x, y) == SourceCoordinateMap::storage(
            SourceCoordinateMap::located(map, positions, x, y, 0),
        ));
        assert(map.at(x, y) == map.at(x, y));
        assert(faithful_at(images, positions, canvas, map, x, y));
    }
    assert forall|k: int| 0 <= k < n implies !#[trigger] q(k) by {
        assert(!p(k));
    }
    lemma_count_zero(n, p);
    lemma_count_zero(n, q);
}

} // verus!
