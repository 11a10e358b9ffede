//! Frame placement: shifts between frames, positions on the canvas, and the canvas itself.

use vstd::prelude::*;

use crate::single::Single;

verus! {

/// The displacement of the content on screen from one frame to the next.
#[derive(Debug, Clone, Copy)]
pub struct Shift {
    /// Positive where the content appears farther right in the later frame.
    pub dx: i32,
    /// Positive where the content appears lower in the later frame.
    pub dy: i32,
    /// How well the two frames agree under the displacement.
    pub score: Single,
}

/// The place of a frame's top left corner.
#[derive(Debug, Clone, Copy, PartialEq, Eq, Structural)]
pub struct Position {
    pub x: i32,
    pub y: i32,
}

/// Whether a frame of size `w` by `h` at `p` covers the canvas pixel `(cx, cy)`.
pub open spec fn covers(p: Position, w: int, h: int, cx: int, cy: int) -> bool {
    0 <= cx - p.x < w && 0 <= cy - p.y < h
}

/// The horizontal place of frame `k`, against the content's motion.
pub open spec fn offset_x(shifts: Seq<Shift>, k: int) -> int
    decreases k,
{
    if k <= 0 {
        0
    } else {
        offset_x(shifts, k - 1) - shifts[k - 1].dx
    }
}

/// The vertical place of frame `k`, against the content's motion.
pub open spec fn offset_y(shifts: Seq<Shift>, k: int) -> int
    decreases k,
{
    if k <= 0 {
        0
    } else {
        offset_y(shifts, k - 1) - shifts[k - 1].dy
    }
}

/// Whether the place of every frame fits in a `Position`.
pub open spec fn offsets_fit(shifts: Seq<Shift>) -> bool {
    forall|k: int|
        0 <= k <= shifts.len() ==> i32::MIN <= #[trigger] offset_x(shifts, k) <= i32::MAX
            && i32::MIN <= #[trigger] offset_y(shifts, k) <= i32::MAX
}

/// The positions of the frames: the first one stands at the origin, and each later one moves
/// against the shift of the content.
pub fn positions_from_shifts(shifts: &[Shift]) -> (positions: Vec<Position>)
    requires
        offsets_fit(shifts@),
    ensures
        positions@.len() == shifts@.len() + 1,
        forall|k: int|
            #![trigger positions@[k]]
            0 <= k <= shifts@.len() ==> positions@[k].x == offset_x(shifts@, k)
                && positions@[k].y == offset_y(shifts@, k),
{
    let mut positions: Vec<Position> = Vec::new();
    let mut x: i32 = 0;
    let mut y: i32 = 0;
    positions.push(Position { x: 0, y: 0 });
    for i in 0..shifts.len()
        invariant
            offsets_fit(shifts@),
            positions@.len() == i + 1,
            x == offset_x(shifts@, i as int),
            y == offset_y(shifts@, i as int),
            forall|k: int|
                #![trigger positions@[k]]
                0 <= k <= i ==> positions@[k].x == offset_x(shifts@, k)
                    && positions@[k].y == offset_y(shifts@, k),
    {
        let s = shifts[i];
        assert(offset_x(shifts@, i + 1) == x - s.dx);
        assert(offset_y(shifts@, i + 1) == y - s.dy);
        x = x - s.dx;
        y = y - s.dy;
        positions.push(Position { x, y });
    }
    positions
}

/// The horizontal coordinates of the positions.
pub open spec fn xs(positions: Seq<Position>) -> Seq<int> {
    Seq::new(positions.len(), |i: int| positions[i].x as int)
}

/// The vertical coordinates of the positions.
pub open spec fn ys(positions: Seq<Position>) -> Seq<int> {
    Seq::new(positions.len(), |i: int| positions[i].y as int)
}

/// The least of the values, or zero where there are none.
pub open spec fn lowest(s: Seq<int>) -> int
    decreases s.len(),
{
    if s.len() == 0 {
        0
    } else if s.len() == 1 {
        s[0]
    } else {
        let rest = lowest(s.drop_last());
        if s.last() < rest {
            s.last()
        } else {
            rest
        }
    }
}

/// The greatest of the values, or zero where there are none.
pub open spec fn highest(s: Seq<int>) -> int
    decreases s.len(),
{
    if s.len() == 0 {
        0
    } else if s.len() == 1 {
        s[0]
    } else {
        let rest = highest(s.drop_last());
        if s.last() > rest {
            s.last()
        } else {
            rest
        }
    }
}

/// `lowest` and `highest` are attained, and bound every value.
pub proof fn lowest_and_highest_bound_the_values(s: Seq<int>)
    requires
        s.len() > 0,
    ensures
        s.contains(lowest(s)),
        s.contains(highest(s)),
        forall|i: int| 0 <= i < s.len() ==> lowest(s) <= #[trigger] s[i] <= highest(s),
    decreases s.len(),
{
    if s.len() == 1 {
        assert(s[0] == lowest(s));
    } else {
        let rest = s.drop_last();
        lowest_and_highest_bound_the_values(rest);
        let a = choose|i: int| 0 <= i < rest.len() && rest[i] == lowest(rest);
        let b = choose|i: int| 0 <= i < rest.len() && rest[i] == highest(rest);
        assert(s[a] == lowest(rest) && s[b] == highest(rest));
        assert(s[s.len() - 1] == s.last());
        assert forall|i: int| 0 <= i < s.len() implies lowest(s) <= #[trigger] s[i] <= highest(s) by {
            if i < rest.len() {
                assert(rest[i] == s[i]);
            }
        }
    }
}

/// The least and the greatest coordinates of a set of positions.
pub struct Bounds {
    pub min_x: i32,
    pub max_x: i32,
    pub min_y: i32,
    pub max_y: i32,
}

/// The bounds of the positions; all of them zero where there are none.
pub fn position_bounds(positions: &[Position]) -> (b: Bounds)
    ensures
        b.min_x == lowest(xs(positions@)),
        b.max_x == highest(xs(positions@)),
        b.min_y == lowest(ys(positions@)),
        b.max_y == highest(ys(positions@)),
{
    if positions.len() == 0 {
        return Bounds { min_x: 0, max_x: 0, min_y: 0, max_y: 0 };
    }
    let first = positions[0];
    let mut b = Bounds { min_x: first.x, max_x: first.x, min_y: first.y, max_y: first.y };
    proof {
        assert(xs(positions@).take(1) =~= seq![first.x as int]);
        assert(ys(positions@).take(1) =~= seq![first.y as int]);
    }
    for i in 1..positions.len()
        invariant
            1 <= i <= positions@.len(),
            b.min_x == lowest(xs(positions@).take(i as int)),
            b.max_x == highest(xs(positions@).take(i as int)),
            b.min_y == lowest(ys(positions@).take(i as int)),
            b.max_y == highest(ys(positions@).take(i as int)),
    {
        let p = positions[i];
        proof {
            assert(xs(positions@).take(i + 1).drop_last() =~= xs(positions@).take(i as int));
            assert(ys(positions@).take(i + 1).drop_last() =~= ys(positions@).take(i as int));
        }
        if p.x < b.min_x {
            b.min_x = p.x;
        }
        if p.x > b.max_x {
            b.max_x = p.x;
        }
        if p.y < b.min_y {
            b.min_y = p.y;
        }
        if p.y > b.max_y {
            b.max_y = p.y;
        }
    }
    proof {
        assert(xs(positions@).take(positions@.len() as int) =~= xs(positions@));
        assert(ys(positions@).take(positions@.len() as int) =~= ys(positions@));
    }
    b
}

/// The distance between the outermost horizontal coordinates.
pub open spec fn span_x(positions: Seq<Position>) -> int {
    highest(xs(positions)) - lowest(xs(positions))
}

/// The distance between the outermost vertical coordinates.
pub open spec fn span_y(positions: Seq<Position>) -> int {
    highest(ys(positions)) - lowest(ys(positions))
}

/// Whether the positions spread at least as far vertically as they do horizontally.
pub fn mostly_vertical(positions: &[Position]) -> (r: bool)
    ensures
        r == (span_y(positions@) >= span_x(positions@)),
{
    let b = position_bounds(positions);
    (b.max_y as i64 - b.min_y as i64) >= (b.max_x as i64 - b.min_x as i64)
}

/// The position relative to the top left corner of the canvas.
pub open spec fn normalized(raw: Seq<Position>, i: int) -> (int, int) {
    (raw[i].x - lowest(xs(raw)), raw[i].y - lowest(ys(raw)))
}

/// Whether the canvas that holds a frame of size `w` by `h` at every position fits in signed
/// coordinates.
pub open spec fn canvas_fits(raw: Seq<Position>, w: int, h: int) -> bool {
    &&& w <= i32::MAX
    &&& h <= i32::MAX
    &&& span_x(raw) + w <= i32::MAX
    &&& span_y(raw) + h <= i32::MAX
}

/// Moves the positions so that the least coordinates become zero, and gives the size of the
/// canvas that just holds a frame of size `w` by `h` at each of them.
pub fn normalize_positions(raw: &[Position], w: u32, h: u32) -> (r: (Vec<Position>, u32, u32))
    requires
        canvas_fits(raw@, w as int, h as int),
    ensures
        r.0@.len() == raw@.len(),
        forall|i: int|
            #![trigger r.0@[i]]
            0 <= i < raw@.len() ==> r.0@[i].x == normalized(raw@, i).0
                && r.0@[i].y == normalized(raw@, i).1,
        r.1 == span_x(raw@) + w,
        r.2 == span_y(raw@) + h,
{
    let b = position_bounds(raw);
    let mut positions: Vec<Position> = Vec::new();
    for i in 0..raw.len()
        invariant
            canvas_fits(raw@, w as int, h as int),
            b.min_x == lowest(xs(raw@)),
            b.max_x == highest(xs(raw@)),
            b.min_y == lowest(ys(raw@)),
            b.max_y == highest(ys(raw@)),
            positions@.len() == i,
            forall|k: int|
                #![trigger positions@[k]]
                0 <= k < i ==> positions@[k].x == normalized(raw@, k).0
                    && positions@[k].y == normalized(raw@, k).1,
    {
        proof {
            lowest_and_highest_bound_the_values(xs(raw@));
            lowest_and_highest_bound_the_values(ys(raw@));
            assert(xs(raw@)[i as int] == raw@[i as int].x);
            assert(ys(raw@)[i as int] == raw@[i as int].y);
        }
        positions.push(Position { x: raw[i].x - b.min_x, y: raw[i].y - b.min_y });
    }
    proof {
        if raw@.len() > 0 {
            lowest_and_highest_bound_the_values(xs(raw@));
            lowest_and_highest_bound_the_values(ys(raw@));
            assert(lowest(xs(raw@)) <= xs(raw@)[0] <= highest(xs(raw@)));
            assert(lowest(ys(raw@)) <= ys(raw@)[0] <= highest(ys(raw@)));
        }
    }
    let canvas_w: u32 = (b.max_x as i64 - b.min_x as i64 + w as i64) as u32;
    let canvas_h: u32 = (b.max_y as i64 - b.min_y as i64 + h as i64) as u32;
    (positions, canvas_w, canvas_h)
}

/// Between consecutive frames the position moves by the opposite of the content's shift.
pub proof fn positions_move_against_the_content(shifts: Seq<Shift>, k: int)
    requires
        0 <= k < shifts.len(),
    ensures
        offset_x(shifts, k + 1) - offset_x(shifts, k) == -shifts[k].dx,
        offset_y(shifts, k + 1) - offset_y(shifts, k) == -shifts[k].dy,
        offset_x(shifts, 0) == 0,
        offset_y(shifts, 0) == 0,
{
}

/// After normalization every frame lies on the canvas, the canvas has no spare margin, and the
/// distances between frames are unchanged.
pub proof fn normalized_frames_just_fill_the_canvas(raw: Seq<Position>, w: int, h: int)
    requires
        raw.len() > 0,
    ensures
        forall|i: int|
            0 <= i < raw.len() ==> 0 <= (#[trigger] normalized(raw, i)).0 && normalized(raw, i).0 + w
                <= span_x(raw) + w && 0 <= normalized(raw, i).1 && normalized(raw, i).1 + h
                <= span_y(raw) + h,
        exists|i: int| 0 <= i < raw.len() && (#[trigger] normalized(raw, i)).0 == 0,
        exists|i: int| 0 <= i < raw.len() && (#[trigger] normalized(raw, i)).1 == 0,
        exists|i: int|
            0 <= i < raw.len() && (#[trigger] normalized(raw, i)).0 + w == span_x(raw) + w,
        exists|i: int|
            0 <= i < raw.len() && (#[trigger] normalized(raw, i)).1 + h == span_y(raw) + h,
        forall|i: int, j: int|
            0 <= i < raw.len() && 0 <= j < raw.len() ==> (#[trigger] normalized(raw, i)).0 - (
            #[trigger] normalized(raw, j)).0 == raw[i].x - raw[j].x && normalized(raw, i).1
                - normalized(raw, j).1 == raw[i].y - raw[j].y,
{
    lowest_and_highest_bound_the_values(xs(raw));
    lowest_and_highest_bound_the_values(ys(raw));
    assert forall|i: int| 0 <= i < raw.len() implies 0 <= (#[trigger] normalized(raw, i)).0
        && normalized(raw, i).0 + w <= span_x(raw) + w && 0 <= normalized(raw, i).1 && normalized(
        raw,
        i,
    ).1 + h <= span_y(raw) + h by {
        assert(xs(raw)[i] == raw[i].x);
        assert(ys(raw)[i] == raw[i].y);
    }
    let a = choose|i: int| 0 <= i < xs(raw).len() && xs(raw)[i] == lowest(xs(raw));
    let b = choose|i: int| 0 <= i < ys(raw).len() && ys(raw)[i] == lowest(ys(raw));
    let c = choose|i: int| 0 <= i < xs(raw).len() && xs(raw)[i] == highest(xs(raw));
    let d = choose|i: int| 0 <= i < ys(raw).len() && ys(raw)[i] == highest(ys(raw));
    assert(normalized(raw, a).0 == 0);
    assert(normalized(raw, b).1 == 0);
    assert(normalized(raw, c).0 + w == span_x(raw) + w);
    assert(normalized(raw, d).1 + h == span_y(raw) + h);
}

} // verus!
