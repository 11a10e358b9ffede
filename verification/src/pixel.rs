//! Pixels and the differences between them.

use vstd::prelude::*;

verus! {

/// The distance between two levels.
pub open spec fn level_distance(a: u8, b: u8) -> int {
    if a < b {
        b - a
    } else {
        a - b
    }
}

/// The sum over the channels of the distances between two pixels.
pub open spec fn channel_distance(a: [u8; 3], b: [u8; 3]) -> int {
    level_distance(a[0], b[0]) + level_distance(a[1], b[1]) + level_distance(a[2], b[2])
}

fn level_gap(a: u8, b: u8) -> (d: u32)
    ensures
        d == level_distance(a, b),
        d <= 255,
{
    if a < b {
        (b - a) as u32
    } else {
        (a - b) as u32
    }
}

/// The sum over the channels of the distances between two pixels. The mean difference of the
/// channels is a third of it.
pub fn rgb_abs_diff(a: [u8; 3], b: [u8; 3]) -> (d: u32)
    ensures
        d == channel_distance(a, b),
        d <= 765,
{
    level_gap(a[0], b[0]) + level_gap(a[1], b[1]) + level_gap(a[2], b[2])
}

/// Whether two pixels are the same.
pub fn same_pixel(a: [u8; 3], b: [u8; 3]) -> (r: bool)
    ensures
        r == (a == b),
{
    let r = a[0] == b[0] && a[1] == b[1] && a[2] == b[2];
    proof {
        if r {
            assert(a =~= b);
        }
    }
    r
}

/// Pixels are at distance zero exactly where they are the same, and the distance is symmetric.
pub proof fn channel_distance_tells_pixels_apart(a: [u8; 3], b: [u8; 3])
    ensures
        channel_distance(a, b) == 0 <==> a == b,
        channel_distance(a, b) == channel_distance(b, a),
        0 <= channel_distance(a, b) <= 765,
{
    if channel_distance(a, b) == 0 {
        assert(a =~= b);
    }
}

/// The distance between pixels adds up how far each channel has to move, up or down.
pub proof fn channels_move_independently(a: [u8; 3], b: [u8; 3], r: int, g: int, s: int)
    requires
        a[0] + r == b[0] || a[0] - r == b[0],
        a[1] + g == b[1] || a[1] - g == b[1],
        a[2] + s == b[2] || a[2] - s == b[2],
        0 <= r && 0 <= g && 0 <= s,
    ensures
        channel_distance(a, b) == r + g + s,
{
}

} // verus!
