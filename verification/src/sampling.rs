//! Which pixels are taken together when an image is scaled down or smoothed.

use vstd::prelude::*;

verus! {

/// The coordinates that the coordinate `k` of an image that is scaled down stands for, on a side of
/// the given length: from the first one up to, and without, the second one.
pub fn scaled_block(k: usize, scale: usize, length: usize) -> (r: (usize, usize))
    requires
        k * scale + scale <= usize::MAX,
    ensures
        r.0 == k * scale,
        r.1 == if k * scale + scale < length {
            k * scale + scale
        } else {
            length as int
        },
{
    proof {
        assert(0 <= k * scale) by (nonlinear_arith);
    }
    let start: usize = k * scale;
    let end: usize = start + scale;
    if end < length {
        (start, end)
    } else {
        (start, length)
    }
}

/// The blocks of a side that is divided by the scale lie side by side, are all of that length, and
/// lie on the side.
pub proof fn scaled_blocks_tile_the_side(k: int, scale: int, length: int)
    requires
        0 < scale,
        0 <= k < length / scale,
    ensures
        0 <= k * scale,
        k * scale + scale == (k + 1) * scale,
        k * scale + scale <= length,
{
    assert(0 <= k * scale && k * scale + scale == (k + 1) * scale && (k + 1) * scale <= length)
        by (nonlinear_arith)
        requires
            0 < scale,
            0 <= k,
            k + 1 <= length / scale,
    ;
}

/// Where the sample `k` of `n` starts on a side of the given length.
pub open spec fn sample_start(k: int, n: int, length: int) -> int {
    k * length / n
}

/// Where the sample `k` of `n` ends: where the next one starts, but at least one pixel after its own
/// start, and at the end of the side at the latest.
pub open spec fn sample_end(k: int, n: int, length: int) -> int {
    let next = sample_start(k + 1, n, length);
    let least = sample_start(k, n, length) + 1;
    let end = if next < least {
        least
    } else {
        next
    };
    if end < length {
        end
    } else {
        length
    }
}

/// The coordinates that the sample `k` of `n` covers on a side that starts at `start`: from the first
/// one up to, and without, the second one. There is at least one, unless the side is empty.
pub fn sample_block(start: u32, length: u32, n: u32, k: u32) -> (r: (u32, u32))
    requires
        k < n,
        start + length <= u32::MAX,
    ensures
        r.0 == start + sample_start(k as int, n as int, length as int),
        r.1 == start + sample_end(k as int, n as int, length as int),
        length > 0 ==> start <= r.0 < r.1 <= start + length,
        length == 0 ==> r.0 == start && r.1 == start,
{
    proof {
        let kk = k as int;
        let ll = length as int;
        let nn = n as int;
        assert(0 <= kk * ll <= (kk + 1) * ll <= nn * ll <= 0xffff_ffff * 0xffff_ffff)
            by (nonlinear_arith)
            requires
                0 <= kk,
                kk + 1 <= nn <= 0xffff_ffff,
                0 <= ll <= 0xffff_ffff,
        ;
        assert(0 <= kk * ll / nn && (kk + 1) * ll / nn <= ll && kk * ll / nn <= (kk + 1) * ll / nn)
            by (nonlinear_arith)
            requires
                0 <= kk * ll,
                (kk + 1) * ll <= nn * ll,
                kk * ll <= (kk + 1) * ll,
                nn > 0,
        ;
        if ll > 0 {
            assert(kk * ll / nn < ll) by (nonlinear_arith)
                requires
                    0 <= kk < nn,
                    ll > 0,
            ;
        }
    }
    let from: u32 = (k as u64 * length as u64 / n as u64) as u32;
    let next: u32 = ((k as u64 + 1) * length as u64 / n as u64) as u32;
    let end: u32 = if next <= from {
        if from < length {
            from + 1
        } else {
            length
        }
    } else {
        next
    };
    (start + from, start + end)
}

/// The coordinates within `radius` of `k` on a side of the given length: both of them belong to
/// it.
pub fn filter_window(k: usize, radius: usize, length: usize) -> (r: (usize, usize))
    requires
        k < length,
    ensures
        r.0 <= k <= r.1 < length,
        r.0 == if k > radius {
            k - radius
        } else {
            0
        },
        r.1 == if k + radius < length - 1 {
            k + radius
        } else {
            length - 1
        },
{
    let first: usize = if k > radius {
        k - radius
    } else {
        0
    };
    let last: usize = if radius < length - 1 - k {
        k + radius
    } else {
        length - 1
    };
    (first, last)
}

/// Where there are no more samples than pixels, the samples tile the side: each ends where the next
/// one starts, the first one starts at the start and the last one ends at the end. Their lengths
/// differ by one at most.
pub proof fn samples_tile_the_side(k: int, n: int, length: int)
    requires
        0 <= k < n <= length,
    ensures
        sample_start(0, n, length) == 0,
        sample_end(n - 1, n, length) == length,
        k + 1 < n ==> sample_end(k, n, length) == sample_start(k + 1, n, length),
        length / n <= sample_end(k, n, length) - sample_start(k, n, length) <= length / n + 1,
{
    let a = k * length;
    let b = (k + 1) * length;
    assert(b == a + length) by (nonlinear_arith)
        requires
            a == k * length,
            b == (k + 1) * length,
    ;
    assert(0 * length == 0);
    vstd::arithmetic::div_mod::lemma_fundamental_div_mod(a, n);
    vstd::arithmetic::div_mod::lemma_fundamental_div_mod(b, n);
    vstd::arithmetic::div_mod::lemma_fundamental_div_mod(length, n);
    vstd::arithmetic::div_mod::lemma_mod_bound(a, n);
    vstd::arithmetic::div_mod::lemma_mod_bound(b, n);
    vstd::arithmetic::div_mod::lemma_mod_bound(length, n);
    assert(b / n - a / n == length / n || b / n - a / n == length / n + 1) by (nonlinear_arith)
        requires
            a == n * (a / n) + a % n,
            b == n * (b / n) + b % n,
            length == n * (length / n) + length % n,
            b == a + length,
            0 <= a % n < n,
            0 <= b % n < n,
            0 <= length % n < n,
    ;
    assert(1 <= length / n) by (nonlinear_arith)
        requires
            length == n * (length / n) + length % n,
            length % n < n,
            n <= length,
            0 < n,
    ;
    assert(b <= n * length) by (nonlinear_arith)
        requires
            b == (k + 1) * length,
            k + 1 <= n,
            0 < length,
    ;
    assert(b / n <= length) by (nonlinear_arith)
        requires
            b == n * (b / n) + b % n,
            0 <= b % n,
            b <= n * length,
            0 < n,
    ;
    assert(n * length / n == length) by {
        vstd::arithmetic::div_mod::lemma_div_multiples_vanish(length, n);
    }
    lemma_last_sample(n, length);
}

proof fn lemma_last_sample(n: int, length: int)
    requires
        0 < n <= length,
    ensures
        sample_end(n - 1, n, length) == length,
{
    vstd::arithmetic::div_mod::lemma_div_multiples_vanish(length, n);
    assert((n - 1 + 1) * length == n * length);
}

/// Where there are more samples than pixels, each sample covers a single pixel.
pub proof fn crowded_samples_cover_one_pixel(k: int, n: int, length: int)
    requires
        0 <= k < n,
        0 < length <= n,
    ensures
        sample_end(k, n, length) == sample_start(k, n, length) + 1,
        0 <= sample_start(k, n, length) < length,
{
    let a = k * length;
    let b = (k + 1) * length;
    assert(b == a + length && 0 <= a && a < n * length) by (nonlinear_arith)
        requires
            a == k * length,
            b == (k + 1) * length,
            0 <= k < n,
            0 < length,
    ;
    vstd::arithmetic::div_mod::lemma_fundamental_div_mod(a, n);
    vstd::arithmetic::div_mod::lemma_fundamental_div_mod(b, n);
    vstd::arithmetic::div_mod::lemma_mod_bound(a, n);
    vstd::arithmetic::div_mod::lemma_mod_bound(b, n);
    assert(b / n <= a / n + 1 && 0 <= a / n < length) by (nonlinear_arith)
        requires
            a == n * (a / n) + a % n,
            b == n * (b / n) + b % n,
            b == a + length,
            0 <= a % n < n,
            0 <= b % n < n,
            0 <= a < n * length,
            0 < length <= n,
    ;
}

} // verus!
