//! Content that a canvas shows twice.
//!
//! Bands of rows and rectangular patches are compared pairwise. What a patch looks like is for
//! functions of the caller to say: one gives its features, one their energy, and one the
//! similarity of two features.

use vstd::prelude::*;

use crate::buffers::RgbImage;
use crate::grid::{
    cell, count_where, gathered, gathered_values_keep_the_order_of_the_cells, has_value,
    lemma_cell_bound, lemma_gather_cell, lemma_sum_bound, lemma_sum_cell, summed,
};
use crate::order::{all_indices, is_sorting, stable_order};
use crate::pixel::{channel_distance, channel_distance_tells_pixels_apart, rgb_abs_diff};
use crate::single::Single;

verus! {

/// Two bands of rows that look alike.
#[derive(Debug, Clone, Copy)]
pub struct DuplicateBand {
    pub score: Single,
    pub y1: u32,
    pub y2: u32,
    pub height: u32,
}

/// Two rectangles that look alike, each given by its corner, its width and its height.
#[derive(Debug, Clone, Copy)]
pub struct DuplicatePatch {
    pub score: Single,
    pub rect_a: [u32; 4],
    pub rect_b: [u32; 4],
}

/// The content that occurs twice.
#[derive(Debug, Clone)]
pub struct DuplicateReport {
    pub passed: bool,
    pub band_duplicates: Vec<DuplicateBand>,
    pub patch_duplicates: Vec<DuplicatePatch>,
}

/// The smaller one of two numbers.
pub open spec fn smaller_of(a: int, b: int) -> int {
    if a < b {
        a
    } else {
        b
    }
}

/// The larger one of two numbers.
pub open spec fn larger_of(a: int, b: int) -> int {
    if a < b {
        b
    } else {
        a
    }
}

fn smaller(a: u32, b: u32) -> (r: u32)
    ensures
        r == smaller_of(a as int, b as int),
{
    if a < b {
        a
    } else {
        b
    }
}

fn greater(a: u32, b: u32) -> (r: u32)
    ensures
        r == larger_of(a as int, b as int),
{
    if a < b {
        b
    } else {
        a
    }
}

/// The length of a piece of a side: the given part of the side, within the two bounds, and no
/// longer than the side.
pub open spec fn piece(length: int, part: int, low: int, high: int) -> int {
    smaller_of(length, larger_of(smaller_of(high, length / part), low))
}

fn piece_of(length: u32, part: u32, low: u32, high: u32) -> (r: u32)
    requires
        part > 0,
    ensures
        r == piece(length as int, part as int, low as int, high as int),
        r <= length,
{
    smaller(length, greater(smaller(high, length / part), low))
}

/// The places where pieces of length `size` start on a side: every `stride` pixels.
pub open spec fn starts(length: int, size: int, stride: int) -> Seq<u32> {
    Seq::new(((length - size) / stride + 1) as nat, |k: int| (k * stride) as u32)
}

fn starts_of(length: u32, size: u32, stride: u32) -> (v: Vec<u32>)
    requires
        size <= length,
        0 < stride <= 1000,
        length <= i32::MAX,
    ensures
        v@ == starts(length as int, size as int, stride as int),
        forall|k: int| 0 <= k < v@.len() ==> #[trigger] v@[k] <= length - size,
{
    let limit: u32 = length - size;
    let mut v: Vec<u32> = Vec::new();
    let mut at: u32 = 0;
    let mut k: u32 = 0;
    proof {
        assert(0 * stride == 0) by (nonlinear_arith);
    }
    while at <= limit
        invariant
            limit == length - size,
            length <= i32::MAX,
            0 < stride <= 1000,
            at == k * stride,
            k <= limit + 1,
            k > 0 ==> (k - 1) * stride <= limit,
            v@ == Seq::new(k as nat, |j: int| (j * stride) as u32),
            forall|j: int| 0 <= j < v@.len() ==> #[trigger] v@[j] <= limit,
        decreases limit + 1000 - at,
    {
        v.push(at);
        assert(v@ =~= Seq::new((k + 1) as nat, |j: int| (j * stride) as u32));
        proof {
            assert(k <= k * stride) by (nonlinear_arith)
                requires
                    0 <= k,
                    0 < stride,
            ;
            assert(k * stride + stride == (k + 1) * stride) by (nonlinear_arith);
        }
        at = at + stride;
        k = k + 1;
    }
    proof {
        let l = limit as int;
        let s = stride as int;
        assert(l / s == k - 1) by (nonlinear_arith)
            requires
                (k - 1) * s <= l,
                l < k * s,
                s > 0,
                k >= 1,
        ;
        assert(v@ =~= starts(length as int, size as int, stride as int));
    }
    v
}

/// The pixel of the image that a sample of a rectangle falls on. The rectangle is given by its
/// corner, its width and its height, and has a grid of `ow` by `oh` samples.
pub open spec fn sample_point(
    img: RgbImage,
    rect: [u32; 4],
    ow: int,
    oh: int,
    x: int,
    y: int,
) -> (int, int) {
    (
        smaller_of(rect[0] + x * rect[2] / ow, img.w() - 1),
        smaller_of(rect[1] + y * rect[3] / oh, img.h() - 1),
    )
}

/// The difference of two rectangles at one sample.
pub open spec fn sample_difference(
    img: RgbImage,
    a: [u32; 4],
    b: [u32; 4],
    ow: int,
    oh: int,
    x: int,
    y: int,
) -> int {
    let p = sample_point(img, a, ow, oh, x, y);
    let q = sample_point(img, b, ow, oh, x, y);
    channel_distance(img.px(p.0, p.1), img.px(q.0, q.1))
}

/// The sum of the differences of two rectangles over a grid of samples.
pub open spec fn rect_difference(
    img: RgbImage,
    a: [u32; 4],
    b: [u32; 4],
    ow: int,
    oh: int,
) -> int {
    summed(ow, oh * ow, |x: int, y: int| sample_difference(img, a, b, ow, oh, x, y))
}

fn sample_at(start: u32, length: u32, n: u32, k: u32, limit: u32) -> (r: u32)
    requires
        0 < n,
        k < n,
        0 < limit,
        start + length <= u32::MAX,
    ensures
        r == smaller_of(start + (k as int) * (length as int) / (n as int), limit - 1),
{
    proof {
        let kk = k as int;
        let ll = length as int;
        let nn = n as int;
        assert(0 <= kk * ll <= nn * ll <= 0xffff_ffff * 0xffff_ffff) by (nonlinear_arith)
            requires
                0 <= kk < nn <= 0xffff_ffff,
                0 <= ll <= 0xffff_ffff,
        ;
        assert(0 <= kk * ll / nn <= ll) by (nonlinear_arith)
            requires
                0 <= kk * ll <= nn * ll,
                nn > 0,
        ;
    }
    let offset: u32 = (k as u64 * length as u64 / n as u64) as u32;
    let at: u32 = start + offset;
    if at < limit - 1 {
        at
    } else {
        limit - 1
    }
}

/// The sum over a grid of samples, and over the channels, of the differences of two rectangles, and
/// how many terms it has. The mean difference is their quotient.
#[verifier::loop_isolation(false)]
pub fn avg_abs_diff_rect(img: &RgbImage, a: [u32; 4], b: [u32; 4], out_w: u32, out_h: u32) -> (r: (
    u64,
    u64,
))
    requires
        out_w == 0 || out_h == 0 || (img.w() > 0 && img.h() > 0),
        765 * (out_w * out_h) <= u64::MAX,
        a[0] + a[2] <= u32::MAX,
        a[1] + a[3] <= u32::MAX,
        b[0] + b[2] <= u32::MAX,
        b[1] + b[3] <= u32::MAX,
    ensures
        r.0 == rect_difference(*img, a, b, out_w as int, out_h as int),
        r.1 == 3 * (out_w * out_h),
{
    let (w, h) = img.dimensions();
    let ghost ow = out_w as int;
    let ghost f = |x: int, y: int|
        sample_difference(*img, a, b, out_w as int, out_h as int, x, y);
    proof {
        assert forall|x: int, y: int| 0 <= #[trigger] f(x, y) <= 765 by {
            let p = sample_point(*img, a, out_w as int, out_h as int, x, y);
            let q = sample_point(*img, b, out_w as int, out_h as int, x, y);
            channel_distance_tells_pixels_apart(img.px(p.0, p.1), img.px(q.0, q.1));
        }
        assert(0 * ow == 0) by (nonlinear_arith);
    }
    let mut sum: u64 = 0;
    let mut n: u64 = 0;
    for oy in 0..out_h
        invariant
            sum == summed(ow, oy * ow, f),
            n == 3 * (oy * ow),
    {
        for ox in 0..out_w
            invariant
                sum == summed(ow, cell(ow, ox as int, oy as int), f),
                n == 3 * cell(ow, ox as int, oy as int),
        {
            proof {
                lemma_sum_cell(ow, ox as int, oy as int, f);
                lemma_cell_bound(ow, out_h as int, ox as int, oy as int);
                lemma_sum_bound(ow, cell(ow, ox as int, oy as int) + 1, f, 765);
                assert(f(ox as int, oy as int) == sample_difference(
                    *img,
                    a,
                    b,
                    out_w as int,
                    out_h as int,
                    ox as int,
                    oy as int,
                ));
            }
            let ax: u32 = sample_at(a[0], a[2], out_w, ox, w);
            let ay: u32 = sample_at(a[1], a[3], out_h, oy, h);
            let bx: u32 = sample_at(b[0], b[2], out_w, ox, w);
            let by: u32 = sample_at(b[1], b[3], out_h, oy, h);
            let d: u32 = rgb_abs_diff(img.get_pixel(ax, ay), img.get_pixel(bx, by));
            sum = sum + d as u64;
            n = n + 3;
        }
        proof {
            assert(oy * ow + ow == (oy + 1) * ow) by (nonlinear_arith);
        }
    }
    proof {
        assert(out_h * ow == out_w * out_h) by (nonlinear_arith)
            requires
                ow == out_w,
        ;
    }
    (sum, n)
}

/// The distance between two coordinates.
pub open spec fn gap(a: u32, b: u32) -> int {
    if a < b {
        b - a
    } else {
        a - b
    }
}

fn gap_of(a: u32, b: u32) -> (d: u32)
    ensures
        d == gap(a, b),
{
    if a < b {
        b - a
    } else {
        a - b
    }
}

/// Whether two places are compared: they are at least three hundred rows apart, and at most a
/// hundred and twenty columns.
pub open spec fn far_apart(p: (u32, u32), q: (u32, u32)) -> bool {
    gap(p.1, q.1) >= 300 && gap(p.0, q.0) <= 120
}

/// Two places that look alike, by their indices.
#[derive(Debug, Clone, Copy)]
pub struct Match {
    pub score: Single,
    pub a: usize,
    pub b: usize,
}

/// The pieces of an image that are compared: where they are, how large they are, how similar they
/// have to be, and how many samples tell their difference.
pub struct Pieces {
    pub img: RgbImage,
    pub spots: Seq<(u32, u32)>,
    pub width: u32,
    pub height: u32,
    pub floor: Single,
    pub ow: int,
    pub oh: int,
}

impl Pieces {
    /// The rectangle of the piece `i`.
    pub open spec fn rect(&self, i: int) -> [u32; 4] {
        [self.spots[i].0, self.spots[i].1, self.width, self.height]
    }

    /// Whether the pieces `i` and `j` are compared. An image without columns has nothing to compare.
    pub open spec fn compared(&self, i: int, j: int) -> bool {
        i < j && self.img.w() > 0 && far_apart(self.spots[i], self.spots[j])
    }

    /// The pieces `i` and `j`, where they look alike: they are similar enough, and the mean
    /// difference of their samples is below fifteen.
    pub open spec fn alike(&self, scores: Seq<Single>, i: int, j: int) -> Option<Match> {
        let s = scores[cell(self.spots.len() as int, j, i)];
        if self.compared(i, j) && self.floor.le(s) && rect_difference(
            self.img,
            self.rect(i),
            self.rect(j),
            self.ow,
            self.oh,
        ) < 15 * (3 * (self.ow * self.oh)) {
            Some(Match { score: s, a: i as usize, b: j as usize })
        } else {
            None
        }
    }

    /// Whether the scores hold the similarities of the pieces that are compared.
    pub open spec fn are_similarities<D: Fn(&Vec<Single>, &Vec<Single>) -> Single>(
        &self,
        dot: D,
        feats: Seq<Vec<Single>>,
        scores: Seq<Single>,
    ) -> bool {
        forall|i: int, j: int|
            0 <= i < self.spots.len() && 0 <= j < self.spots.len() && self.compared(i, j)
                ==> call_ensures(
                dot,
                (&feats[i], &feats[j]),
                #[trigger] scores[cell(self.spots.len() as int, j, i)],
            )
    }

    /// The pieces that look alike, in the order of their indices.
    pub open spec fn matches_of(&self, scores: Seq<Single>, n: int) -> Seq<Match> {
        gathered(self.spots.len() as int, n, |j: int, i: int| self.alike(scores, i, j))
    }

    /// Whether these are the pieces that look alike, the most similar ones first.
    pub open spec fn are_ranked<D: Fn(&Vec<Single>, &Vec<Single>) -> Single>(
        &self,
        dot: D,
        feats: Seq<Vec<Single>>,
        ranked: Seq<Match>,
    ) -> bool {
        exists|scores: Seq<Single>, order: Seq<usize>|
            {
                &&& self.are_similarities(dot, feats, scores)
                &&& #[trigger] is_ranking(
                    self.matches_of(scores, (self.spots.len() * self.spots.len()) as int),
                    order,
                    ranked,
                )
            }
    }
}

/// Keys that put the higher scores first.
pub open spec fn score_keys(found: Seq<Match>) -> Seq<i64> {
    Seq::new(found.len(), |i: int| (-found[i].score.total_rank()) as i64)
}

/// Whether the matches are ranked by their scores, in this order.
pub open spec fn is_ranking(found: Seq<Match>, order: Seq<usize>, ranked: Seq<Match>) -> bool {
    &&& is_sorting(score_keys(found), all_indices(found.len()), order)
    &&& ranked == Seq::new(order.len(), |k: int| found[order[k] as int])
}

/// Whether a function takes any two features.
pub open spec fn takes_features<D: Fn(&Vec<Single>, &Vec<Single>) -> Single>(dot: D) -> bool {
    forall|a: &Vec<Single>, b: &Vec<Single>| #[trigger] call_requires(dot, (a, b))
}

/// The pieces that look alike, in the order of their indices.
#[verifier::loop_isolation(false)]
fn find_matches<D: Fn(&Vec<Single>, &Vec<Single>) -> Single>(
    img: &RgbImage,
    spots: &Vec<(u32, u32)>,
    feats: &Vec<Vec<Single>>,
    width: u32,
    height: u32,
    floor: Single,
    out_w: u32,
    out_h: u32,
    dot: &D,
    Ghost(pieces): Ghost<Pieces>,
) -> (r: (Vec<Match>, Ghost<Seq<Single>>))
    requires
        pieces == (Pieces {
            img: *img,
            spots: spots@,
            width,
            height,
            floor,
            ow: out_w as int,
            oh: out_h as int,
        }),
        feats@.len() == spots@.len(),
        out_w <= 1000,
        out_h <= 1000,
        img.w() <= i32::MAX,
        img.h() <= i32::MAX,
        forall|i: int|
            0 <= i < spots@.len() ==> (#[trigger] spots@[i]).0 + width <= img.w() && spots@[i].1
                + height <= img.h(),
        takes_features(*dot),
    ensures
        pieces.are_similarities(*dot, feats@, r.1@),
        r.0@ == pieces.matches_of(r.1@, (spots@.len() * spots@.len()) as int),
{
    let n: usize = spots.len();
    let (w, h) = img.dimensions();
    let ghost mut scores: Seq<Single> = Seq::empty();
    let mut found: Vec<Match> = Vec::new();
    proof {
        assert(0 * n == 0) by (nonlinear_arith);
    }
    for i in 0..n
        invariant
            scores.len() == i * n,
            found@ == pieces.matches_of(scores, i * n),
            forall|a: int, b: int|
                0 <= a < i && 0 <= b < n && pieces.compared(a, b) ==> call_ensures(
                    *dot,
                    (&feats@[a], &feats@[b]),
                    #[trigger] scores[cell(n as int, b, a)],
                ),
    {
        for j in 0..n
            invariant
                0 <= i * n,
                scores.len() == i * n + j,
                found@ == pieces.matches_of(scores, i * n + j),
                forall|a: int, b: int|
                    0 <= a <= i && 0 <= b < n && (a < i || b < j) && pieces.compared(a, b)
                        ==> call_ensures(
                        *dot,
                        (&feats@[a], &feats@[b]),
                        #[trigger] scores[cell(n as int, b, a)],
                    ),
        {
            let ghost was = scores;
            let (x1, y1) = spots[i];
            let (x2, y2) = spots[j];
            let mut s = Single::zero();
            let compare = i < j && w > 0 && gap_of(y1, y2) >= 300 && gap_of(x1, x2) <= 120;
            assert(compare == pieces.compared(i as int, j as int));
            if compare {
                s = dot(&feats[i], &feats[j]);
            }
            proof {
                scores = scores.push(s);
                lemma_cell_bound(n as int, n as int, j as int, i as int);
                lemma_gather_cell(
                    n as int,
                    j as int,
                    i as int,
                    |b: int, a: int| pieces.alike(scores, a, b),
                );
                lemma_matches_prefix(pieces, was, scores, i * n + j);
                assert(scores[cell(n as int, j as int, i as int)] == s);
                assert forall|a: int, b: int|
                    0 <= a <= i && 0 <= b < n && (a < i || b < j + 1) && pieces.compared(a, b)
                    implies call_ensures(
                    *dot,
                    (&feats@[a], &feats@[b]),
                    #[trigger] scores[cell(n as int, b, a)],
                ) by {
                    crate::grid::lemma_cell_order(n as int, b, a, j as int, i as int);
                    lemma_cell_bound(n as int, n as int, b, a);
                    if !(a == i && b == j) {
                        assert(scores[cell(n as int, b, a)] == was[cell(n as int, b, a)]);
                    }
                }
            }
            if compare {
                let rect_a: [u32; 4] = [x1, y1, width, height];
                let rect_b: [u32; 4] = [x2, y2, width, height];
                proof {
                    assert(spots@[i as int].0 + width <= img.w());
                    assert(spots@[j as int].0 + width <= img.w());
                    assert(0 <= out_w * out_h <= 1000 * 1000) by (nonlinear_arith)
                        requires
                            0 <= out_w <= 1000,
                            0 <= out_h <= 1000,
                    ;
                    assert(rect_a =~= pieces.rect(i as int));
                    assert(rect_b =~= pieces.rect(j as int));
                }
                let (sum, terms) = avg_abs_diff_rect(img, rect_a, rect_b, out_w, out_h);
                if floor.is_at_most(s) && sum < 15 * terms {
                    found.push(Match { score: s, a: i, b: j });
                }
            }
        }
        proof {
            assert(i * n + n == (i + 1) * n) by (nonlinear_arith);
        }
    }
    (found, Ghost(scores))
}

proof fn lemma_matches_prefix(pieces: Pieces, a: Seq<Single>, b: Seq<Single>, n: int)
    requires
        0 <= n <= a.len(),
        n <= b.len(),
        forall|k: int| 0 <= k < n ==> a[k] == #[trigger] b[k],
        n <= pieces.spots.len() * pieces.spots.len(),
    ensures
        pieces.matches_of(a, n) == pieces.matches_of(b, n),
    decreases n,
{
    if n > 0 {
        lemma_matches_prefix(pieces, a, b, n - 1);
        let w = pieces.spots.len() as int;
        crate::grid::lemma_cell_of_index(w, w, n - 1);
    }
}

/// The matches with the most similar ones first; those of the same score keep their order.
fn rank(found: &Vec<Match>) -> (r: (Vec<Match>, Ghost<Seq<usize>>))
    ensures
        is_ranking(found@, r.1@, r.0@),
{
    let mut keys: Vec<i64> = Vec::new();
    for i in 0..found.len()
        invariant
            keys@ == score_keys(found@).take(i as int),
    {
        keys.push(-found[i].score.total_order_key());
        assert(keys@ =~= score_keys(found@).take(i + 1));
    }
    assert(keys@ =~= score_keys(found@));
    let order = stable_order(&keys);
    proof {
        assert forall|i: int| 0 <= i < order@.len() implies #[trigger] order@[i] < found@.len() by {
            assert(order@.contains(order@[i]));
            assert(all_indices(keys@.len()).contains(order@[i]));
        }
    }
    let mut ranked: Vec<Match> = Vec::new();
    for i in 0..order.len()
        invariant
            forall|k: int| 0 <= k < order@.len() ==> #[trigger] order@[k] < found@.len(),
            ranked@ == Seq::new(i as nat, |k: int| found@[order@[k] as int]),
    {
        ranked.push(found[order[i]]);
        assert(ranked@ =~= Seq::new((i + 1) as nat, |k: int| found@[order@[k] as int]));
    }
    (ranked, Ghost(order@))
}

/// Those of the first `n` items that are picked, one after another: an item is picked unless it
/// clashes with one that was picked before, or there are enough of them.
pub open spec fn picked<T>(
    items: Seq<T>,
    enough: nat,
    clash: spec_fn(T, T) -> bool,
    n: int,
) -> Seq<T>
    decreases n,
{
    if n <= 0 {
        Seq::empty()
    } else {
        let before = picked(items, enough, clash, n - 1);
        if before.len() < enough && !clashes(items[n - 1], before, clash) {
            before.push(items[n - 1])
        } else {
            before
        }
    }
}

/// Whether an item clashes with one of the others.
pub open spec fn clashes<T>(item: T, others: Seq<T>, clash: spec_fn(T, T) -> bool) -> bool {
    exists|k: int| 0 <= k < others.len() && clash(item, #[trigger] others[k])
}

/// What is picked is no more than enough, comes from the items, and does not clash: no item with
/// one that was picked before it.
pub proof fn picked_items_do_not_clash<T>(
    items: Seq<T>,
    enough: nat,
    clash: spec_fn(T, T) -> bool,
    n: int,
)
    requires
        0 <= n <= items.len(),
    ensures
        picked(items, enough, clash, n).len() <= enough,
        picked(items, enough, clash, n).len() <= n,
        forall|k: int|
            0 <= k < picked(items, enough, clash, n).len() ==> items.take(n).contains(
                #[trigger] picked(items, enough, clash, n)[k],
            ),
        forall|j: int, k: int|
            0 <= j < k < picked(items, enough, clash, n).len() ==> !clash(
                #[trigger] picked(items, enough, clash, n)[k],
                #[trigger] picked(items, enough, clash, n)[j],
            ),
    decreases n,
{
    if n > 0 {
        picked_items_do_not_clash(items, enough, clash, n - 1);
        let before = picked(items, enough, clash, n - 1);
        let after = picked(items, enough, clash, n);
        assert forall|k: int| 0 <= k < after.len() implies items.take(n).contains(
            #[trigger] after[k],
        ) by {
            if k < before.len() {
                let shorter = items.take(n - 1);
                assert(shorter.contains(before[k]));
                let i = choose|i: int| 0 <= i < shorter.len() && shorter[i] == before[k];
                assert(items.take(n)[i] == after[k]);
            } else {
                assert(items.take(n)[n - 1] == after[k]);
            }
        }
    }
}

/// The most similar item is always picked.
pub proof fn first_item_is_picked<T>(
    items: Seq<T>,
    enough: nat,
    clash: spec_fn(T, T) -> bool,
    n: int,
)
    requires
        0 < n <= items.len(),
        enough > 0,
    ensures
        picked(items, enough, clash, n).len() > 0,
        picked(items, enough, clash, n)[0] == items[0],
    decreases n,
{
    if n > 1 {
        first_item_is_picked(items, enough, clash, n - 1);
    } else {
        assert(picked(items, enough, clash, 0).len() == 0);
        assert(!clashes(items[0], picked(items, enough, clash, 0), clash));
    }
}

/// Two pairs of bands are the same find unless their upper bands, or their lower ones, are more
/// than half a band apart.
pub open spec fn band_clash(height: u32) -> spec_fn(DuplicateBand, DuplicateBand) -> bool {
    |a: DuplicateBand, b: DuplicateBand|
        gap(a.y1, b.y1) <= height / 2 && gap(a.y2, b.y2) <= height / 2
}

/// Whether two rectangles are less than half their size apart.
pub open spec fn near(a: [u32; 4], b: [u32; 4], width: u32, height: u32) -> bool {
    gap(a[0], b[0]) < width / 2 && gap(a[1], b[1]) < height / 2
}

/// Two pairs of patches are the same find where their rectangles are near each other.
pub open spec fn patch_clash(width: u32, height: u32) -> spec_fn(
    DuplicatePatch,
    DuplicatePatch,
) -> bool {
    |a: DuplicatePatch, b: DuplicatePatch|
        near(a.rect_a, b.rect_a, width, height) && near(a.rect_b, b.rect_b, width, height)
}

/// Whether two pairs of patches are the same find.
pub fn patch_pair_close(
    a: &DuplicatePatch,
    b: &DuplicatePatch,
    patch_w: u32,
    patch_h: u32,
) -> (r: bool)
    ensures
        r == patch_clash(patch_w, patch_h)(*a, *b),
{
    gap_of(a.rect_a[0], b.rect_a[0]) < patch_w / 2 && gap_of(a.rect_a[1], b.rect_a[1]) < patch_h / 2
        && gap_of(a.rect_b[0], b.rect_b[0]) < patch_w / 2 && gap_of(a.rect_b[1], b.rect_b[1])
        < patch_h / 2
}

fn pick_bands(items: &Vec<DuplicateBand>, height: u32) -> (selected: Vec<DuplicateBand>)
    ensures
        selected@ == picked(items@, 12, band_clash(height), items@.len() as int),
{
    let mut selected: Vec<DuplicateBand> = Vec::new();
    for i in 0..items.len()
        invariant
            selected@ == picked(items@, 12, band_clash(height), i as int),
    {
        if selected.len() < 12 {
            let c = items[i];
            let mut clash = false;
            for k in 0..selected.len()
                invariant
                    clash == clashes(c, selected@.take(k as int), band_clash(height)),
            {
                let ghost before = selected@.take(k as int);
                let s = selected[k];
                let hit = gap_of(c.y1, s.y1) <= height / 2 && gap_of(c.y2, s.y2) <= height / 2;
                assert(hit == band_clash(height)(c, s));
                proof {
                    lemma_clashes_push(c, before, s, band_clash(height));
                    assert(selected@.take(k + 1) =~= before.push(s));
                }
                clash = clash || hit;
            }
            assert(selected@.take(selected@.len() as int) =~= selected@);
            if !clash {
                selected.push(c);
            }
        }
    }
    selected
}

fn pick_patches(items: &Vec<DuplicatePatch>, width: u32, height: u32) -> (selected: Vec<
    DuplicatePatch,
>)
    ensures
        selected@ == picked(items@, 20, patch_clash(width, height), items@.len() as int),
{
    let mut selected: Vec<DuplicatePatch> = Vec::new();
    for i in 0..items.len()
        invariant
            selected@ == picked(items@, 20, patch_clash(width, height), i as int),
    {
        if selected.len() < 20 {
            let c = items[i];
            let mut clash = false;
            for k in 0..selected.len()
                invariant
                    clash == clashes(c, selected@.take(k as int), patch_clash(width, height)),
            {
                let ghost before = selected@.take(k as int);
                let hit = patch_pair_close(&c, &selected[k], width, height);
                proof {
                    lemma_clashes_push(
                        c,
                        before,
                        selected@[k as int],
                        patch_clash(width, height),
                    );
                    assert(selected@.take(k + 1) =~= before.push(selected@[k as int]));
                }
                clash = clash || hit;
            }
            assert(selected@.take(selected@.len() as int) =~= selected@);
            if !clash {
                selected.push(c);
            }
        }
    }
    selected
}

proof fn lemma_clashes_push<T>(item: T, others: Seq<T>, other: T, clash: spec_fn(T, T) -> bool)
    ensures
        clashes(item, others.push(other), clash) == (clashes(item, others, clash) || clash(
            item,
            other,
        )),
{
    let all = others.push(other);
    if clashes(item, others, clash) {
        let k = choose|k: int| 0 <= k < others.len() && clash(item, #[trigger] others[k]);
        assert(clash(item, all[k]));
    }
    if clash(item, other) {
        assert(all[others.len() as int] == other);
    }
    if clashes(item, all, clash) {
        let k = choose|k: int| 0 <= k < all.len() && clash(item, #[trigger] all[k]);
        if k < others.len() {
            assert(clash(item, others[k]));
        }
    }
}

/// Whether a rectangle, given by its corner, its width and its height, lies in an image.
pub open spec fn lies_in(rect: [u32; 4], img: RgbImage) -> bool {
    &&& rect[0] + rect[2] <= img.w()
    &&& rect[1] + rect[3] <= img.h()
}

/// Whether a function takes every rectangle of an image, with at most 384 by 48 samples.
pub open spec fn takes_rects<F: Fn(&RgbImage, [u32; 4], u32, u32) -> Vec<Single>>(
    feature: F,
    img: RgbImage,
) -> bool {
    forall|rect: [u32; 4], ow: u32, oh: u32|
        lies_in(rect, img) && ow <= 384 && oh <= 48 ==> #[trigger] call_requires(
            feature,
            (&img, rect, ow, oh),
        )
}

/// Whether these are the features of the pieces, with `ow` by `oh` samples each.
pub open spec fn are_features<F: Fn(&RgbImage, [u32; 4], u32, u32) -> Vec<Single>>(
    feature: F,
    img: RgbImage,
    spots: Seq<(u32, u32)>,
    width: u32,
    height: u32,
    ow: u32,
    oh: u32,
    feats: Seq<Vec<Single>>,
) -> bool {
    &&& feats.len() == spots.len()
    &&& forall|k: int|
        0 <= k < feats.len() ==> call_ensures(
            feature,
            (&img, [spots[k].0, spots[k].1, width, height], ow, oh),
            #[trigger] feats[k],
        )
}

/// The bands of an image: their height, and where they start.
pub open spec fn band_pieces(img: RgbImage) -> Pieces {
    let height = piece(img.h(), 3, 80, 180) as u32;
    let ys = starts(img.h(), height as int, 10);
    Pieces {
        img,
        spots: Seq::new(ys.len(), |k: int| (0u32, ys[k])),
        width: img.w() as u32,
        height,
        floor: Single { bits: 0x3f77_0a3d },
        ow: 384,
        oh: 45,
    }
}

/// A match of two bands.
pub open spec fn as_band(pieces: Pieces) -> spec_fn(Match) -> DuplicateBand {
    |m: Match|
        DuplicateBand {
            score: m.score,
            y1: pieces.spots[m.a as int].1,
            y2: pieces.spots[m.b as int].1,
            height: pieces.height,
        }
}

/// A match of two patches.
pub open spec fn as_patch(pieces: Pieces) -> spec_fn(Match) -> DuplicatePatch {
    |m: Match|
        DuplicatePatch {
            score: m.score,
            rect_a: pieces.rect(m.a as int),
            rect_b: pieces.rect(m.b as int),
        }
}

/// Whether these are the bands that occur twice: of the bands that look alike, ranked by their
/// similarity, at most twelve finds.
pub open spec fn are_bands<
    F: Fn(&RgbImage, [u32; 4], u32, u32) -> Vec<Single>,
    D: Fn(&Vec<Single>, &Vec<Single>) -> Single,
>(feature: F, dot: D, img: RgbImage, bands: Seq<DuplicateBand>) -> bool {
    let p = band_pieces(img);
    exists|feats: Seq<Vec<Single>>, ranked: Seq<Match>|
        {
            &&& are_features(
                feature,
                img,
                p.spots,
                p.width,
                p.height,
                384,
                (p.height / 4) as u32,
                feats,
            )
            &&& #[trigger] p.are_ranked(dot, feats, ranked)
            &&& bands == picked(
                ranked.map_values(as_band(p)),
                12,
                band_clash(p.height),
                ranked.len() as int,
            )
        }
}

/// The patches of an image that have enough energy: their size, and where they are.
pub open spec fn patch_pieces(img: RgbImage, spots: Seq<(u32, u32)>) -> Pieces {
    Pieces {
        img,
        spots,
        width: piece(img.w(), 2, 120, 360) as u32,
        height: piece(img.h(), 3, 100, 240) as u32,
        floor: Single { bits: 0x3f78_d4fe },
        ow: 72,
        oh: 48,
    }
}

/// The columns where patches start.
pub open spec fn patch_xs(img: RgbImage) -> Seq<u32> {
    starts(img.w(), piece(img.w(), 2, 120, 360), 90)
}

/// The rows where patches start.
pub open spec fn patch_ys(img: RgbImage) -> Seq<u32> {
    starts(img.h(), piece(img.h(), 3, 100, 240), 40)
}

/// Whether a function takes any features.
pub open spec fn takes_feature<E: Fn(&Vec<Single>) -> Single>(energy: E) -> bool {
    forall|v: &Vec<Single>| #[trigger] call_requires(energy, (v,))
}

/// Whether these are the features and the energies of all patches of an image, row by row.
pub open spec fn are_all_patches<
    F: Fn(&RgbImage, [u32; 4], u32, u32) -> Vec<Single>,
    E: Fn(&Vec<Single>) -> Single,
>(
    feature: F,
    energy: E,
    img: RgbImage,
    n: int,
    all: Seq<Vec<Single>>,
    energies: Seq<Single>,
) -> bool {
    let p = patch_pieces(img, Seq::empty());
    let nx = patch_xs(img).len() as int;
    &&& all.len() == n
    &&& energies.len() == n
    &&& forall|k: int|
        #![trigger all[k]]
        #![trigger energies[k]]
        0 <= k < n ==> call_ensures(
            feature,
            (&img, [patch_xs(img)[k % nx], patch_ys(img)[k / nx], p.width, p.height], 72u32, 48u32),
            all[k],
        ) && call_ensures(energy, (&all[k],), energies[k])
}

/// Where a patch is, if it has an energy above a ten-thousandth.
pub open spec fn lively_spot(img: RgbImage, energies: Seq<Single>) -> spec_fn(int, int) -> Option<
    (u32, u32),
> {
    |a: int, b: int|
        if (Single { bits: 0x38d1_b717 }).lt(
            energies[cell(patch_xs(img).len() as int, a, b)],
        ) {
            Some((patch_xs(img)[a], patch_ys(img)[b]))
        } else {
            None
        }
}

/// The features of a patch, if it has an energy above a ten-thousandth.
pub open spec fn lively_feature(
    img: RgbImage,
    all: Seq<Vec<Single>>,
    energies: Seq<Single>,
) -> spec_fn(int, int) -> Option<Vec<Single>> {
    |a: int, b: int|
        if (Single { bits: 0x38d1_b717 }).lt(
            energies[cell(patch_xs(img).len() as int, a, b)],
        ) {
            Some(all[cell(patch_xs(img).len() as int, a, b)])
        } else {
            None
        }
}

/// Whether these are the patches with enough energy, and their features.
pub open spec fn are_lively<
    F: Fn(&RgbImage, [u32; 4], u32, u32) -> Vec<Single>,
    E: Fn(&Vec<Single>) -> Single,
>(
    feature: F,
    energy: E,
    img: RgbImage,
    spots: Seq<(u32, u32)>,
    feats: Seq<Vec<Single>>,
) -> bool {
    let nx = patch_xs(img).len() as int;
    let n = patch_ys(img).len() * nx;
    exists|all: Seq<Vec<Single>>, energies: Seq<Single>|
        {
            &&& #[trigger] are_all_patches(feature, energy, img, n, all, energies)
            &&& spots == gathered(nx, n, lively_spot(img, energies))
            &&& feats == gathered(nx, n, lively_feature(img, all, energies))
        }
}

/// Whether these are the patches that occur twice: of the patches that look alike, ranked by their
/// similarity, at most twenty finds.
pub open spec fn are_patches<
    F: Fn(&RgbImage, [u32; 4], u32, u32) -> Vec<Single>,
    E: Fn(&Vec<Single>) -> Single,
    D: Fn(&Vec<Single>, &Vec<Single>) -> Single,
>(feature: F, energy: E, dot: D, img: RgbImage, patches: Seq<DuplicatePatch>) -> bool {
    exists|spots: Seq<(u32, u32)>, feats: Seq<Vec<Single>>, ranked: Seq<Match>|
        {
            &&& are_lively(feature, energy, img, spots, feats)
            &&& #[trigger] patch_pieces(img, spots).are_ranked(dot, feats, ranked)
            &&& patches == picked_patches(patch_pieces(img, spots), ranked)
        }
}

/// The finds among the patches that look alike.
pub open spec fn picked_patches(p: Pieces, ranked: Seq<Match>) -> Seq<DuplicatePatch> {
    picked(
        ranked.map_values(as_patch(p)),
        20,
        patch_clash(p.width, p.height),
        ranked.len() as int,
    )
}

/// The bands of rows that occur twice.
pub fn detect_duplicate_bands<
    F: Fn(&RgbImage, [u32; 4], u32, u32) -> Vec<Single>,
    D: Fn(&Vec<Single>, &Vec<Single>) -> Single,
>(img: &RgbImage, feature: &F, dot: &D) -> (bands: Vec<DuplicateBand>)
    requires
        img.w() <= i32::MAX,
        img.h() <= i32::MAX,
        takes_rects(*feature, *img),
        takes_features(*dot),
    ensures
        are_bands(*feature, *dot, *img, bands@),
{
    let ghost p = band_pieces(*img);
    let (w, h) = img.dimensions();
    let height: u32 = piece_of(h, 3, 80, 180);
    let ys = starts_of(h, height, 10);
    let floor = Single { bits: 0x3f77_0a3d };
    let mut spots: Vec<(u32, u32)> = Vec::new();
    let mut feats: Vec<Vec<Single>> = Vec::new();
    for k in 0..ys.len()
        invariant
            takes_rects(*feature, *img),
            w == img.w(),
            h == img.h(),
            height <= h,
            height <= 180,
            spots@ == Seq::new(k as nat, |j: int| (0u32, ys@[j])),
            forall|j: int| 0 <= j < ys@.len() ==> #[trigger] ys@[j] <= h - height,
            feats@.len() == k,
            forall|j: int|
                0 <= j < k ==> call_ensures(
                    *feature,
                    (img, [0u32, ys@[j], w, height], 384u32, (height / 4) as u32),
                    #[trigger] feats@[j],
                ),
    {
        let rect: [u32; 4] = [0, ys[k], w, height];
        let f = feature(img, rect, 384, height / 4);
        proof {
            let same: [u32; 4] = [0u32, ys@[k as int], w, height];
            assert(rect =~= same);
        }
        spots.push((0, ys[k]));
        feats.push(f);
        assert(spots@ =~= Seq::new((k + 1) as nat, |j: int| (0u32, ys@[j])));
    }
    proof {
        assert(spots@ =~= p.spots);
    }
    let (found, Ghost(scores)) = find_matches(
        img,
        &spots,
        &feats,
        w,
        height,
        floor,
        384,
        45,
        dot,
        Ghost(p),
    );
    let (ranked, Ghost(order)) = rank(&found);
    assert(p.are_ranked(*dot, feats@, ranked@));
    let mut items: Vec<DuplicateBand> = Vec::new();
    proof {
        lemma_ranked_in_range(p, scores, order, ranked@);
    }
    for k in 0..ranked.len()
        invariant
            p.spots == spots@,
            p.height == height,
            forall|j: int| 0 <= j < ranked@.len() ==> is_match(p, #[trigger] ranked@[j]),
            items@ == ranked@.map_values(as_band(p)).take(k as int),
    {
        let m = ranked[k];
        items.push(
            DuplicateBand { score: m.score, y1: spots[m.a].1, y2: spots[m.b].1, height },
        );
        assert(items@ =~= ranked@.map_values(as_band(p)).take(k + 1));
    }
    assert(items@ =~= ranked@.map_values(as_band(p)));
    pick_bands(&items, height)
}

/// Whether a match names two pieces that are compared and similar enough.
spec fn is_match(p: Pieces, m: Match) -> bool {
    &&& m.a < p.spots.len()
    &&& m.b < p.spots.len()
    &&& far_apart(p.spots[m.a as int], p.spots[m.b as int])
    &&& p.floor.le(m.score)
}

/// The matches of the pieces name pieces that are compared and similar enough.
proof fn lemma_matches_in_range(p: Pieces, scores: Seq<Single>, n: int)
    requires
        0 <= n <= p.spots.len() * p.spots.len(),
        p.spots.len() <= usize::MAX,
    ensures
        forall|k: int|
            0 <= k < p.matches_of(scores, n).len() ==> is_match(
                p,
                #[trigger] p.matches_of(scores, n)[k],
            ),
    decreases n,
{
    if n > 0 {
        lemma_matches_in_range(p, scores, n - 1);
        let w = p.spots.len() as int;
        crate::grid::lemma_cell_of_index(w, w, n - 1);
        let before = p.matches_of(scores, n - 1);
        let after = p.matches_of(scores, n);
        let last = p.alike(scores, (n - 1) / w, (n - 1) % w);
        assert(after == match last {
            Some(m) => before.push(m),
            None => before,
        });
        assert forall|k: int| 0 <= k < after.len() implies is_match(p, #[trigger] after[k]) by {
            if k < before.len() {
                assert(is_match(p, before[k]));
            }
        }
    }
}

proof fn lemma_ranked_in_range(p: Pieces, scores: Seq<Single>, order: Seq<usize>, ranked: Seq<Match>)
    requires
        p.spots.len() <= usize::MAX,
        is_ranking(
            p.matches_of(scores, (p.spots.len() * p.spots.len()) as int),
            order,
            ranked,
        ),
    ensures
        forall|j: int| 0 <= j < ranked.len() ==> is_match(p, #[trigger] ranked[j]),
        forall|j: int, k: int|
            0 <= j < k < ranked.len() ==> (#[trigger] ranked[k]).score.total_rank() <= (
            #[trigger] ranked[j]).score.total_rank(),
{
    let n = (p.spots.len() * p.spots.len()) as int;
    let found = p.matches_of(scores, n);
    assert(0 <= n) by (nonlinear_arith)
        requires
            n == p.spots.len() * p.spots.len(),
    ;
    lemma_matches_in_range(p, scores, n);
    assert forall|j: int| 0 <= j < ranked.len() implies is_match(p, #[trigger] ranked[j])
        && order[j] < found.len() by {
        assert(order.contains(order[j]));
        assert(all_indices(found.len()).contains(order[j]));
        assert(ranked[j] == found[order[j] as int]);
    }
    assert forall|j: int, k: int| 0 <= j < k < ranked.len() implies (
    #[trigger] ranked[k]).score.total_rank() <= (#[trigger] ranked[j]).score.total_rank() by {
        assert(crate::order::before(score_keys(found), order[j], order[k]));
        assert(ranked[j] == found[order[j] as int]);
        assert(ranked[k] == found[order[k] as int]);
    }
}

/// What is picked keeps the order of the items.
proof fn lemma_picked_keeps_order<T>(
    items: Seq<T>,
    enough: nat,
    clash: spec_fn(T, T) -> bool,
    rel: spec_fn(T, T) -> bool,
    n: int,
)
    requires
        0 <= n <= items.len(),
        forall|i: int, j: int|
            0 <= i < j < items.len() ==> rel(#[trigger] items[i], #[trigger] items[j]),
    ensures
        forall|j: int, k: int|
            0 <= j < k < picked(items, enough, clash, n).len() ==> rel(
                #[trigger] picked(items, enough, clash, n)[j],
                #[trigger] picked(items, enough, clash, n)[k],
            ),
    decreases n,
{
    if n > 0 {
        lemma_picked_keeps_order(items, enough, clash, rel, n - 1);
        picked_items_do_not_clash(items, enough, clash, n - 1);
        let before = picked(items, enough, clash, n - 1);
        let after = picked(items, enough, clash, n);
        assert forall|j: int, k: int| 0 <= j < k < after.len() implies rel(
            #[trigger] after[j],
            #[trigger] after[k],
        ) by {
            if k >= before.len() {
                let shorter = items.take(n - 1);
                assert(shorter.contains(before[j]));
                let i = choose|i: int| 0 <= i < shorter.len() && shorter[i] == before[j];
                assert(rel(items[i], items[n - 1]));
            }
        }
    }
}

/// The bands that are reported are at most twelve, lie in the image, are similar enough and far
/// apart, come with the most similar ones first, and are different finds.
pub proof fn reported_bands_are_distinct_finds<
    F: Fn(&RgbImage, [u32; 4], u32, u32) -> Vec<Single>,
    D: Fn(&Vec<Single>, &Vec<Single>) -> Single,
>(feature: F, dot: D, img: RgbImage, bands: Seq<DuplicateBand>)
    requires
        img.h() <= i32::MAX,
        are_bands(feature, dot, img, bands),
    ensures
        bands.len() <= 12,
        forall|k: int|
            0 <= k < bands.len() ==> {
                let b = #[trigger] bands[k];
                &&& gap(b.y1, b.y2) >= 300
                &&& (Single { bits: 0x3f77_0a3d }).le(b.score)
                &&& b.height == piece(img.h(), 3, 80, 180)
                &&& b.y1 + b.height <= img.h()
                &&& b.y2 + b.height <= img.h()
            },
        forall|j: int, k: int|
            0 <= j < k < bands.len() ==> {
                let a = #[trigger] bands[j];
                let b = #[trigger] bands[k];
                &&& b.score.total_rank() <= a.score.total_rank()
                &&& gap(a.y1, b.y1) > a.height / 2 || gap(a.y2, b.y2) > a.height / 2
            },
{
    let p = band_pieces(img);
    let (feats, ranked) = choose|feats: Seq<Vec<Single>>, ranked: Seq<Match>|
        {
            &&& are_features(
                feature,
                img,
                p.spots,
                p.width,
                p.height,
                384,
                (p.height / 4) as u32,
                feats,
            )
            &&& #[trigger] p.are_ranked(dot, feats, ranked)
            &&& bands == picked(
                ranked.map_values(as_band(p)),
                12,
                band_clash(p.height),
                ranked.len() as int,
            )
        };
    let (scores, order) = choose|scores: Seq<Single>, order: Seq<usize>|
        {
            &&& p.are_similarities(dot, feats, scores)
            &&& #[trigger] is_ranking(
                p.matches_of(scores, (p.spots.len() * p.spots.len()) as int),
                order,
                ranked,
            )
        };
    let h = img.h();
    let height = piece(h, 3, 80, 180);
    assert(0 <= (h - height) / 10 <= h);
    lemma_ranked_in_range(p, scores, order, ranked);
    let items = ranked.map_values(as_band(p));
    let n = ranked.len() as int;
    picked_items_do_not_clash(items, 12, band_clash(p.height), n);
    lemma_picked_keeps_order(
        items,
        12,
        band_clash(p.height),
        |a: DuplicateBand, b: DuplicateBand| b.score.total_rank() <= a.score.total_rank(),
        n,
    );
    assert(items.take(n) =~= items);
    assert forall|k: int| 0 <= k < bands.len() implies {
        let b = #[trigger] bands[k];
        &&& gap(b.y1, b.y2) >= 300
        &&& (Single { bits: 0x3f77_0a3d }).le(b.score)
        &&& b.height == piece(img.h(), 3, 80, 180)
        &&& b.y1 + b.height <= img.h()
        &&& b.y2 + b.height <= img.h()
    } by {
        assert(items.contains(bands[k]));
        let i = choose|i: int| 0 <= i < items.len() && items[i] == bands[k];
        assert(is_match(p, ranked[i]));
        lemma_starts_fit(h, height, 10, ranked[i].a as int);
        lemma_starts_fit(h, height, 10, ranked[i].b as int);
    }
    assert forall|j: int, k: int| 0 <= j < k < bands.len() implies {
        let a = #[trigger] bands[j];
        let b = #[trigger] bands[k];
        &&& b.score.total_rank() <= a.score.total_rank()
        &&& gap(a.y1, b.y1) > a.height / 2 || gap(a.y2, b.y2) > a.height / 2
    } by {
        assert(!band_clash(p.height)(bands[k], bands[j]));
        assert(bands[j].height == p.height);
    }
}

/// The patches that are reported are at most twenty, lie in the image, have the same size, are
/// similar enough and far apart, come with the most similar ones first, and are different finds.
pub proof fn reported_patches_are_distinct_finds<
    F: Fn(&RgbImage, [u32; 4], u32, u32) -> Vec<Single>,
    E: Fn(&Vec<Single>) -> Single,
    D: Fn(&Vec<Single>, &Vec<Single>) -> Single,
>(feature: F, energy: E, dot: D, img: RgbImage, patches: Seq<DuplicatePatch>)
    requires
        img.w() <= i32::MAX,
        img.h() <= i32::MAX,
        img.w() * img.h() <= usize::MAX,
        are_patches(feature, energy, dot, img, patches),
    ensures
        patches.len() <= 20,
        forall|k: int|
            0 <= k < patches.len() ==> {
                let b = #[trigger] patches[k];
                &&& lies_in(b.rect_a, img)
                &&& lies_in(b.rect_b, img)
                &&& b.rect_a[2] == b.rect_b[2] && b.rect_a[3] == b.rect_b[3]
                &&& b.rect_a[2] == piece(img.w(), 2, 120, 360)
                &&& b.rect_a[3] == piece(img.h(), 3, 100, 240)
                &&& gap(b.rect_a[1], b.rect_b[1]) >= 300
                &&& gap(b.rect_a[0], b.rect_b[0]) <= 120
                &&& (Single { bits: 0x3f78_d4fe }).le(b.score)
            },
        forall|j: int, k: int|
            0 <= j < k < patches.len() ==> {
                let a = #[trigger] patches[j];
                let b = #[trigger] patches[k];
                &&& b.score.total_rank() <= a.score.total_rank()
                &&& !patch_clash(
                    piece(img.w(), 2, 120, 360) as u32,
                    piece(img.h(), 3, 100, 240) as u32,
                )(b, a)
            },
{
    let (spots, feats, ranked) = choose|
        spots: Seq<(u32, u32)>,
        feats: Seq<Vec<Single>>,
        ranked: Seq<Match>,
    |
        {
            &&& are_lively(feature, energy, img, spots, feats)
            &&& #[trigger] patch_pieces(img, spots).are_ranked(dot, feats, ranked)
            &&& patches == picked_patches(patch_pieces(img, spots), ranked)
        };
    let p = patch_pieces(img, spots);
    let (scores, order) = choose|scores: Seq<Single>, order: Seq<usize>|
        {
            &&& p.are_similarities(dot, feats, scores)
            &&& #[trigger] is_ranking(
                p.matches_of(scores, (p.spots.len() * p.spots.len()) as int),
                order,
                ranked,
            )
        };
    lemma_lively_bound(feature, energy, img, spots, feats);
    lemma_ranked_in_range(p, scores, order, ranked);
    let items = ranked.map_values(as_patch(p));
    let n = ranked.len() as int;
    let clash = patch_clash(p.width, p.height);
    picked_items_do_not_clash(items, 20, clash, n);
    lemma_picked_keeps_order(
        items,
        20,
        clash,
        |a: DuplicatePatch, b: DuplicatePatch| b.score.total_rank() <= a.score.total_rank(),
        n,
    );
    assert(items.take(n) =~= items);
    assert forall|k: int| 0 <= k < patches.len() implies {
        let b = #[trigger] patches[k];
        &&& lies_in(b.rect_a, img)
        &&& lies_in(b.rect_b, img)
        &&& b.rect_a[2] == b.rect_b[2] && b.rect_a[3] == b.rect_b[3]
        &&& b.rect_a[2] == piece(img.w(), 2, 120, 360)
        &&& b.rect_a[3] == piece(img.h(), 3, 100, 240)
        &&& gap(b.rect_a[1], b.rect_b[1]) >= 300
        &&& gap(b.rect_a[0], b.rect_b[0]) <= 120
        &&& (Single { bits: 0x3f78_d4fe }).le(b.score)
    } by {
        assert(items.contains(patches[k]));
        let i = choose|i: int| 0 <= i < items.len() && items[i] == patches[k];
        assert(is_match(p, ranked[i]));
    }
}

proof fn lemma_gathered_bound<T>(w: int, n: int, f: spec_fn(int, int) -> Option<T>)
    requires
        0 <= n,
    ensures
        gathered(w, n, f).len() <= n,
    decreases n,
{
    if n > 0 {
        lemma_gathered_bound(w, n - 1, f);
    }
}

/// Pieces that start at one of the given places end on the side.
proof fn lemma_starts_fit(length: int, size: int, stride: int, k: int)
    requires
        0 <= size <= length <= i32::MAX,
        0 < stride,
        0 <= k < starts(length, size, stride).len(),
    ensures
        starts(length, size, stride)[k] + size <= length,
{
    let limit = length - size;
    assert(0 <= k * stride <= limit) by (nonlinear_arith)
        requires
            0 <= k <= limit / stride,
            0 < stride,
            0 <= limit,
    ;
}

proof fn lemma_lively_spots(img: RgbImage, energies: Seq<Single>, n: int)
    requires
        img.w() <= i32::MAX,
        img.h() <= i32::MAX,
        0 <= n <= patch_ys(img).len() * patch_xs(img).len(),
    ensures
        ({
            let spots = gathered(patch_xs(img).len() as int, n, lively_spot(img, energies));
            forall|i: int|
                0 <= i < spots.len() ==> (#[trigger] spots[i]).0 + piece(img.w(), 2, 120, 360)
                    <= img.w() && spots[i].1 + piece(img.h(), 3, 100, 240) <= img.h()
        }),
    decreases n,
{
    if n > 0 {
        lemma_lively_spots(img, energies, n - 1);
        let nx = patch_xs(img).len() as int;
        let ny = patch_ys(img).len() as int;
        assert(nx * ny == ny * nx) by (nonlinear_arith);
        crate::grid::lemma_cell_of_index(nx, ny, n - 1);
        lemma_starts_fit(img.w(), piece(img.w(), 2, 120, 360), 90, (n - 1) % nx);
        lemma_starts_fit(img.h(), piece(img.h(), 3, 100, 240), 40, (n - 1) / nx);
        let before = gathered(nx, n - 1, lively_spot(img, energies));
        let after = gathered(nx, n, lively_spot(img, energies));
        assert forall|i: int| 0 <= i < after.len() implies (#[trigger] after[i]).0 + piece(
            img.w(),
            2,
            120,
            360,
        ) <= img.w() && after[i].1 + piece(img.h(), 3, 100, 240) <= img.h() by {
            if i < before.len() {
                assert(after[i] == before[i]);
            }
        }
    }
}

/// There are no more patches than an index can name, and they lie in the image.
proof fn lemma_lively_bound<
    F: Fn(&RgbImage, [u32; 4], u32, u32) -> Vec<Single>,
    E: Fn(&Vec<Single>) -> Single,
>(feature: F, energy: E, img: RgbImage, spots: Seq<(u32, u32)>, feats: Seq<Vec<Single>>)
    requires
        img.w() <= i32::MAX,
        img.h() <= i32::MAX,
        img.w() * img.h() <= usize::MAX,
        are_lively(feature, energy, img, spots, feats),
    ensures
        spots.len() <= usize::MAX,
        forall|i: int|
            0 <= i < spots.len() ==> (#[trigger] spots[i]).0 + piece(img.w(), 2, 120, 360)
                <= img.w() && spots[i].1 + piece(img.h(), 3, 100, 240) <= img.h(),
{
    let w = img.w();
    let h = img.h();
    let nx = patch_xs(img).len() as int;
    let ny = patch_ys(img).len() as int;
    let n = ny * nx;
    assert(1 <= nx <= w + 1 && (w > 0 ==> nx <= w));
    assert(1 <= ny <= h + 1 && (h > 0 ==> ny <= h));
    if w > 0 && h > 0 {
        assert(0 <= ny * nx <= w * h) by (nonlinear_arith)
            requires
                0 <= nx <= w,
                0 <= ny <= h,
        ;
    } else {
        assert(0 <= ny * nx <= 0x8000_0000) by (nonlinear_arith)
            requires
                1 <= nx <= 0x8000_0000,
                1 <= ny <= 0x8000_0000,
                nx == 1 || ny == 1,
        ;
    }
    let (all, energies) = choose|all: Seq<Vec<Single>>, energies: Seq<Single>|
        {
            &&& #[trigger] are_all_patches(feature, energy, img, n, all, energies)
            &&& spots == gathered(nx, n, lively_spot(img, energies))
            &&& feats == gathered(nx, n, lively_feature(img, all, energies))
        };
    lemma_gathered_bound(nx, n, lively_spot(img, energies));
    lemma_lively_spots(img, energies, n);
}

/// The patches with enough energy, and their features, row by row.
#[verifier::loop_isolation(false)]
fn lively_patches<
    F: Fn(&RgbImage, [u32; 4], u32, u32) -> Vec<Single>,
    E: Fn(&Vec<Single>) -> Single,
>(img: &RgbImage, feature: &F, energy: &E) -> (r: (Vec<(u32, u32)>, Vec<Vec<Single>>))
    requires
        img.w() <= i32::MAX,
        img.h() <= i32::MAX,
        takes_rects(*feature, *img),
        takes_feature(*energy),
    ensures
        are_lively(*feature, *energy, *img, r.0@, r.1@),
        r.0@.len() == r.1@.len(),
        forall|i: int|
            0 <= i < r.0@.len() ==> (#[trigger] r.0@[i]).0 + piece(img.w(), 2, 120, 360) <= img.w()
                && r.0@[i].1 + piece(img.h(), 3, 100, 240) <= img.h(),
{
    let (w, h) = img.dimensions();
    let width: u32 = piece_of(w, 2, 120, 360);
    let height: u32 = piece_of(h, 3, 100, 240);
    let xs = starts_of(w, width, 90);
    let ys = starts_of(h, height, 40);
    let ghost nx = xs@.len() as int;
    let mut spots: Vec<(u32, u32)> = Vec::new();
    let mut feats: Vec<Vec<Single>> = Vec::new();
    let ghost mut all: Seq<Vec<Single>> = Seq::empty();
    let ghost mut energies: Seq<Single> = Seq::empty();
    proof {
        assert(0 * nx == 0) by (nonlinear_arith);
    }
    for b in 0..ys.len()
        invariant
            are_all_patches(*feature, *energy, *img, b * nx, all, energies),
            spots@ == gathered(nx, b * nx, lively_spot(*img, energies)),
            feats@ == gathered(nx, b * nx, lively_feature(*img, all, energies)),
            spots@.len() == feats@.len(),
            forall|i: int|
                0 <= i < spots@.len() ==> (#[trigger] spots@[i]).0 + width <= w && spots@[i].1
                    + height <= h,
    {
        for a in 0..xs.len()
            invariant
                0 <= b * nx,
                are_all_patches(*feature, *energy, *img, b * nx + a, all, energies),
                spots@ == gathered(nx, b * nx + a, lively_spot(*img, energies)),
                feats@ == gathered(nx, b * nx + a, lively_feature(*img, all, energies)),
                spots@.len() == feats@.len(),
                forall|i: int|
                    0 <= i < spots@.len() ==> (#[trigger] spots@[i]).0 + width <= w && spots@[i].1
                        + height <= h,
        {
            let x: u32 = xs[a];
            let y: u32 = ys[b];
            let rect: [u32; 4] = [x, y, width, height];
            let f = feature(img, rect, 72, 48);
            let e = energy(&f);
            let ghost old_all = all;
            let ghost old_energies = energies;
            proof {
                let k = b * nx + a;
                let p = patch_pieces(*img, Seq::empty());
                crate::grid::lemma_index_of_cell(nx, a as int, b as int);
                assert(cell(nx, a as int, b as int) == k);
                let same = [patch_xs(*img)[k % nx], patch_ys(*img)[k / nx], p.width, p.height];
                assert(rect =~= same);
                all = all.push(f);
                energies = energies.push(e);
                assert forall|j: int|
                    #![trigger all[j]]
                    #![trigger energies[j]]
                    0 <= j < k + 1 implies call_ensures(
                    *feature,
                    (
                        img,
                        [patch_xs(*img)[j % nx], patch_ys(*img)[j / nx], p.width, p.height],
                        72u32,
                        48u32,
                    ),
                    all[j],
                ) && call_ensures(*energy, (&all[j],), energies[j]) by {
                    if j < k {
                        assert(all[j] == old_all[j] && energies[j] == old_energies[j]);
                    }
                }
                lemma_lively_prefix(*img, old_all, old_energies, all, energies, k);
                lemma_gather_cell(nx, a as int, b as int, lively_spot(*img, energies));
                lemma_gather_cell(nx, a as int, b as int, lively_feature(*img, all, energies));
            }
            let bar = Single { bits: 0x38d1_b717 };
            if bar.is_below(e) {
                spots.push((x, y));
                feats.push(f);
            }
        }
        proof {
            assert(b * nx + nx == (b + 1) * nx) by (nonlinear_arith);
        }
    }
    (spots, feats)
}

proof fn lemma_lively_prefix(
    img: RgbImage,
    all: Seq<Vec<Single>>,
    energies: Seq<Single>,
    more: Seq<Vec<Single>>,
    more_energies: Seq<Single>,
    n: int,
)
    requires
        0 <= n <= all.len(),
        n <= energies.len(),
        n <= more.len(),
        n <= more_energies.len(),
        forall|k: int| 0 <= k < n ==> all[k] == #[trigger] more[k],
        forall|k: int| 0 <= k < n ==> energies[k] == #[trigger] more_energies[k],
        0 < patch_xs(img).len(),
    ensures
        ({
            let nx = patch_xs(img).len() as int;
            &&& gathered(nx, n, lively_spot(img, energies)) == gathered(
                nx,
                n,
                lively_spot(img, more_energies),
            )
            &&& gathered(nx, n, lively_feature(img, all, energies)) == gathered(
                nx,
                n,
                lively_feature(img, more, more_energies),
            )
        }),
    decreases n,
{
    if n > 0 {
        lemma_lively_prefix(img, all, energies, more, more_energies, n - 1);
        let nx = patch_xs(img).len() as int;
        let k = n - 1;
        vstd::arithmetic::div_mod::lemma_fundamental_div_mod(k, nx);
        assert(cell(nx, k % nx, k / nx) == k) by (nonlinear_arith)
            requires
                cell(nx, k % nx, k / nx) == (k / nx) * nx + k % nx,
                k == nx * (k / nx) + k % nx,
        ;
    }
}

/// The patches that occur twice.
pub fn detect_duplicate_patches<
    F: Fn(&RgbImage, [u32; 4], u32, u32) -> Vec<Single>,
    E: Fn(&Vec<Single>) -> Single,
    D: Fn(&Vec<Single>, &Vec<Single>) -> Single,
>(img: &RgbImage, feature: &F, energy: &E, dot: &D) -> (patches: Vec<DuplicatePatch>)
    requires
        img.w() <= i32::MAX,
        img.h() <= i32::MAX,
        takes_rects(*feature, *img),
        takes_feature(*energy),
        takes_features(*dot),
    ensures
        are_patches(*feature, *energy, *dot, *img, patches@),
{
    let (w, h) = img.dimensions();
    let width: u32 = piece_of(w, 2, 120, 360);
    let height: u32 = piece_of(h, 3, 100, 240);
    let floor = Single { bits: 0x3f78_d4fe };
    let (spots, feats) = lively_patches(img, feature, energy);
    let ghost p = patch_pieces(*img, spots@);
    assert(p.spots.len() == spots.len());
    let (found, Ghost(scores)) = find_matches(
        img,
        &spots,
        &feats,
        width,
        height,
        floor,
        72,
        48,
        dot,
        Ghost(p),
    );
    let (ranked, Ghost(order)) = rank(&found);
    assert(p.are_ranked(*dot, feats@, ranked@));
    let mut items: Vec<DuplicatePatch> = Vec::new();
    proof {
        lemma_ranked_in_range(p, scores, order, ranked@);
    }
    for k in 0..ranked.len()
        invariant
            p.spots == spots@,
            p.width == width,
            p.height == height,
            forall|j: int| 0 <= j < ranked@.len() ==> is_match(p, #[trigger] ranked@[j]),
            items@ == ranked@.map_values(as_patch(p)).take(k as int),
    {
        let m = ranked[k];
        let (ax, ay) = spots[m.a];
        let (bx, by) = spots[m.b];
        let rect_a: [u32; 4] = [ax, ay, width, height];
        let rect_b: [u32; 4] = [bx, by, width, height];
        proof {
            assert(rect_a =~= p.rect(m.a as int));
            assert(rect_b =~= p.rect(m.b as int));
        }
        items.push(DuplicatePatch { score: m.score, rect_a, rect_b });
        assert(items@ =~= ranked@.map_values(as_patch(p)).take(k + 1));
    }
    assert(items@ =~= ranked@.map_values(as_patch(p)));
    pick_patches(&items, width, height)
}

/// Looks for content that an image shows twice.
pub fn detect_duplicates<
    F: Fn(&RgbImage, [u32; 4], u32, u32) -> Vec<Single>,
    E: Fn(&Vec<Single>) -> Single,
    D: Fn(&Vec<Single>, &Vec<Single>) -> Single,
>(img: &RgbImage, feature: &F, energy: &E, dot: &D) -> (report: DuplicateReport)
    requires
        img.w() <= i32::MAX,
        img.h() <= i32::MAX,
        takes_rects(*feature, *img),
        takes_feature(*energy),
        takes_features(*dot),
    ensures
        is_duplicate_report(*feature, *energy, *dot, *img, report),
{
    let bands = detect_duplicate_bands(img, feature, dot);
    let patches = detect_duplicate_patches(img, feature, energy, dot);
    DuplicateReport {
        passed: bands.len() == 0 && patches.len() == 0,
        band_duplicates: bands,
        patch_duplicates: patches,
    }
}

/// Whether a report holds the bands and the patches that occur twice. It passes where there are
/// none.
pub open spec fn is_duplicate_report<
    F: Fn(&RgbImage, [u32; 4], u32, u32) -> Vec<Single>,
    E: Fn(&Vec<Single>) -> Single,
    D: Fn(&Vec<Single>, &Vec<Single>) -> Single,
>(feature: F, energy: E, dot: D, img: RgbImage, report: DuplicateReport) -> bool {
    &&& are_bands(feature, dot, img, report.band_duplicates@)
    &&& are_patches(feature, energy, dot, img, report.patch_duplicates@)
    &&& report.passed == (report.band_duplicates@.len() == 0 && report.patch_duplicates@.len()
        == 0)
}

/// Every item is picked, or clashes with one that is picked, or enough are picked without it.
pub proof fn what_is_left_out_clashes<T>(
    items: Seq<T>,
    enough: nat,
    clash: spec_fn(T, T) -> bool,
    n: int,
    i: int,
)
    requires
        0 <= i < n <= items.len(),
    ensures
        ({
            let p = picked(items, enough, clash, n);
            p.contains(items[i]) || clashes(items[i], p, clash) || p.len() >= enough
        }),
    decreases n,
{
    let before = picked(items, enough, clash, n - 1);
    let after = picked(items, enough, clash, n);
    if i < n - 1 {
        what_is_left_out_clashes(items, enough, clash, n - 1, i);
        if before.contains(items[i]) {
            let k = choose|k: int| 0 <= k < before.len() && before[k] == items[i];
            assert(after[k] == items[i]);
        }
        if clashes(items[i], before, clash) {
            let k = choose|k: int| 0 <= k < before.len() && clash(items[i], #[trigger] before[k]);
            assert(clash(items[i], after[k]));
        }
    } else if before.len() < enough && !clashes(items[i], before, clash) {
        assert(after[before.len() as int] == items[i]);
    }
}

/// Two pieces that are compared, similar enough and of little difference are ranked among those
/// that look alike.
proof fn lemma_alike_is_ranked<D: Fn(&Vec<Single>, &Vec<Single>) -> Single>(
    p: Pieces,
    dot: D,
    feats: Seq<Vec<Single>>,
    ranked: Seq<Match>,
    i: int,
    j: int,
) -> (r: int)
    requires
        p.spots.len() <= usize::MAX,
        p.are_ranked(dot, feats, ranked),
        0 <= i < p.spots.len(),
        0 <= j < p.spots.len(),
        p.compared(i, j),
        forall|s: Single| #[trigger]
            call_ensures(dot, (&feats[i], &feats[j]), s) ==> p.floor.le(s),
        rect_difference(p.img, p.rect(i), p.rect(j), p.ow, p.oh) < 15 * (3 * (p.ow * p.oh)),
    ensures
        0 <= r < ranked.len(),
        ranked[r].a == i,
        ranked[r].b == j,
{
    let n = p.spots.len() as int;
    let (scores, order) = choose|scores: Seq<Single>, order: Seq<usize>|
        {
            &&& p.are_similarities(dot, feats, scores)
            &&& #[trigger] is_ranking(
                p.matches_of(scores, (p.spots.len() * p.spots.len()) as int),
                order,
                ranked,
            )
        };
    let found = p.matches_of(scores, (p.spots.len() * p.spots.len()) as int);
    let k = cell(n, j, i);
    lemma_cell_bound(n, n, j, i);
    crate::grid::lemma_index_of_cell(n, j, i);
    assert(call_ensures(dot, (&feats[i], &feats[j]), scores[cell(n, j, i)]));
    let f = |b: int, a: int| p.alike(scores, a, b);
    assert(f(k % n, k / n) == p.alike(scores, i, j));
    gathered_values_keep_the_order_of_the_cells(n, n * n, f, k);
    let m = count_where(k as nat, has_value(n, f)) as int;
    assert(found[m] == p.alike(scores, i, j)->0);
    crate::order::sortings_are_no_longer_than_indices(
        score_keys(found),
        all_indices(found.len()),
        order,
    );
    assert(all_indices(found.len())[m] == m as usize);
    assert(all_indices(found.len()).contains(m as usize));
    assert(order.contains(m as usize));
    let r = choose|r: int| 0 <= r < order.len() && order[r] == m as usize;
    assert(ranked[r] == found[m]);
    r
}

/// The differences of two rectangles of the same size, summed over a grid of pixels that are spread
/// evenly over them.
pub open spec fn spread_difference(
    img: RgbImage,
    a: (int, int),
    b: (int, int),
    width: int,
    height: int,
    ow: int,
    oh: int,
) -> int {
    summed(
        ow,
        ow * oh,
        |x: int, y: int|
            channel_distance(
                img.px(a.0 + x * width / ow, a.1 + y * height / oh),
                img.px(b.0 + x * width / ow, b.1 + y * height / oh),
            ),
    )
}

/// The samples of rectangles that lie in the image are spread evenly over them.
pub proof fn samples_are_spread_evenly(
    img: RgbImage,
    a: [u32; 4],
    b: [u32; 4],
    ow: int,
    oh: int,
)
    requires
        0 < ow,
        0 < oh,
        lies_in(a, img),
        lies_in(b, img),
        a[2] == b[2] && a[3] == b[3],
        0 < a[2] && 0 < a[3],
    ensures
        rect_difference(img, a, b, ow, oh) == spread_difference(
            img,
            (a[0] as int, a[1] as int),
            (b[0] as int, b[1] as int),
            a[2] as int,
            a[3] as int,
            ow,
            oh,
        ),
{
    let f = |x: int, y: int| sample_difference(img, a, b, ow, oh, x, y);
    let g = |x: int, y: int|
        channel_distance(
            img.px(a[0] as int + x * a[2] / ow, a[1] as int + y * a[3] / oh),
            img.px(b[0] as int + x * a[2] / ow, b[1] as int + y * a[3] / oh),
        );
    assert forall|x: int, y: int| crate::grid::in_grid(ow, oh, x, y) implies #[trigger] f(x, y)
        == g(x, y) by {
        lemma_share(x, a[2] as int, ow);
        lemma_share(y, a[3] as int, oh);
    }
    assert(0 <= ow * oh) by (nonlinear_arith)
        requires
            0 < ow,
            0 < oh,
    ;
    assert(ow * oh == oh * ow) by (nonlinear_arith);
    crate::grid::sums_of_the_same_values_are_equal(ow, oh, ow * oh, f, g);
}

proof fn lemma_share(x: int, length: int, n: int)
    requires
        0 <= x < n,
        0 < length,
    ensures
        0 <= x * length / n < length,
{
    assert(0 <= x * length < n * length) by (nonlinear_arith)
        requires
            0 <= x < n,
            0 < length,
    ;
    assert(0 <= x * length / n < length) by (nonlinear_arith)
        requires
            0 <= x * length < n * length,
            0 < n,
    ;
}

/// The height of the bands of an image: a third of its rows, but at least eighty and at most a
/// hundred and eighty, and all rows of a low image.
pub open spec fn band_height(h: int) -> int {
    if h <= 80 {
        h
    } else if h <= 240 {
        80
    } else if h <= 540 {
        h / 3
    } else {
        180
    }
}

/// Whether every similarity that the functions can give to two rectangles is a number of at least
/// `floor`.
pub open spec fn surely_similar<
    F: Fn(&RgbImage, [u32; 4], u32, u32) -> Vec<Single>,
    D: Fn(&Vec<Single>, &Vec<Single>) -> Single,
>(
    feature: F,
    dot: D,
    img: RgbImage,
    a: [u32; 4],
    b: [u32; 4],
    ow: u32,
    oh: u32,
    floor: u32,
) -> bool {
    forall|f: Vec<Single>, g: Vec<Single>, s: Single|
        #[trigger] call_ensures(feature, (&img, a, ow, oh), f) && #[trigger] call_ensures(
            feature,
            (&img, b, ow, oh),
            g,
        ) && #[trigger] call_ensures(dot, (&f, &g), s) ==> floor <= s.bits <= 0x7f80_0000
}

/// Wherever two bands of an image stand, if they start ten rows or a multiple apart from its top and
/// three hundred rows or more apart from each other, have a similarity of at least 0.965 and a mean
/// difference below fifteen, a band is reported: these two, or a find within half a band of them, or
/// as many as twelve others.
pub proof fn repeated_bands_are_reported<
    F: Fn(&RgbImage, [u32; 4], u32, u32) -> Vec<Single>,
    D: Fn(&Vec<Single>, &Vec<Single>) -> Single,
>(feature: F, dot: D, img: RgbImage, bands: Seq<DuplicateBand>, y: u32, z: u32)
    requires
        0 < img.w() <= i32::MAX,
        img.h() <= i32::MAX,
        are_bands(feature, dot, img, bands),
        y % 10 == 0,
        z % 10 == 0,
        y + 300 <= z,
        z + band_height(img.h()) <= img.h(),
        surely_similar(
            feature,
            dot,
            img,
            [0, y, img.w() as u32, band_height(img.h()) as u32],
            [0, z, img.w() as u32, band_height(img.h()) as u32],
            384,
            (band_height(img.h()) / 4) as u32,
            0x3f77_0a3d,
        ),
        spread_difference(
            img,
            (0, y as int),
            (0, z as int),
            img.w(),
            band_height(img.h()),
            384,
            45,
        ) < 15 * (3 * (384 * 45)),
    ensures
        bands.len() > 0,
        bands.len() == 12 || exists|k: int|
            {
                &&& 0 <= k < bands.len()
                &&& -(band_height(img.h()) / 2) <= (#[trigger] bands[k]).y1 - y <= band_height(
                    img.h(),
                ) / 2
                &&& -(band_height(img.h()) / 2) <= bands[k].y2 - z <= band_height(img.h()) / 2
            },
{
    let p = band_pieces(img);
    let h = img.h();
    let height = band_height(h);
    assert(piece(h, 3, 80, 180) == height);
    let (feats, ranked) = choose|feats: Seq<Vec<Single>>, ranked: Seq<Match>|
        {
            &&& are_features(
                feature,
                img,
                p.spots,
                p.width,
                p.height,
                384,
                (p.height / 4) as u32,
                feats,
            )
            &&& #[trigger] p.are_ranked(dot, feats, ranked)
            &&& bands == picked(
                ranked.map_values(as_band(p)),
                12,
                band_clash(p.height),
                ranked.len() as int,
            )
        };
    let i = y as int / 10;
    let j = z as int / 10;
    let n = p.spots.len() as int;
    assert(n == (h - height) / 10 + 1);
    assert(0 <= i < j < n);
    assert(p.spots[i] == (0u32, y));
    assert(p.spots[j] == (0u32, z));
    let a: [u32; 4] = [0, y, img.w() as u32, height as u32];
    let b: [u32; 4] = [0, z, img.w() as u32, height as u32];
    assert(p.rect(i) =~= a);
    assert(p.rect(j) =~= b);
    assert(call_ensures(feature, (&img, p.rect(i), 384u32, (height / 4) as u32), feats[i]));
    assert(call_ensures(feature, (&img, p.rect(j), 384u32, (height / 4) as u32), feats[j]));
    assert forall|s: Single| #[trigger] call_ensures(dot, (&feats[i], &feats[j]), s) implies
        p.floor.le(s) by {
        assert(0x3f77_0a3d <= s.bits <= 0x7f80_0000);
    }
    samples_are_spread_evenly(img, a, b, 384, 45);
    let r = lemma_alike_is_ranked(p, dot, feats, ranked, i, j);
    let items = ranked.map_values(as_band(p));
    first_item_is_picked(items, 12, band_clash(p.height), ranked.len() as int);
    what_is_left_out_clashes(items, 12, band_clash(p.height), ranked.len() as int, r);
    picked_items_do_not_clash(items, 12, band_clash(p.height), ranked.len() as int);
    assert(items[r].y1 == y && items[r].y2 == z);
    if bands.contains(items[r]) {
        let k = choose|k: int| 0 <= k < bands.len() && bands[k] == items[r];
        assert(bands[k].y1 == y);
    } else if clashes(items[r], bands, band_clash(p.height)) {
        let k = choose|k: int|
            0 <= k < bands.len() && band_clash(p.height)(items[r], #[trigger] bands[k]);
        assert(gap(items[r].y1, bands[k].y1) <= p.height / 2);
        assert(gap(items[r].y2, bands[k].y2) <= p.height / 2);
        assert(-(height / 2) <= bands[k].y1 - y <= height / 2);
    }
}

/// The width of the patches of an image: half its columns, but at least 120 and at most 360, and all
/// columns of a narrow image.
pub open spec fn patch_width(w: int) -> int {
    if w <= 120 {
        w
    } else if w <= 240 {
        120
    } else if w <= 720 {
        w / 2
    } else {
        360
    }
}

/// The height of the patches of an image: a third of its rows, but at least 100 and at most 240, and
/// all rows of a low image.
pub open spec fn patch_height(h: int) -> int {
    if h <= 100 {
        h
    } else if h <= 300 {
        100
    } else if h <= 720 {
        h / 3
    } else {
        240
    }
}

/// Whether every energy that the functions can give to a rectangle is above a ten-thousandth.
pub open spec fn surely_lively<
    F: Fn(&RgbImage, [u32; 4], u32, u32) -> Vec<Single>,
    E: Fn(&Vec<Single>) -> Single,
>(feature: F, energy: E, img: RgbImage, a: [u32; 4]) -> bool {
    forall|f: Vec<Single>, e: Single|
        #[trigger] call_ensures(feature, (&img, a, 72u32, 48u32), f) && #[trigger] call_ensures(
            energy,
            (&f,),
            e,
        ) ==> 0x38d1_b717 < e.bits <= 0x7f80_0000
}

/// A patch with enough energy is one of the lively ones, with its features; those of earlier rows
/// come first.
proof fn lemma_lively_place<
    F: Fn(&RgbImage, [u32; 4], u32, u32) -> Vec<Single>,
    E: Fn(&Vec<Single>) -> Single,
>(
    feature: F,
    energy: E,
    img: RgbImage,
    all: Seq<Vec<Single>>,
    energies: Seq<Single>,
    spots: Seq<(u32, u32)>,
    feats: Seq<Vec<Single>>,
    x: u32,
    y: u32,
) -> (i: int)
    requires
        0 < img.w() <= i32::MAX,
        img.h() <= i32::MAX,
        are_all_patches(
            feature,
            energy,
            img,
            (patch_ys(img).len() * patch_xs(img).len()) as int,
            all,
            energies,
        ),
        spots == gathered(
            patch_xs(img).len() as int,
            (patch_ys(img).len() * patch_xs(img).len()) as int,
            lively_spot(img, energies),
        ),
        feats == gathered(
            patch_xs(img).len() as int,
            (patch_ys(img).len() * patch_xs(img).len()) as int,
            lively_feature(img, all, energies),
        ),
        x % 90 == 0,
        y % 40 == 0,
        x + patch_width(img.w()) <= img.w(),
        y + patch_height(img.h()) <= img.h(),
        surely_lively(
            feature,
            energy,
            img,
            [x, y, patch_width(img.w()) as u32, patch_height(img.h()) as u32],
        ),
    ensures
        0 <= i < spots.len(),
        i < feats.len(),
        spots[i] == (x, y),
        i == count_where(
            cell(patch_xs(img).len() as int, x as int / 90, y as int / 40) as nat,
            has_value(patch_xs(img).len() as int, lively_spot(img, energies)),
        ),
        call_ensures(
            feature,
            (
                &img,
                [x, y, patch_width(img.w()) as u32, patch_height(img.h()) as u32],
                72u32,
                48u32,
            ),
            feats[i],
        ),
{
    let nx = patch_xs(img).len() as int;
    let ny = patch_ys(img).len() as int;
    let pw = patch_width(img.w());
    let ph = patch_height(img.h());
    assert(piece(img.w(), 2, 120, 360) == pw);
    assert(piece(img.h(), 3, 100, 240) == ph);
    let a = x as int / 90;
    let b = y as int / 40;
    assert(nx == (img.w() - pw) / 90 + 1 && 0 <= a < nx);
    assert(ny == (img.h() - ph) / 40 + 1 && 0 <= b < ny);
    assert(patch_xs(img)[a] == x);
    assert(patch_ys(img)[b] == y);
    let k = cell(nx, a, b);
    lemma_cell_bound(nx, ny, a, b);
    crate::grid::lemma_index_of_cell(nx, a, b);
    assert(nx * ny == ny * nx) by (nonlinear_arith);
    let f = lively_spot(img, energies);
    let g = lively_feature(img, all, energies);
    let rect: [u32; 4] = [x, y, pw as u32, ph as u32];
    let same = [
        patch_xs(img)[k % nx],
        patch_ys(img)[k / nx],
        patch_pieces(img, Seq::empty()).width,
        patch_pieces(img, Seq::empty()).height,
    ];
    assert(same =~= rect);
    assert(call_ensures(feature, (&img, rect, 72u32, 48u32), all[k]));
    assert(call_ensures(energy, (&all[k],), energies[k]));
    assert(f(a, b) == Some((x, y)));
    assert(g(a, b) == Some(all[k]));
    gathered_values_keep_the_order_of_the_cells(nx, ny * nx, f, k);
    gathered_values_keep_the_order_of_the_cells(nx, ny * nx, g, k);
    crate::grid::lemma_count_same(k as nat, has_value(nx, f), has_value(nx, g));
    count_where(k as nat, has_value(nx, f)) as int
}

/// Wherever two patches of an image stand, if they start on its raster of 90 columns and 40 rows,
/// are at least 300 rows and at most 120 columns apart, have enough energy, a similarity of at least
/// 0.972 and a mean difference below fifteen, a patch is reported: these two, or a find within half
/// a patch of them, or as many as twenty others.
pub proof fn repeated_patches_are_reported<
    F: Fn(&RgbImage, [u32; 4], u32, u32) -> Vec<Single>,
    E: Fn(&Vec<Single>) -> Single,
    D: Fn(&Vec<Single>, &Vec<Single>) -> Single,
>(
    feature: F,
    energy: E,
    dot: D,
    img: RgbImage,
    patches: Seq<DuplicatePatch>,
    x: u32,
    y: u32,
    u: u32,
    v: u32,
)
    requires
        0 < img.w() <= i32::MAX,
        img.h() <= i32::MAX,
        img.w() * img.h() <= usize::MAX,
        are_patches(feature, energy, dot, img, patches),
        x % 90 == 0 && u % 90 == 0,
        y % 40 == 0 && v % 40 == 0,
        y + 300 <= v,
        -120 <= u - x <= 120,
        x + patch_width(img.w()) <= img.w(),
        u + patch_width(img.w()) <= img.w(),
        v + patch_height(img.h()) <= img.h(),
        surely_lively(
            feature,
            energy,
            img,
            [x, y, patch_width(img.w()) as u32, patch_height(img.h()) as u32],
        ),
        surely_lively(
            feature,
            energy,
            img,
            [u, v, patch_width(img.w()) as u32, patch_height(img.h()) as u32],
        ),
        surely_similar(
            feature,
            dot,
            img,
            [x, y, patch_width(img.w()) as u32, patch_height(img.h()) as u32],
            [u, v, patch_width(img.w()) as u32, patch_height(img.h()) as u32],
            72,
            48,
            0x3f78_d4fe,
        ),
        spread_difference(
            img,
            (x as int, y as int),
            (u as int, v as int),
            patch_width(img.w()),
            patch_height(img.h()),
            72,
            48,
        ) < 15 * (3 * (72 * 48)),
    ensures
        patches.len() > 0,
        patches.len() == 20 || exists|k: int|
            {
                let d = #[trigger] patches[k];
                let dx = patch_width(img.w()) / 2;
                let dy = patch_height(img.h()) / 2;
                &&& 0 <= k < patches.len()
                &&& -dx <= d.rect_a[0] - x <= dx && -dy <= d.rect_a[1] - y <= dy
                &&& -dx <= d.rect_b[0] - u <= dx && -dy <= d.rect_b[1] - v <= dy
            },
{
    let (spots, feats, ranked) = choose|
        spots: Seq<(u32, u32)>,
        feats: Seq<Vec<Single>>,
        ranked: Seq<Match>,
    |
        {
            &&& are_lively(feature, energy, img, spots, feats)
            &&& #[trigger] patch_pieces(img, spots).are_ranked(dot, feats, ranked)
            &&& patches == picked_patches(patch_pieces(img, spots), ranked)
        };
    let p = patch_pieces(img, spots);
    let nx = patch_xs(img).len() as int;
    let n = (patch_ys(img).len() * nx) as int;
    let (all, energies) = choose|all: Seq<Vec<Single>>, energies: Seq<Single>|
        {
            &&& #[trigger] are_all_patches(feature, energy, img, n, all, energies)
            &&& spots == gathered(nx, n, lively_spot(img, energies))
            &&& feats == gathered(nx, n, lively_feature(img, all, energies))
        };
    let pw = patch_width(img.w());
    let ph = patch_height(img.h());
    assert(piece(img.w(), 2, 120, 360) == pw);
    assert(piece(img.h(), 3, 100, 240) == ph);
    let i = lemma_lively_place(feature, energy, img, all, energies, spots, feats, x, y);
    let j = lemma_lively_place(feature, energy, img, all, energies, spots, feats, u, v);
    lemma_lively_bound(feature, energy, img, spots, feats);
    assert(i < j) by {
        let a = cell(nx, x as int / 90, y as int / 40);
        let b = cell(nx, u as int / 90, v as int / 40);
        assert(nx == (img.w() - pw) / 90 + 1);
        assert(0 <= x as int / 90 < nx && 0 <= u as int / 90 < nx);
        assert(0 <= a < b) by (nonlinear_arith)
            requires
                a == (y as int / 40) * nx + x as int / 90,
                b == (v as int / 40) * nx + u as int / 90,
                0 <= x as int / 90 < nx,
                0 <= u as int / 90,
                0 <= y as int / 40 < v as int / 40,
        ;
        crate::grid::lemma_index_of_cell(nx, x as int / 90, y as int / 40);
        let f = lively_spot(img, energies);
        assert(has_value(nx, f)(a)) by {
            lemma_lively_here(feature, energy, img, all, energies, x, y);
        }
        crate::grid::counts_grow(has_value(nx, f), a as nat, b as nat);
    }
    let a: [u32; 4] = [x, y, pw as u32, ph as u32];
    let b: [u32; 4] = [u, v, pw as u32, ph as u32];
    assert(p.rect(i) =~= a);
    assert(p.rect(j) =~= b);
    assert forall|s: Single| #[trigger] call_ensures(dot, (&feats[i], &feats[j]), s) implies
        p.floor.le(s) by {
        assert(0x3f78_d4fe <= s.bits <= 0x7f80_0000);
    }
    samples_are_spread_evenly(img, a, b, 72, 48);
    let r = lemma_alike_is_ranked(p, dot, feats, ranked, i, j);
    let items = ranked.map_values(as_patch(p));
    let clash = patch_clash(p.width, p.height);
    first_item_is_picked(items, 20, clash, ranked.len() as int);
    what_is_left_out_clashes(items, 20, clash, ranked.len() as int, r);
    picked_items_do_not_clash(items, 20, clash, ranked.len() as int);
    assert(items[r].rect_a == p.rect(i) && items[r].rect_b == p.rect(j));
    if patches.contains(items[r]) {
        let k = choose|k: int| 0 <= k < patches.len() && patches[k] == items[r];
        assert(patches[k].rect_a[0] == x);
    } else if clashes(items[r], patches, clash) {
        let k = choose|k: int| 0 <= k < patches.len() && clash(items[r], #[trigger] patches[k]);
        assert(near(items[r].rect_a, patches[k].rect_a, p.width, p.height));
        assert(near(items[r].rect_b, patches[k].rect_b, p.width, p.height));
        assert(-(pw / 2) <= patches[k].rect_a[0] - x <= pw / 2);
    }
}

/// A patch with enough energy is lively.
proof fn lemma_lively_here<
    F: Fn(&RgbImage, [u32; 4], u32, u32) -> Vec<Single>,
    E: Fn(&Vec<Single>) -> Single,
>(
    feature: F,
    energy: E,
    img: RgbImage,
    all: Seq<Vec<Single>>,
    energies: Seq<Single>,
    x: u32,
    y: u32,
)
    requires
        0 < img.w() <= i32::MAX,
        img.h() <= i32::MAX,
        are_all_patches(
            feature,
            energy,
            img,
            (patch_ys(img).len() * patch_xs(img).len()) as int,
            all,
            energies,
        ),
        x % 90 == 0,
        y % 40 == 0,
        x + patch_width(img.w()) <= img.w(),
        y + patch_height(img.h()) <= img.h(),
        surely_lively(
            feature,
            energy,
            img,
            [x, y, patch_width(img.w()) as u32, patch_height(img.h()) as u32],
        ),
    ensures
        ({
            let nx = patch_xs(img).len() as int;
            has_value(nx, lively_spot(img, energies))(cell(nx, x as int / 90, y as int / 40))
        }),
{
    let nx = patch_xs(img).len() as int;
    let ny = patch_ys(img).len() as int;
    let pw = patch_width(img.w());
    let ph = patch_height(img.h());
    assert(piece(img.w(), 2, 120, 360) == pw);
    assert(piece(img.h(), 3, 100, 240) == ph);
    let a = x as int / 90;
    let b = y as int / 40;
    assert(nx == (img.w() - pw) / 90 + 1 && 0 <= a < nx);
    assert(ny == (img.h() - ph) / 40 + 1 && 0 <= b < ny);
    assert(patch_xs(img)[a] == x);
    assert(patch_ys(img)[b] == y);
    let k = cell(nx, a, b);
    lemma_cell_bound(nx, ny, a, b);
    crate::grid::lemma_index_of_cell(nx, a, b);
    assert(nx * ny == ny * nx) by (nonlinear_arith);
    let rect: [u32; 4] = [x, y, pw as u32, ph as u32];
    let same = [
        patch_xs(img)[k % nx],
        patch_ys(img)[k / nx],
        patch_pieces(img, Seq::empty()).width,
        patch_pieces(img, Seq::empty()).height,
    ];
    assert(same =~= rect);
    assert(call_ensures(feature, (&img, rect, 72u32, 48u32), all[k]));
    assert(call_ensures(energy, (&all[k],), energies[k]));
}

/// A report passes exactly where it holds neither bands nor patches. So content that is repeated
/// three hundred rows or more further down, however far, fails it.
pub proof fn repeated_content_fails_the_report<
    F: Fn(&RgbImage, [u32; 4], u32, u32) -> Vec<Single>,
    E: Fn(&Vec<Single>) -> Single,
    D: Fn(&Vec<Single>, &Vec<Single>) -> Single,
>(feature: F, energy: E, dot: D, img: RgbImage, report: DuplicateReport, y: u32, z: u32)
    requires
        0 < img.w() <= i32::MAX,
        img.h() <= i32::MAX,
        is_duplicate_report(feature, energy, dot, img, report),
        y % 10 == 0,
        z % 10 == 0,
        y + 300 <= z,
        z + band_height(img.h()) <= img.h(),
        surely_similar(
            feature,
            dot,
            img,
            [0, y, img.w() as u32, band_height(img.h()) as u32],
            [0, z, img.w() as u32, band_height(img.h()) as u32],
            384,
            (band_height(img.h()) / 4) as u32,
            0x3f77_0a3d,
        ),
        spread_difference(
            img,
            (0, y as int),
            (0, z as int),
            img.w(),
            band_height(img.h()),
            384,
            45,
        ) < 15 * (3 * (384 * 45)),
    ensures
        !report.passed,
        report.passed <==> report.band_duplicates@.len() == 0 && report.patch_duplicates@.len()
            == 0,
{
    repeated_bands_are_reported(feature, dot, img, report.band_duplicates@, y, z);
}

/// What is ranked is similar enough and of little difference.
proof fn lemma_ranked_is_alike<D: Fn(&Vec<Single>, &Vec<Single>) -> Single>(
    p: Pieces,
    dot: D,
    feats: Seq<Vec<Single>>,
    ranked: Seq<Match>,
    r: int,
)
    requires
        p.spots.len() <= usize::MAX,
        p.are_ranked(dot, feats, ranked),
        0 <= r < ranked.len(),
    ensures
        ({
            let m = ranked[r];
            &&& m.a < m.b < p.spots.len()
            &&& p.compared(m.a as int, m.b as int)
            &&& call_ensures(dot, (&feats[m.a as int], &feats[m.b as int]), m.score)
            &&& p.floor.le(m.score)
            &&& rect_difference(
                p.img,
                p.rect(m.a as int),
                p.rect(m.b as int),
                p.ow,
                p.oh,
            ) < 15 * (3 * (p.ow * p.oh))
        }),
{
    let n = p.spots.len() as int;
    let (scores, order) = choose|scores: Seq<Single>, order: Seq<usize>|
        {
            &&& p.are_similarities(dot, feats, scores)
            &&& #[trigger] is_ranking(
                p.matches_of(scores, (p.spots.len() * p.spots.len()) as int),
                order,
                ranked,
            )
        };
    let found = p.matches_of(scores, (p.spots.len() * p.spots.len()) as int);
    assert(order.contains(order[r]));
    assert(all_indices(found.len()).contains(order[r]));
    let f = |b: int, a: int| p.alike(scores, a, b);
    let k = crate::grid::gathered_values_come_from_cells(n, n * n, f, order[r] as int);
    crate::grid::lemma_cell_of_index(n, n, k);
    let i = k / n;
    let j = k % n;
    assert(p.alike(scores, i, j) == Some(ranked[r]));
    assert(call_ensures(dot, (&feats[i], &feats[j]), scores[cell(n, j, i)]));
}

/// Whether these are features of the band that starts at the row `y`, with 384 samples a row and a
/// row of samples for every four rows.
pub open spec fn is_band_feature<F: Fn(&RgbImage, [u32; 4], u32, u32) -> Vec<Single>>(
    feature: F,
    img: RgbImage,
    y: u32,
    f: Vec<Single>,
) -> bool {
    call_ensures(
        feature,
        (
            &img,
            [0, y, img.w() as u32, band_height(img.h()) as u32],
            384u32,
            (band_height(img.h()) / 4) as u32,
        ),
        f,
    )
}

/// Each reported band stands for two bands of the image that start at multiples of ten rows, the
/// second one at least three hundred rows below the first, whose similarity is the score and at
/// least 0.965, and whose mean difference is below fifteen.
pub proof fn reported_bands_repeat_content<
    F: Fn(&RgbImage, [u32; 4], u32, u32) -> Vec<Single>,
    D: Fn(&Vec<Single>, &Vec<Single>) -> Single,
>(feature: F, dot: D, img: RgbImage, bands: Seq<DuplicateBand>, k: int)
    requires
        0 < img.w() <= i32::MAX,
        img.h() <= i32::MAX,
        are_bands(feature, dot, img, bands),
        0 <= k < bands.len(),
    ensures
        ({
            let b = bands[k];
            let height = band_height(img.h());
            &&& b.height == height
            &&& b.y1 % 10 == 0 && b.y2 % 10 == 0
            &&& b.y1 + 300 <= b.y2
            &&& b.y2 + height <= img.h()
            &&& 0x3f77_0a3d <= b.score.bits <= 0x7f80_0000
            &&& spread_difference(
                img,
                (0, b.y1 as int),
                (0, b.y2 as int),
                img.w(),
                height,
                384,
                45,
            ) < 15 * (3 * (384 * 45))
            &&& exists|f: Vec<Single>, g: Vec<Single>|
                {
                    &&& #[trigger] is_band_feature(feature, img, b.y1, f)
                    &&& #[trigger] is_band_feature(feature, img, b.y2, g)
                    &&& call_ensures(dot, (&f, &g), b.score)
                }
        }),
{
    let p = band_pieces(img);
    let h = img.h();
    let height = band_height(h);
    assert(piece(h, 3, 80, 180) == height);
    let (feats, ranked) = choose|feats: Seq<Vec<Single>>, ranked: Seq<Match>|
        {
            &&& are_features(
                feature,
                img,
                p.spots,
                p.width,
                p.height,
                384,
                (p.height / 4) as u32,
                feats,
            )
            &&& #[trigger] p.are_ranked(dot, feats, ranked)
            &&& bands == picked(
                ranked.map_values(as_band(p)),
                12,
                band_clash(p.height),
                ranked.len() as int,
            )
        };
    let items = ranked.map_values(as_band(p));
    let n = ranked.len() as int;
    picked_items_do_not_clash(items, 12, band_clash(p.height), n);
    assert(items.take(n) =~= items);
    assert(items.contains(bands[k]));
    let r = choose|r: int| 0 <= r < items.len() && items[r] == bands[k];
    assert(p.spots.len() == (h - height) / 10 + 1);
    lemma_ranked_is_alike(p, dot, feats, ranked, r);
    let i = ranked[r].a as int;
    let j = ranked[r].b as int;
    lemma_starts_fit(h, height, 10, i);
    lemma_starts_fit(h, height, 10, j);
    let y = bands[k].y1;
    let z = bands[k].y2;
    assert(y == 10 * i && z == 10 * j);
    let a: [u32; 4] = [0, y, img.w() as u32, height as u32];
    let b: [u32; 4] = [0, z, img.w() as u32, height as u32];
    assert(p.rect(i) =~= a);
    assert(p.rect(j) =~= b);
    assert(call_ensures(feature, (&img, p.rect(i), 384u32, (height / 4) as u32), feats[i]));
    assert(call_ensures(feature, (&img, p.rect(j), 384u32, (height / 4) as u32), feats[j]));
    samples_are_spread_evenly(img, a, b, 384, 45);
    assert(is_band_feature(feature, img, y, feats[i]));
    assert(is_band_feature(feature, img, z, feats[j]));
}

/// Each reported patch stands for two patches of the image on its raster of 90 columns and 40 rows,
/// at least 300 rows and at most 120 columns apart, the upper one first, with energies above a
/// ten-thousandth, a similarity that is the score and at least 0.972, and a mean difference below
/// fifteen.
pub proof fn reported_patches_repeat_content<
    F: Fn(&RgbImage, [u32; 4], u32, u32) -> Vec<Single>,
    E: Fn(&Vec<Single>) -> Single,
    D: Fn(&Vec<Single>, &Vec<Single>) -> Single,
>(feature: F, energy: E, dot: D, img: RgbImage, patches: Seq<DuplicatePatch>, k: int)
    requires
        0 < img.w() <= i32::MAX,
        img.h() <= i32::MAX,
        img.w() * img.h() <= usize::MAX,
        are_patches(feature, energy, dot, img, patches),
        0 <= k < patches.len(),
    ensures
        ({
            let d = patches[k];
            let a = d.rect_a;
            let b = d.rect_b;
            &&& a[2] == patch_width(img.w()) && b[2] == a[2]
            &&& a[3] == patch_height(img.h()) && b[3] == a[3]
            &&& a[0] % 90 == 0 && b[0] % 90 == 0
            &&& a[1] % 40 == 0 && b[1] % 40 == 0
            &&& a[1] + 300 <= b[1]
            &&& -120 <= b[0] - a[0] <= 120
            &&& a[0] + a[2] <= img.w() && b[0] + b[2] <= img.w() && b[1] + b[3] <= img.h()
            &&& 0x3f78_d4fe <= d.score.bits <= 0x7f80_0000
            &&& spread_difference(
                img,
                (a[0] as int, a[1] as int),
                (b[0] as int, b[1] as int),
                a[2] as int,
                a[3] as int,
                72,
                48,
            ) < 15 * (3 * (72 * 48))
            &&& exists|f: Vec<Single>, g: Vec<Single>|
                {
                    &&& #[trigger] is_lively(feature, energy, img, a, f)
                    &&& #[trigger] is_lively(feature, energy, img, b, g)
                    &&& call_ensures(dot, (&f, &g), d.score)
                }
        }),
{
    let (spots, feats, ranked) = choose|
        spots: Seq<(u32, u32)>,
        feats: Seq<Vec<Single>>,
        ranked: Seq<Match>,
    |
        {
            &&& are_lively(feature, energy, img, spots, feats)
            &&& #[trigger] patch_pieces(img, spots).are_ranked(dot, feats, ranked)
            &&& patches == picked_patches(patch_pieces(img, spots), ranked)
        };
    let p = patch_pieces(img, spots);
    let pw = patch_width(img.w());
    let ph = patch_height(img.h());
    assert(piece(img.w(), 2, 120, 360) == pw);
    assert(piece(img.h(), 3, 100, 240) == ph);
    lemma_lively_bound(feature, energy, img, spots, feats);
    let items = ranked.map_values(as_patch(p));
    let n = ranked.len() as int;
    picked_items_do_not_clash(items, 20, patch_clash(p.width, p.height), n);
    assert(items.take(n) =~= items);
    assert(items.contains(patches[k]));
    let r = choose|r: int| 0 <= r < items.len() && items[r] == patches[k];
    lemma_ranked_is_alike(p, dot, feats, ranked, r);
    let i = ranked[r].a as int;
    let j = ranked[r].b as int;
    let a = patches[k].rect_a;
    let b = patches[k].rect_b;
    assert(a == p.rect(i) && b == p.rect(j));
    let nx = patch_xs(img).len() as int;
    let count = (patch_ys(img).len() * nx) as int;
    let (all, energies) = choose|all: Seq<Vec<Single>>, energies: Seq<Single>|
        {
            &&& #[trigger] are_all_patches(feature, energy, img, count, all, energies)
            &&& spots == gathered(nx, count, lively_spot(img, energies))
            &&& feats == gathered(nx, count, lively_feature(img, all, energies))
        };
    let ki = lemma_lively_origin(feature, energy, img, all, energies, spots, feats, i);
    let kj = lemma_lively_origin(feature, energy, img, all, energies, spots, feats, j);
    assert(ki < kj) by {
        if kj <= ki {
            crate::grid::counts_grow(
                has_value(nx, lively_spot(img, energies)),
                kj as nat,
                ki as nat,
            );
        }
    }
    assert(ki / nx <= kj / nx) by {
        vstd::arithmetic::div_mod::lemma_div_is_ordered(ki, kj, nx);
    }
    samples_are_spread_evenly(img, a, b, 72, 48);
    assert(is_lively(feature, energy, img, a, feats[i]));
    assert(is_lively(feature, energy, img, b, feats[j]));
}

/// Whether these are features of a rectangle with an energy above a ten-thousandth.
pub open spec fn is_lively<
    F: Fn(&RgbImage, [u32; 4], u32, u32) -> Vec<Single>,
    E: Fn(&Vec<Single>) -> Single,
>(feature: F, energy: E, img: RgbImage, a: [u32; 4], f: Vec<Single>) -> bool {
    &&& call_ensures(feature, (&img, a, 72u32, 48u32), f)
    &&& exists|e: Single|
        #[trigger] call_ensures(energy, (&f,), e) && 0x38d1_b717 < e.bits <= 0x7f80_0000
}

/// Where a lively patch comes from.
proof fn lemma_lively_origin<
    F: Fn(&RgbImage, [u32; 4], u32, u32) -> Vec<Single>,
    E: Fn(&Vec<Single>) -> Single,
>(
    feature: F,
    energy: E,
    img: RgbImage,
    all: Seq<Vec<Single>>,
    energies: Seq<Single>,
    spots: Seq<(u32, u32)>,
    feats: Seq<Vec<Single>>,
    i: int,
) -> (k: int)
    requires
        0 < img.w() <= i32::MAX,
        img.h() <= i32::MAX,
        are_all_patches(
            feature,
            energy,
            img,
            (patch_ys(img).len() * patch_xs(img).len()) as int,
            all,
            energies,
        ),
        spots == gathered(
            patch_xs(img).len() as int,
            (patch_ys(img).len() * patch_xs(img).len()) as int,
            lively_spot(img, energies),
        ),
        feats == gathered(
            patch_xs(img).len() as int,
            (patch_ys(img).len() * patch_xs(img).len()) as int,
            lively_feature(img, all, energies),
        ),
        0 <= i < spots.len(),
    ensures
        0 <= k < patch_ys(img).len() * patch_xs(img).len(),
        i == count_where(
            k as nat,
            has_value(patch_xs(img).len() as int, lively_spot(img, energies)),
        ),
        spots[i].0 == 90 * (k % patch_xs(img).len() as int),
        spots[i].1 == 40 * (k / patch_xs(img).len() as int),
        spots[i].0 + patch_width(img.w()) <= img.w(),
        spots[i].1 + patch_height(img.h()) <= img.h(),
        is_lively(
            feature,
            energy,
            img,
            [
                spots[i].0,
                spots[i].1,
                patch_width(img.w()) as u32,
                patch_height(img.h()) as u32,
            ],
            feats[i],
        ),
{
    let nx = patch_xs(img).len() as int;
    let ny = patch_ys(img).len() as int;
    let pw = patch_width(img.w());
    let ph = patch_height(img.h());
    assert(piece(img.w(), 2, 120, 360) == pw);
    assert(piece(img.h(), 3, 100, 240) == ph);
    let f = lively_spot(img, energies);
    let g = lively_feature(img, all, energies);
    let k = crate::grid::gathered_values_come_from_cells(nx, ny * nx, f, i);
    assert(nx * ny == ny * nx) by (nonlinear_arith);
    crate::grid::lemma_cell_of_index(nx, ny, k);
    let a = k % nx;
    let b = k / nx;
    lemma_starts_fit(img.w(), pw, 90, a);
    lemma_starts_fit(img.h(), ph, 40, b);
    gathered_values_keep_the_order_of_the_cells(nx, ny * nx, g, k);
    crate::grid::lemma_count_same(k as nat, has_value(nx, f), has_value(nx, g));
    assert(g(a, b) == Some(all[k]));
    assert(feats[i] == all[k]);
    let x = patch_xs(img)[a];
    let y = patch_ys(img)[b];
    assert(spots[i] == (x, y));
    let rect: [u32; 4] = [x, y, pw as u32, ph as u32];
    let same = [
        patch_xs(img)[k % nx],
        patch_ys(img)[k / nx],
        patch_pieces(img, Seq::empty()).width,
        patch_pieces(img, Seq::empty()).height,
    ];
    assert(same =~= rect);
    assert(call_ensures(feature, (&img, rect, 72u32, 48u32), all[k]));
    assert(call_ensures(energy, (&all[k],), energies[k]));
    assert(x == 90 * a) by {
        assert(a * 90 == 90 * a);
    }
    assert(y == 40 * b);
    k
}

/// Two reported patches are different finds: their upper patches, or their lower ones, are at least
/// half a patch apart in one direction.
pub proof fn reported_patches_are_apart<
    F: Fn(&RgbImage, [u32; 4], u32, u32) -> Vec<Single>,
    E: Fn(&Vec<Single>) -> Single,
    D: Fn(&Vec<Single>, &Vec<Single>) -> Single,
>(feature: F, energy: E, dot: D, img: RgbImage, patches: Seq<DuplicatePatch>, j: int, k: int)
    requires
        img.w() <= i32::MAX,
        img.h() <= i32::MAX,
        img.w() * img.h() <= usize::MAX,
        are_patches(feature, energy, dot, img, patches),
        0 <= j < k < patches.len(),
    ensures
        ({
            let a = patches[j];
            let b = patches[k];
            let dx = patch_width(img.w()) / 2;
            let dy = patch_height(img.h()) / 2;
            ||| b.rect_a[0] - a.rect_a[0] >= dx || a.rect_a[0] - b.rect_a[0] >= dx
            ||| b.rect_a[1] - a.rect_a[1] >= dy || a.rect_a[1] - b.rect_a[1] >= dy
            ||| b.rect_b[0] - a.rect_b[0] >= dx || a.rect_b[0] - b.rect_b[0] >= dx
            ||| b.rect_b[1] - a.rect_b[1] >= dy || a.rect_b[1] - b.rect_b[1] >= dy
        }),
        patches[k].score.total_rank() <= patches[j].score.total_rank(),
{
    reported_patches_are_distinct_finds(feature, energy, dot, img, patches);
    assert(piece(img.w(), 2, 120, 360) == patch_width(img.w()));
    assert(piece(img.h(), 3, 100, 240) == patch_height(img.h()));
}

} // verus!
