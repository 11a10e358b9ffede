//! Connected groups of pixels at risk.

use vstd::prelude::*;

use crate::geometry::{highest, lowest, lowest_and_highest_bound_the_values};
use crate::grid::{
    cell, count_where, in_grid, lemma_cell_bound, lemma_cell_of_index, lemma_count_bound,
    lemma_index_of_cell,
};
use crate::order::{all_indices, is_sorting, stable_order};
use crate::single::Single;

verus! {

/// The neighbors of a pixel of a grid: to the left, above, to the right and below.
pub open spec fn neighbors(x: int, y: int, w: int, h: int) -> Seq<(int, int)> {
    let a = if x > 0 {
        seq![(x - 1, y)]
    } else {
        Seq::empty()
    };
    let b = if y > 0 {
        a.push((x, y - 1))
    } else {
        a
    };
    let c = if x + 1 < w {
        b.push((x + 1, y))
    } else {
        b
    };
    if y + 1 < h {
        c.push((x, y + 1))
    } else {
        c
    }
}

/// The neighbors of a pixel of a grid: to the left, above, to the right and below.
pub fn neighbors4(x: u32, y: u32, w: u32, h: u32) -> (v: Vec<(u32, u32)>)
    requires
        x < u32::MAX,
        y < u32::MAX,
    ensures
        v@.len() == neighbors(x as int, y as int, w as int, h as int).len(),
        forall|k: int|
            0 <= k < v@.len() ==> {
                let n = neighbors(x as int, y as int, w as int, h as int)[k];
                (#[trigger] v@[k]).0 == n.0 && v@[k].1 == n.1
            },
{
    let mut v: Vec<(u32, u32)> = Vec::new();
    if x > 0 {
        v.push((x - 1, y));
    }
    if y > 0 {
        v.push((x, y - 1));
    }
    if x + 1 < w {
        v.push((x + 1, y));
    }
    if y + 1 < h {
        v.push((x, y + 1));
    }
    v
}

/// Whether two pixels of the grid are neighbors.
pub open spec fn adjacent(x: int, y: int, u: int, v: int) -> bool {
    (x == u && (y == v + 1 || v == y + 1)) || (y == v && (x == u + 1 || u == x + 1))
}

/// The neighbors are the pixels of the grid next to a pixel.
pub proof fn neighbors_are_adjacent(x: int, y: int, w: int, h: int, u: int, v: int)
    requires
        in_grid(w, h, x, y),
    ensures
        neighbors(x, y, w, h).contains((u, v)) <==> in_grid(w, h, u, v) && adjacent(x, y, u, v),
{
    let n = neighbors(x, y, w, h);
    let a: Seq<(int, int)> = if x > 0 {
        seq![(x - 1, y)]
    } else {
        Seq::empty()
    };
    let b = if y > 0 {
        a.push((x, y - 1))
    } else {
        a
    };
    let c = if x + 1 < w {
        b.push((x + 1, y))
    } else {
        b
    };
    if x > 0 {
        assert(n[0] == (x - 1, y));
    }
    if y > 0 {
        assert(n[a.len() as int] == (x, y - 1));
    }
    if x + 1 < w {
        assert(n[b.len() as int] == (x + 1, y));
    }
    if y + 1 < h {
        assert(n[c.len() as int] == (x, y + 1));
    }
}

/// The pixels that were found so far, in the order in which they were found, and which pixels of
/// the grid were found at all.
pub struct Found {
    pub queue: Seq<usize>,
    pub seen: Seq<bool>,
}

/// Adds a pixel that is at risk and was not found yet.
pub open spec fn visit(risk: Seq<bool>, f: Found, k: int) -> Found {
    if risk[k] && !f.seen[k] {
        Found { queue: f.queue.push(k as usize), seen: f.seen.update(k, true) }
    } else {
        f
    }
}

/// Visits the first `m` of the given pixels.
pub open spec fn visit_all(risk: Seq<bool>, w: int, f: Found, n: Seq<(int, int)>, m: int) -> Found
    decreases m,
{
    if m <= 0 {
        f
    } else {
        visit(risk, visit_all(risk, w, f, n, m - 1), cell(w, n[m - 1].0, n[m - 1].1))
    }
}

/// Visits the neighbors of the pixel in the place `i` of the queue.
pub open spec fn expand(risk: Seq<bool>, w: int, h: int, f: Found, i: int) -> Found {
    let k = f.queue[i] as int;
    let n = neighbors(k % w, k / w, w, h);
    visit_all(risk, w, f, n, n.len() as int)
}

/// The search from a pixel after the neighbors of the first `n` pixels of the queue were visited.
pub open spec fn searched(
    risk: Seq<bool>,
    w: int,
    h: int,
    seen: Seq<bool>,
    seed: int,
    n: int,
) -> Found
    decreases n,
{
    if n <= 0 {
        Found { queue: seq![seed as usize], seen: seen.update(seed, true) }
    } else {
        let f = searched(risk, w, h, seen, seed, n - 1);
        if n - 1 < f.queue.len() {
            expand(risk, w, h, f, n - 1)
        } else {
            f
        }
    }
}

/// The groups of the first `n` pixels, and which pixels were found.
pub open spec fn groups(risk: Seq<bool>, w: int, h: int, n: int) -> (Seq<Seq<usize>>, Seq<bool>)
    decreases n,
{
    if n <= 0 {
        (Seq::empty(), Seq::new(risk.len(), |k: int| false))
    } else {
        let (found, seen) = groups(risk, w, h, n - 1);
        if risk[n - 1] && !seen[n - 1] {
            let f = searched(risk, w, h, seen, n - 1, risk.len() as int);
            (found.push(f.queue), f.seen)
        } else {
            (found, seen)
        }
    }
}

/// How many pixels are not found yet.
spec fn left_over(seen: Seq<bool>) -> nat {
    count_where(seen.len(), |k: int| !seen[k])
}

proof fn lemma_count_update(n: nat, seen: Seq<bool>, k: int)
    requires
        0 <= k < seen.len(),
        n <= seen.len(),
        !seen[k],
    ensures
        count_where(n, |j: int| !seen.update(k, true)[j]) + if k < n {
            1nat
        } else {
            0nat
        } == count_where(n, |j: int| !seen[j]),
    decreases n,
{
    if n > 0 {
        lemma_count_update((n - 1) as nat, seen, k);
    }
}

/// What holds of every search: it found nothing but pixels of the grid, and each only once.
spec fn sound(risk: Seq<bool>, f: Found, total: nat) -> bool {
    &&& f.seen.len() == risk.len()
    &&& f.queue.len() + left_over(f.seen) == total
    &&& forall|i: int|
        0 <= i < f.queue.len() ==> #[trigger] f.queue[i] < risk.len() && f.seen[f.queue[i] as int]
}

proof fn lemma_visit_sound(risk: Seq<bool>, f: Found, k: int, total: nat)
    requires
        sound(risk, f, total),
        0 <= k < risk.len() <= usize::MAX,
    ensures
        sound(risk, visit(risk, f, k), total),
{
    if risk[k] && !f.seen[k] {
        lemma_count_update(f.seen.len(), f.seen, k);
    }
}

proof fn lemma_sound_bound(risk: Seq<bool>, f: Found, total: nat)
    requires
        sound(risk, f, total),
    ensures
        f.queue.len() <= total,
{
}

/// Once every pixel of the queue is expanded, the search stays as it is.
proof fn lemma_search_ends(
    risk: Seq<bool>,
    w: int,
    h: int,
    seen: Seq<bool>,
    seed: int,
    n: int,
    m: int,
)
    requires
        0 <= n <= m,
        searched(risk, w, h, seen, seed, n).queue.len() <= n,
    ensures
        searched(risk, w, h, seen, seed, m) == searched(risk, w, h, seen, seed, n),
    decreases m,
{
    if n < m {
        lemma_search_ends(risk, w, h, seen, seed, n, m - 1);
    }
}

/// Visits the neighbors of a pixel.
fn expand_pixel(
    risk: &[bool],
    w: u32,
    h: u32,
    queue: &mut Vec<usize>,
    seen: &mut Vec<bool>,
    i: usize,
    Ghost(total): Ghost<nat>,
)
    requires
        risk@.len() == w * h,
        risk@.len() <= u32::MAX,
        i < old(queue)@.len(),
        sound(risk@, (Found { queue: old(queue)@, seen: old(seen)@ }), total),
    ensures
        (Found { queue: final(queue)@, seen: final(seen)@ }) == expand(
            risk@,
            w as int,
            h as int,
            Found { queue: old(queue)@, seen: old(seen)@ },
            i as int,
        ),
        sound(risk@, (Found { queue: final(queue)@, seen: final(seen)@ }), total),
{
    let ghost start = Found { queue: queue@, seen: seen@ };
    let k: usize = queue[i];
    proof {
        lemma_cell_of_index(w as int, h as int, k as int);
    }
    let x: u32 = (k % w as usize) as u32;
    let y: u32 = (k / w as usize) as u32;
    let n = neighbors4(x, y, w, h);
    let ghost near = neighbors(x as int, y as int, w as int, h as int);
    for m in 0..n.len()
        invariant
            risk@.len() == w * h,
            risk@.len() <= u32::MAX,
            in_grid(w as int, h as int, x as int, y as int),
            near == neighbors(x as int, y as int, w as int, h as int),
            n@.len() == near.len(),
            forall|j: int|
                0 <= j < n@.len() ==> (#[trigger] n@[j]).0 == near[j].0 && n@[j].1 == near[j].1,
            (Found { queue: queue@, seen: seen@ }) == visit_all(
                risk@,
                w as int,
                start,
                near,
                m as int,
            ),
            sound(risk@, (Found { queue: queue@, seen: seen@ }), total),
    {
        let (nx, ny) = n[m];
        proof {
            assert(near.contains(near[m as int]));
            neighbors_are_adjacent(
                x as int,
                y as int,
                w as int,
                h as int,
                near[m as int].0,
                near[m as int].1,
            );
            lemma_cell_bound(w as int, h as int, nx as int, ny as int);
            assert(risk.len() == risk@.len());
            lemma_visit_sound(
                risk@,
                Found { queue: queue@, seen: seen@ },
                cell(w as int, nx as int, ny as int),
                total,
            );
        }
        let j: usize = ny as usize * w as usize + nx as usize;
        if risk[j] && !seen[j] {
            seen.set(j, true);
            queue.push(j);
        }
    }
}

/// The group of pixels at risk around a pixel, in the order of a search by distance.
fn search_from(risk: &[bool], w: u32, h: u32, seen: &mut Vec<bool>, seed: usize) -> (queue: Vec<
    usize,
>)
    requires
        risk@.len() == w * h,
        risk@.len() <= u32::MAX,
        old(seen)@.len() == risk@.len(),
        seed < risk@.len(),
        !old(seen)@[seed as int],
    ensures
        (Found { queue: queue@, seen: final(seen)@ }) == searched(
            risk@,
            w as int,
            h as int,
            old(seen)@,
            seed as int,
            risk@.len() as int,
        ),
        0 < queue@.len() <= risk@.len(),
        final(seen)@.len() == risk@.len(),
        forall|i: int| 0 <= i < queue@.len() ==> #[trigger] queue@[i] < risk@.len(),
{
    let ghost start = seen@;
    let ghost total = left_over(start);
    let mut queue: Vec<usize> = Vec::new();
    queue.push(seed);
    seen.set(seed, true);
    proof {
        lemma_count_update(start.len(), start, seed as int);
        lemma_count_bound(start.len(), |k: int| !start[k]);
        assert(queue@ =~= seq![seed]);
    }
    let mut i: usize = 0;
    while i < queue.len()
        invariant
            risk@.len() == w * h,
            risk@.len() <= u32::MAX,
            i <= queue@.len(),
            0 < queue@.len(),
            total <= risk@.len(),
            (Found { queue: queue@, seen: seen@ }) == searched(
                risk@,
                w as int,
                h as int,
                start,
                seed as int,
                i as int,
            ),
            sound(risk@, (Found { queue: queue@, seen: seen@ }), total),
        decreases total - i,
    {
        let ghost before = Found { queue: queue@, seen: seen@ };
        proof {
            lemma_sound_bound(risk@, before, total);
        }
        expand_pixel(risk, w, h, &mut queue, seen, i, Ghost(total));
        proof {
            lemma_expand_grows(risk@, w as int, h as int, before, i as int);
        }
        i = i + 1;
    }
    proof {
        lemma_sound_bound(risk@, Found { queue: queue@, seen: seen@ }, total);
        lemma_search_ends(
            risk@,
            w as int,
            h as int,
            start,
            seed as int,
            i as int,
            risk@.len() as int,
        );
    }
    queue
}

proof fn lemma_visit_all_grows(risk: Seq<bool>, w: int, f: Found, n: Seq<(int, int)>, m: int)
    ensures
        f.queue.len() <= visit_all(risk, w, f, n, m).queue.len(),
    decreases m,
{
    if m > 0 {
        lemma_visit_all_grows(risk, w, f, n, m - 1);
    }
}

proof fn lemma_expand_grows(risk: Seq<bool>, w: int, h: int, f: Found, i: int)
    ensures
        f.queue.len() <= expand(risk, w, h, f, i).queue.len(),
{
    let k = f.queue[i] as int;
    let n = neighbors(k % w, k / w, w, h);
    lemma_visit_all_grows(risk, w, f, n, n.len() as int);
}

/// A group of pixels at risk.
#[derive(Debug, Clone, Copy)]
pub struct RiskyComponent {
    pub area_px: u32,
    /// The corner, the width and the height of the smallest rectangle that holds the group.
    pub bbox_xywh: [u32; 4],
    pub mean_gradient: Single,
    pub max_gradient: Single,
}

/// The columns of the pixels of a group.
pub open spec fn columns_of(pixels: Seq<usize>, w: int) -> Seq<int> {
    Seq::new(pixels.len(), |i: int| pixels[i] as int % w)
}

/// The rows of the pixels of a group.
pub open spec fn rows_of(pixels: Seq<usize>, w: int) -> Seq<int> {
    Seq::new(pixels.len(), |i: int| pixels[i] as int / w)
}

/// The gradients of the pixels of a group.
pub open spec fn gradients_of(grad: Seq<Single>, pixels: Seq<usize>) -> Seq<Single> {
    Seq::new(pixels.len(), |i: int| grad[pixels[i] as int])
}

/// The largest of the values, and at least zero.
pub open spec fn peak(values: Seq<Single>) -> Single
    decreases values.len(),
{
    if values.len() == 0 {
        Single { bits: 0 }
    } else {
        peak(values.drop_last()).larger(values.last())
    }
}

/// Whether a function takes any list of numbers that is not empty.
pub open spec fn takes_values<M: Fn(&Vec<Single>) -> Single>(mean: M) -> bool {
    forall|v: &Vec<Single>| v@.len() > 0 ==> #[trigger] call_requires(mean, (v,))
}

/// Whether the function gives `r` for the values.
pub open spec fn gives_mean<M: Fn(&Vec<Single>) -> Single>(
    mean: M,
    values: Seq<Single>,
    r: Single,
) -> bool {
    exists|v: &Vec<Single>| v@ == values && #[trigger] call_ensures(mean, (v,), r)
}

/// Whether `c` describes a group of pixels of a grid of width `w`.
pub open spec fn describes<M: Fn(&Vec<Single>) -> Single>(
    mean: M,
    grad: Seq<Single>,
    w: int,
    pixels: Seq<usize>,
    c: RiskyComponent,
) -> bool {
    let xs = columns_of(pixels, w);
    let ys = rows_of(pixels, w);
    &&& c.area_px == pixels.len()
    &&& c.bbox_xywh[0] == lowest(xs)
    &&& c.bbox_xywh[1] == lowest(ys)
    &&& c.bbox_xywh[2] == highest(xs) - lowest(xs) + 1
    &&& c.bbox_xywh[3] == highest(ys) - lowest(ys) + 1
    &&& gives_mean(mean, gradients_of(grad, pixels), c.mean_gradient)
    &&& c.max_gradient == peak(gradients_of(grad, pixels))
}

/// Those of the groups that have at least forty pixels.
pub open spec fn large_groups(found: Seq<Seq<usize>>) -> Seq<Seq<usize>>
    decreases found.len(),
{
    if found.len() == 0 {
        Seq::empty()
    } else {
        let before = large_groups(found.drop_last());
        if found.last().len() >= 40 {
            before.push(found.last())
        } else {
            before
        }
    }
}

/// Keys that put the larger groups first.
pub open spec fn size_keys(found: Seq<Seq<usize>>) -> Seq<i64> {
    Seq::new(found.len(), |i: int| -(found[i].len() as int) as i64)
}

/// Whether the components are the large groups of pixels at risk, the largest first.
pub open spec fn are_components<M: Fn(&Vec<Single>) -> Single>(
    mean: M,
    risk: Seq<bool>,
    grad: Seq<Single>,
    w: int,
    h: int,
    components: Seq<RiskyComponent>,
) -> bool {
    let found = large_groups(groups(risk, w, h, risk.len() as int).0);
    exists|order: Seq<usize>|
        {
            &&& #[trigger] is_sorting(size_keys(found), all_indices(found.len()), order)
            &&& components.len() == found.len()
            &&& forall|i: int|
                0 <= i < components.len() ==> describes(
                    mean,
                    grad,
                    w,
                    found[order[i] as int],
                    #[trigger] components[i],
                )
        }
}

/// Describes a group of pixels.
fn describe<M: Fn(&Vec<Single>) -> Single>(
    grad: &[Single],
    w: u32,
    h: u32,
    pixels: &Vec<usize>,
    mean: &M,
) -> (c: RiskyComponent)
    requires
        w * h <= u32::MAX,
        grad@.len() >= w * h,
        0 < pixels@.len() <= u32::MAX,
        forall|i: int| 0 <= i < pixels@.len() ==> #[trigger] pixels@[i] < w * h,
        takes_values(*mean),
    ensures
        describes(*mean, grad@, w as int, pixels@, c),
{
    let ghost xs = columns_of(pixels@, w as int);
    let ghost ys = rows_of(pixels@, w as int);
    let first: usize = pixels[0];
    proof {
        lemma_cell_of_index(w as int, h as int, first as int);
        assert(xs.take(1) =~= seq![first as int % w as int]);
        assert(ys.take(1) =~= seq![first as int / w as int]);
        assert(gradients_of(grad@, pixels@).take(0) =~= Seq::<Single>::empty());
    }
    let mut min_x: u32 = (first % w as usize) as u32;
    let mut max_x: u32 = min_x;
    let mut min_y: u32 = (first / w as usize) as u32;
    let mut max_y: u32 = min_y;
    let mut values: Vec<Single> = Vec::new();
    let mut max_gradient = Single::zero();
    for i in 0..pixels.len()
        invariant
            w > 0,
            w * h <= u32::MAX,
            grad@.len() >= w * h,
            forall|k: int| 0 <= k < pixels@.len() ==> #[trigger] pixels@[k] < w * h,
            xs == columns_of(pixels@, w as int),
            ys == rows_of(pixels@, w as int),
            0 < pixels@.len(),
            min_x <= max_x < w,
            min_y <= max_y < h,
            i == 0 ==> {
                &&& min_x == lowest(xs.take(1)) && max_x == highest(xs.take(1))
                &&& min_y == lowest(ys.take(1)) && max_y == highest(ys.take(1))
            },
            i > 0 ==> {
                &&& min_x == lowest(xs.take(i as int)) && max_x == highest(xs.take(i as int))
                &&& min_y == lowest(ys.take(i as int)) && max_y == highest(ys.take(i as int))
            },
            values@ == gradients_of(grad@, pixels@).take(i as int),
            max_gradient == peak(values@),
    {
        let k: usize = pixels[i];
        proof {
            lemma_cell_of_index(w as int, h as int, k as int);
            assert(xs.take(i + 1).drop_last() =~= xs.take(i as int));
            assert(ys.take(i + 1).drop_last() =~= ys.take(i as int));
        }
        let x: u32 = (k % w as usize) as u32;
        let y: u32 = (k / w as usize) as u32;
        if x < min_x {
            min_x = x;
        }
        if x > max_x {
            max_x = x;
        }
        if y < min_y {
            min_y = y;
        }
        if y > max_y {
            max_y = y;
        }
        let ghost before = values@;
        values.push(grad[k]);
        max_gradient = max_gradient.max(grad[k]);
        proof {
            assert(values@.drop_last() =~= before);
            assert(values@ =~= gradients_of(grad@, pixels@).take(i + 1));
        }
    }
    proof {
        assert(xs.take(pixels@.len() as int) =~= xs);
        assert(ys.take(pixels@.len() as int) =~= ys);
        assert(values@ =~= gradients_of(grad@, pixels@));
    }
    let mean_gradient = mean(&values);
    assert(gives_mean(*mean, values@, mean_gradient));
    RiskyComponent {
        area_px: pixels.len() as u32,
        bbox_xywh: [min_x, min_y, max_x - min_x + 1, max_y - min_y + 1],
        mean_gradient,
        max_gradient,
    }
}

/// The large groups of pixels at risk, the largest first; groups of the same size come in the order
/// of a row-by-row scan. Pixels belong together where they are neighbors, and a group is large
/// from forty pixels on. What follows the pixels of the grid in `risk` is left alone.
pub fn risky_components<M: Fn(&Vec<Single>) -> Single>(
    risk: &[bool],
    grad: &[Single],
    w: u32,
    h: u32,
    mean: &M,
) -> (components: Vec<RiskyComponent>)
    requires
        w * h <= u32::MAX,
        risk@.len() >= w * h,
        grad@.len() >= w * h,
        takes_values(*mean),
    ensures
        are_components(
            *mean,
            risk@.subrange(0, w * h),
            grad@,
            w as int,
            h as int,
            components@,
        ),
{
    let n: usize = w as usize * h as usize;
    assert(risk.len() == risk@.len());
    components_of(vstd::slice::slice_subrange(risk, 0, n), grad, w, h, mean)
}

fn components_of<M: Fn(&Vec<Single>) -> Single>(
    risk: &[bool],
    grad: &[Single],
    w: u32,
    h: u32,
    mean: &M,
) -> (components: Vec<RiskyComponent>)
    requires
        risk@.len() == w * h,
        risk@.len() <= u32::MAX,
        grad@.len() >= risk@.len(),
        takes_values(*mean),
    ensures
        are_components(*mean, risk@, grad@, w as int, h as int, components@),
{
    let n: usize = risk.len();
    let mut seen: Vec<bool> = vec![false; n];
    let mut found: Vec<RiskyComponent> = Vec::new();
    let mut keys: Vec<i64> = Vec::new();
    assert(seen@ =~= Seq::new(risk@.len(), |k: int| false));
    for k in 0..n
        invariant
            n == risk@.len(),
            risk@.len() == w * h,
            risk@.len() <= u32::MAX,
            grad@.len() >= risk@.len(),
            takes_values(*mean),
            seen@ == groups(risk@, w as int, h as int, k as int).1,
            seen@.len() == n,
            found@.len() == large_groups(groups(risk@, w as int, h as int, k as int).0).len(),
            keys@ == size_keys(large_groups(groups(risk@, w as int, h as int, k as int).0)),
            forall|i: int|
                0 <= i < found@.len() ==> describes(
                    *mean,
                    grad@,
                    w as int,
                    large_groups(groups(risk@, w as int, h as int, k as int).0)[i],
                    #[trigger] found@[i],
                ),
    {
        if risk[k] && !seen[k] {
            let ghost before = groups(risk@, w as int, h as int, k as int).0;
            let pixels = search_from(risk, w, h, &mut seen, k);
            proof {
                assert(groups(risk@, w as int, h as int, k + 1).0 == before.push(pixels@));
                assert(before.push(pixels@).drop_last() =~= before);
            }
            if pixels.len() >= 40 {
                let c = describe(grad, w, h, &pixels, mean);
                found.push(c);
                keys.push(-(pixels.len() as i64));
                proof {
                    let now = large_groups(before).push(pixels@);
                    assert(large_groups(before.push(pixels@)) == now);
                    assert(keys@ =~= size_keys(now));
                }
            }
        }
    }
    let order = stable_order(&keys);
    let ghost listed = large_groups(groups(risk@, w as int, h as int, n as int).0);
    let mut components: Vec<RiskyComponent> = Vec::new();
    proof {
        assert forall|i: int| 0 <= i < order@.len() implies #[trigger] order@[i] < found@.len() by {
            assert(order@.contains(order@[i]));
            assert(all_indices(keys@.len()).contains(order@[i]));
        }
    }
    for i in 0..order.len()
        invariant
            order@.len() == found@.len(),
            listed.len() == found@.len(),
            forall|j: int| 0 <= j < order@.len() ==> #[trigger] order@[j] < found@.len(),
            forall|j: int|
                0 <= j < found@.len() ==> describes(
                    *mean,
                    grad@,
                    w as int,
                    listed[j],
                    #[trigger] found@[j],
                ),
            components@.len() == i,
            forall|j: int|
                0 <= j < i ==> describes(
                    *mean,
                    grad@,
                    w as int,
                    listed[order@[j] as int],
                    #[trigger] components@[j],
                ),
    {
        components.push(found[order[i]]);
    }
    assert(is_sorting(size_keys(listed), all_indices(listed.len()), order@));
    components
}

/// Whether two pixels of a grid of width `w` are neighbors.
pub open spec fn next_to(w: int, k: int, j: int) -> bool {
    adjacent(k % w, k / w, j % w, j / w)
}

/// Whether the pixel in the place `i` has a neighbor earlier in the list.
pub open spec fn linked(w: int, pixels: Seq<usize>, i: int) -> bool {
    exists|j: int| 0 <= j < i && next_to(w, #[trigger] pixels[j] as int, pixels[i] as int)
}

/// Whether a group holds the pixel `k`.
pub open spec fn holds(pixels: Seq<usize>, k: int) -> bool {
    exists|i: int| 0 <= i < pixels.len() && #[trigger] pixels[i] == k
}

/// What holds of a search that started when `start` was found: it holds new pixels at risk, each
/// once, and each but the first has a neighbor before it.
spec fn good(risk: Seq<bool>, w: int, start: Seq<bool>, f: Found) -> bool {
    &&& f.seen.len() == risk.len()
    &&& start.len() == risk.len()
    &&& forall|k: int|
        0 <= k < risk.len() ==> #[trigger] f.seen[k] == (start[k] || holds(f.queue, k))
    &&& forall|i: int|
        0 <= i < f.queue.len() ==> #[trigger] f.queue[i] < risk.len() && risk[f.queue[i] as int]
            && !start[f.queue[i] as int]
    &&& forall|i: int, j: int|
        0 <= i < j < f.queue.len() ==> #[trigger] f.queue[i] != #[trigger] f.queue[j]
    &&& forall|i: int| 1 <= i < f.queue.len() ==> #[trigger] linked(w, f.queue, i)
}

/// Whether the second search goes on from the first one.
spec fn goes_on(f: Found, g: Found) -> bool {
    &&& f.queue.len() <= g.queue.len()
    &&& forall|i: int| 0 <= i < f.queue.len() ==> f.queue[i] == #[trigger] g.queue[i]
    &&& f.seen.len() == g.seen.len()
    &&& forall|k: int| 0 <= k < f.seen.len() && f.seen[k] ==> #[trigger] g.seen[k]
}

proof fn lemma_visit_good(risk: Seq<bool>, w: int, start: Seq<bool>, f: Found, i: int, k: int)
    requires
        good(risk, w, start, f),
        0 <= i < f.queue.len(),
        0 <= k < risk.len() <= usize::MAX,
        next_to(w, f.queue[i] as int, k),
    ensures
        good(risk, w, start, visit(risk, f, k)),
        goes_on(f, visit(risk, f, k)),
        risk[k] ==> visit(risk, f, k).seen[k],
{
    let g = visit(risk, f, k);
    if risk[k] && !f.seen[k] {
        let n = f.queue.len() as int;
        assert(g.queue[n] == k);
        assert forall|j: int| 0 <= j < risk.len() implies #[trigger] g.seen[j] == (start[j]
            || holds(g.queue, j)) by {
            assert(f.seen[j] == (start[j] || holds(f.queue, j)));
            if holds(f.queue, j) {
                let a = choose|a: int| 0 <= a < f.queue.len() && #[trigger] f.queue[a] == j;
                assert(g.queue[a] == j);
            }
            if holds(g.queue, j) {
                let a = choose|a: int| 0 <= a < g.queue.len() && #[trigger] g.queue[a] == j;
                if a < n {
                    assert(f.queue[a] == j);
                }
            }
        }
        assert forall|a: int, b: int| 0 <= a < b < g.queue.len() implies #[trigger] g.queue[a]
            != #[trigger] g.queue[b] by {
            if b == n && g.queue[a] == k {
                assert(f.queue[a] == k);
                assert(holds(f.queue, k));
            }
        }
        assert forall|a: int| 1 <= a < g.queue.len() implies #[trigger] linked(w, g.queue, a) by {
            if a < n {
                assert(linked(w, f.queue, a));
                let j = choose|j: int|
                    0 <= j < a && next_to(w, #[trigger] f.queue[j] as int, f.queue[a] as int);
                assert(g.queue[j] == f.queue[j]);
            } else {
                assert(g.queue[i] == f.queue[i]);
            }
        }
    }
}

proof fn lemma_visit_all_good(
    risk: Seq<bool>,
    w: int,
    h: int,
    start: Seq<bool>,
    f: Found,
    i: int,
    m: int,
)
    requires
        good(risk, w, start, f),
        0 <= i < f.queue.len(),
        risk.len() == w * h,
        risk.len() <= usize::MAX,
        0 <= w,
        0 <= h,
        ({
            let k = f.queue[i] as int;
            0 <= m <= neighbors(k % w, k / w, w, h).len()
        }),
    ensures
        ({
            let k = f.queue[i] as int;
            let n = neighbors(k % w, k / w, w, h);
            let g = visit_all(risk, w, f, n, m);
            &&& good(risk, w, start, g)
            &&& goes_on(f, g)
            &&& forall|a: int|
                0 <= a < m ==> risk[cell(w, (#[trigger] n[a]).0, n[a].1)] ==> g.seen[cell(
                    w,
                    n[a].0,
                    n[a].1,
                )]
        }),
    decreases m,
{
    let k = f.queue[i] as int;
    let n = neighbors(k % w, k / w, w, h);
    lemma_cell_of_index(w, h, k);
    if m > 0 {
        lemma_visit_all_good(risk, w, h, start, f, i, m - 1);
        let g = visit_all(risk, w, f, n, m - 1);
        let (u, v) = n[m - 1];
        assert(n.contains(n[m - 1]));
        neighbors_are_adjacent(k % w, k / w, w, h, u, v);
        lemma_cell_bound(w, h, u, v);
        crate::grid::lemma_index_of_cell(w, u, v);
        assert(g.queue[i] == f.queue[i]);
        lemma_visit_good(risk, w, start, g, i, cell(w, u, v));
        let after = visit(risk, g, cell(w, u, v));
        assert forall|a: int| 0 <= a < m && risk[cell(w, (#[trigger] n[a]).0, n[a].1)] implies
            after.seen[cell(w, n[a].0, n[a].1)] by {
            assert(n.contains(n[a]));
            neighbors_are_adjacent(k % w, k / w, w, h, n[a].0, n[a].1);
            lemma_cell_bound(w, h, n[a].0, n[a].1);
            if a < m - 1 {
                assert(g.seen[cell(w, n[a].0, n[a].1)]);
            }
        }
    }
}

/// Whether the neighbors of the first `n` pixels of the queue were found.
spec fn expanded(risk: Seq<bool>, w: int, f: Found, n: int) -> bool {
    forall|i: int, j: int|
        0 <= i < n && i < f.queue.len() && 0 <= j < risk.len() && risk[j] && #[trigger] next_to(
            w,
            f.queue[i] as int,
            j,
        ) ==> f.seen[j]
}

proof fn lemma_searched_good(
    risk: Seq<bool>,
    w: int,
    h: int,
    seen: Seq<bool>,
    seed: int,
    n: int,
)
    requires
        risk.len() == w * h,
        risk.len() <= usize::MAX,
        0 <= w,
        0 <= h,
        seen.len() == risk.len(),
        0 <= seed < risk.len(),
        risk[seed],
        !seen[seed],
        0 <= n,
    ensures
        good(risk, w, seen, searched(risk, w, h, seen, seed, n)),
        expanded(risk, w, searched(risk, w, h, seen, seed, n), n),
    decreases n,
{
    let f = searched(risk, w, h, seen, seed, n);
    if n == 0 {
        assert(f.queue[0] == seed);
        assert forall|k: int| 0 <= k < risk.len() implies #[trigger] f.seen[k] == (seen[k] || holds(
            f.queue,
            k,
        )) by {
            if k == seed {
                assert(f.queue[0] == k);
            }
        }
    } else {
        lemma_searched_good(risk, w, h, seen, seed, n - 1);
        let before = searched(risk, w, h, seen, seed, n - 1);
        if n - 1 < before.queue.len() {
            let k = before.queue[n - 1] as int;
            let near = neighbors(k % w, k / w, w, h);
            lemma_visit_all_good(risk, w, h, seen, before, n - 1, near.len() as int);
            lemma_cell_of_index(w, h, k);
            assert forall|i: int, j: int|
                0 <= i < n && i < f.queue.len() && 0 <= j < risk.len() && risk[j]
                    && #[trigger] next_to(w, f.queue[i] as int, j) implies f.seen[j] by {
                assert(f.queue[i] == before.queue[i]);
                if i == n - 1 {
                    lemma_cell_of_index(w, h, j);
                    neighbors_are_adjacent(k % w, k / w, w, h, j % w, j / w);
                    let a = choose|a: int| 0 <= a < near.len() && near[a] == (j % w, j / w);
                    assert(f.seen[cell(w, near[a].0, near[a].1)]);
                } else {
                    assert(next_to(w, before.queue[i] as int, j));
                    assert(before.seen[j]);
                }
            }
        }
    }
}

/// The queue of a search is no longer than the grid.
proof fn lemma_queue_bound(
    risk: Seq<bool>,
    w: int,
    h: int,
    seen: Seq<bool>,
    seed: int,
    n: int,
)
    requires
        risk.len() == w * h,
        risk.len() <= usize::MAX,
        0 <= w,
        0 <= h,
        seen.len() == risk.len(),
        0 <= seed < risk.len(),
        risk[seed],
        !seen[seed],
        0 <= n,
    ensures
        searched(risk, w, h, seen, seed, n).queue.len() <= risk.len(),
{
    lemma_searched_good(risk, w, h, seen, seed, n);
    let q = searched(risk, w, h, seen, seed, n).queue;
    let numbers = Seq::new(q.len(), |i: int| q[i] as int);
    assert(numbers.no_duplicates());
    numbers.unique_seq_to_set();
    let all = vstd::set_lib::set_int_range(0, risk.len() as int);
    vstd::set_lib::lemma_int_range(0, risk.len() as int);
    assert(numbers.to_set().subset_of(all));
    vstd::set_lib::lemma_len_subset(numbers.to_set(), all);
}

/// What holds of the groups that were found so far: they hold the pixels that were found, nothing
/// but pixels at risk, no pixel twice, and with each pixel its neighbors at risk; and they hang
/// together.
pub open spec fn is_partition(
    risk: Seq<bool>,
    w: int,
    found: Seq<Seq<usize>>,
    n: int,
) -> bool {
    &&& forall|g: int, i: int|
        0 <= g < found.len() && 0 <= i < found[g].len() ==> #[trigger] found[g][i] < risk.len()
            && risk[found[g][i] as int]
    &&& forall|k: int|
        0 <= k < n && risk[k] ==> exists|g: int|
            0 <= g < found.len() && #[trigger] holds(found[g], k)
    &&& forall|g: int, i: int, j: int|
        0 <= g < found.len() && 0 <= i < j < found[g].len() ==> #[trigger] found[g][i]
            != #[trigger] found[g][j]
    &&& forall|f: int, g: int, k: int|
        0 <= f < g < found.len() && #[trigger] holds(found[f], k) ==> !#[trigger] holds(
            found[g],
            k,
        )
    &&& forall|g: int, k: int, j: int|
        0 <= g < found.len() && #[trigger] holds(found[g], k) && 0 <= j < risk.len() && risk[j]
            && #[trigger] next_to(w, k, j) ==> holds(found[g], j)
    &&& forall|g: int, i: int|
        0 <= g < found.len() && 1 <= i < found[g].len() ==> #[trigger] linked(w, found[g], i)
}

proof fn lemma_groups(risk: Seq<bool>, w: int, h: int, n: int)
    requires
        risk.len() == w * h,
        risk.len() <= usize::MAX,
        0 <= w,
        0 <= h,
        0 <= n <= risk.len(),
    ensures
        is_partition(risk, w, groups(risk, w, h, n).0, n),
        groups(risk, w, h, n).1.len() == risk.len(),
        forall|k: int|
            0 <= k < risk.len() ==> (#[trigger] groups(risk, w, h, n).1[k] <==> exists|g: int|
                0 <= g < groups(risk, w, h, n).0.len() && #[trigger] holds(
                    groups(risk, w, h, n).0[g],
                    k,
                )),
    decreases n,
{
    if n > 0 {
        lemma_groups(risk, w, h, n - 1);
        let (old_found, old_seen) = groups(risk, w, h, n - 1);
        let (found, seen) = groups(risk, w, h, n);
        let m = old_found.len() as int;
        if risk[n - 1] && !old_seen[n - 1] {
            let f = searched(risk, w, h, old_seen, n - 1, risk.len() as int);
            lemma_searched_good(risk, w, h, old_seen, n - 1, risk.len() as int);
            lemma_queue_bound(risk, w, h, old_seen, n - 1, risk.len() as int);
            assert(found[m] == f.queue);
            assert forall|k: int| 0 <= k < risk.len() implies (#[trigger] seen[k] <==> exists|
                g: int,
            |
                0 <= g < found.len() && #[trigger] holds(found[g], k)) by {
                assert(f.seen[k] == (old_seen[k] || holds(f.queue, k)));
                if old_seen[k] {
                    let g = choose|g: int|
                        0 <= g < old_found.len() && #[trigger] holds(old_found[g], k);
                    assert(holds(found[g], k));
                }
                if holds(f.queue, k) {
                    assert(holds(found[m], k));
                }
                if exists|g: int| 0 <= g < found.len() && #[trigger] holds(found[g], k) {
                    let g = choose|g: int| 0 <= g < found.len() && #[trigger] holds(found[g], k);
                    if g < m {
                        assert(holds(old_found[g], k));
                        assert(old_seen[k]);
                    }
                }
            }
            // the first pixel of the new group is the pixel it was searched from
            lemma_seed_is_held(risk, w, h, old_seen, n - 1, risk.len() as int);
            assert forall|k: int| 0 <= k < n && risk[k] implies exists|g: int|
                0 <= g < found.len() && #[trigger] holds(found[g], k) by {
                if k == n - 1 {
                    assert(holds(found[m], k));
                } else {
                    let g = choose|g: int|
                        0 <= g < old_found.len() && #[trigger] holds(old_found[g], k);
                    assert(holds(found[g], k));
                }
            }
            assert forall|a: int, g: int, k: int|
                0 <= a < g < found.len() && #[trigger] holds(found[a], k) implies !#[trigger] holds(
                found[g],
                k,
            ) by {
                if g == m {
                    assert(holds(old_found[a], k));
                    if holds(found[g], k) {
                        let i = choose|i: int|
                            0 <= i < f.queue.len() && #[trigger] f.queue[i] == k;
                        assert(!old_seen[f.queue[i] as int]);
                        assert(old_seen[k]);
                    }
                } else {
                    assert(holds(old_found[a], k));
                    assert(!holds(old_found[g], k));
                }
            }
            assert forall|g: int, k: int, j: int|
                0 <= g < found.len() && #[trigger] holds(found[g], k) && 0 <= j < risk.len()
                    && risk[j] && #[trigger] next_to(w, k, j) implies holds(found[g], j) by {
                if g < m {
                    assert(holds(old_found[g], k));
                    assert(holds(old_found[g], j));
                } else {
                    let i = choose|i: int| 0 <= i < f.queue.len() && #[trigger] f.queue[i] == k;
                    assert(next_to(w, f.queue[i] as int, j));
                    assert(f.seen[j]);
                    if old_seen[j] {
                        let b = choose|b: int|
                            0 <= b < old_found.len() && #[trigger] holds(old_found[b], j);
                        assert(next_to(w, j, k));
                        assert(risk[f.queue[i] as int]);
                        assert(holds(old_found[b], k));
                        assert(old_seen[k]);
                        assert(!old_seen[f.queue[i] as int]);
                    }
                }
            }
            assert forall|g: int, i: int| 0 <= g < found.len() && 1 <= i < found[g].len() implies
                #[trigger] linked(w, found[g], i) by {
                if g < m {
                    assert(linked(w, old_found[g], i));
                } else {
                    assert(linked(w, f.queue, i));
                }
            }
        } else if risk[n - 1] {
            assert(old_seen[n - 1]);
        }
    }
}

proof fn lemma_seed_is_held(
    risk: Seq<bool>,
    w: int,
    h: int,
    seen: Seq<bool>,
    seed: int,
    n: int,
)
    requires
        risk.len() == w * h,
        risk.len() <= usize::MAX,
        0 <= w,
        0 <= h,
        seen.len() == risk.len(),
        0 <= seed < risk.len(),
        risk[seed],
        !seen[seed],
        0 <= n,
    ensures
        searched(risk, w, h, seen, seed, n).queue.len() > 0,
        searched(risk, w, h, seen, seed, n).queue[0] == seed,
    decreases n,
{
    if n > 0 {
        lemma_seed_is_held(risk, w, h, seen, seed, n - 1);
        lemma_searched_good(risk, w, h, seen, seed, n - 1);
        let before = searched(risk, w, h, seen, seed, n - 1);
        if n - 1 < before.queue.len() {
            let k = before.queue[n - 1] as int;
            let near = neighbors(k % w, k / w, w, h);
            lemma_visit_all_good(risk, w, h, seen, before, n - 1, near.len() as int);
        }
    }
}

/// The groups are the connected parts of the pixels at risk: every pixel at risk is in exactly one
/// group, together with its neighbors at risk, and each pixel of a group but the first has a
/// neighbor before it.
pub proof fn groups_are_connected_parts(risk: Seq<bool>, w: int, h: int)
    requires
        risk.len() == w * h,
        risk.len() <= usize::MAX,
        0 <= w,
        0 <= h,
    ensures
        is_partition(risk, w, groups(risk, w, h, risk.len() as int).0, risk.len() as int),
{
    lemma_groups(risk, w, h, risk.len() as int);
}

proof fn lemma_large_groups(found: Seq<Seq<usize>>)
    ensures
        forall|i: int|
            0 <= i < large_groups(found).len() ==> (#[trigger] large_groups(found)[i]).len() >= 40,
    decreases found.len(),
{
    if found.len() > 0 {
        lemma_large_groups(found.drop_last());
        let before = large_groups(found.drop_last());
        let after = large_groups(found);
        assert forall|i: int| 0 <= i < after.len() implies (#[trigger] after[i]).len() >= 40 by {
            if i < before.len() {
                assert(after[i] == before[i]);
            }
        }
    }
}

/// The components come with the largest first, and none has fewer than forty pixels.
pub proof fn components_come_largest_first<M: Fn(&Vec<Single>) -> Single>(
    mean: M,
    risk: Seq<bool>,
    grad: Seq<Single>,
    w: int,
    h: int,
    components: Seq<RiskyComponent>,
)
    requires
        are_components(mean, risk, grad, w, h, components),
    ensures
        forall|i: int| 0 <= i < components.len() ==> (#[trigger] components[i]).area_px >= 40,
        forall|i: int, j: int|
            0 <= i < j < components.len() ==> (#[trigger] components[j]).area_px <= (
            #[trigger] components[i]).area_px,
{
    let found = large_groups(groups(risk, w, h, risk.len() as int).0);
    lemma_large_groups(groups(risk, w, h, risk.len() as int).0);
    let order = choose|order: Seq<usize>|
        {
            &&& #[trigger] is_sorting(size_keys(found), all_indices(found.len()), order)
            &&& components.len() == found.len()
            &&& forall|i: int|
                0 <= i < components.len() ==> describes(
                    mean,
                    grad,
                    w,
                    found[order[i] as int],
                    #[trigger] components[i],
                )
        };
    assert forall|i: int| 0 <= i < components.len() implies 0 <= order[i] < found.len()
        && found[order[i] as int].len() == (#[trigger] components[i]).area_px by {
        assert(order.contains(order[i]));
        assert(all_indices(found.len()).contains(order[i]));
        assert(describes(mean, grad, w, found[order[i] as int], components[i]));
    }
    assert forall|i: int, j: int| 0 <= i < j < components.len() implies (
    #[trigger] components[j]).area_px <= (#[trigger] components[i]).area_px by {
        assert(crate::order::before(size_keys(found), order[i], order[j]));
    }
}

/// Two pixels are next to each other exactly if one of their coordinates is the same and the other
/// differs by one: pixels that touch at a corner are not.
pub proof fn corners_do_not_join(w: int, x: int, y: int, u: int, v: int)
    requires
        0 <= x < w,
        0 <= u < w,
        0 <= y,
        0 <= v,
    ensures
        next_to(w, y * w + x, v * w + u) <==> (x - u) * (x - u) + (y - v) * (y - v) == 1,
{
    lemma_index_of_cell(w, x, y);
    lemma_index_of_cell(w, u, v);
    let a = x - u;
    let b = y - v;
    assert(a * a + b * b == 1 <==> (a == 0 && (b == 1 || b == -1)) || (b == 0 && (a == 1 || a
        == -1))) by (nonlinear_arith);
}

proof fn lemma_group_seeds(risk: Seq<bool>, w: int, h: int, n: int)
    requires
        0 <= n <= risk.len(),
        risk.len() <= usize::MAX,
    ensures
        ({
            let found = groups(risk, w, h, n).0;
            &&& forall|g: int|
                0 <= g < found.len() ==> (#[trigger] found[g]).len() > 0 && found[g][0] < n
            &&& forall|f: int, g: int|
                0 <= f < g < found.len() ==> (#[trigger] found[f])[0] < (#[trigger] found[g])[0]
        }),
    decreases n,
{
    if n > 0 {
        lemma_group_seeds(risk, w, h, n - 1);
        let (before, seen) = groups(risk, w, h, n - 1);
        if risk[n - 1] && !seen[n - 1] {
            lemma_seed_stays(risk, w, h, seen, n - 1, risk.len() as int);
        }
    }
}

proof fn lemma_seed_stays(
    risk: Seq<bool>,
    w: int,
    h: int,
    seen: Seq<bool>,
    seed: int,
    n: int,
)
    requires
        0 <= seed <= usize::MAX,
    ensures
        searched(risk, w, h, seen, seed, n).queue.len() > 0,
        searched(risk, w, h, seen, seed, n).queue[0] == seed,
    decreases n,
{
    if n > 0 {
        lemma_seed_stays(risk, w, h, seen, seed, n - 1);
        let f = searched(risk, w, h, seen, seed, n - 1);
        if n - 1 < f.queue.len() {
            let k = f.queue[n - 1] as int;
            let near = neighbors(k % w, k / w, w, h);
            lemma_first_stays(risk, w, f, near, near.len() as int);
        }
    }
}

proof fn lemma_first_stays(risk: Seq<bool>, w: int, f: Found, near: Seq<(int, int)>, m: int)
    requires
        f.queue.len() > 0,
    ensures
        visit_all(risk, w, f, near, m).queue.len() > 0,
        visit_all(risk, w, f, near, m).queue[0] == f.queue[0],
    decreases m,
{
    if m > 0 {
        lemma_first_stays(risk, w, f, near, m - 1);
    }
}

/// The groups come in the order in which a scan meets them.
pub proof fn groups_come_in_scan_order(risk: Seq<bool>, w: int, h: int, f: int, g: int)
    requires
        risk.len() <= usize::MAX,
        0 <= f < g < groups(risk, w, h, risk.len() as int).0.len(),
    ensures
        groups(risk, w, h, risk.len() as int).0[f].len() > 0,
        groups(risk, w, h, risk.len() as int).0[g].len() > 0,
        groups(risk, w, h, risk.len() as int).0[f][0] < groups(risk, w, h, risk.len() as int).0[g][0],
{
    lemma_group_seeds(risk, w, h, risk.len() as int);
}

/// Whether a component tells the size of a group of pixels and the smallest box that holds them.
pub open spec fn boxes(c: RiskyComponent, w: int, pixels: Seq<usize>) -> bool {
    &&& c.area_px == pixels.len()
    &&& forall|i: int|
        0 <= i < pixels.len() ==> {
            let k = #[trigger] pixels[i] as int;
            &&& c.bbox_xywh[0] <= k % w < c.bbox_xywh[0] + c.bbox_xywh[2]
            &&& c.bbox_xywh[1] <= k / w < c.bbox_xywh[1] + c.bbox_xywh[3]
        }
    &&& exists|i: int| 0 <= i < pixels.len() && (#[trigger] pixels[i]) as int % w == c.bbox_xywh[0]
    &&& exists|i: int| 0 <= i < pixels.len() && (#[trigger] pixels[i]) as int / w == c.bbox_xywh[1]
    &&& exists|i: int|
        0 <= i < pixels.len() && (#[trigger] pixels[i]) as int % w == c.bbox_xywh[0]
            + c.bbox_xywh[2] - 1
    &&& exists|i: int|
        0 <= i < pixels.len() && (#[trigger] pixels[i]) as int / w == c.bbox_xywh[1]
            + c.bbox_xywh[3] - 1
}

/// Whether a component tells the mean and the peak of the gradients of a group of pixels: no
/// gradient is above the peak, which is one of them, or zero where none is above zero.
pub open spec fn sums_up<M: Fn(&Vec<Single>) -> Single>(
    mean: M,
    grad: Seq<Single>,
    c: RiskyComponent,
    pixels: Seq<usize>,
) -> bool {
    &&& gives_mean(
        mean,
        Seq::new(pixels.len(), |i: int| grad[pixels[i] as int]),
        c.mean_gradient,
    )
    &&& forall|i: int|
        0 <= i < pixels.len() ==> !c.max_gradient.lt(grad[#[trigger] pixels[i] as int])
    &&& !c.max_gradient.lt(Single { bits: 0 })
    &&& c.max_gradient == (Single { bits: 0 }) || exists|i: int|
        0 <= i < pixels.len() && grad[#[trigger] pixels[i] as int] == c.max_gradient
}

proof fn lemma_peak(values: Seq<Single>)
    ensures
        !peak(values).nan(),
        !peak(values).lt(Single { bits: 0 }),
        forall|i: int| 0 <= i < values.len() ==> !peak(values).lt(#[trigger] values[i]),
        peak(values) == (Single { bits: 0 }) || values.contains(peak(values)),
    decreases values.len(),
{
    if values.len() > 0 {
        let rest = values.drop_last();
        lemma_peak(rest);
        assert forall|i: int| 0 <= i < values.len() implies !peak(values).lt(
            #[trigger] values[i],
        ) by {
            if i < rest.len() {
                assert(values[i] == rest[i]);
            }
        }
        if rest.contains(peak(rest)) {
            let i = choose|i: int| 0 <= i < rest.len() && rest[i] == peak(rest);
            assert(values[i] == peak(rest));
        }
        assert(values[values.len() - 1] == values.last());
    }
}

proof fn lemma_describes<M: Fn(&Vec<Single>) -> Single>(
    mean: M,
    grad: Seq<Single>,
    w: int,
    pixels: Seq<usize>,
    c: RiskyComponent,
)
    requires
        describes(mean, grad, w, pixels, c),
        pixels.len() > 0,
    ensures
        boxes(c, w, pixels),
        sums_up(mean, grad, c, pixels),
{
    let xs = columns_of(pixels, w);
    let ys = rows_of(pixels, w);
    lowest_and_highest_bound_the_values(xs);
    lowest_and_highest_bound_the_values(ys);
    let a = choose|i: int| 0 <= i < xs.len() && xs[i] == lowest(xs);
    let b = choose|i: int| 0 <= i < xs.len() && xs[i] == highest(xs);
    let d = choose|i: int| 0 <= i < ys.len() && ys[i] == lowest(ys);
    let e = choose|i: int| 0 <= i < ys.len() && ys[i] == highest(ys);
    assert(pixels[a] as int % w == xs[a]);
    assert(pixels[b] as int % w == xs[b]);
    assert(pixels[d] as int / w == ys[d]);
    assert(pixels[e] as int / w == ys[e]);
    assert forall|i: int| 0 <= i < pixels.len() implies {
        let k = #[trigger] pixels[i] as int;
        &&& c.bbox_xywh[0] <= k % w < c.bbox_xywh[0] + c.bbox_xywh[2]
        &&& c.bbox_xywh[1] <= k / w < c.bbox_xywh[1] + c.bbox_xywh[3]
    } by {
        assert(xs[i] == pixels[i] as int % w && ys[i] == pixels[i] as int / w);
    }
    let values = gradients_of(grad, pixels);
    lemma_peak(values);
    assert(values =~= Seq::new(pixels.len(), |i: int| grad[pixels[i] as int]));
    assert forall|i: int| 0 <= i < pixels.len() implies !c.max_gradient.lt(
        grad[#[trigger] pixels[i] as int],
    ) by {
        assert(values[i] == grad[pixels[i] as int]);
    }
    if values.contains(peak(values)) {
        let i = choose|i: int| 0 <= i < values.len() && values[i] == peak(values);
        assert(grad[pixels[i] as int] == c.max_gradient);
    }
}

proof fn lemma_large_group_place(found: Seq<Seq<usize>>, g: int) -> (i: int)
    requires
        0 <= g < found.len(),
        found[g].len() >= 40,
    ensures
        0 <= i < large_groups(found).len(),
        large_groups(found)[i] == found[g],
    decreases found.len(),
{
    if g < found.len() - 1 {
        lemma_large_group_place(found.drop_last(), g)
    } else {
        large_groups(found.drop_last()).len() as int
    }
}

proof fn lemma_large_group_source(found: Seq<Seq<usize>>, i: int) -> (g: int)
    requires
        0 <= i < large_groups(found).len(),
    ensures
        0 <= g < found.len(),
        large_groups(found)[i] == found[g],
        found[g].len() >= 40,
    decreases found.len(),
{
    if i < large_groups(found.drop_last()).len() {
        lemma_large_group_source(found.drop_last(), i)
    } else {
        found.len() - 1
    }
}

/// Every group of at least forty pixels is described: its size, the smallest box around it, and the
/// mean and the peak of its gradients.
pub proof fn large_groups_are_described<M: Fn(&Vec<Single>) -> Single>(
    mean: M,
    risk: Seq<bool>,
    grad: Seq<Single>,
    w: int,
    h: int,
    components: Seq<RiskyComponent>,
    g: int,
)
    requires
        risk.len() <= usize::MAX,
        are_components(mean, risk, grad, w, h, components),
        0 <= g < groups(risk, w, h, risk.len() as int).0.len(),
        groups(risk, w, h, risk.len() as int).0[g].len() >= 40,
    ensures
        exists|i: int|
            {
                let pixels = groups(risk, w, h, risk.len() as int).0[g];
                &&& 0 <= i < components.len()
                &&& boxes(#[trigger] components[i], w, pixels)
                &&& sums_up(mean, grad, components[i], pixels)
            },
{
    let all = groups(risk, w, h, risk.len() as int).0;
    let found = large_groups(all);
    let place = lemma_large_group_place(all, g);
    lemma_group_seeds(risk, w, h, risk.len() as int);
    lemma_fewer_groups(risk, w, h, risk.len() as int);
    lemma_fewer_large_groups(all);
    let order = choose|order: Seq<usize>|
        {
            &&& #[trigger] is_sorting(size_keys(found), all_indices(found.len()), order)
            &&& components.len() == found.len()
            &&& forall|i: int|
                0 <= i < components.len() ==> describes(
                    mean,
                    grad,
                    w,
                    found[order[i] as int],
                    #[trigger] components[i],
                )
        };
    assert(all_indices(found.len())[place] == place as usize);
    assert(order.contains(place as usize));
    let i = choose|i: int| 0 <= i < order.len() && order[i] == place as usize;
    assert(describes(mean, grad, w, found[order[i] as int], components[i]));
    lemma_describes(mean, grad, w, all[g], components[i]);
}

proof fn lemma_fewer_groups(risk: Seq<bool>, w: int, h: int, n: int)
    requires
        0 <= n,
    ensures
        groups(risk, w, h, n).0.len() <= n,
    decreases n,
{
    if n > 0 {
        lemma_fewer_groups(risk, w, h, n - 1);
    }
}

proof fn lemma_fewer_large_groups(found: Seq<Seq<usize>>)
    ensures
        large_groups(found).len() <= found.len(),
    decreases found.len(),
{
    if found.len() > 0 {
        lemma_fewer_large_groups(found.drop_last());
    }
}

/// Nothing but groups of at least forty pixels is described.
pub proof fn components_describe_groups<M: Fn(&Vec<Single>) -> Single>(
    mean: M,
    risk: Seq<bool>,
    grad: Seq<Single>,
    w: int,
    h: int,
    components: Seq<RiskyComponent>,
    i: int,
)
    requires
        are_components(mean, risk, grad, w, h, components),
        0 <= i < components.len(),
    ensures
        exists|g: int|
            #![trigger groups(risk, w, h, risk.len() as int).0[g]]
            {
                let all = groups(risk, w, h, risk.len() as int).0;
                &&& 0 <= g < all.len()
                &&& all[g].len() >= 40
                &&& boxes(components[i], w, all[g])
                &&& sums_up(mean, grad, components[i], all[g])
            },
{
    let all = groups(risk, w, h, risk.len() as int).0;
    let found = large_groups(all);
    let order = choose|order: Seq<usize>|
        {
            &&& #[trigger] is_sorting(size_keys(found), all_indices(found.len()), order)
            &&& components.len() == found.len()
            &&& forall|i: int|
                0 <= i < components.len() ==> describes(
                    mean,
                    grad,
                    w,
                    found[order[i] as int],
                    #[trigger] components[i],
                )
        };
    assert(order.contains(order[i]));
    assert(all_indices(found.len()).contains(order[i]));
    let g = lemma_large_group_source(all, order[i] as int);
    lemma_describes(mean, grad, w, all[g], components[i]);
}

/// Where the mean of a list depends on the list alone, it is that of all the values, in their order.
pub proof fn means_are_those_of_all_values<M: Fn(&Vec<Single>) -> Single>(
    mean: M,
    value: spec_fn(Seq<Single>) -> Single,
    values: Seq<Single>,
    r: Single,
)
    requires
        forall|v: &Vec<Single>, s: Single| #[trigger]
            call_ensures(mean, (v,), s) ==> s == value(v@),
        gives_mean(mean, values, r),
    ensures
        r == value(values),
{
}

} // verus!
