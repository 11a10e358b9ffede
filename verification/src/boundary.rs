//! Boundaries: where the pixels of a canvas pass from one frame to another.

use vstd::prelude::*;

use crate::grid::{
    cell, count_where, lemma_cell_bound, lemma_cell_of_index, lemma_cell_order, lemma_index_of_cell,
    scanned,
};
use crate::source_map::SourceMap;

verus! {

/// Whether two pixels of the canvas come from different frames.
pub open spec fn handoff(map: SourceMap, x: int, y: int, u: int, v: int) -> bool {
    &&& map.has(x, y)
    &&& map.has(u, v)
    &&& map.assigned(x, y)
    &&& map.assigned(u, v)
    &&& map.at(x, y) != map.at(u, v)
}

/// Whether a pixel and one of its four neighbors come from different frames.
pub open spec fn on_boundary(map: SourceMap, x: int, y: int) -> bool {
    ||| handoff(map, x, y, x + 1, y)
    ||| handoff(map, x, y, x, y + 1)
    ||| handoff(map, x - 1, y, x, y)
    ||| handoff(map, x, y - 1, x, y)
}

/// Two frame numbers, the smaller one first.
pub open spec fn ordered(a: u8, b: u8) -> (u8, u8) {
    if a < b {
        (a, b)
    } else {
        (b, a)
    }
}

/// The pairs of frames that the first `n` pixels hand over to, to the right and then downwards.
pub open spec fn handoffs(map: SourceMap, n: int) -> Seq<(u8, u8)>
    decreases n,
{
    if n <= 0 {
        Seq::empty()
    } else {
        let x = (n - 1) % map.width as int;
        let y = (n - 1) / map.width as int;
        let before = handoffs(map, n - 1);
        let right = if handoff(map, x, y, x + 1, y) {
            before.push(ordered(map.at(x, y), map.at(x + 1, y)))
        } else {
            before
        };
        if handoff(map, x, y, x, y + 1) {
            right.push(ordered(map.at(x, y), map.at(x, y + 1)))
        } else {
            right
        }
    }
}

/// A pair of frames, and how often it occurs.
pub type SourcePairCount = ((u8, u8), u32);

/// The place of a pair in a list of counts, or the length of the list where it is missing.
pub open spec fn place_of(counts: Seq<SourcePairCount>, pair: (u8, u8), k: int) -> int
    decreases counts.len() - k,
{
    if k < 0 || k >= counts.len() {
        counts.len() as int
    } else if counts[k].0 == pair {
        k
    } else {
        place_of(counts, pair, k + 1)
    }
}

/// The counts after one more occurrence of a pair. New pairs go to the end.
pub open spec fn counted(counts: Seq<SourcePairCount>, pair: (u8, u8)) -> Seq<SourcePairCount> {
    let k = place_of(counts, pair, 0);
    if k < counts.len() {
        counts.update(k, (pair, (counts[k].1 + 1) as u32))
    } else {
        counts.push((pair, 1))
    }
}

/// The counts of the pairs of a list, in the order in which they first occur.
pub open spec fn tally(pairs: Seq<(u8, u8)>) -> Seq<SourcePairCount>
    decreases pairs.len(),
{
    if pairs.len() == 0 {
        Seq::empty()
    } else {
        counted(tally(pairs.drop_last()), pairs.last())
    }
}

/// How often a pair occurs in a list.
pub open spec fn occurrences(pairs: Seq<(u8, u8)>, pair: (u8, u8)) -> nat
    decreases pairs.len(),
{
    if pairs.len() == 0 {
        0
    } else {
        occurrences(pairs.drop_last(), pair) + if pairs.last() == pair {
            1nat
        } else {
            0nat
        }
    }
}

/// Whether the occurrences of each pair of a list can be counted in 32 bits.
pub open spec fn countable(pairs: Seq<(u8, u8)>) -> bool {
    forall|pair: (u8, u8)| #[trigger] occurrences(pairs, pair) <= u32::MAX
}

proof fn lemma_occurrences(pairs: Seq<(u8, u8)>, pair: (u8, u8))
    ensures
        occurrences(pairs, pair) <= pairs.len(),
        !pairs.contains(pair) ==> occurrences(pairs, pair) == 0,
    decreases pairs.len(),
{
    if pairs.len() > 0 {
        let rest = pairs.drop_last();
        lemma_occurrences(rest, pair);
        if rest.contains(pair) {
            let k = choose|k: int| 0 <= k < rest.len() && rest[k] == pair;
            assert(pairs[k] == pair);
        }
        assert(pairs[pairs.len() - 1] == pairs.last());
    }
}

proof fn lemma_place_of(counts: Seq<SourcePairCount>, pair: (u8, u8), k: int)
    requires
        0 <= k <= counts.len(),
    ensures
        k <= place_of(counts, pair, k) <= counts.len(),
        place_of(counts, pair, k) < counts.len() ==> counts[place_of(counts, pair, k)].0 == pair,
        forall|j: int| k <= j < place_of(counts, pair, k) ==> (#[trigger] counts[j]).0 != pair,
    decreases counts.len() - k,
{
    if k < counts.len() && counts[k].0 != pair {
        lemma_place_of(counts, pair, k + 1);
    }
}

/// A tally lists every pair that occurs, and no other, once, with the number of its occurrences.
pub proof fn tally_counts_every_pair(pairs: Seq<(u8, u8)>)
    requires
        countable(pairs),
    ensures
        forall|k: int|
            0 <= k < tally(pairs).len() ==> (#[trigger] tally(pairs)[k]).1 == occurrences(
                pairs,
                tally(pairs)[k].0,
            ) && 0 < tally(pairs)[k].1 && pairs.contains(tally(pairs)[k].0),
        forall|j: int, k: int|
            0 <= j < k < tally(pairs).len() ==> (#[trigger] tally(pairs)[j]).0 != (
            #[trigger] tally(pairs)[k]).0,
        forall|i: int|
            0 <= i < pairs.len() ==> exists|k: int|
                0 <= k < tally(pairs).len() && (#[trigger] tally(pairs)[k]).0 == #[trigger] pairs[i],
    decreases pairs.len(),
{
    if pairs.len() > 0 {
        let rest = pairs.drop_last();
        let last = pairs.last();
        assert forall|pair: (u8, u8)| #[trigger] occurrences(rest, pair) <= u32::MAX by {
            assert(occurrences(pairs, pair) <= u32::MAX);
        }
        tally_counts_every_pair(rest);
        assert(occurrences(pairs, last) == occurrences(rest, last) + 1);
        let before = tally(rest);
        let after = tally(pairs);
        let m = place_of(before, last, 0);
        lemma_place_of(before, last, 0);
        assert forall|k: int| 0 <= k < after.len() implies (#[trigger] after[k]).1 == occurrences(
            pairs,
            after[k].0,
        ) && 0 < after[k].1 && pairs.contains(after[k].0) by {
            lemma_occurrences(rest, after[k].0);
            lemma_occurrences(pairs, after[k].0);
            if k < before.len() {
                assert(before[k].1 == occurrences(rest, before[k].0));
                if k != m {
                    if m < before.len() {
                        if k < m {
                            assert(before[k].0 != before[m].0);
                        } else {
                            assert(before[m].0 != before[k].0);
                        }
                    } else {
                        assert(before[k].0 != last);
                    }
                }
            } else {
                if rest.contains(last) {
                    let j = choose|j: int| 0 <= j < rest.len() && rest[j] == last;
                    let i = choose|i: int|
                        0 <= i < before.len() && (#[trigger] before[i]).0 == rest[j];
                    assert(before[i].0 == last);
                }
            }
        }
        assert forall|j: int, k: int| 0 <= j < k < after.len() implies (#[trigger] after[j]).0 != (
        #[trigger] after[k]).0 by {
            if k < before.len() {
                assert(before[j].0 != before[k].0);
            } else {
                assert(before[j].0 != last);
            }
        }
        assert forall|i: int| 0 <= i < pairs.len() implies exists|k: int|
            0 <= k < after.len() && (#[trigger] after[k]).0 == #[trigger] pairs[i] by {
            if i < rest.len() {
                assert(rest[i] == pairs[i]);
                let k = choose|k: int|
                    0 <= k < before.len() && (#[trigger] before[k]).0 == rest[i];
                assert(after[k].0 == pairs[i]);
            } else {
                assert(after[m].0 == last);
            }
        }
    }
}

/// Whether one more occurrence of a pair can be counted.
pub open spec fn has_room(counts: Seq<SourcePairCount>, pair: (u8, u8)) -> bool {
    let k = place_of(counts, pair, 0);
    k < counts.len() ==> counts[k].1 < u32::MAX
}

/// Counts one more occurrence of a pair of frames. Nothing is counted where one of them is missing
/// or both are the same.
pub fn add_pair_count(counts: &mut Vec<SourcePairCount>, a: u8, b: u8)
    requires
        a != SourceMap::UNASSIGNED && b != SourceMap::UNASSIGNED && a != b ==> has_room(
            old(counts)@,
            ordered(a, b),
        ),
    ensures
        final(counts)@ == if a == SourceMap::UNASSIGNED || b == SourceMap::UNASSIGNED || a == b {
            old(counts)@
        } else {
            counted(old(counts)@, ordered(a, b))
        },
{
    if a == SourceMap::UNASSIGNED || b == SourceMap::UNASSIGNED || a == b {
        return;
    }
    let pair = if a < b {
        (a, b)
    } else {
        (b, a)
    };
    let n: usize = counts.len();
    for k in 0..n
        invariant
            n == counts@.len(),
            counts@ == old(counts)@,
            pair == ordered(a, b),
            has_room(counts@, pair),
            place_of(counts@, pair, 0) == place_of(counts@, pair, k as int),
            !(a == SourceMap::UNASSIGNED || b == SourceMap::UNASSIGNED || a == b),
    {
        let (p, count) = counts[k];
        if p.0 == pair.0 && p.1 == pair.1 {
            counts.set(k, (pair, count + 1));
            return;
        }
    }
    counts.push((pair, 1));
}

/// Where the occurrences can still be counted with one more of a pair, the tally has room for it.
proof fn lemma_tally_has_room(pairs: Seq<(u8, u8)>, pair: (u8, u8))
    requires
        countable(pairs.push(pair)),
    ensures
        has_room(tally(pairs), pair),
        tally(pairs.push(pair)) == counted(tally(pairs), pair),
{
    let more = pairs.push(pair);
    assert(more.drop_last() =~= pairs);
    assert forall|p: (u8, u8)| #[trigger] occurrences(pairs, p) <= u32::MAX by {
        assert(occurrences(more, p) <= u32::MAX);
    }
    tally_counts_every_pair(pairs);
    lemma_place_of(tally(pairs), pair, 0);
    assert(occurrences(more, pair) == occurrences(pairs, pair) + 1);
}

proof fn lemma_prefix_occurrences(pairs: Seq<(u8, u8)>, more: Seq<(u8, u8)>, pair: (u8, u8))
    requires
        pairs == more || more.len() > 0 && pairs == more.drop_last(),
    ensures
        occurrences(pairs, pair) <= occurrences(more, pair),
{
}

proof fn lemma_handoffs_grow(map: SourceMap, n: int, m: int, pair: (u8, u8))
    requires
        0 <= n <= m,
    ensures
        occurrences(handoffs(map, n), pair) <= occurrences(handoffs(map, m), pair),
    decreases m,
{
    if n < m {
        lemma_handoffs_grow(map, n, m - 1, pair);
        lemma_next_handoffs(map, m, pair);
    }
}

/// The handoffs to the right and downwards of one pixel, counted.
proof fn lemma_next_handoffs(map: SourceMap, n: int, pair: (u8, u8))
    requires
        0 < n,
    ensures
        ({
            let x = (n - 1) % map.width as int;
            let y = (n - 1) / map.width as int;
            occurrences(handoffs(map, n), pair) == occurrences(handoffs(map, n - 1), pair) + (
            if handoff(map, x, y, x + 1, y) && ordered(map.at(x, y), map.at(x + 1, y)) == pair {
                1int
            } else {
                0
            }) + (if handoff(map, x, y, x, y + 1) && ordered(map.at(x, y), map.at(x, y + 1))
                == pair {
                1int
            } else {
                0
            })
        }),
{
    let x = (n - 1) % map.width as int;
    let y = (n - 1) / map.width as int;
    let before = handoffs(map, n - 1);
    let a = ordered(map.at(x, y), map.at(x + 1, y));
    let b = ordered(map.at(x, y), map.at(x, y + 1));
    let right = if handoff(map, x, y, x + 1, y) {
        before.push(a)
    } else {
        before
    };
    assert(before.push(a).drop_last() =~= before);
    assert(right.push(b).drop_last() =~= right);
    assert(occurrences(before.push(a), pair) == occurrences(before, pair) + if a == pair {
        1int
    } else {
        0
    });
    assert(occurrences(right.push(b), pair) == occurrences(right, pair) + if b == pair {
        1int
    } else {
        0
    });
}

/// Whether the pixel `(i, j)` is on a boundary as far as the pixels before `(x, y)` tell.
spec fn marked(map: SourceMap, i: int, j: int, x: int, y: int) -> bool {
    ||| scanned(i, j, x, y) && (handoff(map, i, j, i + 1, j) || handoff(map, i, j, i, j + 1))
    ||| scanned(i - 1, j, x, y) && handoff(map, i - 1, j, i, j)
    ||| scanned(i, j - 1, x, y) && handoff(map, i, j - 1, i, j)
}

spec fn marks(map: SourceMap, boundary: Seq<bool>, x: int, y: int) -> bool {
    &&& boundary.len() == map.data@.len()
    &&& forall|i: int, j: int|
        map.has(i, j) ==> #[trigger] boundary[cell(map.width as int, i, j)] == marked(
            map,
            i,
            j,
            x,
            y,
        )
}

/// Marks the two pixels of a handoff.
fn mark_pair(boundary: &mut Vec<bool>, a: usize, b: usize)
    requires
        a < old(boundary)@.len(),
        b < old(boundary)@.len(),
    ensures
        final(boundary)@ == old(boundary)@.update(a as int, true).update(b as int, true),
{
    boundary.set(a, true);
    boundary.set(b, true);
}

/// Marks what the pixel `(x, y)` hands over to, and counts the pairs.
fn mark_pixel(
    map: &SourceMap,
    boundary: &mut Vec<bool>,
    counts: &mut Vec<SourcePairCount>,
    x: u32,
    y: u32,
)
    requires
        map.wf(),
        map.has(x as int, y as int),
        marks(*map, old(boundary)@, x as int, y as int),
        old(counts)@ == tally(handoffs(*map, cell(map.width as int, x as int, y as int))),
        countable(handoffs(*map, map.data@.len() as int)),
    ensures
        marks(*map, final(boundary)@, x + 1, y as int),
        final(counts)@ == tally(handoffs(*map, cell(map.width as int, x as int, y as int) + 1)),
{
    let w: u32 = map.width;
    let h: u32 = map.height;
    let ghost n = cell(w as int, x as int, y as int);
    let ghost events = handoffs(*map, n);
    let ghost start = boundary@;
    let ghost right = if handoff(*map, x as int, y as int, x + 1, y as int) {
        events.push(ordered(map.at(x as int, y as int), map.at(x + 1, y as int)))
    } else {
        events
    };
    proof {
        lemma_cell_bound(w as int, h as int, x as int, y as int);
        lemma_index_of_cell(w as int, x as int, y as int);
        assert forall|pair: (u8, u8)| #[trigger] occurrences(handoffs(*map, n + 1), pair)
            <= u32::MAX by {
            lemma_handoffs_grow(*map, n + 1, map.data@.len() as int, pair);
        }
        let below = ordered(map.at(x as int, y as int), map.at(x as int, y + 1));
        assert(right.push(below).drop_last() =~= right);
        assert(handoffs(*map, n + 1) == if handoff(*map, x as int, y as int, x as int, y + 1) {
            right.push(below)
        } else {
            right
        });
    }
    let s: u8 = map.get(x, y);
    let here: usize = y as usize * w as usize + x as usize;
    if x < w - 1 {
        proof {
            lemma_cell_bound(w as int, h as int, x + 1, y as int);
        }
        let t: u8 = map.get(x + 1, y);
        if s != t && s != SourceMap::UNASSIGNED && t != SourceMap::UNASSIGNED {
            assert(handoff(*map, x as int, y as int, x + 1, y as int));
            mark_pair(boundary, here, here + 1);
            proof {
                let more = events.push(ordered(s, t));
                assert forall|pair: (u8, u8)| #[trigger] occurrences(more, pair) <= u32::MAX by {
                    lemma_prefix_occurrences(more, handoffs(*map, n + 1), pair);
                }
                lemma_tally_has_room(events, ordered(s, t));
            }
            add_pair_count(counts, s, t);
        }
    }
    assert(counts@ == tally(right));
    if y < h - 1 {
        proof {
            lemma_cell_bound(w as int, h as int, x as int, y + 1);
            assert(cell(w as int, x as int, y + 1) == n + w) by (nonlinear_arith)
                requires
                    n == y * w + x,
                    cell(w as int, x as int, y + 1) == (y + 1) * w + x,
            ;
        }
        let t: u8 = map.get(x, y + 1);
        if s != t && s != SourceMap::UNASSIGNED && t != SourceMap::UNASSIGNED {
            assert(handoff(*map, x as int, y as int, x as int, y + 1));
            mark_pair(boundary, here, here + w as usize);
            proof {
                lemma_tally_has_room(right, ordered(s, t));
            }
            add_pair_count(counts, s, t);
        }
    }
    proof {
        assert forall|i: int, j: int| map.has(i, j) implies #[trigger] boundary@[cell(
            w as int,
            i,
            j,
        )] == marked(*map, i, j, x + 1, y as int) by {
            assert(start[cell(w as int, i, j)] == marked(*map, i, j, x as int, y as int));
            lemma_cell_bound(w as int, h as int, i, j);
            lemma_cell_order(w as int, i, j, x as int, y as int);
            if x < w - 1 {
                lemma_cell_order(w as int, i, j, x + 1, y as int);
            }
            if y < h - 1 {
                lemma_cell_order(w as int, i, j, x as int, y + 1);
            }
        }
    }
}

/// The pixels on a boundary, and how often each pair of frames meets, in the order in which the
/// pairs are first met.
#[verifier::loop_isolation(false)]
pub fn source_boundary_map(source_map: &SourceMap) -> (r: (Vec<bool>, Vec<SourcePairCount>))
    requires
        source_map.wf(),
        countable(handoffs(*source_map, source_map.data@.len() as int)),
    ensures
        r.0@.len() == source_map.data@.len(),
        forall|k: int|
            0 <= k < r.0@.len() ==> #[trigger] r.0@[k] == on_boundary(
                *source_map,
                k % source_map.width as int,
                k / source_map.width as int,
            ),
        r.1@ == tally(handoffs(*source_map, source_map.data@.len() as int)),
{
    let w: u32 = source_map.width;
    let h: u32 = source_map.height;
    let mut boundary: Vec<bool> = vec![false; source_map.data.len()];
    let mut counts: Vec<SourcePairCount> = Vec::new();
    proof {
        assert(0 * w == 0) by (nonlinear_arith);
        assert forall|i: int, j: int| source_map.has(i, j) implies #[trigger] boundary@[cell(
            w as int,
            i,
            j,
        )] == marked(*source_map, i, j, 0, 0) by {
            lemma_cell_bound(w as int, h as int, i, j);
        }
    }
    for y in 0..h
        invariant
            marks(*source_map, boundary@, 0, y as int),
            counts@ == tally(handoffs(*source_map, y * w)),
    {
        for x in 0..w
            invariant
                marks(*source_map, boundary@, x as int, y as int),
                counts@ == tally(
                    handoffs(*source_map, cell(w as int, x as int, y as int)),
                ),
        {
            mark_pixel(source_map, &mut boundary, &mut counts, x, y);
        }
        proof {
            assert(cell(w as int, w as int, y as int) == (y + 1) * w) by (nonlinear_arith)
                requires
                    cell(w as int, w as int, y as int) == y * w + w,
            ;
            assert forall|i: int, j: int| source_map.has(i, j) implies #[trigger] boundary@[cell(
                w as int,
                i,
                j,
            )] == marked(*source_map, i, j, 0, y + 1) by {
                assert(boundary@[cell(w as int, i, j)] == marked(
                    *source_map,
                    i,
                    j,
                    w as int,
                    y as int,
                ));
            }
        }
    }
    proof {
        assert(h * w == w * h) by (nonlinear_arith);
        assert forall|k: int| 0 <= k < boundary@.len() implies #[trigger] boundary@[k]
            == on_boundary(*source_map, k % w as int, k / w as int) by {
            lemma_cell_of_index(w as int, h as int, k);
            assert(boundary@[cell(w as int, k % w as int, k / w as int)] == marked(
                *source_map,
                k % w as int,
                k / w as int,
                0,
                h as int,
            ));
        }
    }
    (boundary, counts)
}

/// Whether a table with a place for every two frame numbers holds how often each pair occurs.
spec fn holds_occurrences(table: Seq<u64>, pairs: Seq<(u8, u8)>) -> bool {
    &&& table.len() == 0x1_0000
    &&& forall|a: u8, b: u8| #[trigger] table[a * 256 + b] == occurrences(pairs, (a, b))
}

/// Counts one more occurrence of a pair in the table.
fn count_in_table(table: &mut Vec<u64>, s: u8, t: u8, Ghost(pairs): Ghost<Seq<(u8, u8)>>)
    requires
        holds_occurrences(old(table)@, pairs),
        pairs.len() < u64::MAX,
    ensures
        holds_occurrences(final(table)@, pairs.push(ordered(s, t))),
{
    let (a, b) = if s < t {
        (s, t)
    } else {
        (t, s)
    };
    let at: usize = a as usize * 256 + b as usize;
    proof {
        lemma_occurrences(pairs, (a, b));
        assert(table@[a * 256 + b] == occurrences(pairs, (a, b)));
    }
    let ghost was = table@;
    table.set(at, table[at] + 1);
    proof {
        let more = pairs.push((a, b));
        assert(more.drop_last() =~= pairs);
        assert forall|c: u8, d: u8| #[trigger] table@[c * 256 + d] == occurrences(
            more,
            (c, d),
        ) by {
            assert(was[c * 256 + d] == occurrences(pairs, (c, d)));
        }
    }
}

proof fn lemma_handoffs_bound(map: SourceMap, n: int)
    requires
        0 <= n,
    ensures
        handoffs(map, n).len() <= 2 * n,
    decreases n,
{
    if n > 0 {
        lemma_handoffs_bound(map, n - 1);
    }
}

/// Whether the handoffs of each pair of frames can be counted in 32 bits.
#[verifier::loop_isolation(false)]
pub fn handoffs_are_countable(source_map: &SourceMap) -> (r: bool)
    requires
        source_map.wf(),
    ensures
        r == countable(handoffs(*source_map, source_map.data@.len() as int)),
{
    let w: u32 = source_map.width;
    let h: u32 = source_map.height;
    let mut table: Vec<u64> = vec![0; 0x1_0000];
    let ghost mut pairs: Seq<(u8, u8)> = Seq::empty();
    proof {
        assert(0 * w == 0) by (nonlinear_arith);
    }
    for y in 0..h
        invariant
            pairs == handoffs(*source_map, y * w),
            holds_occurrences(table@, pairs),
    {
        for x in 0..w
            invariant
                pairs == handoffs(*source_map, cell(w as int, x as int, y as int)),
                holds_occurrences(table@, pairs),
        {
            proof {
                lemma_cell_bound(w as int, h as int, x as int, y as int);
                lemma_index_of_cell(w as int, x as int, y as int);
                lemma_handoffs_bound(*source_map, cell(w as int, x as int, y as int));
            }
            let s: u8 = source_map.get(x, y);
            if x < w - 1 {
                let t: u8 = source_map.get(x + 1, y);
                if s != t && s != SourceMap::UNASSIGNED && t != SourceMap::UNASSIGNED {
                    count_in_table(&mut table, s, t, Ghost(pairs));
                    proof {
                        pairs = pairs.push(ordered(s, t));
                    }
                }
            }
            if y < h - 1 {
                proof {
                    lemma_cell_bound(w as int, h as int, x as int, y + 1);
                }
                let t: u8 = source_map.get(x, y + 1);
                if s != t && s != SourceMap::UNASSIGNED && t != SourceMap::UNASSIGNED {
                    count_in_table(&mut table, s, t, Ghost(pairs));
                    proof {
                        pairs = pairs.push(ordered(s, t));
                    }
                }
            }
        }
        proof {
            assert(cell(w as int, w as int, y as int) == (y + 1) * w) by (nonlinear_arith)
                requires
                    cell(w as int, w as int, y as int) == y * w + w,
            ;
        }
    }
    proof {
        assert(h * w == w * h) by (nonlinear_arith);
    }
    for k in 0..table.len()
        invariant
            forall|j: int| 0 <= j < k ==> #[trigger] table@[j] <= u32::MAX,
    {
        if table[k] > u32::MAX as u64 {
            proof {
                let a = (k / 256) as u8;
                let b = (k % 256) as u8;
                assert(table@[a * 256 + b] == occurrences(pairs, (a, b)));
            }
            return false;
        }
    }
    proof {
        assert forall|pair: (u8, u8)| #[trigger] occurrences(pairs, pair) <= u32::MAX by {
            assert(table@[pair.0 * 256 + pair.1] == occurrences(pairs, (pair.0, pair.1)));
        }
    }
    true
}

/// Whether `{s, t}` and `{a, b}` are the same pair.
pub open spec fn same_pair(s: u8, t: u8, a: u8, b: u8) -> bool {
    (s == a && t == b) || (s == b && t == a)
}

/// Whether `{s, t}` and `{a, b}` are the same pair.
pub fn pair_eq(s: u8, t: u8, a: u8, b: u8) -> (r: bool)
    ensures
        r == same_pair(s, t, a, b),
{
    (s == a && t == b) || (s == b && t == a)
}

/// Whether two neighbors come from the frames `a` and `b`, and one of them is at risk.
pub open spec fn risky_neighbors(
    map: SourceMap,
    risk: Seq<bool>,
    a: u8,
    b: u8,
    x: int,
    y: int,
    u: int,
    v: int,
) -> bool {
    &&& map.has(u, v)
    &&& same_pair(map.at(x, y), map.at(u, v), a, b)
    &&& (risk[cell(map.width as int, x, y)] || risk[cell(map.width as int, u, v)])
}

/// How many of the first `n` pixels have such a neighbor to the right, and below, together.
pub open spec fn risky_pairs(map: SourceMap, risk: Seq<bool>, a: u8, b: u8, n: int) -> nat
    decreases n,
{
    if n <= 0 {
        0
    } else {
        let x = (n - 1) % map.width as int;
        let y = (n - 1) / map.width as int;
        risky_pairs(map, risk, a, b, n - 1) + if risky_neighbors(map, risk, a, b, x, y, x + 1, y) {
            1nat
        } else {
            0nat
        } + if risky_neighbors(map, risk, a, b, x, y, x, y + 1) {
            1nat
        } else {
            0nat
        }
    }
}

proof fn lemma_risky_pairs_grow(map: SourceMap, risk: Seq<bool>, a: u8, b: u8, n: int, m: int)
    requires
        0 <= n <= m,
    ensures
        risky_pairs(map, risk, a, b, n) <= risky_pairs(map, risk, a, b, m),
    decreases m,
{
    if n < m {
        lemma_risky_pairs_grow(map, risk, a, b, n, m - 1);
    }
}

/// Two frames meet at risk at most as often as they meet.
pub proof fn risky_pairs_are_handoffs(map: SourceMap, risk: Seq<bool>, a: u8, b: u8, n: int)
    requires
        map.wf(),
        0 <= n <= map.data@.len(),
        a != b,
        a != SourceMap::UNASSIGNED,
        b != SourceMap::UNASSIGNED,
    ensures
        risky_pairs(map, risk, a, b, n) <= occurrences(handoffs(map, n), ordered(a, b)),
    decreases n,
{
    if n > 0 {
        risky_pairs_are_handoffs(map, risk, a, b, n - 1);
        lemma_next_handoffs(map, n, ordered(a, b));
        lemma_cell_of_index(map.width as int, map.height as int, n - 1);
    }
}

/// How many neighbors come from the frames `a` and `b` with one of them at risk.
#[verifier::loop_isolation(false)]
pub fn count_pair_risk(source_map: &SourceMap, risk: &[bool], a: u8, b: u8) -> (count: u32)
    requires
        source_map.wf(),
        source_map.data@.len() <= risk@.len(),
        risky_pairs(*source_map, risk@, a, b, source_map.data@.len() as int) <= u32::MAX,
    ensures
        count == risky_pairs(*source_map, risk@, a, b, source_map.data@.len() as int),
{
    let w: u32 = source_map.width;
    let h: u32 = source_map.height;
    let mut count: u32 = 0;
    proof {
        assert(0 * w == 0) by (nonlinear_arith);
    }
    for y in 0..h
        invariant
            count == risky_pairs(*source_map, risk@, a, b, y * w),
    {
        for x in 0..w
            invariant
                count == risky_pairs(
                    *source_map,
                    risk@,
                    a,
                    b,
                    cell(w as int, x as int, y as int),
                ),
        {
            let ghost n = cell(w as int, x as int, y as int);
            proof {
                lemma_cell_bound(w as int, h as int, x as int, y as int);
                lemma_index_of_cell(w as int, x as int, y as int);
                lemma_risky_pairs_grow(
                    *source_map,
                    risk@,
                    a,
                    b,
                    n + 1,
                    source_map.data.len() as int,
                );
            }
            let here: usize = y as usize * w as usize + x as usize;
            let s: u8 = source_map.get(x, y);
            if x < w - 1 {
                proof {
                    lemma_cell_bound(w as int, h as int, x + 1, y as int);
                }
                let t: u8 = source_map.get(x + 1, y);
                if pair_eq(s, t, a, b) && (risk[here] || risk[here + 1]) {
                    count = count + 1;
                }
            }
            if y < h - 1 {
                proof {
                    lemma_cell_bound(w as int, h as int, x as int, y + 1);
                    assert(cell(w as int, x as int, y + 1) == n + w) by (nonlinear_arith)
                        requires
                            n == y * w + x,
                            cell(w as int, x as int, y + 1) == (y + 1) * w + x,
                    ;
                }
                let t: u8 = source_map.get(x, y + 1);
                if pair_eq(s, t, a, b) && (risk[here] || risk[here + w as usize]) {
                    count = count + 1;
                }
            }
        }
        proof {
            assert(cell(w as int, w as int, y as int) == (y + 1) * w) by (nonlinear_arith)
                requires
                    cell(w as int, w as int, y as int) == y * w + w,
            ;
        }
    }
    proof {
        assert(h * w == w * h) by (nonlinear_arith);
    }
    count
}

/// How many frames the canvas is taken from.
pub fn distinct_assigned_sources(source_map: &SourceMap) -> (n: usize)
    ensures
        n == count_where(255, |v: int| source_map.data@.contains(v as u8)),
{
    let ghost data = source_map.data@;
    let mut seen: Vec<bool> = vec![false; 256];
    for k in 0..source_map.data.len()
        invariant
            data == source_map.data@,
            seen@.len() == 256,
            forall|v: int|
                0 <= v < 255 ==> (#[trigger] seen@[v] <==> data.take(k as int).contains(v as u8)),
    {
        let value: u8 = source_map.data[k];
        let ghost was = seen@;
        if value != SourceMap::UNASSIGNED {
            seen.set(value as usize, true);
        }
        proof {
            let now = data.take(k + 1);
            let old_data = data.take(k as int);
            assert(now =~= old_data.push(value));
            assert forall|v: int| 0 <= v < 255 implies (#[trigger] seen@[v] <==> now.contains(
                v as u8,
            )) by {
                assert(was[v] <==> old_data.contains(v as u8));
                if old_data.contains(v as u8) {
                    let j = choose|j: int| 0 <= j < old_data.len() && old_data[j] == v as u8;
                    assert(now[j] == v as u8);
                }
                if v == value {
                    assert(now[k as int] == v as u8);
                }
                if now.contains(v as u8) && v != value {
                    let j = choose|j: int| 0 <= j < now.len() && now[j] == v as u8;
                    assert(old_data[j] == v as u8);
                }
            }
        }
    }
    assert(data.take(data.len() as int) =~= data);
    let ghost p = |v: int| source_map.data@.contains(v as u8);
    let mut n: usize = 0;
    for v in 0..255usize
        invariant
            seen@.len() == 256,
            forall|u: int| 0 <= u < 255 ==> (#[trigger] seen@[u] <==> p(u)),
            n == count_where(v as nat, p),
            n <= v,
    {
        if seen[v] {
            n = n + 1;
        }
    }
    n
}

/// A canvas that is taken from a single frame has no boundary.
pub proof fn single_source_has_no_boundary(map: SourceMap, source: u8)
    requires
        map.wf(),
        forall|x: int, y: int|
            map.has(x, y) && map.assigned(x, y) ==> #[trigger] map.at(x, y) == source,
    ensures
        forall|x: int, y: int| !#[trigger] on_boundary(map, x, y),
        forall|n: int| (#[trigger] handoffs(map, n)).len() == 0,
{
    assert forall|n: int| (#[trigger] handoffs(map, n)).len() == 0 by {
        lemma_no_handoffs(map, source, n);
    }
}

proof fn lemma_no_handoffs(map: SourceMap, source: u8, n: int)
    requires
        forall|x: int, y: int|
            map.has(x, y) && map.assigned(x, y) ==> #[trigger] map.at(x, y) == source,
    ensures
        handoffs(map, n).len() == 0,
    decreases n,
{
    if n > 0 {
        lemma_no_handoffs(map, source, n - 1);
    }
}

/// Whether the canvas is handed over between the frames of a pair from a pixel to the one to its
/// right.
pub open spec fn hands_over_right(map: SourceMap, pair: (u8, u8)) -> spec_fn(int) -> bool {
    |k: int|
        {
            let w = map.width as int;
            &&& k % w + 1 < w
            &&& same_pair(map.data@[k], map.data@[k + 1], pair.0, pair.1)
        }
}

/// Whether the canvas is handed over between the frames of a pair from a pixel to the one below.
pub open spec fn hands_over_down(map: SourceMap, pair: (u8, u8)) -> spec_fn(int) -> bool {
    |k: int|
        {
            let w = map.width as int;
            &&& k / w + 1 < map.height
            &&& same_pair(map.data@[k], map.data@[k + w], pair.0, pair.1)
        }
}

/// A pair of frames meets once for each two neighbors that come from them, side by side or one below
/// the other.
pub proof fn pairs_meet_between_neighbors(map: SourceMap, pair: (u8, u8), n: int)
    requires
        map.wf(),
        0 <= n <= map.data@.len(),
        pair.0 < pair.1 < 255,
    ensures
        occurrences(handoffs(map, n), pair) == count_where(n as nat, hands_over_right(map, pair))
            + count_where(n as nat, hands_over_down(map, pair)),
    decreases n,
{
    if n > 0 {
        pairs_meet_between_neighbors(map, pair, n - 1);
        lemma_next_handoffs(map, n, pair);
        let w = map.width as int;
        let k = n - 1;
        lemma_cell_of_index(w, map.height as int, k);
        let x = k % w;
        let y = k / w;
        assert(cell(w, x + 1, y) == k + 1);
        assert(cell(w, x, y + 1) == k + w) by (nonlinear_arith)
            requires
                cell(w, x, y + 1) == (y + 1) * w + x,
                k == y * w + x,
        ;
    }
}

/// A pixel is on a boundary exactly if it and one of the pixels to its left, above, to its right and
/// below come from frames, and from different ones.
pub proof fn boundaries_part_different_frames(map: SourceMap, x: int, y: int)
    requires
        map.wf(),
        map.has(x, y),
    ensures
        on_boundary(map, x, y) <==> {
            let w = map.width as int;
            let k = y * w + x;
            let s = map.data@[k];
            &&& s != 255
            &&& {
                ||| x > 0 && map.data@[k - 1] != 255 && map.data@[k - 1] != s
                ||| x + 1 < w && map.data@[k + 1] != 255 && map.data@[k + 1] != s
                ||| y > 0 && map.data@[k - w] != 255 && map.data@[k - w] != s
                ||| y + 1 < map.height && map.data@[k + w] != 255 && map.data@[k + w] != s
            }
        },
{
    let w = map.width as int;
    let k = y * w + x;
    assert(cell(w, x, y + 1) == k + w) by (nonlinear_arith)
        requires
            cell(w, x, y + 1) == (y + 1) * w + x,
            k == y * w + x,
    ;
    assert(cell(w, x, y - 1) == k - w) by (nonlinear_arith)
        requires
            cell(w, x, y - 1) == (y - 1) * w + x,
            k == y * w + x,
    ;
}

/// Of the places where two frames meet, those are at risk where one of the two pixels is.
pub proof fn meetings_at_risk_touch_a_pixel_at_risk(
    map: SourceMap,
    risk: Seq<bool>,
    a: u8,
    b: u8,
    n: int,
)
    requires
        map.wf(),
        0 <= n <= map.data@.len(),
    ensures
        risky_pairs(map, risk, a, b, n) == count_where(
            n as nat,
            |k: int|
                hands_over_right(map, (a, b))(k) && (risk[k] || risk[k + 1]),
        ) + count_where(
            n as nat,
            |k: int|
                hands_over_down(map, (a, b))(k) && (risk[k] || risk[k + map.width as int]),
        ),
    decreases n,
{
    let p = |k: int| hands_over_right(map, (a, b))(k) && (risk[k] || risk[k + 1]);
    let q = |k: int|
        hands_over_down(map, (a, b))(k) && (risk[k] || risk[k + map.width as int]);
    if n > 0 {
        meetings_at_risk_touch_a_pixel_at_risk(map, risk, a, b, n - 1);
        let w = map.width as int;
        let k = n - 1;
        lemma_cell_of_index(w, map.height as int, k);
        let x = k % w;
        let y = k / w;
        assert(cell(w, x + 1, y) == k + 1);
        assert(cell(w, x, y + 1) == k + w) by (nonlinear_arith)
            requires
                cell(w, x, y + 1) == (y + 1) * w + x,
                k == y * w + x,
        ;
        assert(p(k) == risky_neighbors(map, risk, a, b, x, y, x + 1, y));
        assert(q(k) == risky_neighbors(map, risk, a, b, x, y, x, y + 1));
    }
}

/// A tally lists the pairs in the order in which they are first met.
pub proof fn tally_keeps_the_order_of_first_meetings(pairs: Seq<(u8, u8)>, j: int, k: int)
    requires
        countable(pairs),
        0 <= j < k < tally(pairs).len(),
    ensures
        exists|i: int|
            {
                &&& 0 <= i < pairs.len()
                &&& #[trigger] pairs[i] == tally(pairs)[j].0
                &&& forall|m: int| 0 <= m <= i ==> #[trigger] pairs[m] != tally(pairs)[k].0
            },
    decreases pairs.len(),
{
    if pairs.len() > 0 {
        let rest = pairs.drop_last();
        let last = pairs.last();
        assert forall|pair: (u8, u8)| #[trigger] occurrences(rest, pair) <= u32::MAX by {
            assert(occurrences(pairs, pair) <= u32::MAX);
        }
        let before = tally(rest);
        let after = tally(pairs);
        lemma_place_of(before, last, 0);
        tally_counts_every_pair(rest);
        if k < before.len() {
            tally_keeps_the_order_of_first_meetings(rest, j, k);
            let i = choose|i: int|
                {
                    &&& 0 <= i < rest.len()
                    &&& #[trigger] rest[i] == before[j].0
                    &&& forall|m: int| 0 <= m <= i ==> #[trigger] rest[m] != before[k].0
                };
            assert(after[j].0 == before[j].0 && after[k].0 == before[k].0);
            assert(pairs[i] == rest[i]);
            assert forall|m: int| 0 <= m <= i implies #[trigger] pairs[m] != after[k].0 by {
                assert(rest[m] == pairs[m]);
            }
        } else {
            assert(rest.contains(before[j].0));
            let i = choose|i: int| 0 <= i < rest.len() && rest[i] == before[j].0;
            assert(pairs[i] == after[j].0);
            assert forall|m: int| 0 <= m <= i implies #[trigger] pairs[m] != after[k].0 by {
                assert(rest[m] == pairs[m]);
                let t = choose|t: int|
                    0 <= t < before.len() && (#[trigger] before[t]).0 == rest[m];
                assert(before[t].0 != last);
            }
        }
    }
}

} // verus!
