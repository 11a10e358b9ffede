//! The monotonic frame filter: which frames follow the main direction of the pan.

use vstd::prelude::*;

use crate::geometry::{mostly_vertical, span_x, span_y, Position};

verus! {

/// Whether the value `i` may follow the value `j` in a run that rises (or falls) up to a tolerance.
pub open spec fn follows(v: Seq<i32>, increasing: bool, tolerance: i32, j: int, i: int) -> bool {
    if increasing {
        v[i] + tolerance >= v[j]
    } else {
        v[i] <= v[j] + tolerance
    }
}

/// The length of the longest run that ends with the value `i`.
pub open spec fn run_len(v: Seq<i32>, increasing: bool, tolerance: i32, i: int) -> int
    decreases i, i + 1,
{
    if i < 0 {
        0
    } else {
        1 + best_before(v, increasing, tolerance, i, i)
    }
}

/// The length of the longest run among those that end before `n` and that `i` may follow.
pub open spec fn best_before(v: Seq<i32>, increasing: bool, tolerance: i32, i: int, n: int) -> int
    decreases i, n,
{
    if n <= 0 || n > i {
        0
    } else {
        let rest = best_before(v, increasing, tolerance, i, n - 1);
        let last = run_len(v, increasing, tolerance, n - 1);
        if follows(v, increasing, tolerance, n - 1, i) && last > rest {
            last
        } else {
            rest
        }
    }
}

/// The value before `i` in its run: of those that end the longest runs before `n`, the first.
pub open spec fn predecessor(
    v: Seq<i32>,
    increasing: bool,
    tolerance: i32,
    i: int,
    n: int,
) -> Option<int>
    decreases n,
{
    if n <= 0 || n > i {
        None
    } else if follows(v, increasing, tolerance, n - 1, i) && run_len(
        v,
        increasing,
        tolerance,
        n - 1,
    ) > best_before(v, increasing, tolerance, i, n - 1) {
        Some(n - 1)
    } else {
        predecessor(v, increasing, tolerance, i, n - 1)
    }
}

proof fn lemma_predecessor(v: Seq<i32>, increasing: bool, tolerance: i32, i: int, n: int)
    requires
        0 <= n <= i,
    ensures
        best_before(v, increasing, tolerance, i, n) >= 0,
        run_len(v, increasing, tolerance, i) >= 1,
        match predecessor(v, increasing, tolerance, i, n) {
            Some(j) => 0 <= j < n && follows(v, increasing, tolerance, j, i) && run_len(
                v,
                increasing,
                tolerance,
                j,
            ) == best_before(v, increasing, tolerance, i, n),
            None => best_before(v, increasing, tolerance, i, n) == 0,
        },
        forall|j: int|
            0 <= j < n && follows(v, increasing, tolerance, j, i) ==> #[trigger] run_len(
                v,
                increasing,
                tolerance,
                j,
            ) <= best_before(v, increasing, tolerance, i, n),
    decreases i, n,
{
    if n > 0 {
        lemma_predecessor(v, increasing, tolerance, i, n - 1);
        lemma_predecessor(v, increasing, tolerance, n - 1, n - 1);
    }
    if n < i {
        lemma_best_nonnegative(v, increasing, tolerance, i, i);
    }
}

proof fn lemma_best_nonnegative(v: Seq<i32>, increasing: bool, tolerance: i32, i: int, n: int)
    ensures
        best_before(v, increasing, tolerance, i, n) >= 0,
    decreases n,
{
    if 0 < n <= i {
        lemma_best_nonnegative(v, increasing, tolerance, i, n - 1);
    }
}

/// The run that ends with the value `i`, as indices.
pub open spec fn run(v: Seq<i32>, increasing: bool, tolerance: i32, i: int) -> Seq<usize>
    decreases i,
    when 0 <= i
    via run_decreases
{
    match predecessor(v, increasing, tolerance, i, i) {
        Some(j) => run(v, increasing, tolerance, j).push(i as usize),
        None => seq![i as usize],
    }
}

#[via_fn]
proof fn run_decreases(v: Seq<i32>, increasing: bool, tolerance: i32, i: int) {
    lemma_predecessor(v, increasing, tolerance, i, i);
}

/// Of the first `n` values, the last one that ends a longest run.
pub open spec fn run_end(v: Seq<i32>, increasing: bool, tolerance: i32, n: int) -> int
    decreases n,
{
    if n <= 1 {
        0
    } else {
        let e = run_end(v, increasing, tolerance, n - 1);
        if run_len(v, increasing, tolerance, n - 1) >= run_len(v, increasing, tolerance, e) {
            n - 1
        } else {
            e
        }
    }
}

/// The longest run of the values, as indices.
pub open spec fn longest_run(v: Seq<i32>, increasing: bool, tolerance: i32) -> Seq<usize> {
    run(v, increasing, tolerance, run_end(v, increasing, tolerance, v.len() as int))
}

/// Whether the indices name a run: they rise, and each value may follow the one before it.
pub open spec fn is_run(v: Seq<i32>, increasing: bool, tolerance: i32, c: Seq<usize>) -> bool {
    &&& c.len() > 0
    &&& forall|k: int| 0 <= k < c.len() ==> (#[trigger] c[k]) < v.len()
    &&& forall|k: int|
        #![trigger c[k]]
        0 < k < c.len() ==> c[k - 1] < c[k] && follows(
            v,
            increasing,
            tolerance,
            c[k - 1] as int,
            c[k] as int,
        )
}

proof fn lemma_run(v: Seq<i32>, increasing: bool, tolerance: i32, i: int)
    requires
        0 <= i < v.len() <= usize::MAX,
    ensures
        is_run(v, increasing, tolerance, run(v, increasing, tolerance, i)),
        run(v, increasing, tolerance, i).last() == i,
        run(v, increasing, tolerance, i).len() == run_len(v, increasing, tolerance, i),
    decreases i,
{
    lemma_predecessor(v, increasing, tolerance, i, i);
    match predecessor(v, increasing, tolerance, i, i) {
        Some(j) => {
            lemma_run(v, increasing, tolerance, j);
            let c = run(v, increasing, tolerance, i);
            let d = run(v, increasing, tolerance, j);
            assert forall|k: int| 0 < k < c.len() implies c[k - 1] < c[k] && follows(
                v,
                increasing,
                tolerance,
                c[k - 1] as int,
                #[trigger] c[k] as int,
            ) by {
                assert(c[k - 1] == d[k - 1]);
                if k < d.len() {
                    assert(c[k] == d[k]);
                }
            }
        },
        None => {},
    }
}

proof fn lemma_run_end(v: Seq<i32>, increasing: bool, tolerance: i32, n: int)
    requires
        1 <= n <= v.len(),
    ensures
        0 <= run_end(v, increasing, tolerance, n) < n,
        forall|i: int|
            0 <= i < n ==> #[trigger] run_len(v, increasing, tolerance, i) <= run_len(
                v,
                increasing,
                tolerance,
                run_end(v, increasing, tolerance, n),
            ),
    decreases n,
{
    if n > 1 {
        lemma_run_end(v, increasing, tolerance, n - 1);
    }
}

proof fn lemma_runs_are_no_longer(v: Seq<i32>, increasing: bool, tolerance: i32, c: Seq<usize>)
    requires
        is_run(v, increasing, tolerance, c),
    ensures
        c.len() <= run_len(v, increasing, tolerance, c.last() as int),
    decreases c.len(),
{
    let i = c.last() as int;
    lemma_predecessor(v, increasing, tolerance, i, i);
    if c.len() > 1 {
        let d = c.drop_last();
        assert forall|k: int| 0 < k < d.len() implies d[k - 1] < d[k] && follows(
            v,
            increasing,
            tolerance,
            d[k - 1] as int,
            #[trigger] d[k] as int,
        ) by {
            assert(c[k - 1] == d[k - 1] && c[k] == d[k]);
        }
        assert forall|k: int| 0 <= k < d.len() implies (#[trigger] d[k]) < v.len() by {
            assert(c[k] == d[k]);
        }
        lemma_runs_are_no_longer(v, increasing, tolerance, d);
        assert(c[c.len() - 1] == i);
        assert(d.last() == c[c.len() - 2]);
        assert(follows(v, increasing, tolerance, d.last() as int, i));
    }
}

/// The longest run is a run, and no run is longer.
pub proof fn longest_run_is_longest(v: Seq<i32>, increasing: bool, tolerance: i32, c: Seq<usize>)
    requires
        0 < v.len() <= usize::MAX,
    ensures
        is_run(v, increasing, tolerance, longest_run(v, increasing, tolerance)),
        is_run(v, increasing, tolerance, c) ==> c.len() <= longest_run(
            v,
            increasing,
            tolerance,
        ).len(),
{
    let n = v.len() as int;
    let e = run_end(v, increasing, tolerance, n);
    lemma_run_end(v, increasing, tolerance, n);
    lemma_run(v, increasing, tolerance, e);
    if is_run(v, increasing, tolerance, c) {
        lemma_runs_are_no_longer(v, increasing, tolerance, c);
        assert(c[c.len() - 1] < v.len());
    }
}

/// Whether the tables hold the length of the run that each value ends, and the value before it.
spec fn tables(
    v: Seq<i32>,
    increasing: bool,
    tolerance: i32,
    lens: Seq<usize>,
    prev: Seq<Option<usize>>,
) -> bool {
    &&& lens.len() == prev.len()
    &&& forall|k: int|
        0 <= k < lens.len() ==> #[trigger] lens[k] == run_len(v, increasing, tolerance, k)
            && lens[k] <= k + 1
    &&& forall|k: int|
        0 <= k < prev.len() ==> match #[trigger] prev[k] {
            Some(j) => predecessor(v, increasing, tolerance, k, k) == Some(j as int),
            None => predecessor(v, increasing, tolerance, k, k) is None,
        }
}

fn run_tables(values: &[i32], increasing: bool, tolerance: i32) -> (r: (
    Vec<usize>,
    Vec<Option<usize>>,
))
    ensures
        r.0@.len() == values@.len(),
        tables(values@, increasing, tolerance, r.0@, r.1@),
{
    let n: usize = values.len();
    let ghost v = values@;
    let mut lens: Vec<usize> = Vec::new();
    let mut prev: Vec<Option<usize>> = Vec::new();
    for i in 0..n
        invariant
            n == values@.len(),
            v == values@,
            lens@.len() == i,
            tables(v, increasing, tolerance, lens@, prev@),
    {
        let mut best: usize = 0;
        let mut pred: Option<usize> = None;
        for j in 0..i
            invariant
                i < n == values@.len(),
                v == values@,
                lens@.len() == i,
                tables(v, increasing, tolerance, lens@, prev@),
                best == best_before(v, increasing, tolerance, i as int, j as int),
                best <= i,
                match pred {
                    Some(p) => predecessor(v, increasing, tolerance, i as int, j as int) == Some(
                        p as int,
                    ),
                    None => predecessor(v, increasing, tolerance, i as int, j as int) is None,
                },
        {
            let monotonic = if increasing {
                values[i] as i64 + tolerance as i64 >= values[j] as i64
            } else {
                values[i] as i64 <= values[j] as i64 + tolerance as i64
            };
            assert(lens@[j as int] == run_len(v, increasing, tolerance, j as int));
            if monotonic && lens[j] > best {
                best = lens[j];
                pred = Some(j);
            }
        }
        lens.push(best + 1);
        prev.push(pred);
    }
    (lens, prev)
}

/// The run that ends with the value `end`.
fn trace_run(
    values: &[i32],
    increasing: bool,
    tolerance: i32,
    lens: &Vec<usize>,
    prev: &Vec<Option<usize>>,
    end: usize,
) -> (out: Vec<usize>)
    requires
        end < values@.len(),
        lens@.len() == values@.len(),
        tables(values@, increasing, tolerance, lens@, prev@),
    ensures
        out@ == run(values@, increasing, tolerance, end as int),
{
    let ghost v = values@;
    let ghost goal = run(v, increasing, tolerance, end as int);
    let mut reversed: Vec<usize> = Vec::new();
    assert(goal + reversed@.reverse() =~= goal);
    let mut i: usize = end;
    let mut more: bool = true;
    while more
        invariant
            v == values@,
            lens@.len() == values@.len(),
            tables(v, increasing, tolerance, lens@, prev@),
            more ==> i < v.len() && goal == run(v, increasing, tolerance, i as int)
                + reversed@.reverse(),
            !more ==> goal == reversed@.reverse(),
        decreases
                if more {
                    i + 1
                } else {
                    0int
                },
    {
        let ghost before = reversed@;
        reversed.push(i);
        proof {
            lemma_predecessor(v, increasing, tolerance, i as int, i as int);
            assert(reversed@.reverse() =~= seq![i] + before.reverse());
        }
        let p = prev[i];
        match p {
            Some(j) => {
                proof {
                    let head = run(v, increasing, tolerance, j as int);
                    assert(run(v, increasing, tolerance, i as int) == head.push(i));
                    assert(head.push(i) + before.reverse() =~= head + reversed@.reverse());
                }
                i = j;
            },
            None => {
                assert(run(v, increasing, tolerance, i as int) == seq![i]);
                more = false;
            },
        }
    }
    let mut out: Vec<usize> = Vec::new();
    let m: usize = reversed.len();
    for k in 0..m
        invariant
            out@ == reversed@.reverse().take(k as int),
            m == reversed@.len(),
    {
        out.push(reversed[m - 1 - k]);
        assert(reversed@.reverse().take(k + 1) =~= reversed@.reverse().take(k as int).push(
            reversed@[m - 1 - k],
        ));
    }
    assert(reversed@.reverse().take(m as int) =~= reversed@.reverse());
    out
}

/// The indices of the longest run of values that rise (or fall) up to a tolerance.
pub fn longest_monotonic_indices(values: &[i32], increasing: bool, tolerance: i32) -> (out: Vec<
    usize,
>)
    requires
        values@.len() > 0,
    ensures
        out@ == longest_run(values@, increasing, tolerance),
{
    let n: usize = values.len();
    let (lens, prev) = run_tables(values, increasing, tolerance);
    let mut end: usize = 0;
    for i in 1..n
        invariant
            n == values@.len(),
            lens@.len() == n,
            tables(values@, increasing, tolerance, lens@, prev@),
            end == run_end(values@, increasing, tolerance, i as int),
            end < i,
    {
        assert(lens@[i as int] == run_len(values@, increasing, tolerance, i as int));
        assert(lens@[end as int] == run_len(values@, increasing, tolerance, end as int));
        if lens[i] >= lens[end] {
            end = i;
        }
    }
    trace_run(values, increasing, tolerance, &lens, &prev, end)
}

/// The coordinates along the main direction of the pan.
pub open spec fn pan_values(raw: Seq<Position>) -> Seq<i32> {
    Seq::new(
        raw.len(),
        |i: int|
            if span_y(raw) >= span_x(raw) {
                raw[i].y
            } else {
                raw[i].x
            },
    )
}

/// The tolerance of the filter: how far a frame may move against the pan.
pub const PAN_TOLERANCE: i32 = 8;

/// The frames that the filter would keep: the longer of the longest rising and the longest falling
/// run, and between runs of one length the one in the direction from the first frame to the last.
pub open spec fn main_run(raw: Seq<Position>) -> Seq<usize> {
    let v = pan_values(raw);
    let rising = longest_run(v, true, PAN_TOLERANCE);
    let falling = longest_run(v, false, PAN_TOLERANCE);
    if falling.len() > rising.len() || (falling.len() == rising.len() && v.last() < v.first()) {
        falling
    } else {
        rising
    }
}

/// Whether the filter keeps frame `i`. It keeps every frame where there are at most two, or where
/// the main run has less than two frames or all of them.
pub open spec fn is_active(raw: Seq<Position>, i: int) -> bool {
    let chosen = main_run(raw);
    raw.len() <= 2 || chosen.len() < 2 || chosen.len() == raw.len() || chosen.contains(i as usize)
}

/// The frames that follow the main direction of the pan.
#[verifier::loop_isolation(false)]
pub fn monotonic_active_sources(raw_positions: &[Position]) -> (active: Vec<bool>)
    ensures
        active@.len() == raw_positions@.len(),
        forall|i: int|
            0 <= i < active@.len() ==> #[trigger] active@[i] == is_active(raw_positions@, i),
{
    let n: usize = raw_positions.len();
    let ghost raw = raw_positions@;
    if n <= 2 {
        return vec![true; n];
    }
    let vertical = mostly_vertical(raw_positions);
    let mut values: Vec<i32> = Vec::new();
    for i in 0..n
        invariant
            values@.len() == i,
            forall|k: int| 0 <= k < i ==> #[trigger] values@[k] == pan_values(raw)[k],
    {
        values.push(
            if vertical {
                raw_positions[i].y
            } else {
                raw_positions[i].x
            },
        );
    }
    assert(values@ =~= pan_values(raw));
    let rising = longest_monotonic_indices(&values, true, PAN_TOLERANCE);
    let falling = longest_monotonic_indices(&values, false, PAN_TOLERANCE);
    let prefer_rising = values[n - 1] >= values[0];
    let chosen = if falling.len() > rising.len() || (falling.len() == rising.len()
        && !prefer_rising) {
        falling
    } else {
        rising
    };
    assert(chosen@ == main_run(raw));
    if chosen.len() < 2 || chosen.len() == n {
        return vec![true; n];
    }
    proof {
        longest_run_is_longest(pan_values(raw), true, PAN_TOLERANCE, Seq::empty());
        longest_run_is_longest(pan_values(raw), false, PAN_TOLERANCE, Seq::empty());
    }
    let mut active: Vec<bool> = vec![false; n];
    for k in 0..chosen.len()
        invariant
            active@.len() == n,
            forall|i: int|
                0 <= i < n ==> #[trigger] active@[i] == chosen@.take(k as int).contains(i as usize),
    {
        let idx: usize = chosen[k];
        let ghost before = active@;
        active.set(idx, true);
        proof {
            let shorter = chosen@.take(k as int);
            let longer = chosen@.take(k + 1);
            assert(longer =~= shorter.push(idx));
            assert forall|i: int| 0 <= i < n implies #[trigger] active@[i] == longer.contains(
                i as usize,
            ) by {
                if i == idx {
                    assert(longer[k as int] == idx);
                } else {
                    if shorter.contains(i as usize) {
                        let t = choose|t: int| 0 <= t < shorter.len() && shorter[t] == i as usize;
                        assert(longer[t] == i as usize);
                    }
                    if longer.contains(i as usize) {
                        let t = choose|t: int| 0 <= t < longer.len() && longer[t] == i as usize;
                        assert(shorter[t] == i as usize);
                    }
                    assert(before[i] == shorter.contains(i as usize));
                }
            }
        }
    }
    assert(chosen@.take(chosen@.len() as int) =~= chosen@);
    active
}

/// Where the filter drops frames, the frames it keeps form a run: none of them moves against the
/// others by more than the tolerance, and at least two of them are left.
pub proof fn kept_frames_form_a_run(raw: Seq<Position>, dropped: int)
    requires
        raw.len() <= usize::MAX,
        0 <= dropped < raw.len(),
        !is_active(raw, dropped),
    ensures
        main_run(raw).len() >= 2,
        is_run(pan_values(raw), true, PAN_TOLERANCE, main_run(raw)) || is_run(
            pan_values(raw),
            false,
            PAN_TOLERANCE,
            main_run(raw),
        ),
        forall|i: int|
            0 <= i < raw.len() ==> (#[trigger] is_active(raw, i) <==> main_run(raw).contains(
                i as usize,
            )),
{
    longest_run_is_longest(pan_values(raw), true, PAN_TOLERANCE, Seq::empty());
    longest_run_is_longest(pan_values(raw), false, PAN_TOLERANCE, Seq::empty());
}

/// The indices of a run rise, so none of them is below its place.
proof fn lemma_run_indices(v: Seq<i32>, increasing: bool, tolerance: i32, c: Seq<usize>, k: int)
    requires
        is_run(v, increasing, tolerance, c),
        0 <= k < c.len(),
    ensures
        k <= c[k],
    decreases k,
{
    if k > 0 {
        lemma_run_indices(v, increasing, tolerance, c, k - 1);
        assert(c[k - 1] < c[k]);
    }
}

proof fn lemma_run_is_no_longer_than_the_values(
    v: Seq<i32>,
    increasing: bool,
    tolerance: i32,
    c: Seq<usize>,
)
    requires
        is_run(v, increasing, tolerance, c),
    ensures
        c.len() <= v.len(),
{
    lemma_run_indices(v, increasing, tolerance, c, c.len() - 1);
    assert(c[c.len() - 1] < v.len());
}

/// Where no frame moves against the pan by more than the tolerance, the filter keeps every frame.
pub proof fn steady_pans_keep_every_frame(raw: Seq<Position>, increasing: bool)
    requires
        raw.len() <= usize::MAX,
        forall|i: int|
            0 < i < raw.len() ==> #[trigger] follows(
                pan_values(raw),
                increasing,
                PAN_TOLERANCE,
                i - 1,
                i,
            ),
    ensures
        forall|i: int| 0 <= i < raw.len() ==> #[trigger] is_active(raw, i),
{
    let v = pan_values(raw);
    let n = raw.len();
    if n > 2 {
        let all = Seq::new(n, |k: int| k as usize);
        assert(is_run(v, increasing, PAN_TOLERANCE, all)) by {
            assert forall|k: int| 0 < k < all.len() implies all[k - 1] < #[trigger] all[k]
                && follows(v, increasing, PAN_TOLERANCE, all[k - 1] as int, all[k] as int) by {
                assert(follows(v, increasing, PAN_TOLERANCE, k - 1, k));
            }
        }
        longest_run_is_longest(v, true, PAN_TOLERANCE, all);
        longest_run_is_longest(v, false, PAN_TOLERANCE, all);
        lemma_run_is_no_longer_than_the_values(
            v,
            true,
            PAN_TOLERANCE,
            longest_run(v, true, PAN_TOLERANCE),
        );
        lemma_run_is_no_longer_than_the_values(
            v,
            false,
            PAN_TOLERANCE,
            longest_run(v, false, PAN_TOLERANCE),
        );
        assert(main_run(raw).len() == n);
    }
}

/// What a run is: indices that rise, with values of which none is further behind the one before it
/// than the tolerance; behind means below it in a rising run, and above it in a falling one.
pub proof fn runs_step_back_at_most_the_tolerance(
    v: Seq<i32>,
    tolerance: i32,
    c: Seq<usize>,
)
    ensures
        is_run(v, true, tolerance, c) <==> {
            &&& c.len() > 0
            &&& forall|k: int| 0 <= k < c.len() ==> (#[trigger] c[k]) < v.len()
            &&& forall|k: int|
                #![trigger c[k]]
                0 < k < c.len() ==> c[k - 1] < c[k] && v[c[k - 1] as int] - v[c[k] as int]
                    <= tolerance
        },
        is_run(v, false, tolerance, c) <==> {
            &&& c.len() > 0
            &&& forall|k: int| 0 <= k < c.len() ==> (#[trigger] c[k]) < v.len()
            &&& forall|k: int|
                #![trigger c[k]]
                0 < k < c.len() ==> c[k - 1] < c[k] && v[c[k] as int] - v[c[k - 1] as int]
                    <= tolerance
        },
{
}

proof fn lemma_later_runs_are_shorter(
    v: Seq<i32>,
    increasing: bool,
    tolerance: i32,
    n: int,
    i: int,
)
    requires
        1 <= n <= v.len(),
        run_end(v, increasing, tolerance, n) < i < n,
    ensures
        run_len(v, increasing, tolerance, i) < run_len(
            v,
            increasing,
            tolerance,
            run_end(v, increasing, tolerance, n),
        ),
    decreases n,
{
    if n > 1 && i < n - 1 {
        lemma_later_runs_are_shorter(v, increasing, tolerance, n - 1, i);
    }
}

/// Of the longest runs, the one that is taken ends last.
pub proof fn longest_run_ends_last(v: Seq<i32>, increasing: bool, tolerance: i32, c: Seq<usize>)
    requires
        0 < v.len() <= usize::MAX,
        is_run(v, increasing, tolerance, c),
        c.len() == longest_run(v, increasing, tolerance).len(),
    ensures
        c.last() <= longest_run(v, increasing, tolerance).last(),
{
    let n = v.len() as int;
    let e = run_end(v, increasing, tolerance, n);
    lemma_run_end(v, increasing, tolerance, n);
    lemma_run(v, increasing, tolerance, e);
    lemma_runs_are_no_longer(v, increasing, tolerance, c);
    assert(c[c.len() - 1] < v.len());
    if c.last() > e {
        lemma_later_runs_are_shorter(v, increasing, tolerance, n, c.last() as int);
    }
}

proof fn lemma_earliest_predecessor(
    v: Seq<i32>,
    increasing: bool,
    tolerance: i32,
    i: int,
    n: int,
    j: int,
)
    requires
        0 <= j < n <= i,
        follows(v, increasing, tolerance, j, i),
        run_len(v, increasing, tolerance, j) == best_before(v, increasing, tolerance, i, n),
    ensures
        predecessor(v, increasing, tolerance, i, n) matches Some(p) && p <= j,
    decreases n,
{
    lemma_predecessor(v, increasing, tolerance, i, n);
    lemma_predecessor(v, increasing, tolerance, i, n - 1);
    lemma_predecessor(v, increasing, tolerance, j, j);
    if j < n - 1 {
        assert(run_len(v, increasing, tolerance, j) <= best_before(
            v,
            increasing,
            tolerance,
            i,
            n - 1,
        ));
        lemma_earliest_predecessor(v, increasing, tolerance, i, n - 1, j);
    }
}

proof fn lemma_run_prefix(v: Seq<i32>, increasing: bool, tolerance: i32, i: int, k: int)
    requires
        0 <= i < v.len() <= usize::MAX,
        0 <= k < run(v, increasing, tolerance, i).len(),
    ensures
        run(v, increasing, tolerance, i).take(k + 1) == run(
            v,
            increasing,
            tolerance,
            run(v, increasing, tolerance, i)[k] as int,
        ),
    decreases i,
{
    lemma_predecessor(v, increasing, tolerance, i, i);
    lemma_run(v, increasing, tolerance, i);
    let c = run(v, increasing, tolerance, i);
    if k < c.len() - 1 {
        match predecessor(v, increasing, tolerance, i, i) {
            Some(j) => {
                lemma_run_prefix(v, increasing, tolerance, j, k);
                assert(c.take(k + 1) =~= run(v, increasing, tolerance, j).take(k + 1));
            },
            None => {},
        }
    } else {
        assert(c.take(k + 1) =~= c);
    }
}

/// Each value of the longest run is reached from the earliest one that it can be reached from with
/// a run of that length.
pub proof fn longest_run_steps_from_the_earliest(
    v: Seq<i32>,
    increasing: bool,
    tolerance: i32,
    k: int,
    c: Seq<usize>,
)
    requires
        0 < v.len() <= usize::MAX,
        0 < k < longest_run(v, increasing, tolerance).len(),
        is_run(v, increasing, tolerance, c),
        c.len() == k + 1,
        c.last() == longest_run(v, increasing, tolerance)[k],
    ensures
        longest_run(v, increasing, tolerance)[k - 1] <= c[k - 1],
{
    let n = v.len() as int;
    let e = run_end(v, increasing, tolerance, n);
    lemma_run_end(v, increasing, tolerance, n);
    lemma_run(v, increasing, tolerance, e);
    let d = longest_run(v, increasing, tolerance);
    let i = d[k] as int;
    assert(d[k] < v.len());
    lemma_run_prefix(v, increasing, tolerance, e, k);
    lemma_run(v, increasing, tolerance, i);
    let r = run(v, increasing, tolerance, i);
    assert(r == d.take(k + 1));
    lemma_predecessor(v, increasing, tolerance, i, i);
    let p = predecessor(v, increasing, tolerance, i, i)->0;
    assert(r == run(v, increasing, tolerance, p).push(i as usize));
    lemma_run(v, increasing, tolerance, p);
    assert(d[k - 1] == r[k - 1]);
    assert(r[k - 1] == p);
    let b = c.drop_last();
    assert forall|m: int| 0 < m < b.len() implies b[m - 1] < #[trigger] b[m] && follows(
        v,
        increasing,
        tolerance,
        b[m - 1] as int,
        b[m] as int,
    ) by {
        assert(b[m] == c[m] && b[m - 1] == c[m - 1]);
        assert(c[m - 1] < c[m]);
    }
    assert forall|m: int| 0 <= m < b.len() implies (#[trigger] b[m]) < v.len() by {
        assert(b[m] == c[m]);
    }
    lemma_runs_are_no_longer(v, increasing, tolerance, b);
    let j = c[k - 1] as int;
    assert(b.last() == j);
    assert(c[k] == i && c[k - 1] < c[k]);
    assert(follows(v, increasing, tolerance, j, i));
    lemma_earliest_predecessor(v, increasing, tolerance, i, i, j);
}

/// The filter looks at the direction in which the frames spread further, and at the vertical one
/// where both are the same, and keeps a longest run of the frames, with a tolerance of eight pixels.
/// No run in either direction is longer; a rising run is taken before a falling one of the same
/// length unless the pan ends below where it starts. With fewer than three frames, or with a run of
/// fewer than two, all are kept.
pub proof fn filter_keeps_a_longest_run(raw: Seq<Position>, c: Seq<usize>)
    requires
        2 < raw.len() <= usize::MAX,
    ensures
        ({
            let v = Seq::new(
                raw.len(),
                |i: int|
                    if span_x(raw) <= span_y(raw) {
                        raw[i].y
                    } else {
                        raw[i].x
                    },
            );
            let up = longest_run(v, true, 8);
            let down = longest_run(v, false, 8);
            let kept = main_run(raw);
            &&& kept == up || kept == down
            &&& up.len() <= kept.len() && down.len() <= kept.len()
            &&& up.len() == down.len() && raw.len() > 0 ==> kept == if v[0] <= v[raw.len() - 1] {
                up
            } else {
                down
            }
            &&& is_run(v, true, 8, c) || is_run(v, false, 8, c) ==> c.len() <= kept.len()
            &&& forall|i: int|
                0 <= i < raw.len() ==> (#[trigger] is_active(raw, i) <==> kept.len() < 2
                    || kept.len() == raw.len() || kept.contains(i as usize))
        }),
{
    let v = Seq::new(
        raw.len(),
        |i: int|
            if span_x(raw) <= span_y(raw) {
                raw[i].y
            } else {
                raw[i].x
            },
    );
    assert(v =~= pan_values(raw));
    longest_run_is_longest(v, true, 8, c);
    longest_run_is_longest(v, false, 8, c);
}

/// One or two frames are always kept.
pub proof fn short_pans_lose_no_frame(raw: Seq<Position>, i: int)
    requires
        raw.len() <= 2,
    ensures
        is_active(raw, i),
{
}

} // verus!
