//! The path of least cost through a grid, from its left edge to its right edge.
//!
//! A path has one row in each column and climbs or falls by at most one row from one column to
//! the next. Costs are added by a function of the caller.

use vstd::prelude::*;

use crate::grid::{cell, lemma_cell_bound};
use crate::single::Single;

verus! {

/// What it costs to change the row: one and a half.
pub open spec fn climb_cost() -> Single {
    Single { bits: 0x3fc0_0000 }
}

/// Whether a function takes any two numbers.
pub open spec fn takes_numbers<A: Fn(Single, Single) -> Single>(plus: A) -> bool {
    forall|a: Single, b: Single| #[trigger] call_requires(plus, (a, b))
}

/// Whether `v` is what it takes to come from the row `y` of a column when the row changes. There is
/// no such value where there is no such row.
pub open spec fn climbs<A: Fn(Single, Single) -> Single>(
    plus: A,
    column: Seq<Single>,
    y: int,
    v: Option<Single>,
) -> bool {
    if 0 <= y < column.len() {
        v matches Some(s) && call_ensures(plus, (column[y], climb_cost()), s)
    } else {
        v is None
    }
}

/// The best way into a cell, and the change of row that leads back: staying in the row wins unless
/// coming from above is cheaper, and these win unless coming from below is cheaper still.
pub open spec fn best_step(
    stay: Single,
    above: Option<Single>,
    below: Option<Single>,
) -> (i8, Single) {
    let (d, best) = if above matches Some(v) && v.lt(stay) {
        (-1i8, above->0)
    } else {
        (0i8, stay)
    };
    if below matches Some(v) && v.lt(best) {
        (1i8, below->0)
    } else {
        (d, best)
    }
}

/// Whether `total` is the least cost of reaching the row `y` of the column that follows
/// `column`, and `step` the change of row that leads back.
pub open spec fn is_reached<A: Fn(Single, Single) -> Single>(
    plus: A,
    cost: Single,
    column: Seq<Single>,
    y: int,
    total: Single,
    step: i8,
) -> bool {
    exists|above: Option<Single>, below: Option<Single>|
        {
            &&& #[trigger] climbs(plus, column, y - 1, above)
            &&& #[trigger] climbs(plus, column, y + 1, below)
            &&& best_step(column[y], above, below).0 == step
            &&& call_ensures(plus, (cost, best_step(column[y], above, below).1), total)
        }
}

/// Whether `next` and `steps` follow from `column` in the way of `is_reached`, for the column `x`
/// of a grid of costs of width `w`.
pub open spec fn is_next_column<A: Fn(Single, Single) -> Single>(
    plus: A,
    costs: Seq<Single>,
    w: int,
    x: int,
    column: Seq<Single>,
    next: Seq<Single>,
    steps: Seq<i8>,
) -> bool {
    &&& next.len() == column.len()
    &&& steps.len() == column.len()
    &&& forall|y: int|
        #![trigger next[y]]
        #![trigger steps[y]]
        0 <= y < column.len() ==> is_reached(
            plus,
            costs[cell(w, x, y)],
            column,
            y,
            next[y],
            steps[y],
        )
}

/// The least costs of reaching each cell of a grid, column by column, and the changes of row that
/// lead back. Nothing leads back from the first column.
pub struct PathTable {
    pub totals: Seq<Seq<Single>>,
    pub steps: Seq<Seq<i8>>,
}

/// Whether a table holds the least costs for a row-major grid of costs.
pub open spec fn is_path_table<A: Fn(Single, Single) -> Single>(
    plus: A,
    costs: Seq<Single>,
    w: int,
    h: int,
    table: PathTable,
) -> bool {
    &&& table.totals.len() == w
    &&& table.steps.len() == w
    &&& table.totals[0] == Seq::new(h as nat, |y: int| costs[cell(w, 0, y)])
    &&& forall|x: int|
        #![trigger table.totals[x]]
        #![trigger table.steps[x]]
        1 <= x < w ==> is_next_column(
            plus,
            costs,
            w,
            x,
            table.totals[x - 1],
            table.totals[x],
            table.steps[x],
        )
}

/// Whether `y` is the first of the least values in the total order.
pub open spec fn is_first_least(values: Seq<Single>, y: int) -> bool {
    &&& 0 <= y < values.len()
    &&& forall|j: int|
        0 <= j < values.len() ==> values[y].total_rank() <= (#[trigger] values[j]).total_rank()
    &&& forall|j: int| 0 <= j < y ==> values[y].total_rank() < (#[trigger] values[j]).total_rank()
}

/// Whether the change of row at the column `x` leads from there to the row of the column before.
pub open spec fn joined(table: PathTable, rows: Seq<usize>, x: int) -> bool {
    rows[x - 1] == rows[x] + table.steps[x][rows[x] as int]
}

/// Whether the rows lead back from the first of the least values of the last column.
pub open spec fn leads_back(table: PathTable, w: int, h: int, rows: Seq<usize>) -> bool {
    &&& rows.len() == w
    &&& is_first_least(table.totals[w - 1], rows[w - 1] as int)
    &&& forall|x: int| 0 <= x < w ==> (#[trigger] rows[x]) < h
    &&& forall|x: int| 1 <= x < w ==> #[trigger] joined(table, rows, x)
}

/// Whether the rows are the path of least cost through a row-major grid of costs.
pub open spec fn is_least_path<A: Fn(Single, Single) -> Single>(
    plus: A,
    costs: Seq<Single>,
    w: int,
    h: int,
    rows: Seq<usize>,
) -> bool {
    exists|table: PathTable|
        #[trigger] is_path_table(plus, costs, w, h, table) && leads_back(table, w, h, rows)
}

fn next_step(stay: Single, above: Option<Single>, below: Option<Single>) -> (r: (i8, Single))
    ensures
        r == best_step(stay, above, below),
{
    let mut d: i8 = 0;
    let mut best = stay;
    if let Some(v) = above {
        if v.is_below(best) {
            best = v;
            d = -1;
        }
    }
    if let Some(v) = below {
        if v.is_below(best) {
            best = v;
            d = 1;
        }
    }
    (d, best)
}

fn climb<A: Fn(Single, Single) -> Single>(plus: &A, from: Single) -> (v: Single)
    requires
        takes_numbers(*plus),
    ensures
        call_ensures(*plus, (from, climb_cost()), v),
{
    plus(from, Single { bits: 0x3fc0_0000 })
}

/// The least costs of the column `x`, and the changes of row that lead back.
fn next_column<A: Fn(Single, Single) -> Single>(
    plus: &A,
    costs: &[Single],
    w: usize,
    h: usize,
    x: usize,
    column: &Vec<Single>,
) -> (r: (Vec<Single>, Vec<i8>))
    requires
        takes_numbers(*plus),
        costs@.len() == w * h,
        column@.len() == h,
        x < w,
    ensures
        is_next_column(*plus, costs@, w as int, x as int, column@, r.0@, r.1@),
        forall|y: int|
            0 <= y < h ==> -1 <= #[trigger] r.1@[y] <= 1 && 0 <= y + r.1@[y] < h,
{
    let mut totals: Vec<Single> = Vec::new();
    let mut steps: Vec<i8> = Vec::new();
    for y in 0..h
        invariant
            takes_numbers(*plus),
            costs@.len() == w * h,
            column@.len() == h,
            x < w,
            totals@.len() == y,
            steps@.len() == y,
            forall|j: int|
                #![trigger totals@[j]]
                #![trigger steps@[j]]
                0 <= j < y ==> is_reached(
                    *plus,
                    costs@[cell(w as int, x as int, j)],
                    column@,
                    j,
                    totals@[j],
                    steps@[j],
                ) && -1 <= steps@[j] <= 1 && 0 <= j + steps@[j] < h,
    {
        let above = if y > 0 {
            Some(climb(plus, column[y - 1]))
        } else {
            None
        };
        let below = if y + 1 < h {
            Some(climb(plus, column[y + 1]))
        } else {
            None
        };
        let (step, best) = next_step(column[y], above, below);
        proof {
            lemma_cell_bound(w as int, h as int, x as int, y as int);
            assert(climbs(*plus, column@, y - 1, above));
            assert(climbs(*plus, column@, y + 1, below));
        }
        let total = plus(costs[y * w + x], best);
        totals.push(total);
        steps.push(step);
    }
    (totals, steps)
}

fn first_least(values: &Vec<Single>) -> (y: usize)
    requires
        values@.len() > 0,
    ensures
        is_first_least(values@, y as int),
{
    let mut best: usize = 0;
    for i in 1..values.len()
        invariant
            1 <= i <= values@.len(),
            best < i,
            forall|j: int|
                0 <= j < i ==> values@[best as int].total_rank() <= (
                #[trigger] values@[j]).total_rank(),
            forall|j: int|
                0 <= j < best ==> values@[best as int].total_rank() < (
                #[trigger] values@[j]).total_rank(),
    {
        if values[i].total_order_key() < values[best].total_order_key() {
            best = i;
        }
    }
    best
}

/// The first column of a row-major grid of costs.
fn first_column(costs: &[Single], w: usize, h: usize) -> (column: Vec<Single>)
    requires
        w > 0,
        costs@.len() == w * h,
    ensures
        column@ == Seq::new(h as nat, |y: int| costs@[cell(w as int, 0, y)]),
{
    let mut column: Vec<Single> = Vec::new();
    for y in 0..h
        invariant
            w > 0,
            costs@.len() == w * h,
            column@ == Seq::new(y as nat, |j: int| costs@[cell(w as int, 0, j)]),
    {
        proof {
            lemma_cell_bound(w as int, h as int, 0, y as int);
            assert(costs.len() == costs@.len());
        }
        column.push(costs[y * w]);
        assert(column@ =~= Seq::new((y + 1) as nat, |j: int| costs@[cell(w as int, 0, j)]));
    }
    column
}

/// Whether no change of row leaves the grid.
spec fn stays_inside(steps: Seq<Seq<i8>>, h: int, x: int) -> bool {
    steps[x].len() == h && forall|y: int| 0 <= y < h ==> 0 <= y + #[trigger] steps[x][y] < h
}

/// The rows that lead back from the row `end` of the last column.
fn trace_back(
    steps: &Vec<Vec<i8>>,
    w: usize,
    h: usize,
    end: usize,
    Ghost(table): Ghost<PathTable>,
) -> (rows: Vec<usize>)
    requires
        0 < w == steps@.len(),
        table.steps.len() == w,
        end < h,
        forall|x: int| 1 <= x < w ==> (#[trigger] steps@[x])@ == table.steps[x],
        forall|x: int| 1 <= x < w ==> #[trigger] stays_inside(table.steps, h as int, x),
    ensures
        rows@.len() == w,
        rows@[w - 1] == end,
        forall|x: int| 0 <= x < w ==> (#[trigger] rows@[x]) < h,
        forall|x: int| 1 <= x < w ==> #[trigger] joined(table, rows@, x),
{
    let mut y: usize = end;
    let mut rows: Vec<usize> = vec![0; w];
    rows.set(w - 1, y);
    let mut x: usize = w - 1;
    while x > 0
        invariant
            0 <= x < w,
            y < h,
            rows@.len() == w,
            rows@[x as int] == y,
            rows@[w - 1] == end,
            w == steps@.len(),
            forall|i: int| 1 <= i < w ==> (#[trigger] steps@[i])@ == table.steps[i],
            forall|i: int| 1 <= i < w ==> #[trigger] stays_inside(table.steps, h as int, i),
            forall|i: int| x <= i < w ==> (#[trigger] rows@[i]) < h,
            forall|i: int| x < i < w ==> #[trigger] joined(table, rows@, i),
        decreases x,
    {
        let ghost before = rows@;
        assert(steps@[x as int]@ == table.steps[x as int]);
        assert(stays_inside(table.steps, h as int, x as int));
        let d: i8 = steps[x][y];
        assert(0 <= y + table.steps[x as int][y as int] < h);
        y = (y as i128 + d as i128) as usize;
        rows.set(x - 1, y);
        assert forall|i: int| x - 1 < i < w implies #[trigger] joined(table, rows@, i) by {
            if i > x {
                assert(joined(table, before, i));
            }
        }
        x = x - 1;
    }
    rows
}

/// The rows of the path of least cost through a row-major grid of costs.
pub fn least_path<A: Fn(Single, Single) -> Single>(
    costs: &[Single],
    w: usize,
    h: usize,
    plus: &A,
) -> (rows: Vec<usize>)
    requires
        takes_numbers(*plus),
        w > 0,
        h > 0,
        costs@.len() == w * h,
    ensures
        is_least_path(*plus, costs@, w as int, h as int, rows@),
{
    let mut column = first_column(costs, w, h);
    let mut steps: Vec<Vec<i8>> = Vec::new();
    steps.push(Vec::new());
    let ghost mut table = PathTable { totals: seq![column@], steps: seq![steps@[0]@] };
    for x in 1..w
        invariant
            1 <= x <= w,
            takes_numbers(*plus),
            costs@.len() == w * h,
            column@.len() == h,
            steps@.len() == x,
            table.totals.len() == x,
            table.steps.len() == x,
            table.totals[0] == Seq::new(h as nat, |y: int| costs@[cell(w as int, 0, y)]),
            table.totals[x - 1] == column@,
            forall|i: int|
                #![trigger table.totals[i]]
                #![trigger table.steps[i]]
                1 <= i < x ==> is_next_column(
                    *plus,
                    costs@,
                    w as int,
                    i,
                    table.totals[i - 1],
                    table.totals[i],
                    table.steps[i],
                ),
            forall|i: int| 1 <= i < x ==> (#[trigger] steps@[i])@ == table.steps[i],
            forall|i: int| 1 <= i < x ==> #[trigger] stays_inside(table.steps, h as int, i),
    {
        let (totals, back) = next_column(plus, costs, w, h, x, &column);
        let ghost before = table;
        proof {
            table = PathTable {
                totals: table.totals.push(totals@),
                steps: table.steps.push(back@),
            };
            assert forall|i: int| 1 <= i < x + 1 implies #[trigger] stays_inside(
                table.steps,
                h as int,
                i,
            ) by {
                if i < x {
                    assert(stays_inside(before.steps, h as int, i));
                    assert(table.steps[i] == before.steps[i]);
                }
            }
            assert forall|i: int|
                #![trigger table.totals[i]]
                #![trigger table.steps[i]]
                1 <= i < x + 1 implies is_next_column(
                *plus,
                costs@,
                w as int,
                i,
                table.totals[i - 1],
                table.totals[i],
                table.steps[i],
            ) by {
                assert(table.totals[i - 1] == before.totals[i - 1]);
                if i < x {
                    assert(table.totals[i] == before.totals[i]);
                    assert(table.steps[i] == before.steps[i]);
                }
            }
        }
        steps.push(back);
        column = totals;
    }
    assert(is_path_table(*plus, costs@, w as int, h as int, table));
    let end: usize = first_least(&column);
    let rows = trace_back(&steps, w, h, end, Ghost(table));
    assert(leads_back(table, w as int, h as int, rows@));
    rows
}

/// Whether the rows form a path: there is one for each column, none lies outside the grid, and
/// neighbors are at most one row apart.
pub open spec fn is_path(w: int, h: int, rows: Seq<usize>) -> bool {
    &&& rows.len() == w
    &&& forall|x: int| 0 <= x < w ==> (#[trigger] rows[x]) < h
    &&& forall|x: int| 1 <= x < w ==> -1 <= (#[trigger] rows[x]) - rows[x - 1] <= 1
}

/// The path of least cost is a path.
pub proof fn least_path_is_a_path<A: Fn(Single, Single) -> Single>(
    plus: A,
    costs: Seq<Single>,
    w: int,
    h: int,
    rows: Seq<usize>,
)
    requires
        0 < w,
        0 <= h,
        is_least_path(plus, costs, w, h, rows),
    ensures
        is_path(w, h, rows),
{
    let table = choose|table: PathTable|
        #[trigger] is_path_table(plus, costs, w, h, table) && leads_back(table, w, h, rows);
    lemma_heights(plus, costs, w, h, table, w);
    assert forall|x: int| 1 <= x < w implies -1 <= (#[trigger] rows[x]) - rows[x - 1] <= 1 by {
        assert(joined(table, rows, x));
        assert(table.totals[x].len() == h);
        let y = rows[x] as int;
        assert(is_reached(
            plus,
            costs[cell(w, x, y)],
            table.totals[x - 1],
            y,
            table.totals[x][y],
            table.steps[x][y],
        ));
    }
}

/// The columns of a table are as high as the grid.
proof fn lemma_heights<A: Fn(Single, Single) -> Single>(
    plus: A,
    costs: Seq<Single>,
    w: int,
    h: int,
    table: PathTable,
    n: int,
)
    requires
        0 <= n <= w,
        0 < w,
        0 <= h,
        is_path_table(plus, costs, w, h, table),
    ensures
        forall|x: int| 0 <= x < n ==> (#[trigger] table.totals[x]).len() == h,
        forall|x: int| 1 <= x < n ==> (#[trigger] table.steps[x]).len() == h,
    decreases n,
{
    if n > 1 {
        lemma_heights(plus, costs, w, h, table, n - 1);
        assert(table.totals[n - 2].len() == h);
        assert(table.totals[n - 1].len() == h);
        assert(table.steps[n - 1].len() == h);
    } else if n == 1 {
        assert(table.totals[0].len() == h);
    }
}

/// Whether a number is zero or more.
pub open spec fn not_negative(s: Single) -> bool {
    (Single { bits: 0 }).le(s)
}

/// Whether a sum of numbers that are zero or more is such a number, and does not fall when one of
/// its terms grows.
pub open spec fn grows(sum: spec_fn(Single, Single) -> Single) -> bool {
    forall|a: Single, b: Single, c: Single|
        not_negative(a) && not_negative(b) && b.le(c) ==> {
            &&& not_negative(#[trigger] sum(a, b))
            &&& not_negative(sum(b, a))
            &&& sum(a, b).le(#[trigger] sum(a, c))
            &&& sum(b, a).le(sum(c, a))
        }
}

/// The cost of a path up to the column `x`.
pub open spec fn path_cost(
    sum: spec_fn(Single, Single) -> Single,
    costs: Seq<Single>,
    w: int,
    rows: Seq<usize>,
    x: int,
) -> Single
    decreases x,
{
    let here = costs[cell(w, x, rows[x] as int)];
    if x <= 0 {
        here
    } else {
        let before = path_cost(sum, costs, w, rows, x - 1);
        sum(
            here,
            if rows[x] == rows[x - 1] {
                before
            } else {
                sum(before, Single { bits: 0x3fc0_0000 })
            },
        )
    }
}

/// Where the costs are zero or more, and the sum that is used does not fall when one of its terms
/// grows, no path costs less than the path of least cost.
pub proof fn no_path_costs_less<A: Fn(Single, Single) -> Single>(
    plus: A,
    sum: spec_fn(Single, Single) -> Single,
    costs: Seq<Single>,
    w: int,
    h: int,
    rows: Seq<usize>,
    other: Seq<usize>,
)
    requires
        0 < w,
        0 < h,
        costs.len() == w * h,
        forall|k: int| 0 <= k < costs.len() ==> not_negative(#[trigger] costs[k]),
        grows(sum),
        forall|a: Single, b: Single, r: Single| #[trigger]
            call_ensures(plus, (a, b), r) ==> r == sum(a, b),
        is_least_path(plus, costs, w, h, rows),
        is_path(w, h, other),
    ensures
        path_cost(sum, costs, w, rows, w - 1).le(path_cost(sum, costs, w, other, w - 1)),
{
    let table = choose|table: PathTable|
        #[trigger] is_path_table(plus, costs, w, h, table) && leads_back(table, w, h, rows);
    lemma_heights(plus, costs, w, h, table, w);
    lemma_found_cost(plus, sum, costs, w, h, table, rows, w - 1);
    lemma_table_is_least(plus, sum, costs, w, h, table, other, w - 1);
    let last = table.totals[w - 1];
    assert(rows[w - 1] < h && other[w - 1] < h);
    assert(last[rows[w - 1] as int].total_rank() <= last[other[w - 1] as int].total_rank());
    lemma_table_is_positive(plus, sum, costs, w, h, table, w - 1, rows[w - 1] as int);
}

/// The table holds the cost of the path that leads back.
proof fn lemma_found_cost<A: Fn(Single, Single) -> Single>(
    plus: A,
    sum: spec_fn(Single, Single) -> Single,
    costs: Seq<Single>,
    w: int,
    h: int,
    table: PathTable,
    rows: Seq<usize>,
    x: int,
)
    requires
        0 <= x < w,
        0 < h,
        forall|a: Single, b: Single, r: Single| #[trigger]
            call_ensures(plus, (a, b), r) ==> r == sum(a, b),
        is_path_table(plus, costs, w, h, table),
        leads_back(table, w, h, rows),
    ensures
        path_cost(sum, costs, w, rows, x) == table.totals[x][rows[x] as int],
    decreases x,
{
    assert(rows[x] < h);
    if x > 0 {
        lemma_found_cost(plus, sum, costs, w, h, table, rows, x - 1);
        lemma_heights(plus, costs, w, h, table, w);
        assert(table.totals[x - 1].len() == h);
        assert(joined(table, rows, x));
        let y = rows[x] as int;
        let column = table.totals[x - 1];
        assert(is_reached(
            plus,
            costs[cell(w, x, y)],
            column,
            y,
            table.totals[x][y],
            table.steps[x][y],
        ));
        let (above, below) = choose|above: Option<Single>, below: Option<Single>|
            {
                &&& #[trigger] climbs(plus, column, y - 1, above)
                &&& #[trigger] climbs(plus, column, y + 1, below)
                &&& best_step(column[y], above, below).0 == table.steps[x][y]
                &&& call_ensures(
                    plus,
                    (costs[cell(w, x, y)], best_step(column[y], above, below).1),
                    table.totals[x][y],
                )
            };
        assert(climbs(plus, column, y - 1, above));
        assert(climbs(plus, column, y + 1, below));
    }
}

/// Every entry of the table is zero or more.
proof fn lemma_table_is_positive<A: Fn(Single, Single) -> Single>(
    plus: A,
    sum: spec_fn(Single, Single) -> Single,
    costs: Seq<Single>,
    w: int,
    h: int,
    table: PathTable,
    x: int,
    y: int,
)
    requires
        0 <= x < w,
        0 <= y < h,
        costs.len() == w * h,
        forall|k: int| 0 <= k < costs.len() ==> not_negative(#[trigger] costs[k]),
        grows(sum),
        forall|a: Single, b: Single, r: Single| #[trigger]
            call_ensures(plus, (a, b), r) ==> r == sum(a, b),
        is_path_table(plus, costs, w, h, table),
    ensures
        not_negative(table.totals[x][y]),
    decreases x,
{
    lemma_cell_bound(w, h, x, y);
    let here = costs[cell(w, x, y)];
    if x > 0 {
        lemma_heights(plus, costs, w, h, table, w);
        let column = table.totals[x - 1];
        assert(column.len() == h);
        lemma_table_is_positive(plus, sum, costs, w, h, table, x - 1, y);
        if y > 0 {
            lemma_table_is_positive(plus, sum, costs, w, h, table, x - 1, y - 1);
        }
        if y + 1 < h {
            lemma_table_is_positive(plus, sum, costs, w, h, table, x - 1, y + 1);
        }
        assert(is_reached(plus, here, column, y, table.totals[x][y], table.steps[x][y]));
        let (above, below) = choose|above: Option<Single>, below: Option<Single>|
            {
                &&& #[trigger] climbs(plus, column, y - 1, above)
                &&& #[trigger] climbs(plus, column, y + 1, below)
                &&& best_step(column[y], above, below).0 == table.steps[x][y]
                &&& call_ensures(
                    plus,
                    (here, best_step(column[y], above, below).1),
                    table.totals[x][y],
                )
            };
        let c = climb_cost();
        let best = best_step(column[y], above, below).1;
        if y > 0 {
            assert(column[y - 1].le(column[y - 1]));
            assert(not_negative(sum(c, column[y - 1])) && not_negative(sum(column[y - 1], c)));
        }
        if y + 1 < h {
            assert(column[y + 1].le(column[y + 1]));
            assert(not_negative(sum(c, column[y + 1])) && not_negative(sum(column[y + 1], c)));
        }
        assert(not_negative(best));
        assert(best.le(best));
        assert(not_negative(sum(here, best)));
    }
}

/// No path reaches a cell at less cost than the table says.
proof fn lemma_table_is_least<A: Fn(Single, Single) -> Single>(
    plus: A,
    sum: spec_fn(Single, Single) -> Single,
    costs: Seq<Single>,
    w: int,
    h: int,
    table: PathTable,
    other: Seq<usize>,
    x: int,
)
    requires
        0 <= x < w,
        0 < h,
        costs.len() == w * h,
        forall|k: int| 0 <= k < costs.len() ==> not_negative(#[trigger] costs[k]),
        grows(sum),
        forall|a: Single, b: Single, r: Single| #[trigger]
            call_ensures(plus, (a, b), r) ==> r == sum(a, b),
        is_path_table(plus, costs, w, h, table),
        is_path(w, h, other),
    ensures
        table.totals[x][other[x] as int].le(path_cost(sum, costs, w, other, x)),
    decreases x,
{
    let y = other[x] as int;
    assert(other[x] < h);
    lemma_cell_bound(w, h, x, y);
    let here = costs[cell(w, x, y)];
    if x > 0 {
        let z = other[x - 1] as int;
        assert(other[x - 1] < h);
        lemma_heights(plus, costs, w, h, table, w);
        let column = table.totals[x - 1];
        assert(column.len() == h);
        lemma_table_is_least(plus, sum, costs, w, h, table, other, x - 1);
        lemma_table_is_positive(plus, sum, costs, w, h, table, x - 1, y);
        lemma_table_is_positive(plus, sum, costs, w, h, table, x - 1, z);
        if y > 0 {
            lemma_table_is_positive(plus, sum, costs, w, h, table, x - 1, y - 1);
        }
        if y + 1 < h {
            lemma_table_is_positive(plus, sum, costs, w, h, table, x - 1, y + 1);
        }
        assert(is_reached(plus, here, column, y, table.totals[x][y], table.steps[x][y]));
        let (above, below) = choose|above: Option<Single>, below: Option<Single>|
            {
                &&& #[trigger] climbs(plus, column, y - 1, above)
                &&& #[trigger] climbs(plus, column, y + 1, below)
                &&& best_step(column[y], above, below).0 == table.steps[x][y]
                &&& call_ensures(
                    plus,
                    (here, best_step(column[y], above, below).1),
                    table.totals[x][y],
                )
            };
        let c = climb_cost();
        let best = best_step(column[y], above, below).1;
        let before = path_cost(sum, costs, w, other, x - 1);
        assert(column[z].le(before));
        assert(not_negative(before));
        assert(sum(c, column[z]).le(sum(c, before)));
        assert(sum(column[z], c).le(sum(before, c)));
        if y > 0 {
            assert(column[y - 1].le(column[y - 1]));
            assert(not_negative(sum(c, column[y - 1])) && not_negative(sum(column[y - 1], c)));
        }
        if y + 1 < h {
            assert(column[y + 1].le(column[y + 1]));
            assert(not_negative(sum(c, column[y + 1])) && not_negative(sum(column[y + 1], c)));
        }
        let spent = if y == z {
            before
        } else {
            sum(before, c)
        };
        let there = if y == z {
            column[z]
        } else {
            sum(column[z], c)
        };
        assert(there.le(spent));
        assert(not_negative(best));
        assert(best.le(there));
        assert(best.le(spent));
        assert(sum(here, best).le(sum(here, spent)));
    } else {
        assert(table.totals[0][y] == here);
    }
}

/// A step takes the least of the totals to the left: that of the same row, and those of the rows
/// above and below with the cost of a change of row. Where they are equal, the same row comes before
/// the row above, and that before the row below.
pub proof fn steps_take_the_least_total(
    stay: Single,
    above: Option<Single>,
    below: Option<Single>,
)
    requires
        !stay.nan(),
        above matches Some(v) ==> !v.nan(),
        below matches Some(v) ==> !v.nan(),
    ensures
        ({
            let (d, best) = best_step(stay, above, below);
            &&& d == 0 || d == -1 || d == 1
            &&& d == 0 ==> best == stay
            &&& d == -1 ==> above == Some(best) && best.lt(stay)
            &&& d == 1 ==> below == Some(best) && best.lt(stay)
            &&& best.le(stay)
            &&& above matches Some(v) ==> best.le(v) && (d == 1 ==> best.lt(v))
            &&& below matches Some(v) ==> best.le(v)
        }),
{
}

/// The last row of the path is the first of those with the least total, in the total order of
/// numbers; of a single column, that is the first of the least costs.
pub proof fn path_ends_at_the_first_least_total<A: Fn(Single, Single) -> Single>(
    plus: A,
    costs: Seq<Single>,
    h: int,
    rows: Seq<usize>,
    y: int,
)
    requires
        0 < h,
        costs.len() == h,
        is_least_path(plus, costs, 1, h, rows),
        0 <= y < h,
    ensures
        rows.len() == 1,
        rows[0] < h,
        costs[rows[0] as int].total_rank() <= costs[y].total_rank(),
        y < rows[0] ==> costs[rows[0] as int].total_rank() < costs[y].total_rank(),
{
    let table = choose|table: PathTable|
        #[trigger] is_path_table(plus, costs, 1, h, table) && leads_back(table, 1, h, rows);
    let r = rows[0] as int;
    assert(table.totals[0][y] == costs[cell(1, 0, y)]);
    assert(table.totals[0][r] == costs[cell(1, 0, r)]);
    assert(cell(1, 0, y) == y && cell(1, 0, r) == r);
}

} // verus!
