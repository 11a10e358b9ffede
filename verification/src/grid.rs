//! Row-major grids: the index of a cell, and the raster order in which cells are visited.

use vstd::prelude::*;

verus! {

/// The index of the cell `(x, y)` in a row-major grid of width `w`.
pub open spec fn cell(w: int, x: int, y: int) -> int {
    y * w + x
}

/// Whether `(x, y)` is a cell of a grid of width `w` and height `h`.
pub open spec fn in_grid(w: int, h: int, x: int, y: int) -> bool {
    0 <= x < w && 0 <= y < h
}

/// Whether a row-by-row scan reaches `(i, j)` before `(x, y)`.
pub open spec fn scanned(i: int, j: int, x: int, y: int) -> bool {
    j < y || (j == y && i < x)
}

/// The index of a cell of the grid lies inside the grid.
pub proof fn lemma_cell_bound(w: int, h: int, x: int, y: int)
    requires
        in_grid(w, h, x, y),
    ensures
        0 <= y * w <= cell(w, x, y) < w * h,
        cell(w, x, y) < y * w + w <= w * h,
{
    assert(0 <= y * w && y * w + w <= w * h) by (nonlinear_arith)
        requires
            0 <= y < h,
            0 < w,
    ;
}

/// Indices of cells follow the scan, so two cells never share one.
pub proof fn lemma_cell_order(w: int, i: int, j: int, x: int, y: int)
    requires
        0 <= i < w,
        0 <= x < w,
        0 <= j,
        0 <= y,
    ensures
        cell(w, i, j) < cell(w, x, y) <==> scanned(i, j, x, y),
        cell(w, i, j) == cell(w, x, y) <==> i == x && j == y,
{
    if j < y {
        assert(j * w + w <= y * w) by (nonlinear_arith)
            requires
                j + 1 <= y,
                0 < w,
        ;
    } else if y < j {
        assert(y * w + w <= j * w) by (nonlinear_arith)
            requires
                y + 1 <= j,
                0 < w,
        ;
    }
}

/// Every index of the grid is the index of one cell.
pub proof fn lemma_cell_of_index(w: int, h: int, k: int)
    requires
        0 <= k < w * h,
        0 <= w,
        0 <= h,
    ensures
        w > 0,
        in_grid(w, h, k % w, k / w),
        cell(w, k % w, k / w) == k,
{
    assert(w > 0) by (nonlinear_arith)
        requires
            0 <= k < w * h,
            0 <= w,
            0 <= h,
    ;
    vstd::arithmetic::div_mod::lemma_fundamental_div_mod(k, w);
    assert(w * (k / w) == (k / w) * w) by (nonlinear_arith);
    assert(0 <= k / w < h) by (nonlinear_arith)
        requires
            k == (k / w) * w + k % w,
            0 <= k % w < w,
            0 <= k < w * h,
            w > 0,
    ;
}

/// The column and the row of the index of a cell.
pub proof fn lemma_index_of_cell(w: int, x: int, y: int)
    requires
        0 <= x < w,
        0 <= y,
    ensures
        cell(w, x, y) % w == x,
        cell(w, x, y) / w == y,
{
    vstd::arithmetic::div_mod::lemma_fundamental_div_mod_converse(cell(w, x, y), w, y, x);
}

/// How many of the first `n` indices satisfy `p`.
pub open spec fn count_where(n: nat, p: spec_fn(int) -> bool) -> nat
    decreases n,
{
    if n == 0 {
        0
    } else {
        count_where((n - 1) as nat, p) + if p(n - 1) {
            1nat
        } else {
            0nat
        }
    }
}

/// A count is at most the number of indices.
pub proof fn lemma_count_bound(n: nat, p: spec_fn(int) -> bool)
    ensures
        count_where(n, p) <= n,
    decreases n,
{
    if n > 0 {
        lemma_count_bound((n - 1) as nat, p);
    }
}

/// A count is zero exactly where no index satisfies the predicate.
pub proof fn lemma_count_zero(n: nat, p: spec_fn(int) -> bool)
    ensures
        count_where(n, p) == 0 <==> forall|k: int| 0 <= k < n ==> !#[trigger] p(k),
    decreases n,
{
    if n > 0 {
        lemma_count_zero((n - 1) as nat, p);
        assert(p(n - 1) || !p(n - 1));
    }
}

/// Counts of predicates that agree on the indices are equal.
pub proof fn lemma_count_same(n: nat, p: spec_fn(int) -> bool, q: spec_fn(int) -> bool)
    requires
        forall|k: int| 0 <= k < n ==> #[trigger] p(k) == q(k),
    ensures
        count_where(n, p) == count_where(n, q),
    decreases n,
{
    if n > 0 {
        lemma_count_same((n - 1) as nat, p, q);
        assert(p(n - 1) == q(n - 1));
    }
}

/// The values that `f` gives for the first `n` cells of a grid of width `w`, in the order of a scan;
/// cells without a value are left out.
pub open spec fn gathered<T>(w: int, n: int, f: spec_fn(int, int) -> Option<T>) -> Seq<T>
    decreases n,
{
    if n <= 0 {
        Seq::empty()
    } else {
        let before = gathered(w, n - 1, f);
        match f((n - 1) % w, (n - 1) / w) {
            Some(v) => before.push(v),
            None => before,
        }
    }
}

/// What one more cell adds to the values that were gathered.
pub proof fn lemma_gather_cell<T>(w: int, x: int, y: int, f: spec_fn(int, int) -> Option<T>)
    requires
        0 <= x < w,
        0 <= y,
    ensures
        gathered(w, cell(w, x, y) + 1, f) == match f(x, y) {
            Some(v) => gathered(w, cell(w, x, y), f).push(v),
            None => gathered(w, cell(w, x, y), f),
        },
        cell(w, 0, y) == y * w,
        0 <= y * w,
        cell(w, w, y) == (y + 1) * w,
{
    lemma_index_of_cell(w, x, y);
    assert(0 <= y * w) by (nonlinear_arith)
        requires
            0 <= y,
            0 <= w,
    ;
    assert(y * w + w == (y + 1) * w) by (nonlinear_arith);
}

/// The sum of the values that `f` gives for the first `n` cells of a grid of width `w`.
pub open spec fn summed(w: int, n: int, f: spec_fn(int, int) -> int) -> int
    decreases n,
{
    if n <= 0 {
        0
    } else {
        summed(w, n - 1, f) + f((n - 1) % w, (n - 1) / w)
    }
}

/// What one more cell adds to a sum.
pub proof fn lemma_sum_cell(w: int, x: int, y: int, f: spec_fn(int, int) -> int)
    requires
        0 <= x < w,
        0 <= y,
    ensures
        summed(w, cell(w, x, y) + 1, f) == summed(w, cell(w, x, y), f) + f(x, y),
        cell(w, 0, y) == y * w,
        0 <= y * w,
        cell(w, w, y) == (y + 1) * w,
{
    lemma_index_of_cell(w, x, y);
    assert(0 <= y * w) by (nonlinear_arith)
        requires
            0 <= y,
            0 <= w,
    ;
    assert(y * w + w == (y + 1) * w) by (nonlinear_arith);
}

/// A sum of values between zero and `top` is at most `top` for each cell.
pub proof fn lemma_sum_bound(w: int, n: int, f: spec_fn(int, int) -> int, top: int)
    requires
        forall|x: int, y: int| 0 <= #[trigger] f(x, y) <= top,
        0 <= n,
    ensures
        0 <= summed(w, n, f) <= top * n,
    decreases n,
{
    if n > 0 {
        lemma_sum_bound(w, n - 1, f, top);
        assert(top * (n - 1) + top == top * n) by (nonlinear_arith);
    } else {
        assert(top * 0 == 0) by (nonlinear_arith);
    }
}

/// A count grows with the number of indices, and strictly so where an index that satisfies the
/// predicate comes in.
pub proof fn counts_grow(p: spec_fn(int) -> bool, n: nat, m: nat)
    requires
        n <= m,
    ensures
        count_where(n, p) <= count_where(m, p),
        n < m && p(n as int) ==> count_where(n, p) < count_where(m, p),
    decreases m,
{
    if n < m {
        counts_grow(p, n, (m - 1) as nat);
    }
}

/// Which cells of a grid of width `w` have a value, by their index.
pub open spec fn has_value<T>(w: int, f: spec_fn(int, int) -> Option<T>) -> spec_fn(int) -> bool {
    |k: int| f(k % w, k / w) is Some
}

/// Every cell with a value among the first `n` is gathered, with as many values before its own as
/// cells with a value come before it, and nothing else is.
pub proof fn gathered_values_keep_the_order_of_the_cells<T>(
    w: int,
    n: int,
    f: spec_fn(int, int) -> Option<T>,
    k: int,
)
    requires
        0 <= k < n,
    ensures
        gathered(w, n, f).len() == count_where(n as nat, has_value(w, f)),
        f(k % w, k / w) matches Some(v) ==> {
            let i = count_where(k as nat, has_value(w, f)) as int;
            0 <= i < gathered(w, n, f).len() && gathered(w, n, f)[i] == v
        },
    decreases n,
{
    lemma_gathered_count(w, n, f);
    if k < n - 1 {
        gathered_values_keep_the_order_of_the_cells(w, n - 1, f, k);
    } else {
        lemma_gathered_count(w, n - 1, f);
    }
}

proof fn lemma_gathered_count<T>(w: int, n: int, f: spec_fn(int, int) -> Option<T>)
    requires
        0 <= n,
    ensures
        gathered(w, n, f).len() == count_where(n as nat, has_value(w, f)),
    decreases n,
{
    if n > 0 {
        lemma_gathered_count(w, n - 1, f);
    }
}

/// Sums of values that agree on the cells are equal.
pub proof fn sums_of_the_same_values_are_equal(
    w: int,
    h: int,
    n: int,
    f: spec_fn(int, int) -> int,
    g: spec_fn(int, int) -> int,
)
    requires
        0 <= w,
        0 <= h,
        0 <= n <= w * h,
        forall|x: int, y: int| in_grid(w, h, x, y) ==> #[trigger] f(x, y) == g(x, y),
    ensures
        summed(w, n, f) == summed(w, n, g),
    decreases n,
{
    if n > 0 {
        sums_of_the_same_values_are_equal(w, h, n - 1, f, g);
        lemma_cell_of_index(w, h, n - 1);
        assert(f((n - 1) % w, (n - 1) / w) == g((n - 1) % w, (n - 1) / w));
    }
}

/// Every gathered value is that of a cell.
pub proof fn gathered_values_come_from_cells<T>(
    w: int,
    n: int,
    f: spec_fn(int, int) -> Option<T>,
    i: int,
) -> (k: int)
    requires
        0 <= i < gathered(w, n, f).len(),
    ensures
        0 <= k < n,
        f(k % w, k / w) == Some(gathered(w, n, f)[i]),
        i == count_where(k as nat, has_value(w, f)),
    decreases n,
{
    if n <= 0 {
        0
    } else {
        lemma_gathered_count(w, n - 1, f);
        if i < gathered(w, n - 1, f).len() {
            gathered_values_come_from_cells(w, n - 1, f, i)
        } else {
            n - 1
        }
    }
}

/// A count is the size of the set of the indices that satisfy the predicate.
pub proof fn lemma_count_as_set(n: nat, p: spec_fn(int) -> bool)
    ensures
        Set::new(|i: int| 0 <= i < n && p(i)).finite(),
        Set::new(|i: int| 0 <= i < n && p(i)).len() == count_where(n, p),
    decreases n,
{
    let s = Set::new(|i: int| 0 <= i < n && p(i));
    if n == 0 {
        assert(s =~= Set::empty());
    } else {
        let m = (n - 1) as nat;
        let t = Set::new(|i: int| 0 <= i < m && p(i));
        lemma_count_as_set(m, p);
        if p(n - 1) {
            assert(s =~= t.insert(n - 1));
        } else {
            assert(s =~= t);
        }
    }
}

} // verus!
