//! Stable sorting of indices by a key.

use vstd::prelude::*;

verus! {

/// Whether the index `i` comes before `j`: its key is less, or the keys are the same and it is the
/// smaller index.
pub open spec fn before(keys: Seq<i64>, i: usize, j: usize) -> bool {
    keys[i as int] < keys[j as int] || (keys[i as int] == keys[j as int] && i < j)
}

/// Whether each index comes before the ones that follow it.
pub open spec fn in_order(keys: Seq<i64>, order: Seq<usize>) -> bool {
    forall|a: int, b: int|
        0 <= a < b < order.len() ==> before(keys, #[trigger] order[a], #[trigger] order[b])
}

/// Whether `order` holds the same indices as `items`, in the order of their keys.
pub open spec fn is_sorting(keys: Seq<i64>, items: Seq<usize>, order: Seq<usize>) -> bool {
    &&& order.len() == items.len()
    &&& forall|i: usize| #[trigger] order.contains(i) <==> items.contains(i)
    &&& in_order(keys, order)
}

/// The first `n` indices.
pub open spec fn all_indices(n: nat) -> Seq<usize> {
    Seq::new(n, |i: int| i as usize)
}

/// Whether the indices ascend and have keys.
pub open spec fn ascending(items: Seq<usize>, n: int) -> bool {
    &&& forall|a: int, b: int| 0 <= a < b < items.len() ==> #[trigger] items[a] < #[trigger] items[b]
    &&& forall|a: int| 0 <= a < items.len() ==> #[trigger] items[a] < n
}

spec fn apart(a: Seq<usize>, b: Seq<usize>) -> bool {
    forall|i: int, j: int|
        0 <= i < a.len() && 0 <= j < b.len() ==> #[trigger] a[i] != #[trigger] b[j]
}

spec fn within_keys(keys: Seq<i64>, a: Seq<usize>) -> bool {
    forall|i: int| 0 <= i < a.len() ==> #[trigger] a[i] < keys.len()
}

spec fn merged(a: Seq<usize>, i: int, b: Seq<usize>, j: int, out: Seq<usize>) -> bool {
    &&& out.len() == i + j
    &&& forall|p: int| 0 <= p < i ==> out.contains(#[trigger] a[p])
    &&& forall|q: int| 0 <= q < j ==> out.contains(#[trigger] b[q])
    &&& forall|k: int|
        0 <= k < out.len() ==> a.contains(#[trigger] out[k]) || b.contains(out[k])
}

proof fn lemma_push_keeps(out: Seq<usize>, v: usize)
    ensures
        out.push(v).contains(v),
        forall|u: usize| #[trigger] out.contains(u) ==> out.push(v).contains(u),
{
    assert(out.push(v)[out.len() as int] == v);
    assert forall|u: usize| #[trigger] out.contains(u) implies out.push(v).contains(u) by {
        let k = choose|k: int| 0 <= k < out.len() && out[k] == u;
        assert(out.push(v)[k] == u);
    }
}

fn merge(keys: &[i64], a: &Vec<usize>, b: &Vec<usize>) -> (out: Vec<usize>)
    requires
        in_order(keys@, a@),
        in_order(keys@, b@),
        apart(a@, b@),
        within_keys(keys@, a@),
        within_keys(keys@, b@),
        a@.len() + b@.len() <= usize::MAX,
    ensures
        in_order(keys@, out@),
        merged(a@, a@.len() as int, b@, b@.len() as int, out@),
{
    let mut out: Vec<usize> = Vec::new();
    let mut i: usize = 0;
    let mut j: usize = 0;
    while i < a.len() || j < b.len()
        invariant
            i <= a@.len(),
            j <= b@.len(),
            in_order(keys@, a@),
            in_order(keys@, b@),
            apart(a@, b@),
            within_keys(keys@, a@),
            within_keys(keys@, b@),
            in_order(keys@, out@),
            merged(a@, i as int, b@, j as int, out@),
            forall|k: int, p: int|
                0 <= k < out@.len() && i <= p < a@.len() ==> before(
                    keys@,
                    #[trigger] out@[k],
                    #[trigger] a@[p],
                ),
            forall|k: int, q: int|
                0 <= k < out@.len() && j <= q < b@.len() ==> before(
                    keys@,
                    #[trigger] out@[k],
                    #[trigger] b@[q],
                ),
        decreases a@.len() - i + b@.len() - j,
    {
        let take_a: bool = if i >= a.len() {
            false
        } else if j >= b.len() {
            true
        } else {
            let u: usize = a[i];
            let v: usize = b[j];
            keys[u] < keys[v] || (keys[u] == keys[v] && u < v)
        };
        let ghost was = out@;
        if take_a {
            let v: usize = a[i];
            proof {
                lemma_push_keeps(was, v);
                assert(a@.contains(v));
            }
            out.push(v);
            i = i + 1;
        } else {
            let v: usize = b[j];
            proof {
                lemma_push_keeps(was, v);
                assert(b@.contains(v));
            }
            out.push(v);
            j = j + 1;
        }
    }
    out
}

fn part(items: &Vec<usize>, from: usize, to: usize) -> (r: Vec<usize>)
    requires
        from <= to <= items@.len(),
    ensures
        r@ == items@.subrange(from as int, to as int),
{
    let mut r: Vec<usize> = Vec::new();
    for k in from..to
        invariant
            from <= k <= to <= items@.len(),
            r@ == items@.subrange(from as int, k as int),
    {
        r.push(items[k]);
        assert(items@.subrange(from as int, k + 1) =~= items@.subrange(from as int, k as int).push(
            items@[k as int],
        ));
    }
    r
}

spec fn distinct(items: Seq<usize>) -> bool {
    forall|a: int, b: int| 0 <= a < b < items.len() ==> #[trigger] items[a] != #[trigger] items[b]
}

fn merge_sort(keys: &[i64], items: &Vec<usize>) -> (order: Vec<usize>)
    requires
        distinct(items@),
        within_keys(keys@, items@),
    ensures
        is_sorting(keys@, items@, order@),
    decreases items@.len(),
{
    let n: usize = items.len();
    if n <= 1 {
        let order = part(items, 0, n);
        assert(order@ =~= items@);
        return order;
    }
    let mid: usize = n / 2;
    let left = part(items, 0, mid);
    let right = part(items, mid, n);
    let a = merge_sort(keys, &left);
    let b = merge_sort(keys, &right);
    proof {
        assert forall|i: int| 0 <= i < a@.len() implies #[trigger] a@[i] < keys@.len() by {
            assert(a@.contains(a@[i]));
            assert(left@.contains(a@[i]));
        }
        assert forall|i: int| 0 <= i < b@.len() implies #[trigger] b@[i] < keys@.len() by {
            assert(b@.contains(b@[i]));
            assert(right@.contains(b@[i]));
        }
        assert forall|i: int, j: int| 0 <= i < a@.len() && 0 <= j < b@.len() implies
            #[trigger] a@[i] != #[trigger] b@[j] by {
            assert(a@.contains(a@[i]) && b@.contains(b@[j]));
            assert(left@.contains(a@[i]) && right@.contains(b@[j]));
            let p = choose|p: int| 0 <= p < left@.len() && left@[p] == a@[i];
            let q = choose|q: int| 0 <= q < right@.len() && right@[q] == b@[j];
            assert(items@[p] != items@[mid + q]);
        }
    }
    let order = merge(keys, &a, &b);
    proof {
        assert forall|i: usize| #[trigger] order@.contains(i) <==> items@.contains(i) by {
            if order@.contains(i) {
                let k = choose|k: int| 0 <= k < order@.len() && order@[k] == i;
                assert(a@.contains(order@[k]) || b@.contains(order@[k]));
                if a@.contains(i) {
                    assert(left@.contains(i));
                    let p = choose|p: int| 0 <= p < left@.len() && left@[p] == i;
                    assert(items@[p] == i);
                } else {
                    assert(right@.contains(i));
                    let q = choose|q: int| 0 <= q < right@.len() && right@[q] == i;
                    assert(items@[mid + q] == i);
                }
            }
            if items@.contains(i) {
                let k = choose|k: int| 0 <= k < items@.len() && items@[k] == i;
                if k < mid {
                    assert(left@[k] == i);
                    assert(a@.contains(i));
                    let p = choose|p: int| 0 <= p < a@.len() && a@[p] == i;
                    assert(order@.contains(a@[p]));
                } else {
                    assert(right@[k - mid] == i);
                    assert(b@.contains(i));
                    let q = choose|q: int| 0 <= q < b@.len() && b@[q] == i;
                    assert(order@.contains(b@[q]));
                }
            }
        }
    }
    order
}

/// The indices in the order of their keys; indices with the same key keep their order.
pub fn stable_sort(keys: &[i64], items: &Vec<usize>) -> (order: Vec<usize>)
    requires
        ascending(items@, keys@.len() as int),
    ensures
        is_sorting(keys@, items@, order@),
{
    merge_sort(keys, items)
}

/// All indices of the keys, in the order of their keys; indices with the same key keep their order.
pub fn stable_order(keys: &[i64]) -> (order: Vec<usize>)
    ensures
        is_sorting(keys@, all_indices(keys@.len()), order@),
{
    let mut items: Vec<usize> = Vec::new();
    for i in 0..keys.len()
        invariant
            items@ == all_indices(i as nat),
    {
        items.push(i);
        assert(items@ =~= all_indices((i + 1) as nat));
    }
    merge_sort(keys, &items)
}

/// There is only one such order.
pub proof fn sorting_is_unique(keys: Seq<i64>, items: Seq<usize>, a: Seq<usize>, b: Seq<usize>)
    requires
        is_sorting(keys, items, a),
        is_sorting(keys, items, b),
    ensures
        a == b,
{
    lemma_same_prefix(keys, a, b, a.len());
    assert(a =~= b);
}

proof fn lemma_same_prefix(keys: Seq<i64>, a: Seq<usize>, b: Seq<usize>, n: nat)
    requires
        a.len() == b.len(),
        n <= a.len(),
        in_order(keys, a),
        in_order(keys, b),
        forall|i: usize| #[trigger] a.contains(i) <==> b.contains(i),
    ensures
        forall|k: int| 0 <= k < n ==> a[k] == b[k],
    decreases n,
{
    if n > 0 {
        let m = n - 1;
        lemma_same_prefix(keys, a, b, m as nat);
        assert(a.contains(a[m]));
        assert(b.contains(a[m]));
        let j = choose|j: int| 0 <= j < b.len() && b[j] == a[m];
        assert(b.contains(b[m]));
        assert(a.contains(b[m]));
        let i = choose|i: int| 0 <= i < a.len() && a[i] == b[m];
        if j < m {
            assert(a[j] == b[j]);
            assert(before(keys, a[j], a[m]));
        } else if i < m {
            assert(a[i] == b[i]);
            assert(before(keys, b[i], b[m]));
        } else if i > m && j > m {
            assert(before(keys, a[m], a[i]));
            assert(before(keys, b[m], b[j]));
        }
    }
}

/// A sorting lists different indices, so there are no more of them than indices.
pub proof fn sortings_are_no_longer_than_indices(
    keys: Seq<i64>,
    items: Seq<usize>,
    order: Seq<usize>,
)
    requires
        is_sorting(keys, items, order),
    ensures
        order.len() <= usize::MAX + 1,
{
    let numbers = Seq::new(order.len(), |k: int| order[k] as int);
    assert forall|a: int, b: int| 0 <= a < b < numbers.len() implies numbers[a] != numbers[b] by {
        assert(before(keys, order[a], order[b]));
    }
    assert(numbers.no_duplicates());
    numbers.unique_seq_to_set();
    let all = vstd::set_lib::set_int_range(0, usize::MAX + 1);
    vstd::set_lib::lemma_int_range(0, usize::MAX + 1);
    assert(numbers.to_set().subset_of(all));
    vstd::set_lib::lemma_len_subset(numbers.to_set(), all);
}

/// A sorting lists every index once, with keys that never fall; indices with the same key ascend.
pub proof fn sorted_keys_never_fall(
    keys: Seq<i64>,
    items: Seq<usize>,
    order: Seq<usize>,
    a: int,
    b: int,
)
    requires
        is_sorting(keys, items, order),
        0 <= a < b < order.len(),
    ensures
        order.len() == items.len(),
        items.contains(order[a]),
        forall|i: int| 0 <= i < items.len() ==> order.contains(#[trigger] items[i]),
        order[a] != order[b],
        keys[order[a] as int] <= keys[order[b] as int],
        keys[order[a] as int] == keys[order[b] as int] ==> order[a] < order[b],
{
    assert(order.contains(order[a]));
    assert forall|i: int| 0 <= i < items.len() implies order.contains(#[trigger] items[i]) by {
        assert(items.contains(items[i]));
    }
}

} // verus!
