//! Sorting by path.
use vstd::prelude::*;

use crate::path::{
    lemma_path_order_total, lemma_path_order_transitive, path_precedes, path_views, FilePath,
    PartView,
};

verus! {

/// Whether item `i` belongs before item `j`: by path, and by position where the paths are
/// the same.
pub open spec fn item_precedes(keys: Seq<Seq<PartView>>, i: int, j: int) -> bool {
    path_precedes(keys[i], keys[j]) || (keys[i] == keys[j] && i < j)
}

/// Whether `order` lists each of the positions from `lo` up to `hi` once, in the order of
/// their paths. Items with the same path keep their order.
pub open spec fn is_sorted_order(
    keys: Seq<Seq<PartView>>,
    order: Seq<usize>,
    lo: int,
    hi: int,
) -> bool {
    &&& order.len() == hi - lo
    &&& forall|k: int| 0 <= k < order.len() ==> lo <= #[trigger] order[k] < hi
    &&& forall|p: int| lo <= p < hi ==> #[trigger] order.contains(p as usize)
    &&& forall|a: int, b: int|
        0 <= a < b < order.len() ==> item_precedes(
            keys,
            #[trigger] order[a] as int,
            #[trigger] order[b] as int,
        )
}

proof fn lemma_item_order(keys: Seq<Seq<PartView>>, i: int, j: int, k: int)
    ensures
        i != j ==> item_precedes(keys, i, j) || item_precedes(keys, j, i),
        !(item_precedes(keys, i, j) && item_precedes(keys, j, i)),
        item_precedes(keys, i, j) && item_precedes(keys, j, k) ==> item_precedes(keys, i, k),
{
    lemma_path_order_total(keys[i], keys[j]);
    if path_precedes(keys[i], keys[j]) && path_precedes(keys[j], keys[k]) {
        lemma_path_order_transitive(keys[i], keys[j], keys[k]);
    }
}

/// Items have one sorted order only: what comes out of sorting is fixed by what goes in.
pub proof fn lemma_sorted_order_unique(
    keys: Seq<Seq<PartView>>,
    a: Seq<usize>,
    b: Seq<usize>,
    lo: int,
    hi: int,
)
    requires
        0 <= lo <= hi <= usize::MAX,
        is_sorted_order(keys, a, lo, hi),
        is_sorted_order(keys, b, lo, hi),
    ensures
        a == b,
{
    lemma_prefix_agrees(keys, a, b, lo, hi, a.len());
    lemma_prefix_agrees(keys, b, a, lo, hi, b.len());
    assert(a =~= b);
}

proof fn lemma_prefix_agrees(
    keys: Seq<Seq<PartView>>,
    a: Seq<usize>,
    b: Seq<usize>,
    lo: int,
    hi: int,
    n: nat,
)
    requires
        0 <= lo <= hi <= usize::MAX,
        is_sorted_order(keys, a, lo, hi),
        is_sorted_order(keys, b, lo, hi),
        n <= a.len(),
    ensures
        n <= b.len(),
        forall|k: int| 0 <= k < n ==> a[k] == b[k],
    decreases n,
{
    if n > 0 {
        let m = n - 1;
        lemma_prefix_agrees(keys, a, b, lo, hi, m as nat);
        let p = a[m] as int;
        assert(b.contains(p as usize));
        let at = choose|k: int| 0 <= k < b.len() && b[k] == p;
        lemma_item_order(keys, p, p, p);
        if at < m {
            assert(a[at] == b[at]);
            assert(item_precedes(keys, a[at] as int, a[m] as int));
        } else if at > m {
            let q = b[m] as int;
            assert(item_precedes(keys, q, p));
            assert(a.contains(q as usize));
            let back = choose|k: int| 0 <= k < a.len() && a[k] == q;
            lemma_item_order(keys, p, q, q);
            lemma_item_order(keys, q, q, q);
            if back < m {
                assert(a[back] == b[back]);
                assert(item_precedes(keys, b[back] as int, b[m] as int));
            } else if back > m {
                assert(item_precedes(keys, a[m] as int, a[back] as int));
            }
        }
    }
}

/// Merges two sorted orders of neighbouring ranges.
fn merge(keys: &Vec<FilePath>, left: &Vec<usize>, right: &Vec<usize>, Ghost(lo): Ghost<int>, Ghost(
    mid,
): Ghost<int>, Ghost(hi): Ghost<int>) -> (order: Vec<usize>)
    requires
        0 <= lo <= mid <= hi <= keys@.len(),
        is_sorted_order(path_views(keys@), left@, lo, mid),
        is_sorted_order(path_views(keys@), right@, mid, hi),
    ensures
        is_sorted_order(path_views(keys@), order@, lo, hi),
{
    let ghost views = path_views(keys@);
    let mut order: Vec<usize> = Vec::new();
    let mut i: usize = 0;
    let mut j: usize = 0;
    while i < left.len() || j < right.len()
        invariant
            0 <= lo <= mid <= hi <= keys@.len(),
            views == path_views(keys@),
            is_sorted_order(views, left@, lo, mid),
            is_sorted_order(views, right@, mid, hi),
            i <= left@.len(),
            j <= right@.len(),
            order@.len() == i + j,
            forall|k: int| 0 <= k < order@.len() ==> lo <= #[trigger] order@[k] < hi,
            forall|k: int| 0 <= k < i ==> order@.contains(#[trigger] left@[k]),
            forall|k: int| 0 <= k < j ==> order@.contains(#[trigger] right@[k]),
            forall|a: int, b: int|
                0 <= a < b < order@.len() ==> item_precedes(
                    views,
                    #[trigger] order@[a] as int,
                    #[trigger] order@[b] as int,
                ),
            forall|a: int, k: int|
                0 <= a < order@.len() && i <= k < left@.len() ==> item_precedes(
                    views,
                    #[trigger] order@[a] as int,
                    #[trigger] left@[k] as int,
                ),
            forall|a: int, k: int|
                0 <= a < order@.len() && j <= k < right@.len() ==> item_precedes(
                    views,
                    #[trigger] order@[a] as int,
                    #[trigger] right@[k] as int,
                ),
        decreases left@.len() - i + right@.len() - j,
    {
        let take_left = if i == left.len() {
            false
        } else if j == right.len() {
            true
        } else {
            !keys[right[j]].precedes(&keys[left[i]])
        };
        let ghost before = order@;
        if take_left {
            order.push(left[i]);
            proof {
                let p = left@[i as int] as int;
                assert forall|k: int| j <= k < right@.len() implies item_precedes(
                    views,
                    p,
                    #[trigger] right@[k] as int,
                ) by {
                    let first = right@[j as int] as int;
                    lemma_item_order(views, p, first, right@[k] as int);
                    lemma_path_order_total(views[p], views[first]);
                    assert(item_precedes(views, p, first));
                }
                assert(order@.last() == p);
            }
            i += 1;
        } else {
            order.push(right[j]);
            proof {
                let p = right@[j as int] as int;
                assert forall|k: int| i <= k < left@.len() implies item_precedes(
                    views,
                    p,
                    #[trigger] left@[k] as int,
                ) by {
                    let first = left@[i as int] as int;
                    lemma_item_order(views, p, first, left@[k] as int);
                    assert(item_precedes(views, p, first));
                }
                assert(order@.last() == p);
            }
            j += 1;
        }
        proof {
            assert forall|x: usize| before.contains(x) implies order@.contains(x) by {
                let k = choose|k: int| 0 <= k < before.len() && before[k] == x;
                assert(order@[k] == x);
            }
        }
    }
    proof {
        assert forall|p: int| lo <= p < hi implies #[trigger] order@.contains(p as usize) by {
            if p < mid {
                assert(left@.contains(p as usize));
            } else {
                assert(right@.contains(p as usize));
            }
        }
    }
    order
}

/// The positions from `lo` up to `hi` in the order of their paths.
fn sort_range(keys: &Vec<FilePath>, lo: usize, hi: usize) -> (order: Vec<usize>)
    requires
        lo <= hi <= keys@.len(),
    ensures
        is_sorted_order(path_views(keys@), order@, lo as int, hi as int),
    decreases hi - lo,
{
    let mut order: Vec<usize> = Vec::new();
    if hi - lo == 0 {
        return order;
    }
    if hi - lo == 1 {
        order.push(lo);
        assert(order@[0] == lo);
        return order;
    }
    let mid: usize = lo + (hi - lo) / 2;
    let left = sort_range(keys, lo, mid);
    let right = sort_range(keys, mid, hi);
    merge(keys, &left, &right, Ghost(lo as int), Ghost(mid as int), Ghost(hi as int))
}

/// The positions of `keys` in the order of the paths there. Equal paths keep their order.
pub fn sorted_order(keys: &Vec<FilePath>) -> (order: Vec<usize>)
    ensures
        is_sorted_order(path_views(keys@), order@, 0, keys@.len() as int),
        order@.len() == keys@.len(),
        forall|k: int| 0 <= k < order@.len() ==> #[trigger] order@[k] < keys@.len(),
        order@.no_duplicates(),
        forall|a: int, b: int|
            0 <= a < b < order@.len() ==> !path_precedes(
                keys@[(#[trigger] order@[b]) as int]@,
                keys@[(#[trigger] order@[a]) as int]@,
            ),
        forall|a: int, b: int|
            0 <= a < b < order@.len() && keys@[(#[trigger] order@[a]) as int]@ == keys@[(
            #[trigger] order@[b]) as int]@ ==> order@[a] < order@[b],
{
    let order = sort_range(keys, 0, keys.len());
    proof {
        let views = path_views(keys@);
        assert forall|a: int, b: int| 0 <= a < b < order@.len() implies {
            &&& !path_precedes(
                keys@[(#[trigger] order@[b]) as int]@,
                keys@[(#[trigger] order@[a]) as int]@,
            )
            &&& order@[a] != order@[b]
            &&& keys@[order@[a] as int]@ == keys@[order@[b] as int]@ ==> order@[a] < order@[b]
        } by {
            let i = order@[a] as int;
            let j = order@[b] as int;
            assert(item_precedes(views, i, j));
            lemma_path_order_total(views[i], views[j]);
            lemma_item_order(views, i, j, i);
        }
    }
    order
}

} // verus!
