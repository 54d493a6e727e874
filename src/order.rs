//! Stable ordering of indices by an integer key.
use vstd::prelude::*;

verus! {

/// `a` comes before `b` when sorted by key, ties kept in index order.
pub open spec fn key_less(keys: Seq<i64>, a: int, b: int) -> bool {
    keys[a] < keys[b] || (keys[a] == keys[b] && a < b)
}

/// `order` lists every index of `keys` once, stably sorted by key.
pub open spec fn is_key_order(keys: Seq<i64>, order: Seq<usize>) -> bool {
    &&& order.len() == keys.len()
    &&& forall|a: int| 0 <= a < order.len() ==> order[a] < keys.len()
    &&& forall|a: int, b: int|
        0 <= a < b < order.len() ==> key_less(keys, order[a] as int, order[b] as int)
    &&& forall|i: int| 0 <= i < keys.len() ==> #[trigger] occurs(order, i)
}

/// `i` stands somewhere in `order`.
pub open spec fn occurs(order: Seq<usize>, i: int) -> bool {
    exists|a: int| 0 <= a < order.len() && order[a] == i
}

/// `v` lists every index of `[lo, hi)` once, stably sorted by key.
pub open spec fn sorted_range(keys: Seq<i64>, v: Seq<usize>, lo: int, hi: int) -> bool {
    &&& forall|a: int| 0 <= a < v.len() ==> lo <= #[trigger] v[a] < hi
    &&& forall|a: int, b: int| 0 <= a < b < v.len() ==> key_less(keys, v[a] as int, v[b] as int)
    &&& forall|x: int| lo <= x < hi ==> #[trigger] occurs(v, x)
}

/// The indices of `keys` in stable key order.
pub fn stable_order(keys: &Vec<i64>) -> (order: Vec<usize>)
    ensures
        is_key_order(keys@, order@),
{
    let order = sort_range(keys, 0, keys.len());
    proof {
        lemma_sorted_len(keys@, order@, 0, keys.len() as int);
    }
    order
}

/// A sorted list of distinct indices of `[lo, hi)` that holds them all has
/// `hi - lo` entries.
proof fn lemma_sorted_len(keys: Seq<i64>, v: Seq<usize>, lo: int, hi: int)
    requires
        lo <= hi,
        sorted_range(keys, v, lo, hi),
    ensures
        v.len() == hi - lo,
{
    let w = v.map_values(|x: usize| x as int);
    assert forall|a: int, b: int| 0 <= a < w.len() && 0 <= b < w.len() && a != b implies w[a] != w[b] by {
        if a < b {
            assert(key_less(keys, v[a] as int, v[b] as int));
        } else {
            assert(key_less(keys, v[b] as int, v[a] as int));
        }
    }
    assert(w.no_duplicates());
    w.unique_seq_to_set();
    assert forall|x: int| #[trigger] w.to_set().contains(x) <==> vstd::set_lib::set_int_range(lo, hi).contains(x) by {
        if lo <= x < hi {
            assert(occurs(v, x));
            let a = choose|a: int| 0 <= a < v.len() && v[a] == x;
            assert(w[a] == x);
            assert(w.contains(x));
        }
        if w.to_set().contains(x) {
            assert(w.contains(x));
            let a = choose|a: int| 0 <= a < w.len() && w[a] == x;
            assert(lo <= v[a] < hi);
        }
    }
    assert(w.to_set() =~= vstd::set_lib::set_int_range(lo, hi));
    vstd::set_lib::lemma_int_range(lo, hi);
}

/// The indices of `[lo, hi)` stably sorted by key, by merging halves.
fn sort_range(keys: &Vec<i64>, lo: usize, hi: usize) -> (v: Vec<usize>)
    requires
        lo <= hi <= keys.len(),
    ensures
        sorted_range(keys@, v@, lo as int, hi as int),
    decreases hi - lo,
{
    if hi - lo <= 1 {
        let mut v: Vec<usize> = Vec::new();
        if hi - lo == 1 {
            v.push(lo);
            assert(v@[0] == lo);
            assert(occurs(v@, lo as int));
        }
        return v;
    }
    let mid = lo + (hi - lo) / 2;
    let a = sort_range(keys, lo, mid);
    let b = sort_range(keys, mid, hi);
    merge(keys, &a, &b, lo, mid, hi)
}

/// Merges two sorted lists of the indices of `[lo, mid)` and `[mid, hi)`.
fn merge(keys: &Vec<i64>, a: &Vec<usize>, b: &Vec<usize>, lo: usize, mid: usize, hi: usize) -> (v: Vec<usize>)
    requires
        lo <= mid <= hi <= keys.len(),
        sorted_range(keys@, a@, lo as int, mid as int),
        sorted_range(keys@, b@, mid as int, hi as int),
    ensures
        sorted_range(keys@, v@, lo as int, hi as int),
{
    let mut v: Vec<usize> = Vec::new();
    let mut i: usize = 0;
    let mut j: usize = 0;
    while i < a.len() || j < b.len()
        invariant
            lo <= mid <= hi <= keys.len(),
            sorted_range(keys@, a@, lo as int, mid as int),
            sorted_range(keys@, b@, mid as int, hi as int),
            i <= a.len(),
            j <= b.len(),
            forall|k: int| 0 <= k < v.len() ==> lo <= #[trigger] v[k] < hi,
            forall|k: int, l: int| 0 <= k < l < v.len() ==> key_less(keys@, v[k] as int, v[l] as int),
            forall|k: int| 0 <= k < v.len() && i < a.len() ==> key_less(keys@, #[trigger] v[k] as int, a[i as int] as int),
            forall|k: int| 0 <= k < v.len() && j < b.len() ==> key_less(keys@, #[trigger] v[k] as int, b[j as int] as int),
            forall|p: int| 0 <= p < i ==> #[trigger] occurs(v@, a[p] as int),
            forall|q: int| 0 <= q < j ==> #[trigger] occurs(v@, b[q] as int),
        decreases a.len() + b.len() - i - j,
    {
        let take_a = j >= b.len() || (i < a.len() && keys[a[i]] <= keys[b[j]]);
        let x = if take_a { a[i] } else { b[j] };
        proof {
            if take_a && j < b.len() {
                assert(a[i as int] < mid <= b[j as int]);
            }
            if !take_a && i < a.len() {
                assert(a[i as int] < mid <= b[j as int]);
            }
        }
        let ghost old_v = v@;
        v.push(x);
        proof {
            assert forall|p: int| 0 <= p < (if take_a { i + 1 } else { i as int }) implies #[trigger] occurs(
                v@,
                a[p] as int,
            ) by {
                if take_a && p == i {
                    assert(v@[old_v.len() as int] == a[p]);
                } else {
                    assert(occurs(old_v, a[p] as int));
                    let k = choose|k: int| 0 <= k < old_v.len() && old_v[k] == a[p];
                    assert(v@[k] == old_v[k]);
                }
            }
            assert forall|q: int| 0 <= q < (if take_a { j as int } else { j + 1 }) implies #[trigger] occurs(
                v@,
                b[q] as int,
            ) by {
                if !take_a && q == j {
                    assert(v@[old_v.len() as int] == b[q]);
                } else {
                    assert(occurs(old_v, b[q] as int));
                    let k = choose|k: int| 0 <= k < old_v.len() && old_v[k] == b[q];
                    assert(v@[k] == old_v[k]);
                }
            }
            if take_a && i + 1 < a.len() {
                assert(key_less(keys@, a[i as int] as int, a[i + 1] as int));
            }
            if !take_a && j + 1 < b.len() {
                assert(key_less(keys@, b[j as int] as int, b[j + 1] as int));
            }
        }
        if take_a {
            i += 1;
        } else {
            j += 1;
        }
    }
    proof {
        assert forall|x: int| lo <= x < hi implies #[trigger] occurs(v@, x) by {
            if x < mid {
                assert(occurs(a@, x));
                let p = choose|p: int| 0 <= p < a.len() && a[p] == x;
                assert(occurs(v@, a[p] as int));
            } else {
                assert(occurs(b@, x));
                let q = choose|q: int| 0 <= q < b.len() && b[q] == x;
                assert(occurs(v@, b[q] as int));
            }
        }
    }
    v
}

} // verus!
