//! A stable ordering of positions by whole-number keys.

use vstd::prelude::*;
use crate::config::SortOrder;

verus! {

/// Position `a` comes before position `b`: a smaller key, or an equal key and
/// an earlier position.
pub open spec fn precedes(keys: Seq<usize>, a: usize, b: usize) -> bool {
    keys[a as int] < keys[b as int] || (keys[a as int] == keys[b as int] && a < b)
}

/// Every element is a position of `keys`, each preceding the next.
pub open spec fn ordered(keys: Seq<usize>, r: Seq<usize>) -> bool {
    &&& forall|i: int| 0 <= i < r.len() ==> #[trigger] r[i] < keys.len()
    &&& forall|i: int, j: int| 0 <= i < j < r.len() ==> precedes(keys, #[trigger] r[i], #[trigger] r[j])
}

/// `r` holds the positions `lo .. hi`, each once, in `precedes` order.
pub open spec fn sorts_range(keys: Seq<usize>, r: Seq<usize>, lo: int, hi: int) -> bool {
    &&& r.len() == hi - lo
    &&& ordered(keys, r)
    &&& forall|x: usize| r.contains(x) <==> lo <= x < hi
}

fn merge(keys: &Vec<usize>, a: Vec<usize>, b: Vec<usize>) -> (r: Vec<usize>)
    requires
        ordered(keys@, a@),
        ordered(keys@, b@),
        forall|x: usize| a@.contains(x) ==> !b@.contains(x),
    ensures
        r@.len() == a@.len() + b@.len(),
        ordered(keys@, r@),
        forall|x: usize| r@.contains(x) <==> (a@.contains(x) || b@.contains(x)),
{
    let mut r: Vec<usize> = Vec::new();
    let mut i: usize = 0;
    let mut j: usize = 0;
    while i < a.len() || j < b.len()
        invariant
            ordered(keys@, a@),
            ordered(keys@, b@),
            forall|x: usize| a@.contains(x) ==> !b@.contains(x),
            i <= a@.len(),
            j <= b@.len(),
            r@.len() == i + j,
            ordered(keys@, r@),
            forall|x: usize| r@.contains(x) <==> (a@.take(i as int).contains(x) || b@.take(j as int).contains(x)),
            r@.len() > 0 && i < a@.len() ==> precedes(keys@, r@.last(), a@[i as int]),
            r@.len() > 0 && j < b@.len() ==> precedes(keys@, r@.last(), b@[j as int]),
        decreases a@.len() + b@.len() - i - j,
    {
        let ghost r0 = r@;
        let take_a = if i < a.len() && j < b.len() {
            let x = a[i];
            let y = b[j];
            assert(a@.contains(x));
            assert(x != y) by {
                assert(b@.contains(y));
            }
            keys[x] < keys[y] || (keys[x] == keys[y] && x < y)
        } else {
            i < a.len()
        };
        if take_a {
            let x = a[i];
            r.push(x);
            proof {
                assert(a@.take(i + 1) =~= a@.take(i as int).push(x));
                broadcast use vstd::seq_lib::lemma_seq_contains_after_push;
                assert forall|k: int| 0 <= k < r@.len() - 1 implies precedes(keys@, #[trigger] r@[k], x) by {
                    assert(r@[k] == r0[k]);
                    if k < r0.len() - 1 {
                        assert(precedes(keys@, r0[k], r0.last()));
                    }
                }
                if i + 1 < a@.len() {
                    assert(precedes(keys@, a@[i as int], a@[i + 1]));
                }
                if j < b@.len() {
                    let y = b@[j as int];
                    assert(a@.contains(x));
                    assert(b@.contains(y));
                }
            }
            i = i + 1;
        } else {
            let y = b[j];
            r.push(y);
            proof {
                assert(b@.take(j + 1) =~= b@.take(j as int).push(y));
                broadcast use vstd::seq_lib::lemma_seq_contains_after_push;
                assert forall|k: int| 0 <= k < r@.len() - 1 implies precedes(keys@, #[trigger] r@[k], y) by {
                    assert(r@[k] == r0[k]);
                    if k < r0.len() - 1 {
                        assert(precedes(keys@, r0[k], r0.last()));
                    }
                }
                if j + 1 < b@.len() {
                    assert(precedes(keys@, b@[j as int], b@[j + 1]));
                }
                if i < a@.len() {
                    let x = a@[i as int];
                    assert(a@.contains(x));
                    assert(b@.contains(y));
                }
            }
            j = j + 1;
        }
    }
    assert(a@.take(a@.len() as int) =~= a@);
    assert(b@.take(b@.len() as int) =~= b@);
    r
}

/// The positions `lo .. hi` of `keys` in `precedes` order.
pub fn order_range(keys: &Vec<usize>, lo: usize, hi: usize) -> (r: Vec<usize>)
    requires
        lo <= hi <= keys@.len(),
    ensures
        sorts_range(keys@, r@, lo as int, hi as int),
    decreases hi - lo,
{
    if hi - lo == 0 {
        let r: Vec<usize> = Vec::new();
        assert forall|x: usize| r@.contains(x) <==> lo <= x < hi by {
            if r@.contains(x) {
                let k = choose|k: int| 0 <= k < r@.len() && r@[k] == x;
            }
        }
        r
    } else if hi - lo == 1 {
        let mut r: Vec<usize> = Vec::new();
        r.push(lo);
        assert forall|x: usize| r@.contains(x) <==> lo <= x < hi by {
            if lo <= x < hi {
                assert(r@[0] == x);
            }
        }
        r
    } else {
        let mid = lo + (hi - lo) / 2;
        let a = order_range(keys, lo, mid);
        let b = order_range(keys, mid, hi);
        let r = merge(keys, a, b);
        r
    }
}

/// The positions of `keys` ordered by key, equal keys keeping their order
/// (what a stable sort by key gives).
pub fn order_by_key(keys: &Vec<usize>) -> (r: Vec<usize>)
    ensures
        sorts_range(keys@, r@, 0, keys@.len() as int),
{
    order_range(keys, 0, keys.len())
}

/// The positions `0 .. n` in order.
pub fn identity_order(n: usize) -> (r: Vec<usize>)
    ensures
        r@.len() == n,
        forall|i: int| 0 <= i < n ==> #[trigger] r@[i] == i,
{
    let mut r: Vec<usize> = Vec::new();
    let mut i: usize = 0;
    while i < n
        invariant
            i <= n,
            r@.len() == i,
            forall|j: int| 0 <= j < i ==> #[trigger] r@[j] == j,
        decreases n - i,
    {
        r.push(i);
        i = i + 1;
    }
    r
}

/// The output order of the distinct strings, given their byte lengths and
/// their counts: their order of first appearance when sorting is off; by
/// length or by count (stably) when sorting by those; `None` when they are
/// to be sorted by score, which the caller does.
pub fn arrange(sort: bool, by: SortOrder, lengths: &Vec<usize>, counts: &Vec<usize>) -> (r: Option<Vec<usize>>)
    requires
        lengths@.len() == counts@.len(),
    ensures
        !sort ==> (r matches Some(v) && v@.len() == lengths@.len()
            && forall|i: int| 0 <= i < v@.len() ==> #[trigger] v@[i] == i),
        sort && by == SortOrder::Length ==> (r matches Some(v) && sorts_range(lengths@, v@, 0, lengths@.len() as int)),
        sort && by == SortOrder::Count ==> (r matches Some(v) && sorts_range(counts@, v@, 0, counts@.len() as int)),
        sort && by == SortOrder::Probability ==> r is None,
{
    if !sort {
        Some(identity_order(lengths.len()))
    } else {
        match by {
            SortOrder::Length => Some(order_by_key(lengths)),
            SortOrder::Count => Some(order_by_key(counts)),
            SortOrder::Probability => None,
        }
    }
}

/// What a sorted order is, on the keys: it lists every position of `keys`
/// exactly once, the keys never decrease along it (smallest first), and
/// positions with equal keys keep their original order.
pub proof fn law_sorted_order(keys: Seq<usize>, r: Seq<usize>)
    requires
        sorts_range(keys, r, 0, keys.len() as int),
    ensures
        r.len() == keys.len(),
        forall|p: usize| p < keys.len() ==> #[trigger] r.contains(p),
        forall|i: int| 0 <= i < r.len() ==> #[trigger] r[i] < keys.len(),
        forall|i: int, j: int| 0 <= i < j < r.len() ==> {
            &&& #[trigger] r[i] != #[trigger] r[j]
            &&& keys[r[i] as int] <= keys[r[j] as int]
            &&& keys[r[i] as int] == keys[r[j] as int] ==> r[i] < r[j]
        },
{
    assert forall|i: int, j: int| 0 <= i < j < r.len() implies {
        &&& #[trigger] r[i] != #[trigger] r[j]
        &&& keys[r[i] as int] <= keys[r[j] as int]
        &&& keys[r[i] as int] == keys[r[j] as int] ==> r[i] < r[j]
    } by {
        assert(precedes(keys, r[i], r[j]));
    }
}

} // verus!
