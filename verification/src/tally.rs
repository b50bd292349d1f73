//! Counting repeated strings: each distinct string once, in order of first
//! appearance, with the number of times it occurs.

use vstd::prelude::*;
use vstd::utf8::encode_utf8;

verus! {

/// `items[j]` is the first occurrence of its value.
pub open spec fn is_first(items: Seq<Seq<char>>, j: int) -> bool {
    0 <= j < items.len() && forall|i: int| 0 <= i < j ==> items[i] != items[j]
}

/// How many times `x` occurs in `items`.
pub open spec fn occurrences(items: Seq<Seq<char>>, x: Seq<char>) -> nat
    decreases items.len(),
{
    if items.len() == 0 {
        0
    } else {
        occurrences(items.drop_last(), x) + if items.last() == x { 1nat } else { 0nat }
    }
}

/// `first` lists the positions of the first occurrences in `items`, in
/// increasing order, and `counts[k]` is the number of occurrences of the
/// value at `first[k]`.
pub open spec fn tallied(items: Seq<Seq<char>>, first: Seq<usize>, counts: Seq<usize>) -> bool {
    &&& first.len() == counts.len()
    &&& forall|k: int| 0 <= k < first.len() ==> #[trigger] is_first(items, first[k] as int)
    &&& forall|k: int, l: int| 0 <= k < l < first.len() ==> first[k] < first[l]
    &&& forall|j: int| #[trigger] is_first(items, j) ==> exists|k: int| 0 <= k < first.len() && first[k] == j
    &&& forall|k: int| 0 <= k < first.len() ==> #[trigger] counts[k] == occurrences(items, items[first[k] as int])
}

/// The distinct strings of a list, with their counts.
pub struct Tally {
    /// Position of the first occurrence of each distinct string.
    pub first: Vec<usize>,
    /// Number of occurrences of each distinct string.
    pub counts: Vec<usize>,
}

pub open spec fn contents(items: Seq<String>) -> Seq<Seq<char>> {
    items.map_values(|s: String| s@)
}

/// Number of buckets of the table that finds equal strings.
pub const BUCKETS: usize = 65521;

/// The bucket of a string, from its bytes.
pub open spec fn bucket_hash(b: Seq<u8>) -> nat
    decreases b.len(),
{
    if b.len() == 0 {
        0
    } else {
        ((bucket_hash(b.drop_last()) * 31 + b.last() as nat) % (BUCKETS as nat)) as nat
    }
}

pub open spec fn bucket_of(s: Seq<char>) -> nat {
    bucket_hash(encode_utf8(s))
}

fn bucket_exec(s: &str) -> (r: usize)
    ensures
        r == bucket_of(s@),
        r < BUCKETS,
{
    let b = s.as_bytes();
    let mut h: usize = 0;
    let mut i: usize = 0;
    while i < b.len()
        invariant
            i <= b@.len(),
            b@ == encode_utf8(s@),
            h == bucket_hash(b@.take(i as int)),
            h < BUCKETS,
        decreases b@.len() - i,
    {
        assert(b@.take(i + 1).drop_last() =~= b@.take(i as int));
        h = (h * 31 + b[i] as usize) % BUCKETS;
        i = i + 1;
    }
    assert(b@.take(b@.len() as int) =~= b@);
    h
}

proof fn lemma_occurrences_push(items: Seq<Seq<char>>, y: Seq<char>, x: Seq<char>)
    ensures
        occurrences(items.push(y), x) == occurrences(items, x) + if y == x { 1nat } else { 0nat },
{
    assert(items.push(y).drop_last() =~= items);
}

proof fn lemma_no_occurrence(items: Seq<Seq<char>>, x: Seq<char>)
    requires
        forall|i: int| 0 <= i < items.len() ==> items[i] != x,
    ensures
        occurrences(items, x) == 0,
    decreases items.len(),
{
    if items.len() > 0 {
        lemma_no_occurrence(items.drop_last(), x);
    }
}

/// Every value has a first occurrence at or before any of its occurrences.
proof fn lemma_first_occurrence(items: Seq<Seq<char>>, j: int)
    requires
        0 <= j < items.len(),
    ensures
        exists|i: int| 0 <= i <= j && #[trigger] is_first(items, i) && items[i] == items[j],
    decreases j,
{
    if !is_first(items, j) {
        let i = choose|i: int| 0 <= i < j && items[i] == items[j];
        lemma_first_occurrence(items, i);
        let i0 = choose|i0: int| 0 <= i0 <= i && #[trigger] is_first(items, i0) && items[i0] == items[i];
        assert(is_first(items, i0) && items[i0] == items[j]);
    } else {
        assert(is_first(items, j));
    }
}

/// Finds the distinct strings of `items` and counts them.
pub fn tally(items: &Vec<String>) -> (r: Tally)
    ensures
        tallied(contents(items@), r.first@, r.counts@),
{
    let ghost all = contents(items@);
    let mut first: Vec<usize> = Vec::new();
    let mut counts: Vec<usize> = Vec::new();
    let mut buckets: Vec<Vec<usize>> = Vec::new();
    let mut b: usize = 0;
    while b < BUCKETS
        invariant
            b <= BUCKETS,
            buckets@.len() == b,
            forall|x: int| 0 <= x < b ==> #[trigger] buckets@[x]@.len() == 0,
        decreases BUCKETS - b,
    {
        buckets.push(Vec::new());
        b = b + 1;
    }
    let mut j: usize = 0;
    while j < items.len()
        invariant
            all == contents(items@),
            all.len() == items@.len(),
            j <= items@.len(),
            buckets@.len() == BUCKETS,
            first@.len() == counts@.len(),
            first@.len() <= j,
            forall|k: int| 0 <= k < first@.len() ==> first@[k] < j,
            forall|k: int| 0 <= k < first@.len() ==> #[trigger] is_first(all, first@[k] as int),
            forall|k: int, l: int| 0 <= k < l < first@.len() ==> first@[k] < first@[l],
            forall|i: int| 0 <= i < j && #[trigger] is_first(all, i) ==> exists|k: int| 0 <= k < first@.len() && first@[k] == i,
            forall|k: int| 0 <= k < first@.len() ==> #[trigger] counts@[k] == occurrences(all.take(j as int), all[first@[k] as int]),
            forall|x: int, t: int| 0 <= x < BUCKETS && 0 <= t < buckets@[x]@.len() ==> {
                &&& #[trigger] buckets@[x]@[t] < first@.len()
                &&& bucket_of(all[first@[buckets@[x]@[t] as int] as int]) == x
            },
            forall|k: int| 0 <= k < first@.len() ==> #[trigger] buckets@[bucket_of(all[first@[k] as int]) as int]@.contains(k as usize),
        decreases items@.len() - j,
    {
        assert(all[j as int] == items@[j as int]@);
        let h = bucket_exec(items[j].as_str());
        let mut t: usize = 0;
        let mut found: Option<usize> = None;
        while t < buckets[h].len()
            invariant
                buckets@.len() == BUCKETS,
                h < BUCKETS,
                all == contents(items@),
                j < items@.len(),
                t <= buckets@[h as int]@.len(),
                forall|x: int, u: int| 0 <= x < BUCKETS && 0 <= u < buckets@[x]@.len() ==> {
                    &&& #[trigger] buckets@[x]@[u] < first@.len()
                    &&& bucket_of(all[first@[buckets@[x]@[u] as int] as int]) == x
                },
                forall|k: int| 0 <= k < first@.len() ==> first@[k] < j,
                found is None ==> forall|u: int| 0 <= u < t ==> all[first@[#[trigger] buckets@[h as int]@[u] as int] as int] != all[j as int],
                found matches Some(k) ==> k < first@.len() && all[first@[k as int] as int] == all[j as int],
            ensures
                found is None ==> t == buckets@[h as int]@.len(),
                found is None ==> forall|u: int| 0 <= u < t ==> all[first@[#[trigger] buckets@[h as int]@[u] as int] as int] != all[j as int],
                found matches Some(k) ==> k < first@.len() && all[first@[k as int] as int] == all[j as int],
            decreases buckets@[h as int]@.len() - t,
        {
            let k = buckets[h][t];
            assert(k == buckets@[h as int]@[t as int]);
            let pos = first[k];
            assert(all[pos as int] == items@[pos as int]@);
            if items[pos] == items[j] {
                found = Some(k);
                break;
            }
            t = t + 1;
        }
        let ghost before = all.take(j as int);
        assert(all.take(j + 1) =~= before.push(all[j as int]));
        match found {
            Some(k) => {
                proof {
                    lemma_occurrences_push(before, all[j as int], all[first@[k as int] as int]);
                    assert forall|l: int| 0 <= l < first@.len() && l != k implies
                        all[first@[l] as int] != all[j as int] by {
                        if all[first@[l] as int] == all[j as int] {
                            let a = first@[l] as int;
                            let c = first@[k as int] as int;
                            assert(is_first(all, a) && is_first(all, c));
                            if a < c {
                                assert(all[a] == all[c]);
                            } else if c < a {
                                assert(all[c] == all[a]);
                            } else {
                                assert(l != k);
                            }
                        }
                    }
                    assert forall|l: int| 0 <= l < first@.len() && l != k implies
                        occurrences(all.take(j + 1), all[first@[l] as int]) == occurrences(before, all[first@[l] as int]) by {
                        lemma_occurrences_push(before, all[j as int], all[first@[l] as int]);
                    }
                    assert(!is_first(all, j as int)) by {
                        assert(all[first@[k as int] as int] == all[j as int]);
                    }
                }
                let c = counts[k];
                proof {
                    assert(counts@[k as int] == occurrences(before, all[first@[k as int] as int]));
                    assert(occurrences(before, all[j as int]) <= before.len()) by {
                        lemma_occurrences_bound(before, all[j as int]);
                    }
                }
                counts.set(k, c + 1);
                proof {
                    assert forall|i: int| 0 <= i < j + 1 && #[trigger] is_first(all, i) implies
                        exists|l: int| 0 <= l < first@.len() && first@[l] == i by {
                        if i == j {
                            assert(!is_first(all, j as int));
                        }
                    }
                }
            },
            None => {
                proof {
                    assert forall|l: int| 0 <= l < first@.len() implies all[first@[l] as int] != all[j as int] by {
                        if all[first@[l] as int] == all[j as int] {
                            let x = bucket_of(all[j as int]) as int;
                            assert(buckets@[x]@.contains(l as usize));
                            let u = choose|u: int| 0 <= u < buckets@[x]@.len() && buckets@[x]@[u] == l as usize;
                            assert(all[first@[buckets@[h as int]@[u] as int] as int] != all[j as int]);
                        }
                    }
                    assert(is_first(all, j as int)) by {
                        if !is_first(all, j as int) {
                            let i = choose|i: int| 0 <= i < j && all[i] == all[j as int];
                            lemma_first_occurrence(all, i);
                            let i0 = choose|i0: int| 0 <= i0 <= i && #[trigger] is_first(all, i0) && all[i0] == all[i];
                            let l = choose|l: int| 0 <= l < first@.len() && first@[l] == i0;
                            assert(all[first@[l] as int] == all[j as int]);
                        }
                    }
                    assert forall|i: int| 0 <= i < j implies all[i] != all[j as int] by {
                        assert(is_first(all, j as int));
                    }
                    lemma_no_occurrence(before, all[j as int]);
                    lemma_occurrences_push(before, all[j as int], all[j as int]);
                    assert forall|l: int| 0 <= l < first@.len() implies
                        occurrences(all.take(j + 1), all[first@[l] as int]) == occurrences(before, all[first@[l] as int]) by {
                        lemma_occurrences_push(before, all[j as int], all[first@[l] as int]);
                    }
                }
                let idx = first.len();
                let ghost old_first = first@;
                let ghost old_buckets = buckets@;
                first.push(j);
                counts.push(1);
                let mut bucket = Vec::new();
                std::mem::swap(&mut bucket, &mut buckets[h]);
                bucket.push(idx);
                buckets.set(h, bucket);
                proof {
                    assert(buckets@[h as int]@ == old_buckets[h as int]@.push(idx));
                    assert forall|i: int| 0 <= i < j + 1 && #[trigger] is_first(all, i) implies
                        exists|k: int| 0 <= k < first@.len() && first@[k] == i by {
                        if i < j {
                            let k = choose|k: int| 0 <= k < old_first.len() && old_first[k] == i;
                            assert(first@[k] == i);
                        } else {
                            assert(first@[idx as int] == i);
                        }
                    }
                    assert forall|k: int| 0 <= k < first@.len() implies
                        #[trigger] buckets@[bucket_of(all[first@[k] as int]) as int]@.contains(k as usize) by {
                        let x = bucket_of(all[first@[k] as int]) as int;
                        if k < old_first.len() {
                            assert(first@[k] == old_first[k]);
                            assert(old_buckets[x]@.contains(k as usize));
                            let u = choose|u: int| 0 <= u < old_buckets[x]@.len() && old_buckets[x]@[u] == k as usize;
                            if x == h as int {
                                assert(buckets@[x]@[u] == k as usize);
                            } else {
                                assert(buckets@[x] == old_buckets[x]);
                            }
                        } else {
                            assert(k == idx);
                            assert(x == h as int);
                            assert(buckets@[x]@[old_buckets[x]@.len() as int] == k as usize);
                        }
                    }
                }
            },
        }
        j = j + 1;
    }
    assert(all.take(items@.len() as int) =~= all);
    Tally { first, counts }
}

/// `first` lists exactly the first-occurrence positions of `items`, increasing.
pub open spec fn lists_firsts(items: Seq<Seq<char>>, first: Seq<usize>) -> bool {
    &&& forall|k: int| 0 <= k < first.len() ==> #[trigger] is_first(items, first[k] as int)
    &&& forall|k: int, l: int| 0 <= k < l < first.len() ==> first[k] < first[l]
    &&& forall|j: int| #[trigger] is_first(items, j) ==> exists|k: int| 0 <= k < first.len() && first[k] == j
}

pub open spec fn sum(s: Seq<usize>) -> int
    decreases s.len(),
{
    if s.len() == 0 {
        0
    } else {
        sum(s.drop_last()) + s.last()
    }
}

/// The occurrences of the values at the listed positions, added up.
pub open spec fn total(items: Seq<Seq<char>>, first: Seq<usize>) -> int
    decreases first.len(),
{
    if first.len() == 0 {
        0
    } else {
        total(items, first.drop_last()) + occurrences(items, items[first.last() as int])
    }
}

proof fn lemma_total_push_other(items: Seq<Seq<char>>, first: Seq<usize>, y: Seq<char>)
    requires
        forall|k: int| 0 <= k < first.len() ==> first[k] < items.len() && items[first[k] as int] != y,
    ensures
        total(items.push(y), first) == total(items, first),
    decreases first.len(),
{
    if first.len() > 0 {
        lemma_total_push_other(items, first.drop_last(), y);
        let v = items[first.last() as int];
        assert(items.push(y)[first.last() as int] == v);
        lemma_occurrences_push(items, y, v);
    }
}

proof fn lemma_total_push_one(items: Seq<Seq<char>>, first: Seq<usize>, y: Seq<char>, k0: int)
    requires
        0 <= k0 < first.len(),
        forall|k: int| 0 <= k < first.len() ==> first[k] < items.len(),
        forall|k: int| 0 <= k < first.len() ==> (items[first[k] as int] == y <==> k == k0),
    ensures
        total(items.push(y), first) == total(items, first) + 1,
    decreases first.len(),
{
    let v = items[first.last() as int];
    assert(items.push(y)[first.last() as int] == v);
    lemma_occurrences_push(items, y, v);
    if k0 == first.len() - 1 {
        lemma_total_push_other(items, first.drop_last(), y);
    } else {
        lemma_total_push_one(items, first.drop_last(), y, k0);
    }
}

proof fn lemma_total_is_length(items: Seq<Seq<char>>, first: Seq<usize>)
    requires
        lists_firsts(items, first),
    ensures
        total(items, first) == items.len(),
    decreases items.len(),
{
    if items.len() == 0 {
        if first.len() > 0 {
            assert(is_first(items, first[0] as int));
        }
    } else {
        let n = items.len() - 1;
        let pre = items.drop_last();
        let y = items.last();
        assert(items == pre.push(y));
        assert forall|j: int| 0 <= j < n implies (is_first(pre, j) <==> is_first(items, j)) by {
            assert forall|i: int| 0 <= i < j implies pre[i] == items[i] by {}
        }
        if is_first(items, n) {
            let l = choose|l: int| 0 <= l < first.len() && first[l] == n;
            assert(l == first.len() - 1) by {
                if l < first.len() - 1 {
                    assert(first[l] < first[first.len() - 1]);
                    assert(is_first(items, first[first.len() - 1] as int));
                }
            }
            let fp = first.drop_last();
            assert forall|k: int| 0 <= k < fp.len() implies #[trigger] is_first(pre, fp[k] as int) by {
                assert(fp[k] == first[k]);
                assert(first[k] < first[l]);
                assert(is_first(items, first[k] as int));
            }
            assert forall|j: int| #[trigger] is_first(pre, j) implies exists|k: int| 0 <= k < fp.len() && fp[k] == j by {
                assert(is_first(items, j));
                let k = choose|k: int| 0 <= k < first.len() && first[k] == j;
                assert(k != l);
                assert(fp[k] == j);
            }
            lemma_total_is_length(pre, fp);
            assert forall|k: int| 0 <= k < fp.len() implies fp[k] < pre.len() && pre[fp[k] as int] != y by {
                assert(is_first(pre, fp[k] as int));
                assert(pre[fp[k] as int] == items[fp[k] as int]);
            }
            lemma_total_push_other(pre, fp, y);
            assert(total(items, fp) == total(pre, fp));
            lemma_no_occurrence(pre, y);
            lemma_occurrences_push(pre, y, y);
        } else {
            let i = choose|i: int| 0 <= i < n && items[i] == items[n];
            lemma_first_occurrence(items, i);
            let i0 = choose|i0: int| 0 <= i0 <= i && #[trigger] is_first(items, i0) && items[i0] == items[i];
            let k0 = choose|k: int| 0 <= k < first.len() && first[k] == i0;
            assert forall|k: int| 0 <= k < first.len() implies #[trigger] is_first(pre, first[k] as int) && first[k] < n by {
                assert(is_first(items, first[k] as int));
                assert(first[k] != n);
            }
            assert forall|j: int| #[trigger] is_first(pre, j) implies exists|k: int| 0 <= k < first.len() && first[k] == j by {
                assert(is_first(items, j));
            }
            lemma_total_is_length(pre, first);
            assert forall|k: int| 0 <= k < first.len() implies (pre[first[k] as int] == y <==> k == k0) by {
                assert(is_first(items, first[k] as int));
                assert(pre[first[k] as int] == items[first[k] as int]);
                if k != k0 && pre[first[k] as int] == y {
                    let a = first[k] as int;
                    if a < i0 {
                        assert(items[a] == items[i0]);
                    } else if i0 < a {
                        assert(items[i0] == items[a]);
                    } else {
                        assert(first[k] == first[k0]);
                        if k < k0 { assert(first[k] < first[k0]); } else { assert(first[k0] < first[k]); }
                    }
                }
            }
            assert forall|k: int| 0 <= k < first.len() implies first[k] < pre.len() by {
                assert(is_first(items, first[k] as int));
                assert(first[k] != n);
            }
            lemma_total_push_one(pre, first, y, k0);
        }
    }
}

proof fn lemma_sum_counts(items: Seq<Seq<char>>, first: Seq<usize>, counts: Seq<usize>)
    requires
        first.len() == counts.len(),
        forall|k: int| 0 <= k < first.len() ==> #[trigger] counts[k] == occurrences(items, items[first[k] as int]),
    ensures
        sum(counts) == total(items, first),
    decreases first.len(),
{
    if first.len() > 0 {
        let n = first.len() - 1;
        assert forall|k: int| 0 <= k < n implies #[trigger] counts.drop_last()[k] == occurrences(items, items[first.drop_last()[k] as int]) by {
            assert(counts.drop_last()[k] == counts[k]);
            assert(first.drop_last()[k] == first[k]);
        }
        lemma_sum_counts(items, first.drop_last(), counts.drop_last());
        assert(counts[n] == occurrences(items, items[first[n] as int]));
    }
}

/// Nothing is lost or counted twice: the counts of the distinct strings add up
/// to the number of strings.
pub proof fn law_counts_add_up(items: Seq<Seq<char>>, first: Seq<usize>, counts: Seq<usize>)
    requires
        tallied(items, first, counts),
    ensures
        sum(counts) == items.len(),
{
    lemma_sum_counts(items, first, counts);
    lemma_total_is_length(items, first);
}

/// Each distinct string is listed once: the strings at the listed positions
/// differ from one another.
pub proof fn law_each_string_listed_once(items: Seq<Seq<char>>, first: Seq<usize>, counts: Seq<usize>)
    requires
        tallied(items, first, counts),
    ensures
        forall|k: int, l: int| 0 <= k < l < first.len() ==> items[first[k] as int] != items[first[l] as int],
{
    assert forall|k: int, l: int| 0 <= k < l < first.len() implies items[first[k] as int] != items[first[l] as int] by {
        assert(is_first(items, first[l] as int));
        assert(first[k] < first[l]);
    }
}

proof fn lemma_occurrences_bound(items: Seq<Seq<char>>, x: Seq<char>)
    ensures
        occurrences(items, x) <= items.len(),
    decreases items.len(),
{
    if items.len() > 0 {
        lemma_occurrences_bound(items.drop_last(), x);
    }
}

} // verus!
