//! Byte frequencies, from which the entropy of a region is computed.

use vstd::prelude::*;

verus! {

/// How many bytes of `data` equal `v`.
pub open spec fn count_of(data: Seq<u8>, v: u8) -> nat
    decreases data.len(),
{
    if data.len() == 0 {
        0
    } else {
        count_of(data.drop_last(), v) + if data.last() == v { 1nat } else { 0nat }
    }
}

/// The counts of the byte values below `m`, added up.
pub open spec fn counts_below(data: Seq<u8>, m: int) -> int
    decreases m,
{
    if m <= 0 {
        0
    } else {
        counts_below(data, m - 1) + count_of(data, (m - 1) as u8)
    }
}

proof fn lemma_counts_below_push(data: Seq<u8>, b: u8, m: int)
    requires
        0 <= m <= 256,
    ensures
        counts_below(data.push(b), m) == counts_below(data, m) + if (b as int) < m { 1int } else { 0int },
    decreases m,
{
    assert(data.push(b).drop_last() =~= data);
    if m > 0 {
        lemma_counts_below_push(data, b, m - 1);
        assert(((m - 1) as u8) as int == m - 1);
    }
}

proof fn lemma_counts_below_empty(m: int)
    ensures
        counts_below(Seq::<u8>::empty(), m) == 0,
    decreases m,
{
    if m > 0 {
        lemma_counts_below_empty(m - 1);
    }
}

/// Every byte is counted once: the counts of the 256 byte values add up to
/// the number of bytes.
pub proof fn law_histogram_counts_every_byte(data: Seq<u8>)
    ensures
        counts_below(data, 256) == data.len(),
    decreases data.len(),
{
    if data.len() == 0 {
        lemma_counts_below_empty(256);
        assert(data =~= Seq::<u8>::empty());
    } else {
        law_histogram_counts_every_byte(data.drop_last());
        lemma_counts_below_push(data.drop_last(), data.last(), 256);
        assert(data.drop_last().push(data.last()) =~= data);
    }
}

/// The number of occurrences of each byte value in `data`.
pub fn byte_histogram(data: &[u8]) -> (r: Vec<usize>)
    ensures
        r@.len() == 256,
        forall|v: u8| #[trigger] r@[v as int] == count_of(data@, v),
{
    let mut counts: Vec<usize> = Vec::new();
    let mut v: usize = 0;
    while v < 256
        invariant
            v <= 256,
            counts@.len() == v,
            forall|x: int| 0 <= x < v ==> #[trigger] counts@[x] == 0,
        decreases 256 - v,
    {
        counts.push(0);
        v = v + 1;
    }
    assert forall|x: u8| #[trigger] counts@[x as int] == count_of(data@.take(0), x) by {
        assert(data@.take(0).len() == 0);
    }
    let mut i: usize = 0;
    while i < data.len()
        invariant
            i <= data@.len(),
            counts@.len() == 256,
            forall|x: u8| #[trigger] counts@[x as int] == count_of(data@.take(i as int), x),
            forall|x: u8| #[trigger] count_of(data@.take(i as int), x) <= i,
        decreases data@.len() - i,
    {
        let b = data[i];
        let ghost pre = data@.take(i as int);
        let ghost next = data@.take(i + 1);
        assert(next.drop_last() =~= pre);
        assert(next.last() == b);
        let c = counts[b as usize];
        counts.set(b as usize, c + 1);
        i = i + 1;
        assert forall|x: u8| #[trigger] counts@[x as int] == count_of(data@.take(i as int), x) by {
            if x != b {
                assert(counts@[x as int] == count_of(pre, x));
            }
        }
        assert forall|x: u8| #[trigger] count_of(data@.take(i as int), x) <= i by {
            assert(count_of(pre, x) <= i - 1);
        }
    }
    assert(data@.take(data@.len() as int) =~= data@);
    counts
}

} // verus!
