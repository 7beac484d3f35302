//! Compression statistics over sizes and byte distributions.
use vstd::prelude::*;

verus! {

/// Worst-case size of the basic run-length encoding: every byte becomes a
/// `(byte, count)` pair, so the encoding is twice as long as the input.
pub fn worst_case_expansion(original_len: usize) -> (r: usize)
    requires
        original_len * 2 <= usize::MAX,
    ensures
        r == original_len * 2,
{
    original_len * 2
}

/// Number of occurrences of `b` in `s`.
pub open spec fn occurrences(s: Seq<u8>, b: u8) -> nat
    decreases s.len(),
{
    if s.len() == 0 {
        0
    } else {
        occurrences(s.drop_last(), b) + if s.last() == b {
            1nat
        } else {
            0nat
        }
    }
}

/// Occurrences of the byte values below `k` in `s`, added up.
pub open spec fn occurrences_below(s: Seq<u8>, k: nat) -> nat
    decreases k,
{
    if k == 0 {
        0
    } else {
        occurrences_below(s, (k - 1) as nat) + occurrences(s, (k - 1) as u8)
    }
}

/// The occurrences of `b` are the bytes of `s` equal to `b`.
pub proof fn lemma_occurrences_are_matches(s: Seq<u8>, b: u8)
    ensures
        occurrences(s, b) == s.filter(|x: u8| x == b).len(),
    decreases s.len(),
{
    reveal(Seq::filter);
    if s.len() > 0 {
        lemma_occurrences_are_matches(s.drop_last(), b);
    }
}

/// Appending `c` adds one occurrence below `k` when `c < k`.
proof fn lemma_occurrences_below_push(s: Seq<u8>, c: u8, k: nat)
    requires
        k <= 256,
    ensures
        occurrences_below(s.push(c), k) == occurrences_below(s, k) + if c < k {
            1nat
        } else {
            0nat
        },
    decreases k,
{
    if k > 0 {
        lemma_occurrences_below_push(s, c, (k - 1) as nat);
        assert(s.push(c).drop_last() =~= s);
    }
}

/// Every byte is counted exactly once: the counts of all 256 byte values add
/// up to the length of the data.
pub proof fn lemma_occurrences_total(s: Seq<u8>)
    ensures
        occurrences_below(s, 256) == s.len(),
    decreases s.len(),
{
    if s.len() == 0 {
        lemma_occurrences_below_empty(s, 256);
    } else {
        let p = s.drop_last();
        lemma_occurrences_total(p);
        assert(p.push(s.last()) =~= s);
        lemma_occurrences_below_push(p, s.last(), 256);
    }
}

proof fn lemma_occurrences_below_empty(s: Seq<u8>, k: nat)
    requires
        s.len() == 0,
    ensures
        occurrences_below(s, k) == 0,
    decreases k,
{
    if k > 0 {
        lemma_occurrences_below_empty(s, (k - 1) as nat);
    }
}

/// The byte distribution of `data`: entry `b` holds how often the byte `b` occurs.
pub fn byte_counts(data: &[u8]) -> (counts: Vec<usize>)
    ensures
        counts@.len() == 256,
        forall|b: u8| #[trigger] counts@[b as int] == occurrences(data@, b),
{
    let mut counts: Vec<usize> = Vec::new();
    let mut k: usize = 0;
    while k < 256
        invariant
            k <= 256,
            counts@.len() == k,
            forall|x: int| 0 <= x < k ==> #[trigger] counts@[x] == 0,
        decreases 256 - k,
    {
        counts.push(0);
        k += 1;
    }
    let mut j: usize = 0;
    proof {
        assert forall|b: u8| #[trigger] counts@[b as int] == occurrences(data@.take(0), b) by {
            assert(data@.take(0).len() == 0);
        }
    }
    while j < data.len()
        invariant
            j <= data.len(),
            counts@.len() == 256,
            forall|b: u8| #[trigger] counts@[b as int] == occurrences(data@.take(j as int), b),
            forall|b: u8| #[trigger] counts@[b as int] <= j,
        decreases data.len() - j,
    {
        let byte = data[j];
        let idx = byte as usize;
        let c = counts[idx];
        let ghost before = counts@;
        proof {
            assert(c == before[byte as int]);
            assert(c <= j);
        }
        counts.set(idx, c + 1);
        proof {
            let t = data@.take(j + 1);
            assert(t.drop_last() =~= data@.take(j as int));
            assert forall|b: u8| #[trigger] counts@[b as int] == occurrences(t, b) by {
                if b != byte {
                    assert(counts@[b as int] == before[b as int]);
                }
            }
        }
        j += 1;
    }
    proof {
        assert(data@.take(data.len() as int) =~= data@);
    }
    counts
}

} // verus!
