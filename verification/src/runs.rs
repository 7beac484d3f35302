//! Runs of identical bytes: the building block shared by every encoder.
use vstd::prelude::*;

verus! {

/// `n` copies of the byte `b`.
pub open spec fn repeat(b: u8, n: nat) -> Seq<u8> {
    Seq::new(n, |_i: int| b)
}

/// Length of the run of `b` at the front of `s`, counting at most `cap` bytes.
pub open spec fn run_len(s: Seq<u8>, b: u8, cap: nat) -> nat
    decreases cap,
{
    if cap == 0 || s.len() == 0 || s[0] != b {
        0
    } else {
        1 + run_len(s.drop_first(), b, (cap - 1) as nat)
    }
}

/// The run length is the longest prefix of `b`s, cut off at `cap`.
pub proof fn lemma_run_len_bounds(s: Seq<u8>, b: u8, cap: nat)
    ensures
        run_len(s, b, cap) <= cap,
        run_len(s, b, cap) <= s.len(),
        forall|j: int| 0 <= j < run_len(s, b, cap) ==> s[j] == b,
        run_len(s, b, cap) < cap && run_len(s, b, cap) < s.len() ==> s[run_len(s, b, cap) as int]
            != b,
        cap > 0 && s.len() > 0 && s[0] == b ==> run_len(s, b, cap) >= 1,
    decreases cap,
{
    if cap == 0 || s.len() == 0 || s[0] != b {
    } else {
        let t = s.drop_first();
        lemma_run_len_bounds(t, b, (cap - 1) as nat);
        let r = run_len(t, b, (cap - 1) as nat);
        assert forall|j: int| 0 <= j < r + 1 implies s[j] == b by {
            if j > 0 {
                assert(s[j] == t[j - 1]);
            }
        }
        if r + 1 < cap && r + 1 < s.len() {
            assert(s[r + 1int] == t[r as int]);
        }
    }
}

/// Any `k` with the three defining properties is the run length.
pub proof fn lemma_run_len_exact(s: Seq<u8>, b: u8, cap: nat, k: nat)
    requires
        k <= cap,
        k <= s.len(),
        forall|j: int| 0 <= j < k ==> s[j] == b,
        k < cap && k < s.len() ==> s[k as int] != b,
    ensures
        run_len(s, b, cap) == k,
    decreases cap,
{
    if k == 0 {
    } else {
        let t = s.drop_first();
        assert(s[0] == b);
        assert forall|j: int| 0 <= j < k - 1 implies t[j] == b by {
            assert(t[j] == s[j + 1]);
        }
        if k - 1 < cap - 1 && k - 1 < t.len() {
            assert(t[k - 1] == s[k as int]);
        }
        lemma_run_len_exact(t, b, (cap - 1) as nat, (k - 1) as nat);
    }
}

/// Counts the run of `data[start]` that begins at `start`, up to `cap` bytes.
pub(crate) fn leading_run(data: &[u8], start: usize, cap: usize) -> (count: usize)
    requires
        start < data.len(),
        cap >= 1,
    ensures
        count == run_len(data@.skip(start as int), data@[start as int], cap as nat),
        1 <= count <= cap,
        start + count <= data.len(),
{
    let b = data[start];
    let mut count: usize = 1;
    while start + count < data.len() && data[start + count] == b && count < cap
        invariant
            1 <= count <= cap,
            start < data.len(),
            start + count <= data.len(),
            b == data@[start as int],
            forall|j: int| start <= j < start + count ==> data@[j] == b,
        decreases cap - count,
    {
        count += 1;
    }
    proof {
        let s = data@.skip(start as int);
        assert forall|j: int| 0 <= j < count implies s[j] == b by {
            assert(s[j] == data@[start + j]);
        }
        if count < cap && count < s.len() {
            assert(s[count as int] == data@[start + count]);
        }
        lemma_run_len_exact(s, b, cap as nat, count as nat);
    }
    count
}

} // verus!
