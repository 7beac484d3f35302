//! Basic run-length encoding: every run of identical bytes becomes a
//! `(byte, count)` pair, with runs longer than 255 split into several pairs.
use vstd::prelude::*;
use crate::runs::{repeat, run_len, lemma_run_len_bounds, lemma_run_len_exact, leading_run};

verus! {

/// The basic encoding of `s`: the run at the front (at most 255 bytes long)
/// as a `(byte, count)` pair, followed by the encoding of the rest.
pub open spec fn rle_encode_spec(s: Seq<u8>) -> Seq<u8>
    decreases s.len(),
{
    if s.len() == 0 {
        seq![]
    } else {
        let c = run_len(s, s[0], 255);
        proof {
            lemma_run_len_bounds(s, s[0], 255);
        }
        seq![s[0], c as u8] + rle_encode_spec(s.skip(c as int))
    }
}

/// What the decoder makes of `e`: each complete `(byte, count)` pair expands
/// to `count` copies of `byte`; a trailing odd byte is ignored.
pub open spec fn rle_decode_spec(e: Seq<u8>) -> Seq<u8>
    decreases e.len(),
{
    if e.len() < 2 {
        seq![]
    } else {
        repeat(e[0], e[1] as nat) + rle_decode_spec(e.skip(2))
    }
}

/// `n` pairs `(b, 1)`.
pub open spec fn unit_pairs(b: u8, n: nat) -> Seq<u8> {
    Seq::new(2 * n, |i: int| if i % 2 == 0 { b } else { 1u8 })
}

/// The thresholded encoding of `s`: only runs (cut at 255 bytes) longer than
/// `min_run` become one pair; the others become one `(byte, 1)` pair per byte.
pub open spec fn rle_encode_threshold_spec(s: Seq<u8>, min_run: u8) -> Seq<u8>
    decreases s.len(),
{
    if s.len() == 0 {
        seq![]
    } else {
        let c = run_len(s, s[0], 255);
        proof {
            lemma_run_len_bounds(s, s[0], 255);
        }
        let head = if c > min_run {
            seq![s[0], c as u8]
        } else {
            unit_pairs(s[0], c)
        };
        head + rle_encode_threshold_spec(s.skip(c as int), min_run)
    }
}

/// A sequence of `(byte, count)` pairs with every count at least 1.
pub open spec fn rle_well_formed(e: Seq<u8>) -> bool {
    &&& e.len() % 2 == 0
    &&& forall|k: int| 0 <= k < e.len() / 2 ==> #[trigger] e[2 * k + 1] >= 1
}

/// Two neighbouring pairs repeat a byte only when the first one is full (255).
pub open spec fn rle_maximal(e: Seq<u8>) -> bool {
    forall|k: int|
        0 <= k && 2 * k + 3 < e.len() && #[trigger] e[2 * k] == e[2 * k + 2] ==> e[2 * k + 1] == 255
}

/// Decoding the basic encoding gives back the original bytes.
pub proof fn lemma_rle_roundtrip(s: Seq<u8>)
    ensures
        rle_decode_spec(rle_encode_spec(s)) == s,
    decreases s.len(),
{
    if s.len() > 0 {
        let c = run_len(s, s[0], 255);
        lemma_run_len_bounds(s, s[0], 255);
        let rest = s.skip(c as int);
        lemma_rle_roundtrip(rest);
        let e = rle_encode_spec(s);
        assert(e.skip(2) =~= rle_encode_spec(rest));
        assert(e[0] == s[0] && e[1] as nat == c);
        assert(repeat(s[0], c) =~= s.take(c as int));
        assert(s.take(c as int) + rest =~= s);
    }
}

/// The basic encoding is a list of well-formed pairs, split only at full
/// (255-byte) pairs, and at most twice as long as the input.
pub proof fn lemma_rle_encode_shape(s: Seq<u8>)
    ensures
        rle_well_formed(rle_encode_spec(s)),
        rle_maximal(rle_encode_spec(s)),
        rle_encode_spec(s).len() <= 2 * s.len(),
    decreases s.len(),
{
    if s.len() > 0 {
        let c = run_len(s, s[0], 255);
        lemma_run_len_bounds(s, s[0], 255);
        let rest = s.skip(c as int);
        lemma_rle_encode_shape(rest);
        let e = rle_encode_spec(s);
        let r = rle_encode_spec(rest);
        assert(e =~= seq![s[0], c as u8] + r);
        assert forall|k: int| 0 <= k < e.len() / 2 implies #[trigger] e[2 * k + 1] >= 1 by {
            if k > 0 {
                assert(e[2 * k + 1] == r[2 * (k - 1) + 1]);
            }
        }
        assert forall|k: int|
            0 <= k && 2 * k + 3 < e.len() && #[trigger] e[2 * k] == e[2 * k + 2] implies e[2 * k
            + 1] == 255 by {
            if k == 0 {
                assert(rest.len() > 0);
                assert(r[0] == rest[0]);
                assert(rest[0] == s[c as int]);
            } else {
                assert(e[2 * k] == r[2 * (k - 1)]);
                assert(e[2 * k + 2] == r[2 * (k - 1) + 2]);
                assert(e[2 * k + 1] == r[2 * (k - 1) + 1]);
            }
        }
    }
}

/// The basic encoding is the only list of well-formed pairs that is split
/// only at full pairs and decodes to `s`.
pub proof fn lemma_rle_canonical_unique(e: Seq<u8>, s: Seq<u8>)
    requires
        rle_well_formed(e),
        rle_maximal(e),
        rle_decode_spec(e) == s,
    ensures
        e == rle_encode_spec(s),
    decreases e.len(),
{
    if e.len() == 0 {
        assert(s.len() == 0);
    } else {
        let b = e[0];
        let c = e[1];
        assert(e[2 * 0int + 1] >= 1);
        let t = e.skip(2);
        let rest = rle_decode_spec(t);
        assert(s == repeat(b, c as nat) + rest);
        assert(rle_well_formed(t)) by {
            assert forall|k: int| 0 <= k < t.len() / 2 implies #[trigger] t[2 * k + 1] >= 1 by {
                assert(t[2 * k + 1] == e[2 * (k + 1) + 1]);
            }
        }
        assert(rle_maximal(t)) by {
            assert forall|k: int|
                0 <= k && 2 * k + 3 < t.len() && #[trigger] t[2 * k] == t[2 * k + 2] implies t[2
                * k + 1] == 255 by {
                assert(t[2 * k] == e[2 * (k + 1)]);
                assert(t[2 * k + 2] == e[2 * (k + 1) + 2]);
                assert(t[2 * k + 1] == e[2 * (k + 1) + 1]);
            }
        }
        assert forall|j: int| 0 <= j < c implies s[j] == b by {
            assert(s[j] == repeat(b, c as nat)[j]);
        }
        if c < 255 && c < s.len() {
            assert(rest.len() > 0);
            assert(t.len() >= 2);
            assert(t[2 * 0int + 1] >= 1);
            assert(t[1] >= 1);
            assert(rest[0] == t[0]);
            assert(s[c as int] == rest[0]);
            assert(e[2 * 0int] == t[0] ==> e[2 * 0int + 1] == 255);
        }
        lemma_run_len_exact(s, b, 255, c as nat);
        assert(s.skip(c as int) =~= rest);
        lemma_rle_canonical_unique(t, rest);
        assert(e =~= seq![b, c] + t);
    }
}

/// A run of 1 to 255 equal bytes that is not followed by the same byte is
/// written as the single pair `[byte, n]`, and encoding goes on after it.
pub proof fn lemma_rle_encode_run(a: u8, n: nat, rest: Seq<u8>)
    requires
        1 <= n <= 255,
        rest.len() == 0 || rest[0] != a,
    ensures
        rle_encode_spec(repeat(a, n) + rest) == seq![a, n as u8] + rle_encode_spec(rest),
{
    let s = repeat(a, n) + rest;
    assert(s[0] == a);
    assert forall|j: int| 0 <= j < n implies s[j] == a by {}
    if n < 255 && n < s.len() {
        assert(s[n as int] == rest[0]);
    }
    lemma_run_len_exact(s, a, 255, n);
    assert(s.skip(n as int) =~= rest);
}

/// A run longer than 255 bytes starts with the pair `[byte, 255]`, and
/// encoding goes on with the rest of the run.
pub proof fn lemma_rle_encode_long_run(a: u8, n: nat, rest: Seq<u8>)
    requires
        n > 255,
    ensures
        rle_encode_spec(repeat(a, n) + rest) == seq![a, 255u8] + rle_encode_spec(
            repeat(a, (n - 255) as nat) + rest,
        ),
{
    let s = repeat(a, n) + rest;
    assert(s[0] == a);
    assert forall|j: int| 0 <= j < 255 implies s[j] == a by {}
    lemma_run_len_exact(s, a, 255, 255);
    assert(s.skip(255) =~= repeat(a, (n - 255) as nat) + rest);
}

/// A pair `[b, c]` decodes to `c` copies of `b`, and decoding goes on after it.
pub proof fn lemma_rle_decode_pair(b: u8, c: u8, rest: Seq<u8>)
    ensures
        rle_decode_spec(seq![b, c] + rest) == repeat(b, c as nat) + rle_decode_spec(rest),
{
    let e = seq![b, c] + rest;
    assert(e[0] == b && e[1] == c);
    assert(e.skip(2) =~= rest);
}

/// Fewer than two bytes decode to nothing.
pub proof fn lemma_rle_decode_short(e: Seq<u8>)
    requires
        e.len() < 2,
    ensures
        rle_decode_spec(e).len() == 0,
{
}

/// With a threshold, a run of 1 to 255 equal bytes that is not followed by the
/// same byte is one pair `[byte, n]` when it is longer than the threshold, and
/// `n` pairs `[byte, 1]` otherwise.
pub proof fn lemma_rle_threshold_run(a: u8, n: nat, rest: Seq<u8>, min_run: u8)
    requires
        1 <= n <= 255,
        rest.len() == 0 || rest[0] != a,
    ensures
        n > min_run ==> rle_encode_threshold_spec(repeat(a, n) + rest, min_run) == seq![
            a,
            n as u8,
        ] + rle_encode_threshold_spec(rest, min_run),
        n <= min_run ==> rle_encode_threshold_spec(repeat(a, n) + rest, min_run) == Seq::new(
            2 * n,
            |i: int|
                if i % 2 == 0 {
                    a
                } else {
                    1u8
                },
        ) + rle_encode_threshold_spec(rest, min_run),
{
    let s = repeat(a, n) + rest;
    assert(s[0] == a);
    assert forall|j: int| 0 <= j < n implies s[j] == a by {}
    if n < 255 && n < s.len() {
        assert(s[n as int] == rest[0]);
    }
    lemma_run_len_exact(s, a, 255, n);
    assert(s.skip(n as int) =~= rest);
}

/// Worst case: when no byte equals the byte after it, every byte becomes its
/// own pair and the encoding is exactly twice as long as the input.
pub proof fn lemma_rle_no_repeats(s: Seq<u8>)
    requires
        forall|i: int| 0 <= i < s.len() - 1 ==> #[trigger] s[i] != s[i + 1],
    ensures
        rle_encode_spec(s).len() == 2 * s.len(),
    decreases s.len(),
{
    if s.len() > 0 {
        lemma_run_len_bounds(s, s[0], 255);
        let c = run_len(s, s[0], 255);
        if c > 1 {
            assert(s[1] == s[0]);
            assert(s[0int] != s[0int + 1]);
        }
        let rest = s.skip(1);
        assert forall|i: int| 0 <= i < rest.len() - 1 implies #[trigger] rest[i] != rest[i + 1] by {
            assert(rest[i] == s[i + 1] && rest[i + 1] == s[i + 2]);
        }
        lemma_rle_no_repeats(rest);
    }
}

/// Decoding `n` pairs `(b, 1)` followed by `r` gives `n` copies of `b`
/// followed by the decoding of `r`.
proof fn lemma_decode_unit_pairs(b: u8, n: nat, r: Seq<u8>)
    ensures
        rle_decode_spec(unit_pairs(b, n) + r) == repeat(b, n) + rle_decode_spec(r),
    decreases n,
{
    if n > 0 {
        let e = unit_pairs(b, n) + r;
        assert(e.skip(2) =~= unit_pairs(b, (n - 1) as nat) + r);
        lemma_decode_unit_pairs(b, (n - 1) as nat, r);
        assert(e[0] == b && e[1] == 1);
        assert(repeat(b, 1) + (repeat(b, (n - 1) as nat) + rle_decode_spec(r)) =~= repeat(b, n)
            + rle_decode_spec(r));
    } else {
        assert(unit_pairs(b, 0) + r =~= r);
        assert(repeat(b, 0) + rle_decode_spec(r) =~= rle_decode_spec(r));
    }
}

/// Decoding the thresholded encoding also gives back the original bytes.
pub proof fn lemma_rle_threshold_roundtrip(s: Seq<u8>, min_run: u8)
    ensures
        rle_decode_spec(rle_encode_threshold_spec(s, min_run)) == s,
    decreases s.len(),
{
    if s.len() > 0 {
        let c = run_len(s, s[0], 255);
        lemma_run_len_bounds(s, s[0], 255);
        let rest = s.skip(c as int);
        lemma_rle_threshold_roundtrip(rest, min_run);
        let tail = rle_encode_threshold_spec(rest, min_run);
        let e = rle_encode_threshold_spec(s, min_run);
        assert(repeat(s[0], c) =~= s.take(c as int));
        assert(s.take(c as int) + rest =~= s);
        if c > min_run {
            assert(e.skip(2) =~= tail);
            assert(e[0] == s[0] && e[1] as nat == c);
        } else {
            assert(e == unit_pairs(s[0], c) + tail);
            lemma_decode_unit_pairs(s[0], c, tail);
        }
    }
}

/// With a threshold of at most 1 every run becomes one pair (a one-byte run
/// spelled out is the pair `(byte, 1)` too), so the thresholded encoding is
/// the basic encoding.
pub proof fn lemma_rle_threshold_at_most_one(s: Seq<u8>, min_run: u8)
    requires
        min_run <= 1,
    ensures
        rle_encode_threshold_spec(s, min_run) == rle_encode_spec(s),
    decreases s.len(),
{
    if s.len() > 0 {
        let c = run_len(s, s[0], 255);
        lemma_run_len_bounds(s, s[0], 255);
        lemma_rle_threshold_at_most_one(s.skip(c as int), min_run);
        if c <= min_run {
            assert(c == 1);
            assert(unit_pairs(s[0], c) =~= seq![s[0], c as u8]);
        }
    }
}

/// Encodes `data` as `(byte, count)` pairs, one per run of at most 255 bytes.
pub fn encode(data: &[u8]) -> (result: Vec<u8>)
    ensures
        result@ == rle_encode_spec(data@),
        rle_decode_spec(result@) == data@,
        rle_well_formed(result@),
        rle_maximal(result@),
        result@.len() <= 2 * data@.len(),
{
    let mut result: Vec<u8> = Vec::new();
    let mut i: usize = 0;
    proof {
        assert(data@.skip(0) =~= data@);
    }
    while i < data.len()
        invariant
            i <= data.len(),
            result@ + rle_encode_spec(data@.skip(i as int)) == rle_encode_spec(data@),
        decreases data.len() - i,
    {
        let current = data[i];
        let count = leading_run(data, i, 255);
        proof {
            let s = data@.skip(i as int);
            assert(s[0] == current);
            assert(s.skip(count as int) =~= data@.skip(i + count));
            assert(result@ + seq![current, count as u8] + rle_encode_spec(data@.skip(i + count))
                =~= result@ + rle_encode_spec(s));
        }
        result.push(current);
        result.push(count as u8);
        i += count;
    }
    proof {
        assert(data@.skip(i as int) =~= Seq::<u8>::empty());
        assert(result@ + Seq::<u8>::empty() =~= result@);
        lemma_rle_roundtrip(data@);
        lemma_rle_encode_shape(data@);
    }
    result
}

/// Decodes `(byte, count)` pairs back into bytes; a trailing odd byte is ignored.
pub fn decode(encoded: &[u8]) -> (result: Vec<u8>)
    ensures
        result@ == rle_decode_spec(encoded@),
{
    let mut result: Vec<u8> = Vec::new();
    let mut i: usize = 0;
    proof {
        assert(encoded@.skip(0) =~= encoded@);
        assert(Seq::<u8>::empty() + rle_decode_spec(encoded@) =~= rle_decode_spec(encoded@));
    }
    while encoded.len() - i > 1
        invariant
            i <= encoded.len(),
            result@ + rle_decode_spec(encoded@.skip(i as int)) == rle_decode_spec(encoded@),
        decreases encoded.len() - i,
    {
        let byte = encoded[i];
        let count = encoded[i + 1] as usize;
        let ghost before = result@;
        let mut k: usize = 0;
        while k < count
            invariant
                k <= count,
                result@ == before + repeat(byte, k as nat),
            decreases count - k,
        {
            result.push(byte);
            k += 1;
            proof {
                assert(result@ =~= before + repeat(byte, k as nat));
            }
        }
        proof {
            let s = encoded@.skip(i as int);
            assert(s[0] == byte && s[1] == encoded@[i + 1]);
            assert(s.skip(2) =~= encoded@.skip(i + 2));
            assert(before + rle_decode_spec(s) =~= result@ + rle_decode_spec(encoded@.skip(i + 2)));
        }
        i += 2;
    }
    proof {
        assert(result@ + Seq::<u8>::empty() =~= result@);
    }
    result
}

/// Encodes `data` as `(byte, count)` pairs, keeping only runs longer than
/// `min_run` as one pair and spelling the others out as `(byte, 1)` pairs.
pub fn encode_with_threshold(data: &[u8], min_run: u8) -> (result: Vec<u8>)
    ensures
        result@ == rle_encode_threshold_spec(data@, min_run),
        rle_decode_spec(result@) == data@,
{
    let mut result: Vec<u8> = Vec::new();
    let mut i: usize = 0;
    proof {
        assert(data@.skip(0) =~= data@);
    }
    while i < data.len()
        invariant
            i <= data.len(),
            result@ + rle_encode_threshold_spec(data@.skip(i as int), min_run)
                == rle_encode_threshold_spec(data@, min_run),
        decreases data.len() - i,
    {
        let current = data[i];
        let count = leading_run(data, i, 255);
        let ghost before = result@;
        if count > min_run as usize {
            result.push(current);
            result.push(count as u8);
            proof {
                assert(result@ =~= before + seq![current, count as u8]);
            }
        } else {
            let mut k: usize = 0;
            while k < count
                invariant
                    k <= count,
                    result@ == before + unit_pairs(current, k as nat),
                decreases count - k,
            {
                result.push(current);
                result.push(1);
                k += 1;
                proof {
                    assert(result@ =~= before + unit_pairs(current, k as nat));
                }
            }
        }
        proof {
            let s = data@.skip(i as int);
            assert(s[0] == current);
            assert(s.skip(count as int) =~= data@.skip(i + count));
            let head = if count > min_run {
                seq![current, count as u8]
            } else {
                unit_pairs(current, count as nat)
            };
            assert(result@ == before + head);
            assert(before + (head + rle_encode_threshold_spec(data@.skip(i + count), min_run))
                =~= result@ + rle_encode_threshold_spec(data@.skip(i + count), min_run));
        }
        i += count;
    }
    proof {
        assert(data@.skip(i as int) =~= Seq::<u8>::empty());
        assert(result@ + Seq::<u8>::empty() =~= result@);
        lemma_rle_threshold_roundtrip(data@, min_run);
    }
    result
}

} // verus!
