//! PackBits (Apple variant): a header byte `h` followed by either `h + 1`
//! literal bytes (`h <= 127`) or one byte to repeat `257 - h` times
//! (`h >= 129`); the header 128 is a no-op.
use vstd::prelude::*;
use crate::runs::{repeat, run_len, lemma_run_len_bounds, lemma_run_len_exact, leading_run};

verus! {

/// Position `j` of `s` starts a repeat: the byte after it is the same.
pub open spec fn repeats_at(s: Seq<u8>, j: int) -> bool {
    0 <= j && j + 1 < s.len() && s[j + 1] == s[j]
}

/// Number of bytes at the front of `s` that form a literal block: bytes are
/// taken until one is followed by a copy of itself, at most `cap` of them.
pub open spec fn literal_len(s: Seq<u8>, cap: nat) -> nat
    decreases cap,
{
    if cap == 0 || s.len() == 0 || repeats_at(s, 0) {
        0
    } else {
        1 + literal_len(s.drop_first(), (cap - 1) as nat)
    }
}

/// The literal block is the longest prefix without a repeat start, cut at `cap`.
pub proof fn lemma_literal_len_bounds(s: Seq<u8>, cap: nat)
    ensures
        literal_len(s, cap) <= cap,
        literal_len(s, cap) <= s.len(),
        forall|j: int| 0 <= j < literal_len(s, cap) ==> !#[trigger] repeats_at(s, j),
        literal_len(s, cap) < cap && literal_len(s, cap) < s.len() ==> repeats_at(
            s,
            literal_len(s, cap) as int,
        ),
        cap > 0 && s.len() > 0 && !repeats_at(s, 0) ==> literal_len(s, cap) >= 1,
    decreases cap,
{
    if cap == 0 || s.len() == 0 || repeats_at(s, 0) {
    } else {
        let t = s.drop_first();
        lemma_literal_len_bounds(t, (cap - 1) as nat);
        let l = literal_len(t, (cap - 1) as nat);
        assert forall|j: int| 0 <= j < l + 1 implies !#[trigger] repeats_at(s, j) by {
            if j > 0 {
                assert(repeats_at(s, j) == repeats_at(t, j - 1));
            }
        }
        if l + 1 < cap && l + 1 < s.len() {
            assert(repeats_at(s, l + 1int) == repeats_at(t, l as int));
        }
    }
}

/// Any `k` with the defining properties is the literal block length.
pub proof fn lemma_literal_len_exact(s: Seq<u8>, cap: nat, k: nat)
    requires
        k <= cap,
        k <= s.len(),
        forall|j: int| 0 <= j < k ==> !#[trigger] repeats_at(s, j),
        k < cap && k < s.len() ==> repeats_at(s, k as int),
    ensures
        literal_len(s, cap) == k,
    decreases cap,
{
    if k == 0 {
    } else {
        let t = s.drop_first();
        assert(!repeats_at(s, 0));
        assert forall|j: int| 0 <= j < k - 1 implies !#[trigger] repeats_at(t, j) by {
            assert(repeats_at(t, j) == repeats_at(s, j + 1));
        }
        if k - 1 < cap - 1 && k - 1 < t.len() {
            assert(repeats_at(t, k - 1) == repeats_at(s, k as int));
        }
        lemma_literal_len_exact(t, (cap - 1) as nat, (k - 1) as nat);
    }
}

/// The PackBits encoding of `s`: a run of 2 to 128 equal bytes at the front
/// becomes `[257 - n, byte]`; otherwise the literal block at the front (at
/// most 128 bytes) becomes `[n - 1]` followed by the bytes themselves.
pub open spec fn pb_encode_spec(s: Seq<u8>) -> Seq<u8>
    decreases s.len(),
{
    if s.len() == 0 {
        seq![]
    } else {
        let r = run_len(s, s[0], 128);
        proof {
            lemma_run_len_bounds(s, s[0], 128);
        }
        if r >= 2 {
            seq![(257 - r) as u8, s[0]] + pb_encode_spec(s.skip(r as int))
        } else {
            let l = literal_len(s, 128);
            proof {
                lemma_literal_len_bounds(s, 128);
            }
            seq![(l - 1) as u8] + s.take(l as int) + pb_encode_spec(s.skip(l as int))
        }
    }
}

/// What the decoder makes of `s`. A literal header whose bytes are not all
/// there, or a repeat header with no byte after it, ends the output.
pub open spec fn pb_decode_spec(s: Seq<u8>) -> Seq<u8>
    decreases s.len(),
{
    if s.len() == 0 {
        seq![]
    } else if s[0] <= 127 {
        let c = s[0] + 1;
        if c > s.len() - 1 {
            seq![]
        } else {
            s.subrange(1, 1 + c) + pb_decode_spec(s.skip(1 + c))
        }
    } else if s[0] >= 129 {
        if s.len() < 2 {
            seq![]
        } else {
            repeat(s[1], (257 - s[0]) as nat) + pb_decode_spec(s.skip(2))
        }
    } else {
        pb_decode_spec(s.skip(1))
    }
}

/// Decoding the PackBits encoding gives back the original bytes.
pub proof fn lemma_pb_roundtrip(s: Seq<u8>)
    ensures
        pb_decode_spec(pb_encode_spec(s)) == s,
    decreases s.len(),
{
    if s.len() > 0 {
        let r = run_len(s, s[0], 128);
        lemma_run_len_bounds(s, s[0], 128);
        let e = pb_encode_spec(s);
        if r >= 2 {
            let rest = s.skip(r as int);
            lemma_pb_roundtrip(rest);
            assert(e[0] == (257 - r) as u8 && e[1] == s[0]);
            assert(e.skip(2) =~= pb_encode_spec(rest));
            assert(repeat(s[0], r) =~= s.take(r as int));
            assert(s.take(r as int) + rest =~= s);
        } else {
            let l = literal_len(s, 128);
            lemma_literal_len_bounds(s, 128);
            let rest = s.skip(l as int);
            lemma_pb_roundtrip(rest);
            assert(e[0] == (l - 1) as u8);
            assert(e.subrange(1, 1 + l as int) =~= s.take(l as int));
            assert(e.skip(1 + l as int) =~= pb_encode_spec(rest));
            assert(s.take(l as int) + rest =~= s);
        }
    }
}

/// A run of 2 to 128 equal bytes that is not followed by the same byte is
/// written as the single repeat block `[257 - n, byte]`, and encoding goes on
/// right after the run.
pub proof fn lemma_pb_encode_run(a: u8, n: nat, rest: Seq<u8>)
    requires
        2 <= n <= 128,
        rest.len() == 0 || rest[0] != a,
    ensures
        pb_encode_spec(repeat(a, n) + rest) == seq![(257 - n) as u8, a] + pb_encode_spec(rest),
{
    let s = repeat(a, n) + rest;
    assert(s[0] == a);
    assert forall|j: int| 0 <= j < n implies s[j] == a by {}
    if n < 128 && n < s.len() {
        assert(s[n as int] == rest[0]);
    }
    lemma_run_len_exact(s, a, 128, n);
    assert(s.skip(n as int) =~= rest);
}

/// A run longer than 128 bytes starts with the repeat block `[129, byte]` for
/// its first 128 bytes, and encoding goes on with the rest of the run.
pub proof fn lemma_pb_encode_long_run(a: u8, n: nat, rest: Seq<u8>)
    requires
        n > 128,
    ensures
        pb_encode_spec(repeat(a, n) + rest) == seq![129u8, a] + pb_encode_spec(
            repeat(a, (n - 128) as nat) + rest,
        ),
{
    let s = repeat(a, n) + rest;
    assert(s[0] == a);
    assert forall|j: int| 0 <= j < 128 implies s[j] == a by {}
    lemma_run_len_exact(s, a, 128, 128);
    assert(s.skip(128) =~= repeat(a, (n - 128) as nat) + rest);
}

/// Bytes `lit` (1 to 128 of them, no byte equal to the next) that end where
/// a repeat starts, where the data ends, or at 128 bytes, are written as the
/// single literal block `[len - 1] + lit`, and encoding goes on after them.
pub proof fn lemma_pb_encode_literal(lit: Seq<u8>, rest: Seq<u8>)
    requires
        1 <= lit.len() <= 128,
        forall|j: int| 0 <= j < lit.len() - 1 ==> #[trigger] lit[j] != lit[j + 1],
        rest.len() > 0 ==> rest[0] != lit.last(),
        lit.len() == 128 || rest.len() == 0 || (rest.len() >= 2 && rest[1] == rest[0]),
    ensures
        pb_encode_spec(lit + rest) == seq![(lit.len() - 1) as u8] + lit + pb_encode_spec(rest),
{
    let s = lit + rest;
    let k = lit.len();
    assert forall|j: int| 0 <= j < k implies !#[trigger] repeats_at(s, j) by {
        if j + 1 < k {
            assert(s[j] == lit[j] && s[j + 1] == lit[j + 1]);
        } else if j + 1 < s.len() {
            assert(s[j] == lit.last() && s[j + 1] == rest[0]);
        }
    }
    if k < 128 && k < s.len() {
        assert(s[k as int] == rest[0] && s[k + 1int] == rest[1]);
    }
    lemma_literal_len_exact(s, 128, k);
    assert(!repeats_at(s, 0));
    if s.len() >= 2 {
        assert(s[1] != s[0]);
    }
    lemma_run_len_exact(s, s[0], 128, 1);
    assert(s.take(k as int) =~= lit);
    assert(s.skip(k as int) =~= rest);
}

/// A literal header `h <= 127` with its `h + 1` bytes decodes to those bytes,
/// and decoding goes on after them.
pub proof fn lemma_pb_decode_literal(h: u8, lit: Seq<u8>, rest: Seq<u8>)
    requires
        h <= 127,
        lit.len() == h + 1,
    ensures
        pb_decode_spec(seq![h] + lit + rest) == lit + pb_decode_spec(rest),
{
    let e = seq![h] + lit + rest;
    assert(e[0] == h);
    assert(e.subrange(1, 1 + h + 1) =~= lit);
    assert(e.skip(1 + h + 1) =~= rest);
}

/// A repeat header `h >= 129` with its byte decodes to `257 - h` copies of
/// the byte, and decoding goes on after them.
pub proof fn lemma_pb_decode_repeat(h: u8, b: u8, rest: Seq<u8>)
    requires
        h >= 129,
    ensures
        pb_decode_spec(seq![h, b] + rest) == repeat(b, (257 - h) as nat) + pb_decode_spec(rest),
{
    let e = seq![h, b] + rest;
    assert(e[0] == h && e[1] == b);
    assert(e.skip(2) =~= rest);
}

/// The header 128 is skipped.
pub proof fn lemma_pb_decode_nop(rest: Seq<u8>)
    ensures
        pb_decode_spec(seq![128u8] + rest) == pb_decode_spec(rest),
{
    let e = seq![128u8] + rest;
    assert(e[0] == 128);
    assert(e.skip(1) =~= rest);
}

/// Decoding an encoding followed by anything gives the encoded bytes followed
/// by the decoding of the rest: encodings are complete blocks, so encoded
/// pieces can be concatenated.
pub proof fn lemma_pb_decode_after_encoding(x: Seq<u8>, more: Seq<u8>)
    ensures
        pb_decode_spec(pb_encode_spec(x) + more) == x + pb_decode_spec(more),
    decreases x.len(),
{
    if x.len() == 0 {
        assert(pb_encode_spec(x) + more =~= more);
        assert(x + pb_decode_spec(more) =~= pb_decode_spec(more));
    } else {
        let r = run_len(x, x[0], 128);
        lemma_run_len_bounds(x, x[0], 128);
        if r >= 2 {
            let rest = x.skip(r as int);
            lemma_pb_decode_after_encoding(rest, more);
            let h = (257 - r) as u8;
            assert(pb_encode_spec(x) + more =~= seq![h, x[0]] + (pb_encode_spec(rest) + more));
            lemma_pb_decode_repeat(h, x[0], pb_encode_spec(rest) + more);
            assert(repeat(x[0], r) =~= x.take(r as int));
            assert(x.take(r as int) + (rest + pb_decode_spec(more)) =~= x + pb_decode_spec(more));
        } else {
            let l = literal_len(x, 128);
            lemma_literal_len_bounds(x, 128);
            let rest = x.skip(l as int);
            lemma_pb_decode_after_encoding(rest, more);
            let h = (l - 1) as u8;
            assert(pb_encode_spec(x) + more =~= seq![h] + x.take(l as int) + (pb_encode_spec(rest)
                + more));
            lemma_pb_decode_literal(h, x.take(l as int), pb_encode_spec(rest) + more);
            assert(x.take(l as int) + (rest + pb_decode_spec(more)) =~= x + pb_decode_spec(more));
        }
    }
}

/// Encoding concatenates over pieces that end a block: decoding the
/// concatenated encodings of `x` and `y` gives `x + y`.
pub proof fn lemma_pb_decode_concat(x: Seq<u8>, y: Seq<u8>)
    ensures
        pb_decode_spec(pb_encode_spec(x) + pb_encode_spec(y)) == x + y,
{
    lemma_pb_decode_after_encoding(x, pb_encode_spec(y));
    lemma_pb_roundtrip(y);
}

/// Length of the literal block that starts at `start`, at most `cap` bytes.
fn literal_run(data: &[u8], start: usize, cap: usize) -> (n: usize)
    requires
        start <= data.len(),
    ensures
        n == literal_len(data@.skip(start as int), cap as nat),
        n <= cap,
        start + n <= data.len(),
{
    let mut n: usize = 0;
    while start + n < data.len() && n < cap && !(start + n + 1 < data.len() && data[start + n
        + 1] == data[start + n])
        invariant
            n <= cap,
            start + n <= data.len(),
            forall|j: int| 0 <= j < n ==> !#[trigger] repeats_at(data@.skip(start as int), j),
        decreases cap - n,
    {
        proof {
            let s = data@.skip(start as int);
            assert(repeats_at(s, n as int) == (start + n + 1 < data.len() && data@[start + n + 1]
                == data@[start + n]));
        }
        n += 1;
    }
    proof {
        let s = data@.skip(start as int);
        if n < cap && n < s.len() {
            assert(repeats_at(s, n as int) == (start + n + 1 < data.len() && data@[start + n + 1]
                == data@[start + n]));
        }
        lemma_literal_len_exact(s, cap as nat, n as nat);
    }
    n
}

/// Encodes `data` with PackBits.
pub fn encode(data: &[u8]) -> (result: Vec<u8>)
    ensures
        result@ == pb_encode_spec(data@),
        pb_decode_spec(result@) == data@,
{
    let mut result: Vec<u8> = Vec::new();
    let len = data.len();
    let mut i: usize = 0;
    proof {
        assert(data@.skip(0) =~= data@);
    }
    while i < len
        invariant
            len == data.len(),
            i <= len,
            result@ + pb_encode_spec(data@.skip(i as int)) == pb_encode_spec(data@),
        decreases len - i,
    {
        let ghost s = data@.skip(i as int);
        let ghost before = result@;
        let run_len = leading_run(data, i, 128);
        if run_len >= 2 {
            result.push((257 - run_len) as u8);
            result.push(data[i]);
            proof {
                assert(s[0] == data@[i as int]);
                assert(s.skip(run_len as int) =~= data@.skip(i + run_len));
                assert(before + (seq![(257 - run_len) as u8, data@[i as int]] + pb_encode_spec(
                    data@.skip(i + run_len),
                )) =~= result@ + pb_encode_spec(data@.skip(i + run_len)));
            }
            i += run_len;
        } else {
            let start = i;
            let lit_len = literal_run(data, i, 128);
            proof {
                assert(s[0] == data@[i as int]);
                assert(run_len == 1);
                lemma_run_len_bounds(s, s[0], 128);
                lemma_literal_len_bounds(s, 128);
            }
            result.push((lit_len - 1) as u8);
            let mut k: usize = 0;
            while k < lit_len
                invariant
                    k <= lit_len,
                    start + lit_len <= data.len(),
                    result@ == before + seq![(lit_len - 1) as u8] + data@.subrange(
                        start as int,
                        start + k,
                    ),
                decreases lit_len - k,
            {
                result.push(data[start + k]);
                k += 1;
                proof {
                    assert(result@ =~= before + seq![(lit_len - 1) as u8] + data@.subrange(
                        start as int,
                        start + k,
                    ));
                }
            }
            proof {
                assert(data@.subrange(start as int, start + lit_len) =~= s.take(lit_len as int));
                assert(s.skip(lit_len as int) =~= data@.skip(start + lit_len));
                assert(before + (seq![(lit_len - 1) as u8] + s.take(lit_len as int)
                    + pb_encode_spec(data@.skip(start + lit_len))) =~= result@ + pb_encode_spec(
                    data@.skip(start + lit_len),
                ));
            }
            i = start + lit_len;
        }
    }
    proof {
        assert(data@.skip(i as int) =~= Seq::<u8>::empty());
        assert(result@ + Seq::<u8>::empty() =~= result@);
        lemma_pb_roundtrip(data@);
    }
    result
}

/// Decodes PackBits data, stopping at the first block that is cut short.
pub fn decode(data: &[u8]) -> (result: Vec<u8>)
    ensures
        result@ == pb_decode_spec(data@),
{
    let mut result: Vec<u8> = Vec::new();
    let mut i: usize = 0;
    let mut cut_short = false;
    proof {
        assert(data@.skip(0) =~= data@);
        assert(Seq::<u8>::empty() + pb_decode_spec(data@) =~= pb_decode_spec(data@));
    }
    while i < data.len() && !cut_short
        invariant
            i <= data.len(),
            cut_short ==> result@ == pb_decode_spec(data@),
            !cut_short ==> result@ + pb_decode_spec(data@.skip(i as int)) == pb_decode_spec(data@),
        decreases data.len() - i + if cut_short { 0int } else { 1int },
    {
        let ghost s = data@.skip(i as int);
        let ghost before = result@;
        let header = data[i];
        i += 1;
        if header <= 127 {
            let count = header as usize + 1;
            if count > data.len() - i {
                proof {
                    assert(s[0] == header);
                    assert(pb_decode_spec(s) =~= Seq::<u8>::empty());
                    assert(result@ + Seq::<u8>::empty() =~= result@);
                }
                cut_short = true;
                continue;
            }
            let mut k: usize = 0;
            while k < count
                invariant
                    k <= count,
                    i + count <= data.len(),
                    result@ == before + data@.subrange(i as int, i + k),
                decreases count - k,
            {
                result.push(data[i + k]);
                k += 1;
                proof {
                    assert(result@ =~= before + data@.subrange(i as int, i + k));
                }
            }
            proof {
                assert(s.subrange(1, 1 + count) =~= data@.subrange(i as int, i + count));
                assert(s.skip(1 + count) =~= data@.skip(i + count));
                assert(before + (data@.subrange(i as int, i + count) + pb_decode_spec(
                    data@.skip(i + count),
                )) =~= result@ + pb_decode_spec(data@.skip(i + count)));
            }
            i += count;
        } else if header >= 129 {
            let count = 257 - header as usize;
            if i >= data.len() {
                proof {
                    assert(s[0] == header);
                    assert(pb_decode_spec(s) =~= Seq::<u8>::empty());
                    assert(result@ + Seq::<u8>::empty() =~= result@);
                }
                cut_short = true;
                continue;
            }
            let val = data[i];
            let mut k: usize = 0;
            while k < count
                invariant
                    k <= count,
                    result@ == before + repeat(val, k as nat),
                decreases count - k,
            {
                result.push(val);
                k += 1;
                proof {
                    assert(result@ =~= before + repeat(val, k as nat));
                }
            }
            proof {
                assert(s[1] == val);
                assert(s.skip(2) =~= data@.skip(i + 1));
                assert(before + (repeat(val, count as nat) + pb_decode_spec(data@.skip(i + 1)))
                    =~= result@ + pb_decode_spec(data@.skip(i + 1)));
            }
            i += 1;
        } else {
            proof {
                assert(s.skip(1) =~= data@.skip(i as int));
            }
        }
    }
    proof {
        if !cut_short {
            assert(data@.skip(i as int) =~= Seq::<u8>::empty());
            assert(result@ + Seq::<u8>::empty() =~= result@);
        }
    }
    result
}

} // verus!
