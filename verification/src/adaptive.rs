//! Adaptive encoding: looks at the data and picks the encoding that suits it.
use vstd::prelude::*;
use crate::binary::{
    all_bits, binary_part, binary_runs, bin_decode_spec, lemma_binary_runs_exist,
    lemma_binary_part_of_bits, encode_binary, runs_fit_u32,
};
use crate::packbits::{pb_encode_spec, pb_decode_spec, lemma_pb_roundtrip};
use crate::rle::{rle_encode_spec, rle_decode_spec, lemma_rle_roundtrip};
use crate::runs::{run_len, lemma_run_len_bounds};
use crate::{packbits, rle};

verus! {

/// The encoding strategy to use.
#[derive(Debug, Clone, Copy, PartialEq, Eq, Structural)]
pub enum Strategy {
    /// Basic RLE: good for highly repetitive data.
    BasicRle,
    /// PackBits: good for mixed data.
    PackBits,
    /// Binary RLE: good for binary (0/1) data.
    BinaryRle,
    /// No compression: the other encodings would not make the data smaller.
    NoCompression,
}

/// What the analysis finds in the data.
#[derive(Debug, Clone, Copy)]
pub struct DataProfile {
    /// Number of bytes.
    pub total_bytes: usize,
    /// Number of distinct byte values.
    pub unique_bytes: usize,
    /// Number of maximal runs of identical bytes.
    pub run_count: usize,
    /// Whether every byte is 0 or 1.
    pub is_binary: bool,
}

/// Number of maximal runs of identical bytes in `s`: the positions that hold
/// a different byte than the one before them, plus one for the first byte.
pub open spec fn run_count_spec(s: Seq<u8>) -> nat
    decreases s.len(),
{
    if s.len() == 0 {
        0
    } else if s.len() == 1 {
        1
    } else {
        run_count_spec(s.drop_last()) + if s.last() != s[s.len() - 2] {
            1nat
        } else {
            0nat
        }
    }
}

/// The data is repetitive when fewer than half of its bytes start a run.
pub open spec fn is_repetitive(s: Seq<u8>) -> bool {
    2 * run_count_spec(s) < s.len()
}

/// The strategy for `s`: none for empty data; binary RLE for bits; basic RLE
/// for repetitive data that it shrinks; else PackBits if it shrinks the data;
/// else none.
pub open spec fn choose_strategy_spec(s: Seq<u8>) -> Strategy {
    if s.len() == 0 {
        Strategy::NoCompression
    } else if all_bits(s) {
        Strategy::BinaryRle
    } else if is_repetitive(s) && rle_encode_spec(s).len() < s.len() {
        Strategy::BasicRle
    } else if pb_encode_spec(s).len() < s.len() {
        Strategy::PackBits
    } else {
        Strategy::NoCompression
    }
}

/// The little-endian bytes of `x`.
pub open spec fn le_bytes(x: u32) -> Seq<u8> {
    seq![
        (x & 0xff) as u8,
        ((x >> 8) & 0xff) as u8,
        ((x >> 16) & 0xff) as u8,
        ((x >> 24) & 0xff) as u8,
    ]
}

/// The `u32` whose little-endian bytes are `b0, b1, b2, b3`.
pub open spec fn le_word(b0: u8, b1: u8, b2: u8, b3: u8) -> u32 {
    (b0 as u32) | ((b1 as u32) << 8) | ((b2 as u32) << 16) | ((b3 as u32) << 24)
}

/// The little-endian bytes of each word of `words`, one word after the other.
pub open spec fn le_concat(words: Seq<u32>) -> Seq<u8>
    decreases words.len(),
{
    if words.len() == 0 {
        seq![]
    } else {
        le_concat(words.drop_last()) + le_bytes(words.last())
    }
}

/// The words read back, four little-endian bytes each, from `bytes`.
pub open spec fn le_words(bytes: Seq<u8>) -> Seq<u32>
    decreases bytes.len(),
{
    if bytes.len() < 4 {
        seq![]
    } else {
        le_words(bytes.subrange(0, bytes.len() - 4)).push(
            le_word(
                bytes[bytes.len() - 4],
                bytes[bytes.len() - 3],
                bytes[bytes.len() - 2],
                bytes[bytes.len() - 1],
            ),
        )
    }
}

/// The bytes that `strategy` makes of `s`; binary runs are written as
/// little-endian `u32` words.
pub open spec fn encode_with(s: Seq<u8>, strategy: Strategy) -> Seq<u8> {
    match strategy {
        Strategy::BasicRle => rle_encode_spec(s),
        Strategy::PackBits => pb_encode_spec(s),
        Strategy::BinaryRle => le_concat(binary_runs(binary_part(s))),
        Strategy::NoCompression => s,
    }
}

/// What the decoder of `strategy` makes of `e`.
pub open spec fn decode_with(e: Seq<u8>, strategy: Strategy) -> Seq<u8> {
    match strategy {
        Strategy::BasicRle => rle_decode_spec(e),
        Strategy::PackBits => pb_decode_spec(e),
        Strategy::BinaryRle => bin_decode_spec(le_words(e), 0),
        Strategy::NoCompression => e,
    }
}

/// A word survives the trip through its little-endian bytes.
pub proof fn lemma_le_word_bytes(x: u32)
    ensures
        le_word(le_bytes(x)[0], le_bytes(x)[1], le_bytes(x)[2], le_bytes(x)[3]) == x,
{
    assert(((x & 0xff) as u8 as u32) | ((((x >> 8) & 0xff) as u8 as u32) << 8) | ((((x >> 16)
        & 0xff) as u8 as u32) << 16) | ((((x >> 24) & 0xff) as u8 as u32) << 24) == x)
        by (bit_vector);
}

/// Reading the words back from their little-endian bytes gives the words.
pub proof fn lemma_le_roundtrip(words: Seq<u32>)
    ensures
        le_concat(words).len() == 4 * words.len(),
        le_words(le_concat(words)) == words,
    decreases words.len(),
{
    if words.len() > 0 {
        let w = words.drop_last();
        lemma_le_roundtrip(w);
        let b = le_concat(words);
        let x = words.last();
        assert(b.subrange(0, b.len() - 4) =~= le_concat(w));
        assert(b[b.len() - 4] == le_bytes(x)[0]);
        assert(b[b.len() - 3] == le_bytes(x)[1]);
        assert(b[b.len() - 2] == le_bytes(x)[2]);
        assert(b[b.len() - 1] == le_bytes(x)[3]);
        lemma_le_word_bytes(x);
        assert(w.push(x) =~= words);
    } else {
        assert(le_words(le_concat(words)) =~= words);
    }
}

/// Appending a byte adds a run exactly when the data is empty or ends with a
/// different byte.
pub proof fn lemma_run_count_push(s: Seq<u8>, b: u8)
    ensures
        run_count_spec(s.push(b)) == run_count_spec(s) + if s.len() == 0 || s.last() != b {
            1nat
        } else {
            0nat
        },
{
    let t = s.push(b);
    assert(t.drop_last() =~= s);
    if s.len() > 0 {
        assert(t[t.len() - 2] == s.last());
    }
}

/// Non-empty data made of one repeated byte is a single run, however long.
pub proof fn lemma_run_count_constant(s: Seq<u8>)
    requires
        s.len() > 0,
        forall|i: int| 0 <= i < s.len() ==> #[trigger] s[i] == s[0],
    ensures
        run_count_spec(s) == 1,
    decreases s.len(),
{
    if s.len() > 1 {
        let p = s.drop_last();
        assert forall|i: int| 0 <= i < p.len() implies #[trigger] p[i] == p[0] by {
            assert(p[i] == s[i] && p[0] == s[0]);
        }
        lemma_run_count_constant(p);
        assert(p.push(s.last()) =~= s);
        lemma_run_count_push(p, s.last());
        assert(p.last() == s[s.len() - 2]);
        assert(s.last() == s[s.len() - 1]);
    }
}

/// The runs of `x + y` are those of `x` and of `y`, with the last run of `x`
/// and the first run of `y` merged when they hold the same byte.
pub proof fn lemma_run_count_concat(x: Seq<u8>, y: Seq<u8>)
    ensures
        run_count_spec(x + y) + (if x.len() > 0 && y.len() > 0 && x.last() == y[0] {
            1nat
        } else {
            0nat
        }) == run_count_spec(x) + run_count_spec(y),
    decreases y.len(),
{
    if y.len() == 0 {
        assert(x + y =~= x);
    } else {
        let yp = y.drop_last();
        let b = y.last();
        lemma_run_count_concat(x, yp);
        assert(y =~= yp.push(b));
        assert(x + y =~= (x + yp).push(b));
        lemma_run_count_push(x + yp, b);
        lemma_run_count_push(yp, b);
        if yp.len() > 0 {
            assert((x + yp).last() == yp.last());
            assert(y[0] == yp[0]);
        } else {
            assert(x + yp =~= x);
            assert(y[0] == b);
            assert(run_count_spec(yp) == 0);
        }
    }
}

/// Every run needs at least one pair of the basic encoding.
pub proof fn lemma_rle_len_covers_runs(s: Seq<u8>)
    ensures
        rle_encode_spec(s).len() >= 2 * run_count_spec(s),
    decreases s.len(),
{
    if s.len() > 0 {
        let c = run_len(s, s[0], 255);
        lemma_run_len_bounds(s, s[0], 255);
        let head = s.take(c as int);
        let rest = s.skip(c as int);
        lemma_rle_len_covers_runs(rest);
        assert forall|i: int| 0 <= i < head.len() implies #[trigger] head[i] == head[0] by {}
        lemma_run_count_constant(head);
        assert(head + rest =~= s);
        lemma_run_count_concat(head, rest);
    }
}

/// Non-empty data made of bits is always encoded with binary RLE.
pub proof fn lemma_choose_bits(s: Seq<u8>)
    requires
        s.len() > 0,
        forall|i: int| 0 <= i < s.len() ==> #[trigger] s[i] <= 1,
    ensures
        choose_strategy_spec(s) == Strategy::BinaryRle,
{
}

/// Data that is not made of bits, where fewer than half of the bytes start a
/// run and basic RLE makes it smaller, is encoded with basic RLE.
pub proof fn lemma_choose_basic(s: Seq<u8>)
    requires
        exists|i: int| 0 <= i < s.len() && #[trigger] s[i] > 1,
        2 * run_count_spec(s) < s.len(),
        rle_encode_spec(s).len() < s.len(),
    ensures
        choose_strategy_spec(s) == Strategy::BasicRle,
{
    let i = choose|i: int| 0 <= i < s.len() && #[trigger] s[i] > 1;
    assert(!all_bits(s));
}

/// Data that is not made of bits and that basic RLE is not chosen for, is
/// encoded with PackBits when PackBits makes it smaller.
pub proof fn lemma_choose_packbits(s: Seq<u8>)
    requires
        exists|i: int| 0 <= i < s.len() && #[trigger] s[i] > 1,
        !(2 * run_count_spec(s) < s.len() && rle_encode_spec(s).len() < s.len()),
        pb_encode_spec(s).len() < s.len(),
    ensures
        choose_strategy_spec(s) == Strategy::PackBits,
{
    let i = choose|i: int| 0 <= i < s.len() && #[trigger] s[i] > 1;
    assert(!all_bits(s));
}

/// Binary RLE is chosen only for non-empty data made of bits.
pub proof fn lemma_choose_binary_only_for_bits(s: Seq<u8>)
    requires
        choose_strategy_spec(s) == Strategy::BinaryRle,
    ensures
        s.len() > 0,
        forall|i: int| 0 <= i < s.len() ==> #[trigger] s[i] <= 1,
{
}

/// Basic RLE and PackBits are chosen only when they make the data smaller.
pub proof fn lemma_choose_shrinks(s: Seq<u8>)
    ensures
        choose_strategy_spec(s) == Strategy::BasicRle ==> rle_encode_spec(s).len() < s.len(),
        choose_strategy_spec(s) == Strategy::PackBits ==> pb_encode_spec(s).len() < s.len(),
{
}

/// No compression is chosen only for empty data, or for data that is not made
/// of bits and that neither basic RLE nor PackBits makes smaller.
pub proof fn lemma_choose_no_compression(s: Seq<u8>)
    requires
        choose_strategy_spec(s) == Strategy::NoCompression,
    ensures
        s.len() == 0 || ((exists|i: int| 0 <= i < s.len() && #[trigger] s[i] > 1)
            && rle_encode_spec(s).len() >= s.len() && pb_encode_spec(s).len() >= s.len()),
{
    if s.len() > 0 {
        lemma_rle_len_covers_runs(s);
        assert(!all_bits(s));
        let i = choose|i: int| !(0 <= i < s.len() ==> s[i] <= 1);
        assert(s[i] > 1);
    }
}

/// Two byte values at most: a sequence of bits has at most two distinct values.
proof fn lemma_bits_distinct_at_most_two(s: Seq<u8>)
    requires
        all_bits(s),
    ensures
        s.to_set().len() <= 2,
{
    let two = Set::<u8>::empty().insert(0).insert(1);
    assert(s.to_set().subset_of(two)) by {
        assert forall|x: u8| s.to_set().contains(x) implies two.contains(x) by {
            let i = choose|i: int| 0 <= i < s.len() && s[i] == x;
            assert(s[i] <= 1);
        }
    }
    vstd::set_lib::lemma_len_subset(s.to_set(), two);
}

/// Analyzes `data`: its length, distinct byte values, runs, and whether it is
/// made of bits.
pub fn profile(data: &[u8]) -> (p: DataProfile)
    ensures
        p.total_bytes == data@.len(),
        p.unique_bytes == data@.to_set().len(),
        p.run_count == run_count_spec(data@),
        p.is_binary == all_bits(data@),
        p.run_count <= p.total_bytes,
{
    if data.len() == 0 {
        proof {
            assert(data@.to_set() =~= Set::<u8>::empty());
        }
        return DataProfile { total_bytes: 0, unique_bytes: 0, run_count: 0, is_binary: true };
    }
    let mut seen: Vec<bool> = Vec::new();
    let mut k: usize = 0;
    while k < 256
        invariant
            k <= 256,
            seen@.len() == k,
            forall|x: int| 0 <= x < k ==> !#[trigger] seen@[x],
        decreases 256 - k,
    {
        seen.push(false);
        k += 1;
    }
    let mut unique: usize = 0;
    let mut j: usize = 0;
    proof {
        assert(data@.take(0).to_set() =~= Set::<u8>::empty());
    }
    while j < data.len()
        invariant
            j <= data.len(),
            seen@.len() == 256,
            unique <= j,
            forall|x: u8| #[trigger] seen@[x as int] == data@.take(j as int).to_set().contains(x),
            unique == data@.take(j as int).to_set().len(),
        decreases data.len() - j,
    {
        let b = data[j];
        let ghost prev = data@.take(j as int);
        proof {
            assert(data@.take(j + 1) =~= prev.push(b));
            prev.lemma_push_to_set_commute(b);
            vstd::seq_lib::seq_to_set_is_finite(prev);
        }
        if !seen[b as usize] {
            seen.set(b as usize, true);
            unique += 1;
            proof {
                assert forall|x: u8| #[trigger] seen@[x as int] == data@.take(j + 1).to_set().contains(
                    x,
                ) by {
                    if x != b {
                        assert(seen@[x as int] == prev.to_set().contains(x));
                    }
                }
            }
        }
        j += 1;
    }
    proof {
        assert(data@.take(data.len() as int) =~= data@);
    }
    let mut runs: usize = 0;
    let mut i: usize = 0;
    proof {
        assert(data@.take(0) =~= Seq::<u8>::empty());
    }
    while i < data.len()
        invariant
            i <= data.len(),
            runs <= i,
            runs == run_count_spec(data@.take(i as int)),
        decreases data.len() - i,
    {
        proof {
            let t = data@.take(i + 1);
            assert(t.drop_last() =~= data@.take(i as int));
        }
        if i == 0 || data[i] != data[i - 1] {
            runs += 1;
        }
        i += 1;
    }
    proof {
        assert(data@.take(data.len() as int) =~= data@);
    }
    let mut all: bool = true;
    let mut m: usize = 0;
    while m < data.len()
        invariant
            m <= data.len(),
            all == (forall|x: int| 0 <= x < m ==> #[trigger] data@[x] <= 1),
        decreases data.len() - m,
    {
        if data[m] > 1 {
            all = false;
        }
        m += 1;
    }
    proof {
        if all {
            lemma_bits_distinct_at_most_two(data@);
        }
    }
    let is_binary = unique <= 2 && all;
    DataProfile { total_bytes: data.len(), unique_bytes: unique, run_count: runs, is_binary }
}

/// Chooses the encoding for `data` (see `choose_strategy_spec`).
pub fn choose_strategy(data: &[u8]) -> (strategy: Strategy)
    ensures
        strategy == choose_strategy_spec(data@),
{
    if data.len() == 0 {
        return Strategy::NoCompression;
    }
    let p = profile(data);
    if p.is_binary {
        return Strategy::BinaryRle;
    }
    if p.run_count < p.total_bytes - p.run_count {
        let rle_size = rle::encode(data).len();
        if rle_size < data.len() {
            return Strategy::BasicRle;
        }
    }
    let pb_size = packbits::encode(data).len();
    if pb_size < data.len() {
        return Strategy::PackBits;
    }
    Strategy::NoCompression
}

/// The little-endian bytes of `x`.
fn u32_le_bytes(x: u32) -> (b: [u8; 4])
    ensures
        b@ == le_bytes(x),
{
    let b = [
        (x & 0xff) as u8,
        ((x >> 8) & 0xff) as u8,
        ((x >> 16) & 0xff) as u8,
        ((x >> 24) & 0xff) as u8,
    ];
    proof {
        assert(b@ =~= le_bytes(x));
    }
    b
}

/// The binary runs of `data`, written as little-endian `u32` words.
fn binary_rle_bytes(data: &[u8]) -> (bytes: Vec<u8>)
    requires
        all_bits(data@),
        runs_fit_u32(data@),
    ensures
        bytes@ == le_concat(binary_runs(data@)),
        binary_part(data@) == data@,
{
    proof {
        lemma_binary_part_of_bits(data@);
    }
    let runs = encode_binary(data);
    let mut bytes: Vec<u8> = Vec::new();
    let mut i: usize = 0;
    proof {
        assert(runs@.take(0) =~= Seq::<u32>::empty());
    }
    while i < runs.len()
        invariant
            i <= runs.len(),
            bytes@ == le_concat(runs@.take(i as int)),
        decreases runs.len() - i,
    {
        let b = u32_le_bytes(runs[i]);
        let ghost before = bytes@;
        let mut k: usize = 0;
        while k < 4
            invariant
                k <= 4,
                b@ == le_bytes(runs@[i as int]),
                bytes@ == before + b@.take(k as int),
            decreases 4 - k,
        {
            bytes.push(b[k]);
            k += 1;
            proof {
                assert(bytes@ =~= before + b@.take(k as int));
            }
        }
        proof {
            let t = runs@.take(i + 1);
            assert(t.drop_last() =~= runs@.take(i as int));
            assert(b@.take(4) =~= b@);
        }
        i += 1;
    }
    proof {
        assert(runs@.take(runs@.len() as int) =~= runs@);
    }
    bytes
}

/// A copy of `data`.
fn copy_bytes(data: &[u8]) -> (copy: Vec<u8>)
    ensures
        copy@ == data@,
{
    let mut copy: Vec<u8> = Vec::new();
    let mut i: usize = 0;
    while i < data.len()
        invariant
            i <= data.len(),
            copy@ == data@.take(i as int),
        decreases data.len() - i,
    {
        copy.push(data[i]);
        i += 1;
        proof {
            assert(copy@ =~= data@.take(i as int));
        }
    }
    proof {
        assert(data@.take(i as int) =~= data@);
    }
    copy
}

/// Encodes `data` with the strategy that `choose_strategy` picks, and returns
/// the encoding with the strategy. Binary runs are written as little-endian
/// `u32` words.
pub fn encode(data: &[u8]) -> (out: (Vec<u8>, Strategy))
    requires
        all_bits(data@) ==> runs_fit_u32(data@),
    ensures
        out.1 == choose_strategy_spec(data@),
        out.0@ == encode_with(data@, out.1),
        decode_with(out.0@, out.1) == data@,
        out.1 == Strategy::BasicRle || out.1 == Strategy::PackBits ==> out.0@.len() < data@.len(),
{
    let strategy = choose_strategy(data);
    let encoded = match strategy {
        Strategy::BasicRle => rle::encode(data),
        Strategy::PackBits => packbits::encode(data),
        Strategy::BinaryRle => binary_rle_bytes(data),
        Strategy::NoCompression => copy_bytes(data),
    };
    proof {
        lemma_adaptive_roundtrip(data@);
    }
    (encoded, strategy)
}

/// Decoding with the chosen strategy gives back the data.
pub proof fn lemma_adaptive_roundtrip(s: Seq<u8>)
    requires
        all_bits(s) ==> runs_fit_u32(s),
    ensures
        decode_with(encode_with(s, choose_strategy_spec(s)), choose_strategy_spec(s)) == s,
{
    match choose_strategy_spec(s) {
        Strategy::BasicRle => lemma_rle_roundtrip(s),
        Strategy::PackBits => lemma_pb_roundtrip(s),
        Strategy::BinaryRle => {
            lemma_binary_part_of_bits(s);
            lemma_binary_runs_exist(s);
            lemma_le_roundtrip(binary_runs(s));
        },
        Strategy::NoCompression => {},
    }
}

} // verus!
