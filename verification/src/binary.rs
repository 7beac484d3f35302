//! Run-length encoding for binary (0/1) data: the data is described by the
//! lengths of its alternating runs, starting with a run of 0s.
use vstd::prelude::*;
use crate::runs::repeat;

verus! {

/// The value of run number `k` when the first run has value `first`
/// (a bit, 0 or 1): runs alternate.
pub open spec fn run_value(first: u8, k: int) -> u8 {
    if k % 2 == 0 {
        first
    } else {
        (1 - first) as u8
    }
}

/// The bytes described by the alternating runs `runs`, the first of which has
/// the value `first`.
pub open spec fn bin_decode_spec(runs: Seq<u32>, first: u8) -> Seq<u8>
    decreases runs.len(),
{
    if runs.len() == 0 {
        seq![]
    } else {
        bin_decode_spec(runs.drop_last(), first) + repeat(
            run_value(first, runs.len() - 1),
            runs.last() as nat,
        )
    }
}

/// A byte that is a bit.
pub open spec fn is_bit(b: u8) -> bool {
    b <= 1
}

/// The bytes of `data` that are 0 or 1, in order; the encoder skips the others.
pub open spec fn binary_part(data: Seq<u8>) -> Seq<u8> {
    data.filter(|b: u8| is_bit(b))
}

/// `runs` are the run lengths of the bits `bits`: alternating runs starting
/// with a run of 0s that is empty when `bits` starts with 1; every other run
/// is non-empty, and so is the last one.
pub open spec fn is_binary_runs(runs: Seq<u32>, bits: Seq<u8>) -> bool {
    &&& bin_decode_spec(runs, 0) == bits
    &&& forall|k: int| 1 <= k < runs.len() ==> #[trigger] runs[k] >= 1
    &&& runs.len() > 0 ==> runs.last() >= 1
}

/// Every byte of `s` is 0 or 1.
pub open spec fn all_bits(s: Seq<u8>) -> bool {
    forall|i: int| 0 <= i < s.len() ==> #[trigger] s[i] <= 1
}

/// The run lengths of the bits `bits`, as `is_binary_runs` describes them
/// (there is exactly one such list: `lemma_binary_runs_unique`).
pub open spec fn binary_runs(bits: Seq<u8>) -> Seq<u32> {
    choose|r: Seq<u32>| is_binary_runs(r, bits)
}

/// Row `y` of an image `width` bytes wide, clipped to the data.
pub open spec fn image_row(data: Seq<u8>, width: nat, y: nat) -> Seq<u8> {
    let n = data.len();
    let lo = if y * width <= n { y * width } else { n };
    let hi = if (y + 1) * width <= n { (y + 1) * width } else { n };
    data.subrange(lo as int, hi as int)
}

/// What the image decoder makes of `rows`: each row decoded from a first run
/// of 0s, cut to `width` bytes, one after the other.
pub open spec fn image_decode_spec(rows: Seq<Vec<u32>>, width: nat) -> Seq<u8>
    decreases rows.len(),
{
    if rows.len() == 0 {
        seq![]
    } else {
        let row = bin_decode_spec(rows.last()@, 0);
        let kept = if width <= row.len() {
            row.take(width as int)
        } else {
            row
        };
        image_decode_spec(rows.drop_last(), width) + kept
    }
}

/// Appending a run appends its bytes.
pub proof fn lemma_bin_decode_push(runs: Seq<u32>, first: u8, n: u32)
    ensures
        bin_decode_spec(runs.push(n), first) == bin_decode_spec(runs, first) + repeat(
            run_value(first, runs.len() as int),
            n as nat,
        ),
{
    assert(runs.push(n).drop_last() =~= runs);
}

/// Runs alternate: an appended run holds the first value after an even number
/// of runs and the other bit after an odd number; a single run is just copies
/// of the first value.
pub proof fn lemma_bin_decode_alternates(runs: Seq<u32>, first: u8, n: u32)
    requires
        first <= 1,
    ensures
        bin_decode_spec(seq![n], first) == Seq::new(n as nat, |_i: int| first),
        bin_decode_spec(runs.push(n), first) == bin_decode_spec(runs, first) + Seq::new(
            n as nat,
            |_i: int|
                if runs.len() % 2 == 0 {
                    first
                } else {
                    (1 - first) as u8
                },
        ),
{
    lemma_bin_decode_push(runs, first, n);
    lemma_bin_decode_push(Seq::<u32>::empty(), first, n);
    assert(Seq::<u32>::empty().push(n) =~= seq![n]);
    assert(Seq::<u8>::empty() + repeat(first, n as nat) =~= repeat(first, n as nat));
    assert(repeat(run_value(first, runs.len() as int), n as nat) =~= Seq::new(
        n as nat,
        |_i: int|
            if runs.len() % 2 == 0 {
                first
            } else {
                (1 - first) as u8
            },
    ));
}

/// The last run adds its length to the decoding; when it is not empty, it
/// gives the last byte.
proof fn lemma_bin_decode_last(runs: Seq<u32>, first: u8)
    requires
        runs.len() > 0,
    ensures
        bin_decode_spec(runs, first).len() == bin_decode_spec(runs.drop_last(), first).len()
            + runs.last(),
        runs.last() >= 1 ==> bin_decode_spec(runs, first).last() == run_value(
            first,
            runs.len() - 1,
        ),
{
}

/// Two run lists with the same decoding, the same parity of length, and every
/// run after the first non-empty, are equal.
proof fn lemma_runs_determined(r: Seq<u32>, s: Seq<u32>, first: u8)
    requires
        first <= 1,
        bin_decode_spec(r, first) == bin_decode_spec(s, first),
        r.len() % 2 == s.len() % 2,
        forall|k: int| 1 <= k < r.len() ==> #[trigger] r[k] >= 1,
        forall|k: int| 1 <= k < s.len() ==> #[trigger] s[k] >= 1,
    ensures
        r == s,
    decreases r.len() + s.len(),
{
    if r.len() == 0 && s.len() == 0 {
        assert(r =~= s);
    } else if r.len() == 0 {
        assert(s.len() >= 2);
        assert(s[s.len() - 1] >= 1);
        lemma_bin_decode_last(s, first);
    } else if s.len() == 0 {
        assert(r.len() >= 2);
        assert(r[r.len() - 1] >= 1);
        lemma_bin_decode_last(r, first);
    } else {
        lemma_last_runs_equal(r, s, first);
        lemma_last_runs_equal(s, r, first);
        lemma_bin_decode_last(r, first);
        lemma_bin_decode_last(s, first);
        let d = bin_decode_spec(r, first);
        let rd = bin_decode_spec(r.drop_last(), first);
        let sd = bin_decode_spec(s.drop_last(), first);
        let w = run_value(first, r.len() - 1);
        assert(run_value(first, s.len() - 1) == w);
        assert(d == rd + repeat(w, r.last() as nat));
        assert(d == sd + repeat(w, s.last() as nat));
        assert(rd =~= d.take(rd.len() as int));
        assert(sd =~= d.take(sd.len() as int));
        assert(r.drop_last().len() % 2 == s.drop_last().len() % 2);
        assert forall|k: int| 1 <= k < r.drop_last().len() implies #[trigger] r.drop_last()[k]
            >= 1 by {
            assert(r.drop_last()[k] == r[k]);
        }
        assert forall|k: int| 1 <= k < s.drop_last().len() implies #[trigger] s.drop_last()[k]
            >= 1 by {
            assert(s.drop_last()[k] == s[k]);
        }
        lemma_runs_determined(r.drop_last(), s.drop_last(), first);
        assert(r =~= r.drop_last().push(r.last()));
        assert(s =~= s.drop_last().push(s.last()));
    }
}

/// Under the conditions of `lemma_runs_determined`, the last run of `r` is not
/// shorter than the last run of `s`.
proof fn lemma_last_runs_equal(r: Seq<u32>, s: Seq<u32>, first: u8)
    requires
        first <= 1,
        r.len() > 0,
        s.len() > 0,
        bin_decode_spec(r, first) == bin_decode_spec(s, first),
        r.len() % 2 == s.len() % 2,
        forall|k: int| 1 <= k < r.len() ==> #[trigger] r[k] >= 1,
    ensures
        r.last() >= s.last(),
{
    if r.last() < s.last() {
        let d = bin_decode_spec(r, first);
        let n = d.len();
        let a = r.last() as int;
        let b = s.last() as int;
        let w = run_value(first, r.len() - 1);
        let rp = r.drop_last();
        let rd = bin_decode_spec(rp, first);
        lemma_bin_decode_last(r, first);
        lemma_bin_decode_last(s, first);
        assert(b <= n);
        assert(rd.len() == n - a);
        assert(d == rd + repeat(w, a as nat));
        // the byte just before the last run of `r` lies in the last run of `s`
        assert(d == bin_decode_spec(s.drop_last(), first) + repeat(
            run_value(first, s.len() - 1),
            b as nat,
        ));
        assert(run_value(first, s.len() - 1) == w);
        assert(d[n - a - 1] == w);
        // but it ends the decoding of `rp`, whose last run has the other value
        assert(rp.len() > 0);
        if rp.last() == 0 {
            assert(rp.len() - 1 == 0);
            assert(bin_decode_spec(rp.drop_last(), first) =~= Seq::<u8>::empty());
            lemma_bin_decode_last(rp, first);
            assert(false);
        } else {
            assert(rp[rp.len() - 1] >= 1);
            lemma_bin_decode_last(rp, first);
            assert(rd.last() == run_value(first, rp.len() - 1));
            assert(d[n - a - 1] == rd[n - a - 1]);
            assert(false);
        }
    }
}

/// The run lengths of a sequence of bits are unique.
pub proof fn lemma_binary_runs_unique(r: Seq<u32>, s: Seq<u32>, bits: Seq<u8>)
    requires
        is_binary_runs(r, bits),
        is_binary_runs(s, bits),
    ensures
        r == s,
{
    if r.len() > 0 {
        lemma_bin_decode_last(r, 0);
    }
    if s.len() > 0 {
        lemma_bin_decode_last(s, 0);
    }
    if r.len() > 0 && s.len() > 0 {
        assert(run_value(0, r.len() - 1) == run_value(0, s.len() - 1));
    }
    lemma_runs_determined(r, s, 0);
}

/// No run of equal bytes in `bits` is longer than `u32::MAX`: among any
/// `u32::MAX + 1` consecutive bytes, one differs from the first.
pub open spec fn runs_fit_u32(bits: Seq<u8>) -> bool {
    forall|i: int| 0 <= i && i + u32::MAX < bits.len() ==> #[trigger] run_breaks_after(bits, i)
}

/// One of the `u32::MAX` bytes after position `i` of `bits` differs from `bits[i]`.
pub open spec fn run_breaks_after(bits: Seq<u8>, i: int) -> bool {
    exists|k: int| i < k && k <= i + u32::MAX && #[trigger] bits[k] != bits[i]
}

/// A prefix of a sequence whose runs fit in `u32` has runs that fit too.
pub proof fn lemma_runs_fit_prefix(p: Seq<u8>, f: Seq<u8>)
    requires
        p.is_prefix_of(f),
        runs_fit_u32(f),
    ensures
        runs_fit_u32(p),
{
    assert forall|j: int| 0 <= j < p.len() implies #[trigger] p[j] == f[j] by {
        assert(p[j] == f.subrange(0, p.len() as int)[j]);
    }
    assert forall|i: int| 0 <= i && i + u32::MAX < p.len() implies #[trigger] run_breaks_after(
        p,
        i,
    ) by {
        assert(f[i] == p[i]);
        assert(i + u32::MAX < f.len());
        assert(run_breaks_after(f, i));
        let k = choose|k: int| i < k && k <= i + u32::MAX && #[trigger] f[k] != f[i];
        assert(p[k] == f[k]);
        assert(i < k && k <= i + u32::MAX && p[k] != p[i]);
    }
}

/// When the bits `p` continue with a copy `b` of their last run's value inside
/// a sequence whose runs fit in `u32`, that last run is shorter than `u32::MAX`.
pub proof fn lemma_last_run_can_grow(q: Seq<u32>, p: Seq<u8>, b: u8, f: Seq<u8>)
    requires
        q.len() > 0,
        bin_decode_spec(q, 0) == p,
        b == run_value(0, q.len() - 1),
        p.push(b).is_prefix_of(f),
        runs_fit_u32(f),
    ensures
        q.last() < u32::MAX,
{
    if q.last() == u32::MAX {
        let c = u32::MAX as int;
        let n = p.len() as int;
        lemma_bin_decode_last(q, 0);
        let head = bin_decode_spec(q.drop_last(), 0);
        assert(p == head + repeat(b, c as nat));
        let i = n - c;
        let pb = p.push(b);
        assert forall|j: int| 0 <= j < pb.len() implies #[trigger] pb[j] == f[j] by {
            assert(pb[j] == f.subrange(0, pb.len() as int)[j]);
        }
        assert(0 <= i);
        assert(pb[i] == p[i]);
        assert(f[i] == p[i]);
        assert(p[i] == b);
        assert(i + u32::MAX < f.len());
        assert(run_breaks_after(f, i));
        let k = choose|k: int| i < k && k <= i + u32::MAX && #[trigger] f[k] != f[i];
        if k < n {
            assert(pb[k] == p[k]);
            assert(p[k] == b);
        } else {
            assert(k == n);
            assert(pb[k] == b);
        }
    }
}

/// Encodes the bits of `data` (bytes other than 0 and 1 are skipped) as the
/// lengths of their alternating runs, starting with a run of 0s.
pub fn encode_binary(data: &[u8]) -> (runs: Vec<u32>)
    requires
        runs_fit_u32(binary_part(data@)),
    ensures
        is_binary_runs(runs@, binary_part(data@)),
        runs@ == binary_runs(binary_part(data@)),
{
    let mut runs: Vec<u32> = Vec::new();
    let mut current_val: u8 = 0;
    let mut count: u32 = 0;
    let mut j: usize = 0;
    proof {
        assert(data@.take(0) =~= Seq::<u8>::empty());
        data@.take(0).lemma_filter_len(|b: u8| is_bit(b));
        lemma_bin_decode_push(runs@, 0, count);
        assert(bin_decode_spec(runs@.push(count), 0) =~= binary_part(data@.take(0)));
    }
    while j < data.len()
        invariant
            j <= data.len(),
            runs_fit_u32(binary_part(data@)),
            current_val == run_value(0, runs@.len() as int),
            bin_decode_spec(runs@.push(count), 0) == binary_part(data@.take(j as int)),
            forall|k: int| 1 <= k < runs@.len() ==> #[trigger] runs@[k] >= 1,
            runs@.len() > 0 ==> count >= 1,
        decreases data.len() - j,
    {
        let byte = data[j];
        let ghost prev = data@.take(j as int);
        proof {
            assert(data@.take(j + 1) =~= prev.push(byte));
            prev.lemma_filter_push(byte, |b: u8| is_bit(b));
            lemma_bin_decode_push(runs@, 0, count);
            assert(data@.take(j + 1).is_prefix_of(data@));
            data@.take(j + 1).lemma_filter_monotone(data@, |b: u8| is_bit(b));
        }
        if byte <= 1 {
            if byte == current_val {
                proof {
                    lemma_last_run_can_grow(
                        runs@.push(count),
                        binary_part(prev),
                        byte,
                        binary_part(data@),
                    );
                }
                count += 1;
                proof {
                    lemma_bin_decode_push(runs@, 0, count);
                    assert(repeat(current_val, (count - 1) as nat).push(byte) =~= repeat(
                        current_val,
                        count as nat,
                    ));
                    assert(bin_decode_spec(runs@, 0) + repeat(current_val, count as nat)
                        =~= bin_decode_spec(runs@, 0) + repeat(current_val, (count - 1) as nat).push(
                        byte,
                    ));
                }
            } else {
                let ghost old_runs = runs@;
                let ghost old_count = count;
                runs.push(count);
                current_val = byte;
                count = 1;
                proof {
                    assert(runs@ == old_runs.push(old_count));
                    lemma_bin_decode_push(runs@, 0, 1);
                    assert(run_value(0, runs@.len() as int) == byte);
                    assert(repeat(byte, 1) =~= seq![byte]);
                    assert forall|k: int| 1 <= k < runs@.len() implies #[trigger] runs@[k] >= 1 by {
                        if k < old_runs.len() {
                            assert(runs@[k] == old_runs[k]);
                        }
                    }
                }
            }
        } else {
            proof {
                assert(binary_part(data@.take(j + 1)) == binary_part(prev));
            }
        }
        j += 1;
    }
    proof {
        assert(data@.take(j as int) =~= data@);
        lemma_bin_decode_push(runs@, 0, count);
    }
    if count > 0 {
        runs.push(count);
    } else {
        proof {
            assert(repeat(current_val, 0) =~= Seq::<u8>::empty());
            assert(bin_decode_spec(runs@, 0) + Seq::<u8>::empty() =~= bin_decode_spec(runs@, 0));
        }
    }
    proof {
        lemma_binary_runs_unique(runs@, binary_runs(binary_part(data@)), binary_part(data@));
    }
    runs
}

/// Every sequence of bits whose runs fit in `u32` has run lengths: building
/// them bit by bit, the last run grows or a new run starts.
pub proof fn lemma_binary_runs_exist(bits: Seq<u8>)
    requires
        all_bits(bits),
        runs_fit_u32(bits),
    ensures
        is_binary_runs(binary_runs(bits), bits),
    decreases bits.len(),
{
    let r = runs_witness(bits);
    assert(is_binary_runs(r, bits));
}

/// Run lengths for `bits`, built from the run lengths of all but the last bit.
proof fn runs_witness(bits: Seq<u8>) -> (r: Seq<u32>)
    requires
        all_bits(bits),
        runs_fit_u32(bits),
    ensures
        is_binary_runs(r, bits),
    decreases bits.len(),
{
    if bits.len() == 0 {
        let r = Seq::<u32>::empty();
        assert(bin_decode_spec(r, 0) =~= bits);
        r
    } else {
        let p = bits.drop_last();
        let b = bits.last();
        assert(all_bits(p)) by {
            assert forall|i: int| 0 <= i < p.len() implies #[trigger] p[i] <= 1 by {
                assert(p[i] == bits[i]);
            }
        }
        assert(p.is_prefix_of(bits)) by {
            assert(p =~= bits.subrange(0, p.len() as int));
        }
        lemma_runs_fit_prefix(p, bits);
        let q = runs_witness(p);
        assert(b <= 1);
        assert(p.push(b) =~= bits);
        if q.len() == 0 {
            if b == 0 {
                let r = seq![1u32];
                lemma_bin_decode_push(Seq::<u32>::empty(), 0, 1);
                assert(r =~= Seq::<u32>::empty().push(1));
                assert(bin_decode_spec(r, 0) =~= bits);
                r
            } else {
                let r = seq![0u32, 1u32];
                lemma_bin_decode_push(Seq::<u32>::empty(), 0, 0);
                assert(seq![0u32] =~= Seq::<u32>::empty().push(0));
                lemma_bin_decode_push(seq![0u32], 0, 1);
                assert(r =~= seq![0u32].push(1));
                assert(bin_decode_spec(r, 0) =~= bits);
                r
            }
        } else {
            let w = run_value(0, q.len() - 1);
            let q0 = q.drop_last();
            assert(q0.push(q.last()) =~= q);
            lemma_bin_decode_push(q0, 0, q.last());
            if b == w {
                assert(p.push(b).is_prefix_of(bits)) by {
                    assert(bits =~= bits.subrange(0, bits.len() as int));
                }
                lemma_last_run_can_grow(q, p, b, bits);
                let n = (q.last() + 1) as u32;
                let r = q0.push(n);
                lemma_bin_decode_push(q0, 0, n);
                assert(repeat(w, q.last() as nat).push(b) =~= repeat(w, n as nat));
                assert(bin_decode_spec(r, 0) =~= bits);
                assert forall|k: int| 1 <= k < r.len() implies #[trigger] r[k] >= 1 by {
                    if k < r.len() - 1 {
                        assert(r[k] == q[k]);
                    }
                }
                r
            } else {
                let r = q.push(1);
                lemma_bin_decode_push(q, 0, 1);
                assert(run_value(0, q.len() as int) == b);
                assert(repeat(b, 1) =~= seq![b]);
                assert(bin_decode_spec(r, 0) =~= bits);
                assert forall|k: int| 1 <= k < r.len() implies #[trigger] r[k] >= 1 by {
                    if k < q.len() {
                        assert(r[k] == q[k]);
                    }
                }
                r
            }
        }
    }
}

/// Decodes alternating run lengths, the first run having the value
/// `first_value` (any value above 1 counts as 1).
pub fn decode_binary(runs: &[u32], first_value: u8) -> (result: Vec<u8>)
    ensures
        result@ == bin_decode_spec(runs@, if first_value <= 1 { first_value } else { 1 }),
{
    let ghost first: u8 = if first_value <= 1 { first_value } else { 1 };
    let mut result: Vec<u8> = Vec::new();
    let mut current_val: u8 = if first_value <= 1 { first_value } else { 1 };
    let mut i: usize = 0;
    proof {
        assert(runs@.take(0) =~= Seq::<u32>::empty());
    }
    while i < runs.len()
        invariant
            i <= runs.len(),
            first <= 1,
            current_val == run_value(first, i as int),
            result@ == bin_decode_spec(runs@.take(i as int), first),
        decreases runs.len() - i,
    {
        let count = runs[i];
        let ghost before = result@;
        let mut k: u32 = 0;
        while k < count
            invariant
                k <= count,
                result@ == before + repeat(current_val, k as nat),
            decreases count - k,
        {
            result.push(current_val);
            k += 1;
            proof {
                assert(result@ =~= before + repeat(current_val, k as nat));
            }
        }
        proof {
            assert(runs@.take(i + 1) =~= runs@.take(i as int).push(count));
            lemma_bin_decode_push(runs@.take(i as int), first, count);
        }
        current_val = 1 - current_val;
        i += 1;
    }
    proof {
        assert(runs@.take(i as int) =~= runs@);
    }
    result
}

/// Encodes a `width`-wide image of `height` rows, each row on its own; rows
/// past the end of the data are empty.
pub fn encode_image(width: usize, height: usize, data: &[u8]) -> (rows: Vec<Vec<u32>>)
    requires
        height == 0 || (height - 1) * width <= data@.len(),
        height * (if width <= data@.len() { width as int } else { data@.len() as int })
            <= usize::MAX,
        forall|y: int|
            0 <= y < height ==> runs_fit_u32(
                binary_part(#[trigger] image_row(data@, width as nat, y as nat)),
            ),
    ensures
        rows@.len() == height,
        forall|y: int|
            0 <= y < height ==> is_binary_runs(
                #[trigger] rows@[y]@,
                binary_part(image_row(data@, width as nat, y as nat)),
            ),
        forall|y: int|
            0 <= y < height ==> #[trigger] rows@[y]@ == binary_runs(
                binary_part(image_row(data@, width as nat, y as nat)),
            ),
{
    let mut rows: Vec<Vec<u32>> = Vec::new();
    let mut y: usize = 0;
    while y < height
        invariant
            y <= height,
            rows@.len() == y,
            height == 0 || (height - 1) * width <= data@.len(),
            height * (if width <= data@.len() { width as int } else { data@.len() as int })
                <= usize::MAX,
            forall|y: int|
                0 <= y < height ==> runs_fit_u32(
                    binary_part(#[trigger] image_row(data@, width as nat, y as nat)),
                ),
            forall|k: int|
                0 <= k < y ==> is_binary_runs(
                    #[trigger] rows@[k]@,
                    binary_part(image_row(data@, width as nat, k as nat)),
                ),
            forall|k: int|
                0 <= k < y ==> #[trigger] rows@[k]@ == binary_runs(
                    binary_part(image_row(data@, width as nat, k as nat)),
                ),
        decreases height - y,
    {
        proof {
            let h = height as int;
            let w = width as int;
            let yy = y as int;
            assert(yy * w <= (h - 1) * w) by (nonlinear_arith)
                requires
                    0 <= yy < h,
                    0 <= w,
            ;
            assert(y * width <= data.len());
            assert((y + 1) * width == y * width + width) by (nonlinear_arith);
        }
        let start = y * width;
        let limit = data.len() - start + start;
        let m = if width <= limit {
            width
        } else {
            limit
        };
        proof {
            let h = height as int;
            let yy = y as int;
            let mm = m as int;
            assert((yy + 1) * mm <= h * mm) by (nonlinear_arith)
                requires
                    0 <= yy < h,
                    0 <= mm,
            ;
        }
        let end = (y + 1) * m;
        let row_data: &[u8] = if start < data.len() {
            let stop = if end <= data.len() {
                end
            } else {
                data.len()
            };
            proof {
                if width > data.len() {
                    assert(y == 0) by (nonlinear_arith)
                        requires
                            start == y * width,
                            start < data.len(),
                            width > data.len(),
                    ;
                    assert(m == data.len());
                    assert(end == m) by (nonlinear_arith)
                        requires
                            y == 0,
                            end == (y + 1) * m,
                    ;
                } else {
                    assert(m == width);
                    assert(end == start + width);
                }
                let n = data@.len() as int;
                let lo = if y * width <= n { y * width } else { n };
                let hi = if (y + 1) * width <= n { (y + 1) * width } else { n };
                assert(lo == start);
                assert(hi == stop);
            }
            &data[start..stop]
        } else {
            proof {
                let n = data@.len() as int;
                assert(start == n);
                let hi = if (y + 1) * width <= n { (y + 1) * width } else { n };
                assert(hi == n);
            }
            &data[0..0]
        };
        proof {
            assert(row_data@ =~= image_row(data@, width as nat, y as nat));
            let yi = y as int;
            assert(runs_fit_u32(binary_part(image_row(data@, width as nat, yi as nat))));
            assert(image_row(data@, width as nat, yi as nat) == image_row(
                data@,
                width as nat,
                y as nat,
            ));
        }
        let runs = encode_binary(row_data);
        rows.push(runs);
        y += 1;
    }
    rows
}

/// Decodes an image row by row: each row's runs start with 0s, and each
/// decoded row is cut to `width` bytes.
pub fn decode_image(rows: &[Vec<u32>], width: usize) -> (result: Vec<u8>)
    ensures
        result@ == image_decode_spec(rows@, width as nat),
{
    let mut result: Vec<u8> = Vec::new();
    let mut i: usize = 0;
    proof {
        assert(rows@.take(0) =~= Seq::<Vec<u32>>::empty());
    }
    while i < rows.len()
        invariant
            i <= rows.len(),
            result@ == image_decode_spec(rows@.take(i as int), width as nat),
        decreases rows.len() - i,
    {
        let mut row = decode_binary(rows[i].as_slice(), 0);
        row.truncate(width);
        let ghost before = result@;
        result.append(&mut row);
        proof {
            let t = rows@.take(i + 1);
            assert(t.drop_last() =~= rows@.take(i as int));
            assert(t.last() == rows@[i as int]);
        }
        i += 1;
    }
    proof {
        assert(rows@.take(i as int) =~= rows@);
    }
    result
}

/// Bytes that are all bits are their own binary part.
pub proof fn lemma_binary_part_of_bits(s: Seq<u8>)
    requires
        forall|i: int| 0 <= i < s.len() ==> #[trigger] s[i] <= 1,
    ensures
        binary_part(s) == s,
    decreases s.len(),
{
    reveal(Seq::filter);
    if s.len() > 0 {
        let t = s.drop_last();
        assert forall|i: int| 0 <= i < t.len() implies #[trigger] t[i] <= 1 by {
            assert(t[i] == s[i]);
        }
        lemma_binary_part_of_bits(t);
        assert(s.last() <= 1);
        assert(t.push(s.last()) =~= s);
    }
}

/// Decoding the rows produced for a full binary image of `width * height`
/// bytes gives back the image.
pub proof fn lemma_image_roundtrip(rows: Seq<Vec<u32>>, width: nat, height: nat, data: Seq<u8>)
    requires
        rows.len() == height,
        data.len() == width * height,
        forall|i: int| 0 <= i < data.len() ==> #[trigger] data[i] <= 1,
        forall|y: int|
            0 <= y < height ==> is_binary_runs(
                #[trigger] rows[y]@,
                binary_part(image_row(data, width, y as nat)),
            ),
    ensures
        image_decode_spec(rows, width) == data,
{
    lemma_image_prefix(rows, width, height, data, height);
    assert(height * width == width * height) by (nonlinear_arith);
    assert(rows.take(height as int) =~= rows);
    assert(data.take(data.len() as int) =~= data);
}

/// Row `y` of a full image is the `width` bytes starting at `y * width`.
proof fn lemma_full_row(data: Seq<u8>, width: nat, height: nat, y: nat)
    requires
        y < height,
        data.len() == width * height,
    ensures
        image_row(data, width, y) == data.subrange((y * width) as int, (y * width + width) as int),
        y * width + width <= data.len(),
{
    assert((y + 1) * width == y * width + width) by (nonlinear_arith);
    assert(y * width + width <= width * height) by (nonlinear_arith)
        requires
            y < height,
    ;
}

/// The first `k` decoded rows are the first `k * width` bytes of the image.
#[verifier::spinoff_prover]
#[verifier::rlimit(30)]
proof fn lemma_image_prefix(rows: Seq<Vec<u32>>, width: nat, height: nat, data: Seq<u8>, k: nat)
    requires
        k <= height,
        rows.len() == height,
        data.len() == width * height,
        forall|i: int| 0 <= i < data.len() ==> #[trigger] data[i] <= 1,
        forall|y: int|
            0 <= y < height ==> is_binary_runs(
                #[trigger] rows[y]@,
                binary_part(image_row(data, width, y as nat)),
            ),
    ensures
        image_decode_spec(rows.take(k as int), width) == data.take((k * width) as int),
    decreases k,
{
    if k == 0 {
        assert(rows.take(0) =~= Seq::<Vec<u32>>::empty());
        assert(k * width == 0) by (nonlinear_arith)
            requires
                k == 0,
        ;
        assert(data.take(0) =~= Seq::<u8>::empty());
    } else {
        let y = (k - 1) as nat;
        lemma_image_prefix(rows, width, height, data, y);
        lemma_row_decodes(rows, width, height, data, y);
        let lo = y * width;
        let hi = y * width + width;
        assert(k * width == hi) by (nonlinear_arith)
            requires
                k == y + 1,
                hi == y * width + width,
        ;
        let row = data.subrange(lo as int, hi as int);
        let t = rows.take(k as int);
        assert(t.drop_last() =~= rows.take(y as int));
        assert(t.last() == rows[y as int]);
        assert(row.take(width as int) =~= row);
        assert(image_decode_spec(t, width) == image_decode_spec(rows.take(y as int), width) + row);
        assert(image_decode_spec(rows.take(y as int), width) == data.take(lo as int));
        assert(data.take(lo as int) + row =~= data.take(hi as int));
        assert(image_decode_spec(t, width) == data.take(hi as int));
        assert((k * width) as int == hi as int);
    }
}

/// Row `y` of the encoded image decodes to row `y` of a full binary image.
proof fn lemma_row_decodes(rows: Seq<Vec<u32>>, width: nat, height: nat, data: Seq<u8>, y: nat)
    requires
        y < height,
        rows.len() == height,
        data.len() == width * height,
        forall|i: int| 0 <= i < data.len() ==> #[trigger] data[i] <= 1,
        forall|y: int|
            0 <= y < height ==> is_binary_runs(
                #[trigger] rows[y]@,
                binary_part(image_row(data, width, y as nat)),
            ),
    ensures
        y * width + width <= data.len(),
        bin_decode_spec(rows[y as int]@, 0) == data.subrange(
            (y * width) as int,
            (y * width + width) as int,
        ),
{
    lemma_full_row(data, width, height, y);
    let lo = y * width;
    let row = data.subrange(lo as int, (y * width + width) as int);
    assert forall|i: int| 0 <= i < row.len() implies #[trigger] row[i] <= 1 by {
        assert(row[i] == data[lo + i]);
    }
    lemma_binary_part_of_bits(row);
    assert(is_binary_runs(rows[y as int]@, binary_part(image_row(data, width, y))));
}

} // verus!
