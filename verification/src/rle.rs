//! Run-length codec.
//!
//! The wire format is a sequence of `[count, value]` byte pairs, each standing
//! for `count` copies of `value`. Counts lie in `[1, 255]`; a run of more than
//! 255 equal bytes is split into several pairs. Encoding is total; decoding
//! rejects streams of odd length, whose last pair is truncated.

use vstd::prelude::*;

use crate::CodecError;

verus! {

/// Length of the maximal prefix of `s` whose bytes all equal `s[0]`.
pub open spec fn run_length(s: Seq<u8>) -> nat
    decreases s.len(),
{
    if s.len() == 0 {
        0
    } else if s.len() >= 2 && s[1] == s[0] {
        (1 + run_length(s.drop_first())) as nat
    } else {
        1
    }
}

/// The run-length encoding of `s`: for each maximal run, `[count, value]`
/// pairs with counts capped at 255, longer runs split into several pairs.
pub open spec fn rle_encode_spec(s: Seq<u8>) -> Seq<u8>
    decreases s.len() via rle_encode_spec_decreases
{
    if s.len() == 0 {
        Seq::empty()
    } else {
        let n = if run_length(s) < 255 { run_length(s) as int } else { 255 };
        seq![n as u8, s[0]] + rle_encode_spec(s.skip(n))
    }
}

#[via_fn]
proof fn rle_encode_spec_decreases(s: Seq<u8>) {
    if s.len() > 0 {
        lemma_run_length_bounds(s);
    }
}

/// The bytes a run-length stream decodes to: each `[count, value]` pair
/// contributes `count` copies of `value`. Meaningful for even-length streams;
/// a trailing odd byte contributes nothing here, and the executable decoder
/// rejects such streams.
pub open spec fn rle_decode_spec(s: Seq<u8>) -> Seq<u8>
    decreases s.len(),
{
    if s.len() < 2 {
        Seq::empty()
    } else {
        Seq::new(s[0] as nat, |k: int| s[1]) + rle_decode_spec(s.skip(2))
    }
}

/// A well-formed run-length stream: whole pairs only, every count at least 1.
/// (Counts are at most 255 because they are single bytes.)
pub open spec fn rle_wf(s: Seq<u8>) -> bool
    decreases s.len(),
{
    if s.len() == 0 {
        true
    } else {
        s.len() >= 2 && s[0] >= 1 && rle_wf(s.skip(2))
    }
}

proof fn lemma_run_length_bounds(s: Seq<u8>)
    requires
        s.len() > 0,
    ensures
        1 <= run_length(s) <= s.len(),
        forall|k: int| 0 <= k < run_length(s) ==> #[trigger] s[k] == s[0],
        run_length(s) < s.len() ==> s[run_length(s) as int] != s[0],
    decreases s.len(),
{
    if s.len() >= 2 && s[1] == s[0] {
        let t = s.drop_first();
        lemma_run_length_bounds(t);
        assert forall|k: int| 0 <= k < run_length(s) implies #[trigger] s[k] == s[0] by {
            if k >= 1 {
                assert(t[k - 1] == s[k]);
            }
        }
        if run_length(s) < s.len() {
            assert(t[run_length(s) as int - 1] == s[run_length(s) as int]);
        }
    }
}

proof fn lemma_run_length_at_least(s: Seq<u8>, m: int)
    requires
        0 <= m <= s.len(),
        forall|k: int| 0 <= k < m ==> #[trigger] s[k] == s[0],
    ensures
        run_length(s) >= m,
    decreases s.len(),
{
    if m >= 2 {
        let t = s.drop_first();
        assert(s[1] == s[0]);
        assert forall|k: int| 0 <= k < m - 1 implies #[trigger] t[k] == t[0] by {
            assert(t[k] == s[k + 1]);
        }
        lemma_run_length_at_least(t, m - 1);
    }
}

/// Round-trip law for the run-length codec: for every byte sequence, the
/// encoding is a well-formed, even-length stream that decodes back to the
/// original sequence.
pub proof fn lemma_rle_round_trip(s: Seq<u8>)
    ensures
        rle_wf(rle_encode_spec(s)),
        rle_encode_spec(s).len() % 2 == 0,
        rle_decode_spec(rle_encode_spec(s)) == s,
    decreases s.len(),
{
    if s.len() == 0 {
        assert(rle_decode_spec(rle_encode_spec(s)) =~= s);
    } else {
        lemma_run_length_bounds(s);
        let n = if run_length(s) < 255 { run_length(s) as int } else { 255 };
        let rest = s.skip(n);
        lemma_rle_round_trip(rest);
        let enc = rle_encode_spec(s);
        assert(enc.skip(2) =~= rle_encode_spec(rest));
        assert(Seq::new(n as nat, |k: int| s[0]) + rest =~= s);
        assert(rle_decode_spec(enc) == Seq::new(n as nat, |k: int| s[0]) + rle_decode_spec(
            enc.skip(2),
        ));
    }
}

proof fn lemma_run_length_uniform(v: u8, n: nat)
    ensures
        run_length(Seq::new(n, |k: int| v)) == n,
    decreases n,
{
    let s = Seq::new(n, |k: int| v);
    if n >= 2 {
        lemma_run_length_uniform(v, (n - 1) as nat);
        assert(s.drop_first() =~= Seq::new((n - 1) as nat, |k: int| v));
    }
}

/// Run-count boundary law: a run of exactly 255 equal bytes encodes as a
/// single pair, and a run of 256 encodes as two pairs, `[255, v]` then
/// `[1, v]` — never one pair with a wrapped count.
pub proof fn lemma_rle_run_boundary(v: u8)
    ensures
        rle_encode_spec(Seq::new(255, |k: int| v)) == seq![255u8, v],
        rle_encode_spec(Seq::new(256, |k: int| v)) == seq![255u8, v, 1u8, v],
{
    let s255 = Seq::new(255, |k: int| v);
    let s256 = Seq::new(256, |k: int| v);
    lemma_run_length_uniform(v, 255);
    lemma_run_length_uniform(v, 256);
    lemma_run_length_uniform(v, 1);
    assert(s255.skip(255) =~= Seq::empty());
    assert(rle_encode_spec(Seq::<u8>::empty()) =~= Seq::<u8>::empty());
    assert(rle_encode_spec(s255) =~= seq![255u8, v]);
    assert(s256.skip(255) =~= Seq::new(1, |k: int| v));
    let s1 = Seq::new(1, |k: int| v);
    assert(s1.skip(1) =~= Seq::empty());
    assert(rle_encode_spec(s1) =~= seq![1u8, v]);
    assert(rle_encode_spec(s256) =~= seq![255u8, v, 1u8, v]);
}

/// Encodes `data` with run-length encoding. Total: every input, including the
/// empty one, has an encoding, and the result decodes back to `data`.
pub fn compress_rle(data: &[u8]) -> (r: Vec<u8>)
    ensures
        r@ == rle_encode_spec(data@),
        rle_wf(r@),
        r@.len() % 2 == 0,
        rle_decode_spec(r@) == data@,
{
    let mut out: Vec<u8> = Vec::new();
    let mut i: usize = 0;
    proof {
        assert(data@.skip(0) =~= data@);
        assert(Seq::<u8>::empty() + rle_encode_spec(data@) =~= rle_encode_spec(data@));
    }
    while i < data.len()
        invariant
            i <= data@.len(),
            rle_encode_spec(data@) == out@ + rle_encode_spec(data@.skip(i as int)),
        decreases data@.len() - i,
    {
        let value = data[i];
        let mut count: usize = 1;
        while i + count < data.len() && count < 255 && data[i + count] == value
            invariant
                i < data@.len(),
                data@.len() <= usize::MAX,
                1 <= count <= 255,
                i + count <= data@.len(),
                value == data@[i as int],
                forall|k: int| i <= k < i + count ==> #[trigger] data@[k] == data@[i as int],
            decreases data@.len() - i - count,
        {
            count = count + 1;
        }
        proof {
            let t = data@.skip(i as int);
            lemma_run_length_bounds(t);
            assert forall|k: int| 0 <= k < count implies #[trigger] t[k] == t[0] by {
                assert(t[k] == data@[i + k]);
            }
            lemma_run_length_at_least(t, count as int);
            if count < 255 && i + count < data@.len() {
                assert(t[count as int] == data@[i + count]);
                assert(run_length(t) == count);
            } else if count < 255 {
                assert(run_length(t) <= t.len() == count);
            }
            let n = if run_length(t) < 255 { run_length(t) as int } else { 255 };
            assert(n == count);
            assert(t.skip(n) =~= data@.skip(i + count));
            assert(rle_encode_spec(t) == seq![count as u8, value] + rle_encode_spec(
                data@.skip(i + count),
            ));
            assert(out@ + seq![count as u8, value] + rle_encode_spec(data@.skip(i + count))
                =~= out@ + rle_encode_spec(t));
        }
        out.push(count as u8);
        out.push(value);
        i = i + count;
    }
    proof {
        assert(data@.skip(data@.len() as int) =~= Seq::empty());
        assert(out@ + Seq::<u8>::empty() =~= out@);
        lemma_rle_round_trip(data@);
    }
    out
}

/// Decodes a run-length stream. Succeeds exactly on streams of even length
/// (the empty stream included); a stream of odd length has a truncated final
/// pair and is reported as malformed.
pub fn decompress_rle(data: &[u8]) -> (r: Result<Vec<u8>, CodecError>)
    ensures
        data@.len() % 2 == 0 ==> (r matches Ok(v) && v@ == rle_decode_spec(data@)),
        data@.len() % 2 != 0 ==> (r matches Err(e) && e == CodecError::MalformedStream),
{
    if data.len() % 2 != 0 {
        return Err(CodecError::MalformedStream);
    }
    let mut out: Vec<u8> = Vec::new();
    let mut i: usize = 0;
    proof {
        assert(data@.skip(0) =~= data@);
        assert(Seq::<u8>::empty() + rle_decode_spec(data@) =~= rle_decode_spec(data@));
    }
    while i < data.len()
        invariant
            i <= data@.len(),
            i % 2 == 0,
            data@.len() % 2 == 0,
            data@.len() <= usize::MAX,
            rle_decode_spec(data@) == out@ + rle_decode_spec(data@.skip(i as int)),
        decreases data@.len() - i,
    {
        let count = data[i];
        let value = data[i + 1];
        let ghost out0 = out@;
        let mut k: usize = 0;
        while k < count as usize
            invariant
                k <= count as usize,
                out@ == out0 + Seq::new(k as nat, |j: int| value),
            decreases count as usize - k,
        {
            proof {
                assert(out@.push(value) =~= out0 + Seq::new((k + 1) as nat, |j: int| value));
            }
            out.push(value);
            k = k + 1;
        }
        proof {
            let t = data@.skip(i as int);
            assert(t[0] == data@[i as int] && t[1] == data@[i + 1]);
            assert(t.skip(2) =~= data@.skip(i + 2));
            assert(rle_decode_spec(t) == Seq::new(count as nat, |j: int| value) + rle_decode_spec(
                data@.skip(i + 2),
            ));
            assert(out0 + Seq::new(count as nat, |j: int| value) + rle_decode_spec(
                data@.skip(i + 2),
            ) =~= out0 + rle_decode_spec(t));
        }
        i = i + 2;
    }
    proof {
        assert(data@.skip(data@.len() as int) =~= Seq::empty());
        assert(out@ + Seq::<u8>::empty() =~= out@);
    }
    Ok(out)
}

} // verus!
