//! Sliding-window codec (LZ77-style).
//!
//! The wire format is a sequence of tokens: a Literal is `[0x00, byte]` and a
//! Reference is `[0x01, distance, length]`, where `distance` is the backward
//! offset into the already-decoded output and `length` the number of bytes to
//! copy, one at a time, so that self-overlapping references work. Both fields
//! are single bytes; the encoder therefore searches a look-back window of at
//! most 255 bytes and caps match lengths at 255, splitting anything longer,
//! so no field is ever silently truncated. A match is only worth a Reference
//! when it is longer than 2 bytes; shorter matches are emitted as Literals.

use vstd::prelude::*;

use crate::CodecError;

verus! {

/// Number of bytes that match when comparing the suffix of `data` at `j`
/// with the suffix at `i`. The comparison may run past `i` (self-overlap).
pub open spec fn match_length(data: Seq<u8>, j: int, i: int) -> nat
    decreases data.len() - i,
{
    if 0 <= j && j < i && i < data.len() && data[j] == data[i] {
        (1 + match_length(data, j + 1, i + 1)) as nat
    } else {
        0
    }
}

/// `match_length` capped at 255, the longest length a one-byte field holds.
pub open spec fn capped_match_length(data: Seq<u8>, j: int, i: int) -> nat {
    if match_length(data, j, i) < 255 {
        match_length(data, j, i)
    } else {
        255
    }
}

/// The farthest back the encoder may look from position `i`: bounded by the
/// start of the buffer and by 255, the longest distance a one-byte field holds.
pub open spec fn window_limit(i: int) -> int {
    if i < 255 {
        i
    } else {
        255
    }
}

/// The best match distance at position `i` among distances `1..=dmax`:
/// the distance of a longest capped match, the nearest one winning ties.
/// 0 means no match at all.
pub open spec fn best_distance_up_to(data: Seq<u8>, i: int, dmax: int) -> int
    decreases dmax,
{
    if dmax < 1 {
        0
    } else {
        let prev = best_distance_up_to(data, i, dmax - 1);
        let prev_len: nat = if prev == 0 {
            0
        } else {
            capped_match_length(data, i - prev, i)
        };
        if capped_match_length(data, i - dmax, i) > prev_len {
            dmax
        } else {
            prev
        }
    }
}

/// The length of the best match found among distances `1..=dmax`.
pub open spec fn best_length_up_to(data: Seq<u8>, i: int, dmax: int) -> nat {
    if best_distance_up_to(data, i, dmax) == 0 {
        0
    } else {
        capped_match_length(data, i - best_distance_up_to(data, i, dmax), i)
    }
}

/// The distance the encoder picks at position `i` (0 when no byte matches).
pub open spec fn best_distance(data: Seq<u8>, i: int) -> int {
    best_distance_up_to(data, i, window_limit(i))
}

/// The match length the encoder picks at position `i`.
pub open spec fn best_length(data: Seq<u8>, i: int) -> nat {
    best_length_up_to(data, i, window_limit(i))
}

proof fn lemma_match_length_bounds(data: Seq<u8>, j: int, i: int)
    requires
        0 <= j <= i <= data.len(),
    ensures
        match_length(data, j, i) <= data.len() - i,
        forall|k: int| 0 <= k < match_length(data, j, i) ==> data[j + k] == #[trigger] data[i + k],
        i + match_length(data, j, i) < data.len() && j < i ==> data[j + match_length(data, j, i)]
            != data[i + match_length(data, j, i)],
    decreases data.len() - i,
{
    if 0 <= j && j < i && i < data.len() && data[j] == data[i] {
        lemma_match_length_bounds(data, j + 1, i + 1);
        let m = match_length(data, j, i);
        assert forall|k: int| 0 <= k < m implies data[j + k] == #[trigger] data[i + k] by {
            if k >= 1 {
                assert(data[(j + 1) + (k - 1)] == data[(i + 1) + (k - 1)]);
            }
        }
        if i + m < data.len() {
            assert(data[(j + 1) + (m - 1)] != data[(i + 1) + (m - 1)]);
        }
    }
}

proof fn lemma_match_length_at_least(data: Seq<u8>, j: int, i: int, m: int)
    requires
        0 <= j < i,
        i + m <= data.len(),
        0 <= m,
        forall|k: int| 0 <= k < m ==> data[j + k] == #[trigger] data[i + k],
    ensures
        match_length(data, j, i) >= m,
    decreases m,
{
    if m > 0 {
        assert(data[j + 0] == data[i + 0]);
        assert forall|k: int| 0 <= k < m - 1 implies data[(j + 1) + k] == #[trigger] data[(i + 1)
            + k] by {
            assert(data[j + (k + 1)] == data[i + (k + 1)]);
        }
        lemma_match_length_at_least(data, j + 1, i + 1, m - 1);
    }
}

proof fn lemma_best_distance_up_to(data: Seq<u8>, i: int, dmax: int)
    requires
        0 <= dmax <= i <= data.len(),
    ensures
        0 <= best_distance_up_to(data, i, dmax) <= dmax,
        best_distance_up_to(data, i, dmax) == 0 ==> best_length_up_to(data, i, dmax) == 0,
        best_distance_up_to(data, i, dmax) != 0 ==> best_length_up_to(data, i, dmax) >= 1,
        forall|d: int|
            1 <= d <= dmax ==> #[trigger] capped_match_length(data, i - d, i) <= best_length_up_to(
                data,
                i,
                dmax,
            ),
    decreases dmax,
{
    if dmax >= 1 {
        lemma_best_distance_up_to(data, i, dmax - 1);
    }
}

/// A well-formed token stream: whole tokens only, and every Reference has a
/// distance of at least 1 and a length of at least 3. (Distances and lengths
/// are at most 255 because they are single bytes.)
pub open spec fn lz_wf(s: Seq<u8>) -> bool
    decreases s.len(),
{
    if s.len() == 0 {
        true
    } else if s[0] == 0x00 {
        s.len() >= 2 && lz_wf(s.skip(2))
    } else {
        s[0] == 0x01 && s.len() >= 3 && s[1] >= 1 && s[2] >= 3 && lz_wf(s.skip(3))
    }
}

/// The token stream the encoder produces for the suffix of `data` at `i`:
/// a Reference to the best window match when it is longer than 2 bytes,
/// otherwise a Literal for the single byte at `i`.
pub open spec fn lz_encode_from(data: Seq<u8>, i: int) -> Seq<u8>
    decreases data.len() - i via lz_encode_from_decreases
{
    if !(0 <= i < data.len()) {
        Seq::empty()
    } else {
        let d = best_distance(data, i);
        let l = best_length(data, i) as int;
        if l > 2 {
            seq![1u8, d as u8, l as u8] + lz_encode_from(data, i + l)
        } else {
            seq![0u8, data[i]] + lz_encode_from(data, i + 1)
        }
    }
}

#[via_fn]
proof fn lz_encode_from_decreases(data: Seq<u8>, i: int) {
    if 0 <= i < data.len() {
        lemma_best_distance_up_to(data, i, window_limit(i));
        let d = best_distance(data, i);
        if d != 0 {
            lemma_match_length_bounds(data, i - d, i);
        }
    }
}

/// The token stream the encoder produces for `data`.
pub open spec fn lz_encode_spec(data: Seq<u8>) -> Seq<u8> {
    lz_encode_from(data, 0)
}

/// The output grown by copying `l` bytes one at a time, each taken `d` bytes
/// behind the current end of the output, as the decoder does for a Reference.
pub open spec fn back_copy(acc: Seq<u8>, d: int, l: nat) -> Seq<u8>
    recommends
        1 <= d <= acc.len(),
    decreases l,
{
    if l == 0 {
        acc
    } else {
        back_copy(acc.push(acc[acc.len() - d]), d, (l - 1) as nat)
    }
}

/// The result of decoding token stream `s` onto the output built so far,
/// `acc`: `None` when the stream is malformed (a truncated token, an
/// unrecognized tag, or a reference pointing at or before the start of the
/// output), otherwise `Some` of the final output.
pub open spec fn lz_decode_from(s: Seq<u8>, acc: Seq<u8>) -> Option<Seq<u8>>
    decreases s.len(),
{
    if s.len() == 0 {
        Some(acc)
    } else if s[0] == 0x00 {
        if s.len() < 2 {
            None
        } else {
            lz_decode_from(s.skip(2), acc.push(s[1]))
        }
    } else if s[0] == 0x01 {
        if s.len() < 3 {
            None
        } else if 1 <= s[1] && s[1] <= acc.len() {
            lz_decode_from(s.skip(3), back_copy(acc, s[1] as int, s[2] as nat))
        } else {
            None
        }
    } else {
        None
    }
}

/// The result of decoding token stream `s` from an empty output.
pub open spec fn lz_decode_spec(s: Seq<u8>) -> Option<Seq<u8>> {
    lz_decode_from(s, Seq::empty())
}

proof fn lemma_back_copy_step(acc: Seq<u8>, d: int, k: nat)
    requires
        1 <= d <= acc.len(),
    ensures
        back_copy(acc, d, k).len() == acc.len() + k,
        back_copy(acc, d, (k + 1) as nat) == back_copy(acc, d, k).push(
            back_copy(acc, d, k)[back_copy(acc, d, k).len() - d],
        ),
    decreases k,
{
    let acc1 = acc.push(acc[acc.len() - d]);
    assert(back_copy(acc, d, (k + 1) as nat) == back_copy(acc1, d, k));
    if k == 0 {
        assert(back_copy(acc1, d, 0) == acc1);
    } else {
        assert(back_copy(acc, d, k) == back_copy(acc1, d, (k - 1) as nat));
        lemma_back_copy_step(acc1, d, (k - 1) as nat);
    }
}

proof fn lemma_back_copy_extends(data: Seq<u8>, i: int, d: int, l: nat)
    requires
        1 <= d <= i,
        i + l <= data.len(),
        forall|k: int| 0 <= k < l ==> data[i - d + k] == #[trigger] data[i + k],
    ensures
        back_copy(data.take(i), d, l) == data.take(i + l),
    decreases l,
{
    if l > 0 {
        assert(data[i - d + 0] == data[i + 0]);
        assert(data.take(i)[i - d] == data[i - d]);
        assert(data.take(i).push(data[i - d]) =~= data.take(i + 1));
        assert forall|k: int| 0 <= k < l - 1 implies data[(i + 1) - d + k] == #[trigger] data[(i
            + 1) + k] by {
            assert(data[i - d + (k + 1)] == data[i + (k + 1)]);
        }
        lemma_back_copy_extends(data, i + 1, d, (l - 1) as nat);
    }
}

proof fn lemma_lz_encode_from_decodes(data: Seq<u8>, i: int)
    requires
        0 <= i <= data.len(),
    ensures
        lz_decode_from(lz_encode_from(data, i), data.take(i)) == Some(data),
    decreases data.len() - i,
{
    if i == data.len() {
        assert(data.take(i) =~= data);
    } else {
        lemma_best_distance_up_to(data, i, window_limit(i));
        let d = best_distance(data, i);
        let l = best_length(data, i) as int;
        let s = lz_encode_from(data, i);
        if l > 2 {
            lemma_match_length_bounds(data, i - d, i);
            assert(s[0] == 1u8 && s[1] == d as u8 && s[2] == l as u8);
            assert(s[1] as int == d && s[2] as int == l);
            assert(data.take(i).len() == i);
            lemma_back_copy_extends(data, i, d, l as nat);
            lemma_lz_encode_from_decodes(data, i + l);
            assert(s.skip(3) =~= lz_encode_from(data, i + l));
        } else {
            assert(s[0] == 0u8 && s[1] == data[i]);
            assert(data.take(i).push(data[i]) =~= data.take(i + 1));
            lemma_lz_encode_from_decodes(data, i + 1);
            assert(s.skip(2) =~= lz_encode_from(data, i + 1));
        }
    }
}

/// Round-trip law for the window codec: for every byte sequence, the
/// encoder's token stream decodes back to the original sequence.
pub proof fn lemma_lz77_round_trip(data: Seq<u8>)
    ensures
        lz_decode_spec(lz_encode_spec(data)) == Some(data),
{
    lemma_lz_encode_from_decodes(data, 0);
    assert(data.take(0) =~= Seq::<u8>::empty());
}

/// Well-formedness law: every token stream the encoder produces consists of
/// whole tokens whose References have distance at least 1 and length at
/// least 3.
pub proof fn lemma_lz_encode_wf(data: Seq<u8>, i: int)
    requires
        0 <= i <= data.len(),
    ensures
        lz_wf(lz_encode_from(data, i)),
    decreases data.len() - i,
{
    if i < data.len() {
        lemma_best_distance_up_to(data, i, window_limit(i));
        let d = best_distance(data, i);
        let l = best_length(data, i) as int;
        let s = lz_encode_from(data, i);
        if l > 2 {
            lemma_match_length_bounds(data, i - d, i);
            lemma_lz_encode_wf(data, i + l);
            assert(s.skip(3) =~= lz_encode_from(data, i + l));
        } else {
            lemma_lz_encode_wf(data, i + 1);
            assert(s.skip(2) =~= lz_encode_from(data, i + 1));
        }
    }
}

/// Field-limit law: the distance and length the encoder picks at any position
/// fit the one-byte wire fields — the distance is bounded by the window
/// limit, hence by 255, and the length by 255 — and the match stays inside
/// the buffer, so nothing is silently truncated when the token is emitted.
pub proof fn lemma_lz_field_limits(data: Seq<u8>, i: int)
    requires
        0 <= i < data.len(),
    ensures
        0 <= best_distance(data, i) <= window_limit(i) <= 255,
        best_distance(data, i) <= i,
        best_length(data, i) <= 255,
        i + best_length(data, i) <= data.len(),
{
    lemma_best_distance_up_to(data, i, window_limit(i));
    let d = best_distance(data, i);
    if d != 0 {
        lemma_match_length_bounds(data, i - d, i);
    }
}

/// Minimum-match law: the encoder emits a Reference token at position `i`
/// exactly when some window match of capped length at least 3 exists there;
/// a match of 2 bytes or fewer is never encoded as a Reference. When a
/// Reference is emitted, its fields are the best match's distance and length.
pub proof fn lemma_lz_min_match(data: Seq<u8>, i: int)
    requires
        0 <= i < data.len(),
    ensures
        lz_encode_from(data, i)[0] == 0x01 <==> (exists|d: int|
            1 <= d <= window_limit(i) && #[trigger] capped_match_length(data, i - d, i) > 2),
        lz_encode_from(data, i)[0] == 0x00 || lz_encode_from(data, i)[0] == 0x01,
        lz_encode_from(data, i)[0] == 0x01 ==> lz_encode_from(data, i)[1] == best_distance(data, i)
            && lz_encode_from(data, i)[2] == best_length(data, i),
        lz_encode_from(data, i)[0] == 0x00 ==> lz_encode_from(data, i)[1] == data[i],
{
    lemma_best_distance_up_to(data, i, window_limit(i));
    let d = best_distance(data, i);
    let l = best_length(data, i);
    if l > 2 {
        assert(capped_match_length(data, i - d, i) > 2);
    }
}

/// Encodes `data` with the window codec. Total: every input has an encoding,
/// the result is a well-formed token stream, and it decodes back to `data`.
pub fn compress_lz77(data: &[u8]) -> (r: Vec<u8>)
    ensures
        r@ == lz_encode_spec(data@),
        lz_wf(r@),
        lz_decode_spec(r@) == Some(data@),
{
    let n = data.len();
    let mut out: Vec<u8> = Vec::new();
    let mut i: usize = 0;
    proof {
        assert(Seq::<u8>::empty() + lz_encode_from(data@, 0) =~= lz_encode_from(data@, 0));
    }
    while i < n
        invariant
            n == data@.len(),
            i <= data@.len(),
            lz_encode_spec(data@) == out@ + lz_encode_from(data@, i as int),
        decreases data@.len() - i,
    {
        let window = if i < 255 {
            i
        } else {
            255
        };
        let mut best_d: usize = 0;
        let mut best_l: usize = 0;
        let mut d: usize = 1;
        while d <= window
            invariant
                n == data@.len(),
                i < data@.len(),
                window == window_limit(i as int),
                window <= i,
                1 <= d <= window + 1,
                best_d == best_distance_up_to(data@, i as int, d as int - 1),
                best_l == best_length_up_to(data@, i as int, d as int - 1),
                best_l <= 255,
                best_d <= window,
            decreases window + 1 - d,
        {
            let j = i - d;
            let mut l: usize = 0;
            while i + l < n && l < 255 && data[j + l] == data[i + l]
                invariant
                    n == data@.len(),
                    j + d == i,
                    1 <= d <= i,
                    i < data@.len(),
                    l <= 255,
                    i + l <= data@.len(),
                    forall|k: int| 0 <= k < l ==> data@[j + k] == #[trigger] data@[i + k],
                decreases data@.len() - i - l,
            {
                l = l + 1;
            }
            proof {
                lemma_match_length_bounds(data@, j as int, i as int);
                lemma_match_length_at_least(data@, j as int, i as int, l as int);
                let ml = match_length(data@, j as int, i as int);
                if l < 255 {
                    if i + l < data@.len() {
                        if ml > l {
                            assert(data@[j + l] == data@[i + l]);
                        }
                    }
                    assert(ml == l);
                }
                assert(capped_match_length(data@, j as int, i as int) == l);
            }
            if l > best_l {
                best_d = d;
                best_l = l;
            }
            d = d + 1;
        }
        proof {
            assert(best_d == best_distance(data@, i as int));
            assert(best_l == best_length(data@, i as int));
            lemma_lz_field_limits(data@, i as int);
        }
        let ghost out0 = out@;
        if best_l > 2 {
            out.push(0x01);
            out.push(best_d as u8);
            out.push(best_l as u8);
            proof {
                let tok = seq![1u8, best_d as u8, best_l as u8];
                assert(out@ =~= out0 + tok);
                assert(lz_encode_from(data@, i as int) == tok + lz_encode_from(
                    data@,
                    i as int + best_l,
                ));
                assert(out0 + (tok + lz_encode_from(data@, i as int + best_l)) =~= (out0 + tok)
                    + lz_encode_from(data@, i as int + best_l));
            }
            i = i + best_l;
        } else {
            out.push(0x00);
            out.push(data[i]);
            proof {
                let tok = seq![0u8, data@[i as int]];
                assert(out@ =~= out0 + tok);
                assert(lz_encode_from(data@, i as int) == tok + lz_encode_from(
                    data@,
                    i as int + 1,
                ));
                assert(out0 + (tok + lz_encode_from(data@, i as int + 1)) =~= (out0 + tok)
                    + lz_encode_from(data@, i as int + 1));
            }
            i = i + 1;
        }
    }
    proof {
        assert(out@ + Seq::<u8>::empty() =~= out@);
        lemma_lz_encode_wf(data@, 0);
        lemma_lz77_round_trip(data@);
    }
    out
}

/// Decodes a window-codec token stream. Succeeds exactly on streams of whole
/// tokens whose references stay inside the output built so far; a truncated
/// token, an unrecognized tag byte, or a reference reaching at or before the
/// start of the output is reported as malformed.
pub fn decompress_lz77(data: &[u8]) -> (r: Result<Vec<u8>, CodecError>)
    ensures
        (lz_decode_spec(data@) matches Some(o) ==> (r matches Ok(v) && v@ == o)),
        (lz_decode_spec(data@) is None ==> (r matches Err(e) && e
            == CodecError::MalformedStream)),
{
    let n = data.len();
    let mut out: Vec<u8> = Vec::new();
    let mut i: usize = 0;
    proof {
        assert(data@.skip(0) =~= data@);
    }
    while i < n
        invariant
            n == data@.len(),
            i <= data@.len(),
            lz_decode_spec(data@) == lz_decode_from(data@.skip(i as int), out@),
        decreases data@.len() - i,
    {
        let ghost s = data@.skip(i as int);
        proof {
            assert(s[0] == data@[i as int]);
        }
        let tag = data[i];
        if tag == 0x00 {
            if n - i < 2 {
                return Err(CodecError::MalformedStream);
            }
            out.push(data[i + 1]);
            proof {
                assert(s[1] == data@[i + 1]);
                assert(s.skip(2) =~= data@.skip(i + 2));
            }
            i = i + 2;
        } else if tag == 0x01 {
            if n - i < 3 {
                return Err(CodecError::MalformedStream);
            }
            let distance = data[i + 1] as usize;
            let length = data[i + 2] as usize;
            proof {
                assert(s[1] == data@[i + 1] && s[2] == data@[i + 2]);
            }
            if distance == 0 || distance > out.len() {
                return Err(CodecError::MalformedStream);
            }
            let ghost acc0 = out@;
            let mut k: usize = 0;
            while k < length
                invariant
                    k <= length,
                    1 <= distance <= acc0.len(),
                    out@ == back_copy(acc0, distance as int, k as nat),
                    out@.len() == acc0.len() + k,
                decreases length - k,
            {
                proof {
                    lemma_back_copy_step(acc0, distance as int, k as nat);
                }
                let b = out[out.len() - distance];
                out.push(b);
                k = k + 1;
            }
            proof {
                assert(s.skip(3) =~= data@.skip(i + 3));
            }
            i = i + 3;
        } else {
            return Err(CodecError::MalformedStream);
        }
    }
    proof {
        assert(data@.skip(data@.len() as int) =~= Seq::<u8>::empty());
    }
    Ok(out)
}

} // verus!
