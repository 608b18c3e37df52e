//! Byte-stream compression: a run-length codec, a sliding-window (LZ77-style)
//! codec, and a heuristic selector that picks a codec for a given input.

use vstd::prelude::*;
use vstd::string::StringSliceAdditionalSpecFns;

pub mod file_type;
pub mod lz77;
pub mod rle;

verus! {

/// Errors reported by the codecs and the codec dispatcher.
#[derive(PartialEq, Eq, Structural, Clone, Copy, Debug)]
pub enum CodecError {
    /// The encoded stream is truncated, has an unrecognized token tag, or a
    /// back-reference points before the start of the output.
    MalformedStream,
    /// A computed field (distance, length, or run count) exceeds the wire
    /// format's fixed one-byte width. The encoders here split and cap runs and
    /// matches, so they never report this; it is part of the error model for
    /// configurations without a clamp/split policy.
    UnsupportedField,
    /// A codec identifier other than `rle` or `lz77` was requested.
    UnknownCodec,
}

/// Compresses `data` with the named codec: `rle` or `lz77`. Any other
/// identifier is rejected. Compression itself never fails.
pub fn compress_with(algorithm: &str, data: &[u8]) -> (r: Result<Vec<u8>, CodecError>)
    ensures
        algorithm.spec_bytes() == "rle".spec_bytes() ==> (r matches Ok(v) && v@
            == rle::rle_encode_spec(data@)),
        algorithm.spec_bytes() != "rle".spec_bytes() && algorithm.spec_bytes()
            == "lz77".spec_bytes() ==> (r matches Ok(v) && v@ == lz77::lz_encode_spec(data@)),
        algorithm.spec_bytes() != "rle".spec_bytes() && algorithm.spec_bytes()
            != "lz77".spec_bytes() ==> (r matches Err(e) && e == CodecError::UnknownCodec),
{
    let b = algorithm.as_bytes();
    if file_type::bytes_eq(b, "rle".as_bytes()) {
        Ok(rle::compress_rle(data))
    } else if file_type::bytes_eq(b, "lz77".as_bytes()) {
        Ok(lz77::compress_lz77(data))
    } else {
        Err(CodecError::UnknownCodec)
    }
}

/// Decompresses `data` with the named codec: `rle` or `lz77`. Any other
/// identifier is rejected; a malformed stream is reported by the codec.
pub fn decompress_with(algorithm: &str, data: &[u8]) -> (r: Result<Vec<u8>, CodecError>)
    ensures
        algorithm.spec_bytes() == "rle".spec_bytes() && data@.len() % 2 == 0 ==> (r matches Ok(v)
            && v@ == rle::rle_decode_spec(data@)),
        algorithm.spec_bytes() == "rle".spec_bytes() && data@.len() % 2 != 0 ==> (r matches Err(e)
            && e == CodecError::MalformedStream),
        algorithm.spec_bytes() != "rle".spec_bytes() && algorithm.spec_bytes()
            == "lz77".spec_bytes() ==> ((lz77::lz_decode_spec(data@) matches Some(o) ==> (
        r matches Ok(v) && v@ == o)) && (lz77::lz_decode_spec(data@) is None ==> (r matches Err(e)
            && e == CodecError::MalformedStream))),
        algorithm.spec_bytes() != "rle".spec_bytes() && algorithm.spec_bytes()
            != "lz77".spec_bytes() ==> (r matches Err(e) && e == CodecError::UnknownCodec),
{
    let b = algorithm.as_bytes();
    if file_type::bytes_eq(b, "rle".as_bytes()) {
        rle::decompress_rle(data)
    } else if file_type::bytes_eq(b, "lz77".as_bytes()) {
        lz77::decompress_lz77(data)
    } else {
        Err(CodecError::UnknownCodec)
    }
}

} // verus!
