use rust_compressor::lz77::compress_lz77;
use rust_compressor::rle::compress_rle;
use rust_compressor::{compress_with, decompress_with, CodecError};

#[test]
fn dispatch_compress_matches_codecs() {
    let data = b"AAAABBBCCDAA";
    assert_eq!(compress_with("rle", data), Ok(compress_rle(data)));
    assert_eq!(compress_with("lz77", data), Ok(compress_lz77(data)));
}

#[test]
fn dispatch_round_trips() {
    let data = b"Hello Hello World World World";
    let rle_stream = compress_with("rle", data).unwrap();
    assert_eq!(decompress_with("rle", &rle_stream).unwrap(), data);
    let lz_stream = compress_with("lz77", data).unwrap();
    assert_eq!(decompress_with("lz77", &lz_stream).unwrap(), data);
}

#[test]
fn dispatch_rejects_unknown_codec() {
    assert_eq!(compress_with("gzip", b"abc"), Err(CodecError::UnknownCodec));
    assert_eq!(compress_with("", b"abc"), Err(CodecError::UnknownCodec));
    assert_eq!(decompress_with("zip", &[0, 65]), Err(CodecError::UnknownCodec));
}

#[test]
fn dispatch_reports_malformed_streams() {
    assert_eq!(decompress_with("rle", &[7]), Err(CodecError::MalformedStream));
    assert_eq!(
        decompress_with("lz77", &[0x01, 1]),
        Err(CodecError::MalformedStream)
    );
}
