use rust_compressor::rle::{compress_rle, decompress_rle};
use rust_compressor::CodecError;

#[test]
fn test_compress_rle() {
    let input = b"AAAABBBCCDAA";
    let compressed = compress_rle(input);
    let decompressed = decompress_rle(&compressed).unwrap();
    assert_eq!(input, decompressed.as_slice());
}

#[test]
fn test_compress_rle_binary() {
    let input = vec![0, 0, 0, 1, 1, 2, 2, 2, 2];
    let compressed = compress_rle(&input);
    let decompressed = decompress_rle(&compressed).unwrap();
    assert_eq!(input, decompressed);
}

#[test]
fn test_compress_rle_single_byte() {
    let input = b"A";
    let compressed = compress_rle(input);
    let decompressed = decompress_rle(&compressed).unwrap();
    assert_eq!(input, decompressed.as_slice());
}

#[test]
fn test_compress_rle_empty() {
    let input = b"";
    let compressed = compress_rle(input);
    let decompressed = decompress_rle(&compressed).unwrap();
    assert_eq!(input, decompressed.as_slice());
}

#[test]
fn rle_exact_pairs() {
    let compressed = compress_rle(b"AAAABBBCCDAA");
    assert_eq!(compressed, vec![4, b'A', 3, b'B', 2, b'C', 1, b'D', 2, b'A']);
}

#[test]
fn rle_run_of_255_is_one_pair() {
    let input = vec![7u8; 255];
    let compressed = compress_rle(&input);
    assert_eq!(compressed, vec![255, 7]);
    assert_eq!(decompress_rle(&compressed).unwrap(), input);
}

#[test]
fn rle_run_of_256_splits_into_two_pairs() {
    let input = vec![7u8; 256];
    let compressed = compress_rle(&input);
    assert_eq!(compressed, vec![255, 7, 1, 7]);
    assert_eq!(decompress_rle(&compressed).unwrap(), input);
}

#[test]
fn rle_long_run_round_trip() {
    let input = vec![9u8; 1000];
    let compressed = compress_rle(&input);
    assert_eq!(compressed.len() % 2, 0);
    assert_eq!(decompress_rle(&compressed).unwrap(), input);
}

#[test]
fn rle_odd_length_stream_is_malformed() {
    assert_eq!(decompress_rle(&[5]), Err(CodecError::MalformedStream));
    assert_eq!(decompress_rle(&[3, b'A', 2]), Err(CodecError::MalformedStream));
}

#[test]
fn rle_zero_count_pair_decodes_to_nothing() {
    assert_eq!(decompress_rle(&[0, b'A']), Ok(vec![]));
}
