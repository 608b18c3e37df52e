use rust_compressor::lz77::{compress_lz77, decompress_lz77};
use rust_compressor::CodecError;

#[test]
fn test_compress_lz77() {
    let input = b"ABABABAB";
    let compressed = compress_lz77(input);
    let decompressed = decompress_lz77(&compressed).unwrap();
    assert_eq!(input, decompressed.as_slice());
}

#[test]
fn test_compress_lz77_repeated_phrases() {
    let input = b"Hello Hello World World World";
    let compressed = compress_lz77(input);
    let decompressed = decompress_lz77(&compressed).unwrap();
    assert_eq!(input, decompressed.as_slice());
}

#[test]
fn test_compress_lz77_single_byte() {
    let input = b"A";
    let compressed = compress_lz77(input);
    let decompressed = decompress_lz77(&compressed).unwrap();
    assert_eq!(input, decompressed.as_slice());
}

#[test]
fn test_compress_lz77_empty() {
    let input = b"";
    let compressed = compress_lz77(input);
    let decompressed = decompress_lz77(&compressed).unwrap();
    assert_eq!(input, decompressed.as_slice());
}

#[test]
fn test_compress_lz77_binary() {
    let input = vec![0, 1, 2, 0, 1, 2, 3, 4, 5];
    let compressed = compress_lz77(&input);
    let decompressed = decompress_lz77(&compressed).unwrap();
    assert_eq!(input, decompressed);
}

#[test]
fn lz77_three_byte_match_becomes_reference() {
    let compressed = compress_lz77(b"ABCABC");
    assert_eq!(
        compressed,
        vec![0x00, b'A', 0x00, b'B', 0x00, b'C', 0x01, 3, 3]
    );
}

#[test]
fn lz77_two_byte_match_stays_literal() {
    let compressed = compress_lz77(b"ABAB");
    assert_eq!(
        compressed,
        vec![0x00, b'A', 0x00, b'B', 0x00, b'A', 0x00, b'B']
    );
}

#[test]
fn lz77_overlapping_reference() {
    // The match at position 2 overlaps itself: distance 2, length 6.
    let compressed = compress_lz77(b"ABABABAB");
    assert_eq!(compressed, vec![0x00, b'A', 0x00, b'B', 0x01, 2, 6]);
}

#[test]
fn lz77_long_run_fields_stay_in_one_byte() {
    // 300 equal bytes: the first match is capped at length 255 and split.
    let input = vec![0u8; 300];
    let compressed = compress_lz77(&input);
    assert_eq!(compressed, vec![0x00, 0, 0x01, 1, 255, 0x01, 1, 44]);
    let mut k = 0;
    while k < compressed.len() {
        if compressed[k] == 0x01 {
            assert!(compressed[k + 1] as usize <= 255 && compressed[k + 1] >= 1);
            assert!(compressed[k + 2] as usize <= 255 && compressed[k + 2] >= 3);
            k += 3;
        } else {
            k += 2;
        }
    }
    assert_eq!(decompress_lz77(&compressed).unwrap(), input);
}

#[test]
fn lz77_distant_repeat_beyond_window_round_trips() {
    // The repeat sits 400 bytes back, outside the 255-byte window, so it
    // cannot be referenced; the stream must still round-trip.
    let mut input = Vec::new();
    for k in 0..400u32 {
        input.push((k % 251) as u8);
    }
    input.extend_from_slice(&input.clone()[0..10]);
    let compressed = compress_lz77(&input);
    assert_eq!(decompress_lz77(&compressed).unwrap(), input);
}

#[test]
fn lz77_truncated_token_is_malformed() {
    assert_eq!(decompress_lz77(&[0x00]), Err(CodecError::MalformedStream));
    assert_eq!(decompress_lz77(&[0x01, 5]), Err(CodecError::MalformedStream));
    assert_eq!(
        decompress_lz77(&[0x00, b'A', 0x01]),
        Err(CodecError::MalformedStream)
    );
}

#[test]
fn lz77_unknown_tag_is_malformed() {
    assert_eq!(
        decompress_lz77(&[0x02, b'A']),
        Err(CodecError::MalformedStream)
    );
}

#[test]
fn lz77_reference_before_start_is_malformed() {
    // Distance 5 with only one byte of output so far.
    assert_eq!(
        decompress_lz77(&[0x00, b'A', 0x01, 5, 3]),
        Err(CodecError::MalformedStream)
    );
    // Distance 0 is never valid.
    assert_eq!(
        decompress_lz77(&[0x00, b'A', 0x01, 0, 1]),
        Err(CodecError::MalformedStream)
    );
}
