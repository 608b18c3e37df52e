use rust_compressor::file_type::{
    detect_by_extension, detect_file_type, detect_signature, suggest_algorithm,
    suggest_from_bytes,
};

#[test]
fn suggest_text_labels_pick_rle() {
    assert_eq!(suggest_algorithm("text/plain"), "rle");
    assert_eq!(suggest_algorithm("text/csv"), "rle");
    assert_eq!(suggest_algorithm("application/json"), "rle");
    assert_eq!(suggest_algorithm("application/xml"), "rle");
}

#[test]
fn suggest_binary_labels_pick_lz77() {
    assert_eq!(suggest_algorithm("image/png"), "lz77");
    assert_eq!(suggest_algorithm("application/zip"), "lz77");
    assert_eq!(suggest_algorithm("application/octet-stream"), "lz77");
}

#[test]
fn suggest_printable_bytes_pick_rle() {
    assert_eq!(suggest_from_bytes(b"Hello, world!\r\n\tDone."), "rle");
    assert_eq!(suggest_from_bytes(b""), "rle");
}

#[test]
fn suggest_control_bytes_pick_lz77() {
    assert_eq!(suggest_from_bytes(&[b'H', b'i', 0x00]), "lz77");
    assert_eq!(suggest_from_bytes(&[0xFF, 0xD8, 0xFF]), "lz77");
}

#[test]
fn signature_table_first_match_wins() {
    assert_eq!(detect_signature(&[0x89, 0x50, 0x4E, 0x47]), Some("image/png"));
    assert_eq!(detect_signature(&[0xEF, 0xBB, 0xBF, 0x41]), Some("text/plain"));
    assert_eq!(detect_signature(&[0xFF, 0xFE, 0x00, 0x00]), Some("text/plain"));
    assert_eq!(detect_signature(&[0xFF, 0xD8, 0xFF, 0xE0]), Some("image/jpeg"));
    assert_eq!(detect_signature(&[0x47, 0x49, 0x46, 0x38]), Some("image/gif"));
    assert_eq!(detect_signature(&[0x50, 0x4B, 0x03, 0x04]), Some("application/zip"));
    assert_eq!(detect_signature(&[0x1F, 0x8B, 0x08, 0x00]), Some("application/x-gzip"));
    assert_eq!(detect_signature(&[0x42, 0x5A, 0x68, 0x39]), Some("application/x-bzip2"));
    assert_eq!(detect_signature(&[0x00, 0x01, 0x02, 0x03]), None);
    assert_eq!(detect_signature(&[]), None);
}

#[test]
fn extension_lookup_is_case_insensitive() {
    assert_eq!(detect_by_extension("txt"), "text/plain");
    assert_eq!(detect_by_extension("TXT"), "text/plain");
    assert_eq!(detect_by_extension("JpEg"), "image/jpeg");
    assert_eq!(detect_by_extension("jpg"), "image/jpeg");
    assert_eq!(detect_by_extension("json"), "application/json");
    assert_eq!(detect_by_extension("gz"), "application/x-gzip");
    assert_eq!(detect_by_extension("nonsense"), "application/octet-stream");
    assert_eq!(detect_by_extension(""), "application/octet-stream");
}

#[test]
fn file_type_prefers_signature_over_extension() {
    assert_eq!(detect_file_type(&[0x89, 0x50, 0x4E, 0x47], "txt"), "image/png");
    assert_eq!(detect_file_type(&[0x00, 0x01, 0x02, 0x03], "json"), "application/json");
}
