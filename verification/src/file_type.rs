//! Codec selection heuristics: file-type detection from magic-number
//! prefixes and from file extensions, and codec suggestion from a MIME-type
//! label or from raw content shape. The detection tables are fixed: an
//! ordered magic-number table checked first-match-first, and a
//! case-insensitive extension table as fallback.

use vstd::prelude::*;
use vstd::string::StringSliceAdditionalSpecFns;

verus! {

/// True when `p` is a prefix of `s`.
pub open spec fn has_prefix(s: Seq<u8>, p: Seq<u8>) -> bool {
    s.len() >= p.len() && s.subrange(0, p.len() as int) == p
}

/// True when `label` names a text-like MIME type: any `text/*` type, JSON,
/// or XML. Such content tends to repeat bytes and favours run-length coding.
pub open spec fn label_prefers_rle(label: Seq<u8>) -> bool {
    ||| has_prefix(label, "text/".spec_bytes())
    ||| label == "application/json".spec_bytes()
    ||| label == "application/xml".spec_bytes()
}

/// True for bytes that printable-ASCII text is made of: the graphic ASCII
/// range, space, tab, line feed, form feed, and carriage return.
pub open spec fn is_text_byte(b: u8) -> bool {
    (0x21 <= b && b <= 0x7E) || b == 0x20 || b == 0x09 || b == 0x0A || b == 0x0C || b == 0x0D
}

/// True when every byte of `s` is a text byte (vacuously true of the empty
/// buffer).
pub open spec fn all_text_bytes(s: Seq<u8>) -> bool {
    forall|k: int| 0 <= k < s.len() ==> is_text_byte(#[trigger] s[k])
}

/// ASCII lowercasing of one byte.
pub open spec fn lower_byte(b: u8) -> u8 {
    if 0x41 <= b && b <= 0x5A {
        (b + 0x20) as u8
    } else {
        b
    }
}

/// ASCII lowercasing of a byte sequence.
pub open spec fn lower_bytes(s: Seq<u8>) -> Seq<u8> {
    s.map_values(|b: u8| lower_byte(b))
}

/// True when the first two bytes of `b` are `x0, x1`.
pub open spec fn matches_sig2(b: Seq<u8>, x0: u8, x1: u8) -> bool {
    b.len() >= 2 && b[0] == x0 && b[1] == x1
}

/// True when the first three bytes of `b` are `x0, x1, x2`.
pub open spec fn matches_sig3(b: Seq<u8>, x0: u8, x1: u8, x2: u8) -> bool {
    b.len() >= 3 && b[0] == x0 && b[1] == x1 && b[2] == x2
}

/// True when the first four bytes of `b` are `x0, x1, x2, x3`.
pub open spec fn matches_sig4(b: Seq<u8>, x0: u8, x1: u8, x2: u8, x3: u8) -> bool {
    b.len() >= 4 && b[0] == x0 && b[1] == x1 && b[2] == x2 && b[3] == x3
}

/// The MIME-type label for the first magic-number signature that matches the
/// start of `b`, or `None` when none does. The order is significant for
/// signatures that share leading bytes: byte-order marks first, then image,
/// then archive formats.
pub open spec fn signature_label(b: Seq<u8>) -> Option<Seq<char>> {
    if matches_sig3(b, 0xEF, 0xBB, 0xBF) {
        Some("text/plain"@)
    } else if matches_sig2(b, 0xFF, 0xFE) {
        Some("text/plain"@)
    } else if matches_sig2(b, 0xFE, 0xFF) {
        Some("text/plain"@)
    } else if matches_sig4(b, 0x89, 0x50, 0x4E, 0x47) {
        Some("image/png"@)
    } else if matches_sig3(b, 0xFF, 0xD8, 0xFF) {
        Some("image/jpeg"@)
    } else if matches_sig4(b, 0x47, 0x49, 0x46, 0x38) {
        Some("image/gif"@)
    } else if matches_sig4(b, 0x50, 0x4B, 0x03, 0x04) {
        Some("application/zip"@)
    } else if matches_sig2(b, 0x1F, 0x8B) {
        Some("application/x-gzip"@)
    } else if matches_sig3(b, 0x42, 0x5A, 0x68) {
        Some("application/x-bzip2"@)
    } else {
        None
    }
}

/// The MIME-type label for a file extension, compared case-insensitively;
/// unknown extensions map to the generic binary label.
pub open spec fn extension_label(ext: Seq<u8>) -> Seq<char> {
    let e = lower_bytes(ext);
    if e == "txt".spec_bytes() {
        "text/plain"@
    } else if e == "csv".spec_bytes() {
        "text/csv"@
    } else if e == "json".spec_bytes() {
        "application/json"@
    } else if e == "xml".spec_bytes() {
        "application/xml"@
    } else if e == "html".spec_bytes() {
        "text/html"@
    } else if e == "css".spec_bytes() {
        "text/css"@
    } else if e == "js".spec_bytes() {
        "application/javascript"@
    } else if e == "png".spec_bytes() {
        "image/png"@
    } else if e == "jpg".spec_bytes() || e == "jpeg".spec_bytes() {
        "image/jpeg"@
    } else if e == "gif".spec_bytes() {
        "image/gif"@
    } else if e == "zip".spec_bytes() {
        "application/zip"@
    } else if e == "gz".spec_bytes() {
        "application/x-gzip"@
    } else if e == "bz2".spec_bytes() {
        "application/x-bzip2"@
    } else {
        "application/octet-stream"@
    }
}

pub(crate) fn bytes_eq(a: &[u8], b: &[u8]) -> (r: bool)
    ensures
        r == (a@ == b@),
{
    if a.len() != b.len() {
        return false;
    }
    let n = a.len();
    let mut k: usize = 0;
    while k < n
        invariant
            n == a@.len() == b@.len(),
            k <= n,
            forall|t: int| 0 <= t < k ==> a@[t] == #[trigger] b@[t],
        decreases n - k,
    {
        if a[k] != b[k] {
            return false;
        }
        k = k + 1;
    }
    proof {
        assert(a@ =~= b@);
    }
    true
}

fn bytes_has_prefix(s: &[u8], p: &[u8]) -> (r: bool)
    ensures
        r == has_prefix(s@, p@),
{
    if s.len() < p.len() {
        return false;
    }
    let n = p.len();
    let mut k: usize = 0;
    while k < n
        invariant
            n == p@.len(),
            n <= s@.len(),
            k <= n,
            forall|t: int| 0 <= t < k ==> s@[t] == #[trigger] p@[t],
        decreases n - k,
    {
        if s[k] != p[k] {
            proof {
                if has_prefix(s@, p@) {
                    assert(s@.subrange(0, p@.len() as int)[k as int] == p@[k as int]);
                }
            }
            return false;
        }
        k = k + 1;
    }
    proof {
        assert(s@.subrange(0, p@.len() as int) =~= p@);
    }
    true
}

fn sig2(b: &[u8], x0: u8, x1: u8) -> (r: bool)
    ensures
        r == matches_sig2(b@, x0, x1),
{
    b.len() >= 2 && b[0] == x0 && b[1] == x1
}

fn sig3(b: &[u8], x0: u8, x1: u8, x2: u8) -> (r: bool)
    ensures
        r == matches_sig3(b@, x0, x1, x2),
{
    b.len() >= 3 && b[0] == x0 && b[1] == x1 && b[2] == x2
}

fn sig4(b: &[u8], x0: u8, x1: u8, x2: u8, x3: u8) -> (r: bool)
    ensures
        r == matches_sig4(b@, x0, x1, x2, x3),
{
    b.len() >= 4 && b[0] == x0 && b[1] == x1 && b[2] == x2 && b[3] == x3
}

/// Detects a MIME-type label from the magic-number bytes at the start of a
/// buffer. The table is ordered; the first matching signature wins.
pub fn detect_signature(prefix: &[u8]) -> (r: Option<&'static str>)
    ensures
        (r matches Some(l) ==> signature_label(prefix@) == Some(l@)),
        (r is None ==> signature_label(prefix@) is None),
{
    if sig3(prefix, 0xEF, 0xBB, 0xBF) {
        Some("text/plain")
    } else if sig2(prefix, 0xFF, 0xFE) {
        Some("text/plain")
    } else if sig2(prefix, 0xFE, 0xFF) {
        Some("text/plain")
    } else if sig4(prefix, 0x89, 0x50, 0x4E, 0x47) {
        Some("image/png")
    } else if sig3(prefix, 0xFF, 0xD8, 0xFF) {
        Some("image/jpeg")
    } else if sig4(prefix, 0x47, 0x49, 0x46, 0x38) {
        Some("image/gif")
    } else if sig4(prefix, 0x50, 0x4B, 0x03, 0x04) {
        Some("application/zip")
    } else if sig2(prefix, 0x1F, 0x8B) {
        Some("application/x-gzip")
    } else if sig3(prefix, 0x42, 0x5A, 0x68) {
        Some("application/x-bzip2")
    } else {
        None
    }
}

/// Maps a file extension (written without its leading dot) to a MIME-type
/// label, case-insensitively; unknown extensions map to the generic binary
/// label.
pub fn detect_by_extension(extension: &str) -> (r: &'static str)
    ensures
        r@ == extension_label(extension.spec_bytes()),
{
    let b = extension.as_bytes();
    let n = b.len();
    let mut low: Vec<u8> = Vec::new();
    let mut k: usize = 0;
    proof {
        assert(lower_bytes(b@.take(0)) =~= Seq::<u8>::empty());
    }
    while k < n
        invariant
            n == b@.len(),
            k <= n,
            low@ == lower_bytes(b@.take(k as int)),
        decreases n - k,
    {
        let c = b[k];
        let lc = if 0x41 <= c && c <= 0x5A {
            c + 0x20
        } else {
            c
        };
        low.push(lc);
        proof {
            assert(lower_bytes(b@.take(k + 1)) =~= lower_bytes(b@.take(k as int)).push(
                lower_byte(b@[k as int]),
            ));
        }
        k = k + 1;
    }
    proof {
        assert(b@.take(n as int) =~= b@);
    }
    if bytes_eq(low.as_slice(), "txt".as_bytes()) {
        "text/plain"
    } else if bytes_eq(low.as_slice(), "csv".as_bytes()) {
        "text/csv"
    } else if bytes_eq(low.as_slice(), "json".as_bytes()) {
        "application/json"
    } else if bytes_eq(low.as_slice(), "xml".as_bytes()) {
        "application/xml"
    } else if bytes_eq(low.as_slice(), "html".as_bytes()) {
        "text/html"
    } else if bytes_eq(low.as_slice(), "css".as_bytes()) {
        "text/css"
    } else if bytes_eq(low.as_slice(), "js".as_bytes()) {
        "application/javascript"
    } else if bytes_eq(low.as_slice(), "png".as_bytes()) {
        "image/png"
    } else if bytes_eq(low.as_slice(), "jpg".as_bytes()) {
        "image/jpeg"
    } else if bytes_eq(low.as_slice(), "jpeg".as_bytes()) {
        "image/jpeg"
    } else if bytes_eq(low.as_slice(), "gif".as_bytes()) {
        "image/gif"
    } else if bytes_eq(low.as_slice(), "zip".as_bytes()) {
        "application/zip"
    } else if bytes_eq(low.as_slice(), "gz".as_bytes()) {
        "application/x-gzip"
    } else if bytes_eq(low.as_slice(), "bz2".as_bytes()) {
        "application/x-bzip2"
    } else {
        "application/octet-stream"
    }
}

/// Detects a file's MIME-type label from the magic-number bytes read at the
/// start of the file, falling back to the file's extension when no signature
/// matches.
pub fn detect_file_type(prefix: &[u8], extension: &str) -> (r: &'static str)
    ensures
        (signature_label(prefix@) matches Some(l) ==> r@ == l),
        (signature_label(prefix@) is None ==> r@ == extension_label(extension.spec_bytes())),
{
    match detect_signature(prefix) {
        Some(label) => label,
        None => detect_by_extension(extension),
    }
}

/// Suggests the codec for a MIME-type label: run-length coding for text-like
/// labels (any `text/*` type, JSON, XML), the window codec for everything
/// else.
pub fn suggest_algorithm(mime_type: &str) -> (r: &'static str)
    ensures
        r@ == (if label_prefers_rle(mime_type.spec_bytes()) {
            "rle"@
        } else {
            "lz77"@
        }),
{
    let b = mime_type.as_bytes();
    if bytes_has_prefix(b, "text/".as_bytes()) || bytes_eq(b, "application/json".as_bytes())
        || bytes_eq(b, "application/xml".as_bytes()) {
        "rle"
    } else {
        "lz77"
    }
}

/// Suggests the codec from raw content shape, for when no file name or
/// signature bytes are available: run-length coding when every byte is
/// printable ASCII or ASCII whitespace (the empty buffer included), the
/// window codec as soon as any other byte appears.
pub fn suggest_from_bytes(data: &[u8]) -> (r: &'static str)
    ensures
        r@ == (if all_text_bytes(data@) {
            "rle"@
        } else {
            "lz77"@
        }),
{
    let n = data.len();
    let mut k: usize = 0;
    while k < n
        invariant
            n == data@.len(),
            k <= n,
            forall|t: int| 0 <= t < k ==> is_text_byte(#[trigger] data@[t]),
        decreases n - k,
    {
        let b = data[k];
        if !((0x21 <= b && b <= 0x7E) || b == 0x20 || b == 0x09 || b == 0x0A || b == 0x0C || b
            == 0x0D) {
            proof {
                assert(!is_text_byte(data@[k as int]));
            }
            return "lz77";
        }
        k = k + 1;
    }
    "rle"
}

} // verus!
