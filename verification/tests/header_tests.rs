//! Header-reader behavior on raw 80-byte cards and whole header blocks.

use fastfits::error::FitsError;
use fastfits::header::{find_header_int, read_headers, strip_fits_comment};

/// One 80-byte card with the key padded to 8 columns and `= value`.
fn card(key: &str, value: &str) -> Vec<u8> {
    let mut s = format!("{:<8}= {}", key, value).into_bytes();
    assert!(s.len() <= 80);
    s.resize(80, b' ');
    s
}

/// One 80-byte card holding raw text.
fn raw_card(text: &str) -> Vec<u8> {
    let mut s = text.as_bytes().to_vec();
    assert!(s.len() <= 80);
    s.resize(80, b' ');
    s
}

/// Pack cards (END appended) into whole 2880-byte blocks.
fn header_block(cards: &[Vec<u8>]) -> Vec<u8> {
    let mut out = Vec::new();
    for c in cards {
        out.extend_from_slice(c);
    }
    out.extend_from_slice(&raw_card("END"));
    while out.len() % 2880 != 0 {
        out.push(b' ');
    }
    out
}

#[test]
fn strip_comment_unquoted() {
    let r = strip_fits_comment(b"  16 / bits per sample ");
    assert_eq!(r, b"16".to_vec());
}

#[test]
fn strip_comment_quoted_keeps_slash_inside_string() {
    let r = strip_fits_comment(b"'a / b' / real comment");
    assert_eq!(r, b"'a / b'".to_vec());
}

#[test]
fn strip_comment_doubled_quote() {
    let r = strip_fits_comment(b"'O''HARA' / who");
    assert_eq!(r, b"'O''HARA'".to_vec());
}

#[test]
fn strip_comment_no_comment() {
    let r = strip_fits_comment(b"   42   ");
    assert_eq!(r, b"42".to_vec());
}

#[test]
fn strip_comment_unclosed_quote() {
    let r = strip_fits_comment(b"'abc");
    assert_eq!(r, b"'abc".to_vec());
}

#[test]
fn find_int_present() {
    let h = header_block(&[card("BITPIX", "                  16")]);
    assert_eq!(find_header_int(&h, b"BITPIX"), Some(16));
}

#[test]
fn find_int_missing() {
    let h = header_block(&[card("BITPIX", "                  16")]);
    assert_eq!(find_header_int(&h, b"NAXIS"), None);
}

#[test]
fn find_int_negative_and_comment() {
    let h = header_block(&[card("BITPIX", "                 -32 / float data")]);
    assert_eq!(find_header_int(&h, b"BITPIX"), Some(-32));
}

#[test]
fn find_int_not_a_number() {
    let h = header_block(&[card("OBJECT", "'M31'")]);
    assert_eq!(find_header_int(&h, b"OBJECT"), None);
}

#[test]
fn headers_sorted_and_unique() {
    let h = header_block(&[
        card("ZZZ", "3"),
        card("AAA", "1"),
        card("MMM", "2"),
        raw_card("COMMENT this is skipped"),
        raw_card("HISTORY so is this"),
    ]);
    let hdrs = read_headers(&h, 0).unwrap();
    let keys: Vec<&str> = hdrs.iter().map(|(k, _)| k.as_str()).collect();
    assert_eq!(keys, vec!["AAA", "MMM", "ZZZ"]);
    for w in keys.windows(2) {
        assert!(w[0] < w[1]);
    }
}

#[test]
fn headers_values_parsed() {
    let h = header_block(&[
        card("OBJECT", "'NGC 7000 '          / target"),
        card("OWNER", "'O''HARA'"),
        card("EXPTIME", "120 / seconds"),
        raw_card("PLAINKEY  just text"),
    ]);
    let hdrs = read_headers(&h, 0).unwrap();
    let get = |k: &str| {
        hdrs.iter()
            .find(|(key, _)| key == k)
            .map(|(_, v)| v.clone())
            .unwrap()
    };
    assert_eq!(get("OBJECT"), "NGC 7000");
    assert_eq!(get("OWNER"), "O'HARA");
    assert_eq!(get("EXPTIME"), "120");
    assert_eq!(get("PLAINKEY"), "just text");
}

#[test]
fn headers_no_end_card_is_format_error() {
    // One full block without an END record.
    let mut h = Vec::new();
    h.extend_from_slice(&card("BITPIX", "8"));
    while h.len() < 2880 {
        h.push(b' ');
    }
    assert_eq!(read_headers(&h, 0), Err(FitsError::FormatError));
}

#[test]
fn headers_truncated_block_is_file_error() {
    // A partial block: fewer than 2880 bytes.
    let h = card("BITPIX", "8");
    assert_eq!(read_headers(&h, 0), Err(FitsError::FileError));
}

#[test]
fn headers_second_hdu() {
    // Primary HDU with no data (NAXIS = 0), then an extension header.
    let mut file = header_block(&[card("NAXIS", "0"), card("BITPIX", "8")]);
    file.extend_from_slice(&header_block(&[card("EXTKEY", "7")]));
    let hdrs = read_headers(&file, 1).unwrap();
    assert!(hdrs.iter().any(|(k, v)| k == "EXTKEY" && v == "7"));
    // Asking past the end of the file fails cleanly.
    assert_eq!(read_headers(&file, 2), Err(FitsError::FormatError));
}
