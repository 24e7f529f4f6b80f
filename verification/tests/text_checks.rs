//! Exact values of the byte-string helpers: tokenization, address
//! extraction, decimal rendering and index parsing.

use temp_mail::text::{append_dec, extract_addr, parse_index, to_upper, tokenize};

#[test]
fn tokenize_splits_on_spaces_and_tabs() {
    let toks = tokenize(b"  a1 LOGIN\tuser  pass ");
    assert_eq!(
        toks,
        vec![b"a1".to_vec(), b"LOGIN".to_vec(), b"user".to_vec(), b"pass".to_vec()]
    );
    assert_eq!(tokenize(b""), Vec::<Vec<u8>>::new());
    assert_eq!(tokenize(b"   "), Vec::<Vec<u8>>::new());
}

#[test]
fn verbs_match_case_insensitively() {
    assert_eq!(to_upper(b"hElO"), b"HELO".to_vec());
    assert_eq!(to_upper(b"123 x@Y"), b"123 X@Y".to_vec());
}

#[test]
fn address_extraction_strips_spaces_and_angles() {
    assert_eq!(extract_addr(b"<x@y>"), b"x@y".to_vec());
    assert_eq!(extract_addr(b"  <x@y>  "), b"x@y".to_vec());
    assert_eq!(extract_addr(b" x@y"), b"x@y".to_vec());
    assert_eq!(extract_addr(b"<>"), b"".to_vec());
    assert_eq!(extract_addr(b""), b"".to_vec());
}

#[test]
fn decimal_rendering_is_exact() {
    let mut v: Vec<u8> = b"n=".to_vec();
    append_dec(&mut v, 0);
    append_dec(&mut v, 42);
    append_dec(&mut v, 10070);
    assert_eq!(v, b"n=04210070".to_vec());
}

#[test]
fn index_parsing_accepts_only_short_digit_strings() {
    assert_eq!(parse_index(b"1"), Some(1));
    assert_eq!(parse_index(b"007"), Some(7));
    assert_eq!(parse_index(b"123456789"), Some(123456789));
    assert_eq!(parse_index(b""), None);
    assert_eq!(parse_index(b"12x"), None);
    assert_eq!(parse_index(b"-3"), None);
    assert_eq!(parse_index(b"1234567890"), None);
}
