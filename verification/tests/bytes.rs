use whitespace_sifter::encoding::string_from_utf8;
use whitespace_sifter::sift::{
    extend_from_range, sift_preallocated, sift_trim_end, sift_trim_start,
};
use whitespace_sifter::sift_preserve_newlines::sift_preallocated_until_newline;

#[test]
fn extend_from_range_appends_the_range() {
    let mut out: Vec<u8> = b"ab".to_vec();
    extend_from_range(&mut out, b"01234", 1, 4);
    assert_eq!(out, b"ab123");
    extend_from_range(&mut out, b"01234", 2, 2);
    assert_eq!(out, b"ab123");
}

#[test]
fn trim_start_skips_whitespace_and_copies_one_character() {
    let input = " \t\r\n\x0Cab".as_bytes();
    let mut ind: usize = 0;
    let mut out: Vec<u8> = Vec::new();
    sift_trim_start(input, &mut ind, &mut out);
    assert_eq!(ind, 6);
    assert_eq!(out, b"a");
}

#[test]
fn trim_start_copies_a_multi_byte_character_whole() {
    let input = "x  \u{20ac}y".as_bytes();
    let mut ind: usize = 1;
    let mut out: Vec<u8> = b">".to_vec();
    sift_trim_start(input, &mut ind, &mut out);
    assert_eq!(ind, 6);
    assert_eq!(out, ">\u{20ac}".as_bytes());
}

#[test]
fn trim_start_on_whitespace_only_reaches_the_end() {
    let input = " \n ".as_bytes();
    let mut ind: usize = 0;
    let mut out: Vec<u8> = Vec::new();
    sift_trim_start(input, &mut ind, &mut out);
    assert_eq!(ind, 3);
    assert!(out.is_empty());
    sift_trim_start(input, &mut ind, &mut out);
    assert_eq!(ind, 3);
    assert!(out.is_empty());
}

#[test]
fn trim_end_removes_one_byte_if_told() {
    let mut out: Vec<u8> = b"ab ".to_vec();
    sift_trim_end(&mut out, false);
    assert_eq!(out, b"ab ");
    sift_trim_end(&mut out, true);
    assert_eq!(out, b"ab");
}

#[test]
fn sift_preallocated_appends_to_what_is_there() {
    let mut out: Vec<u8> = b"[".to_vec();
    sift_preallocated("  a \t b\r\n\nc  ".as_bytes(), &mut out);
    assert_eq!(out, b"[a b\r\nc");
    sift_preallocated(" \n".as_bytes(), &mut out);
    assert_eq!(out, b"[a b\r\nc");
    sift_preallocated("".as_bytes(), &mut out);
    assert_eq!(out, b"[a b\r\nc");
}

#[test]
fn until_newline_takes_one_line_at_a_time() {
    let input = " \n a  b \r\n\n\tc\nd ".as_bytes();
    let mut ind: usize = 0;
    let mut out: Vec<u8> = Vec::new();
    sift_preallocated_until_newline(input, &mut ind, &mut out);
    assert_eq!(ind, 10);
    assert_eq!(out, b"a b\r\n");
    sift_preallocated_until_newline(input, &mut ind, &mut out);
    assert_eq!(ind, 14);
    assert_eq!(out, b"a b\r\nc\n");
    sift_preallocated_until_newline(input, &mut ind, &mut out);
    assert_eq!(ind, input.len());
    assert_eq!(out, b"a b\r\nc\nd");
    sift_preallocated_until_newline(input, &mut ind, &mut out);
    assert_eq!(ind, input.len());
    assert_eq!(out, b"a b\r\nc\nd");
}

#[test]
fn until_newline_takes_the_carriage_return_from_the_input() {
    let input = "a\r \nb \r\n".as_bytes();
    let mut ind: usize = 0;
    let mut out: Vec<u8> = Vec::new();
    sift_preallocated_until_newline(input, &mut ind, &mut out);
    assert_eq!(ind, 4);
    assert_eq!(out, b"a\n");
    sift_preallocated_until_newline(input, &mut ind, &mut out);
    assert_eq!(ind, 8);
    assert_eq!(out, b"a\nb\r\n");
}

#[test]
fn string_from_utf8_keeps_the_bytes() {
    let s = string_from_utf8("a\u{e9}\u{1f680}".as_bytes().to_vec());
    assert_eq!(s, "a\u{e9}\u{1f680}");
    assert_eq!(string_from_utf8(Vec::new()), "");
}
