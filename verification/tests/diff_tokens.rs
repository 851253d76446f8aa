use std::ops::Range;

use jj_lib::diff::find_line_ranges;
use jj_lib::diff::find_nonword_ranges;
use jj_lib::diff::find_word_ranges;
use jj_lib::diff::CompareBytesIgnoreAllWhitespace;
use jj_lib::diff::CompareBytesIgnoreWhitespaceAmount;
use jj_lib::diff::WordComparator;

fn no_ranges() -> Vec<Range<usize>> {
    vec![]
}

#[test]
fn test_find_line_ranges_empty() {
    assert_eq!(find_line_ranges(b""), no_ranges());
}

#[test]
fn test_find_line_ranges_blank_line() {
    assert_eq!(find_line_ranges(b"\n"), vec![0..1]);
}

#[test]
fn test_find_line_ranges_missing_newline_at_eof() {
    assert_eq!(find_line_ranges(b"foo"), vec![0..3]);
}

#[test]
fn test_find_line_ranges_multiple_lines() {
    assert_eq!(find_line_ranges(b"a\nbb\nccc\n"), vec![0..2, 2..5, 5..9]);
}

#[test]
fn test_find_word_ranges_empty() {
    assert_eq!(find_word_ranges(b""), no_ranges());
}

#[test]
fn test_find_word_ranges_single_word() {
    assert_eq!(find_word_ranges(b"Abc"), vec![0..3]);
}

#[test]
fn test_find_word_ranges_no_word() {
    assert_eq!(find_word_ranges(b"+-*/"), no_ranges());
}

#[test]
fn test_find_word_ranges_word_then_non_word() {
    assert_eq!(find_word_ranges(b"Abc   "), vec![0..3]);
}

#[test]
fn test_find_word_ranges_non_word_then_word() {
    assert_eq!(find_word_ranges(b"   Abc"), vec![3..6]);
}

#[test]
fn test_find_word_ranges_multibyte() {
    assert_eq!(find_word_ranges("⊢".as_bytes()), vec![0..3]);
}

#[test]
fn test_find_word_ranges_many_words() {
    assert_eq!(
        find_word_ranges(b"fn find_words(text: &[u8])"),
        vec![0..2, 3..13, 14..18, 22..24]
    );
}

#[test]
fn test_find_nonword_ranges_between_words() {
    assert_eq!(find_nonword_ranges(b"a+b c"), vec![1..2, 3..4]);
    assert_eq!(find_nonword_ranges(b""), no_ranges());
    assert_eq!(find_nonword_ranges(b"ab_9"), no_ranges());
    assert_eq!(find_nonword_ranges("⊢ ".as_bytes()), vec![3..4]);
}

#[test]
fn test_compare_bytes_ignore_all_whitespace() {
    let comp = WordComparator::new(CompareBytesIgnoreAllWhitespace);
    let hash = |data: &[u8]| comp.hash_one(data);

    assert!(comp.eq(b"", b""));
    assert!(comp.eq(b"", b" "));
    assert!(comp.eq(b"\t", b"\r"));
    assert_eq!(hash(b""), hash(b""));
    assert_eq!(hash(b""), hash(b" "));
    assert_eq!(hash(b""), hash(b"\t"));
    assert_eq!(hash(b""), hash(b"\r"));

    assert!(comp.eq(b"ab", b" a  b\t"));
    assert_eq!(hash(b"ab"), hash(b" a  b\t"));

    assert!(!comp.eq(b"a", b""));
    assert!(!comp.eq(b"a", b" "));
    assert!(!comp.eq(b"a", b"ab"));
    assert!(!comp.eq(b"ab", b"ba"));
}

#[test]
fn test_compare_bytes_ignore_whitespace_amount() {
    let comp = WordComparator::new(CompareBytesIgnoreWhitespaceAmount);
    let hash = |data: &[u8]| comp.hash_one(data);

    assert!(comp.eq(b"", b""));
    assert!(comp.eq(b"\n", b" \n"));
    assert!(comp.eq(b"\t", b"\r"));
    assert_eq!(hash(b""), hash(b""));
    assert_eq!(hash(b" "), hash(b"\n"));
    assert_eq!(hash(b" "), hash(b" \n"));
    assert_eq!(hash(b" "), hash(b"\t"));
    assert_eq!(hash(b" "), hash(b"\r"));

    assert!(comp.eq(b"a b c\n", b"a  b\tc\r\n"));
    assert_eq!(hash(b"a b c\n"), hash(b"a  b\tc\r\n"));

    assert!(!comp.eq(b"", b" "));
    assert!(!comp.eq(b"a", b""));
    assert!(!comp.eq(b"a", b" "));
    assert!(!comp.eq(b"a", b"a "));
    assert!(!comp.eq(b"a", b" a"));
    assert!(!comp.eq(b"a", b"ab"));
    assert!(!comp.eq(b"ab", b"ba"));
    assert!(!comp.eq(b"ab", b"a b"));
}
