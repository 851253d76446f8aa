use std::collections::HashMap;
use std::ops::Range;

use jj_lib::absorb::combine_texts;
use jj_lib::absorb::split_file_hunks;
use jj_lib::diff::Diff;
use jj_lib::object_id::CommitId;

type SelectedRange = (Range<usize>, Range<usize>);

fn by_line<'a>(inputs: [&'a str; 2]) -> Diff<'a> {
    Diff::by_line(&[inputs[0].as_bytes(), inputs[1].as_bytes()])
}

fn split<'a>(
    annotation_ranges: &[(&'a CommitId, Range<usize>)],
    diff: &Diff,
) -> HashMap<&'a CommitId, Vec<SelectedRange>> {
    split_file_hunks(annotation_ranges, diff).into_iter().collect()
}

fn hm<'a>(
    entries: Vec<(&'a CommitId, Vec<SelectedRange>)>,
) -> HashMap<&'a CommitId, Vec<SelectedRange>> {
    entries.into_iter().collect()
}

#[test]
fn test_split_file_hunks_empty_or_single_line() {
    let commit_id1 = &CommitId::from_hex("111111");

    // unchanged
    assert_eq!(split(&[], &by_line(["", ""])), hm(vec![]));

    // insert single line
    assert_eq!(
        split(&[], &by_line(["", "2X\n"])),
        hm(vec![])
    );
    // delete single line
    assert_eq!(
        split(&[(commit_id1, 0..3)], &by_line(["1a\n", ""])),
        hm(vec![(commit_id1, vec![(0..3, 0..0)])])
    );
    // modify single line
    assert_eq!(
        split(&[(commit_id1, 0..3)], &by_line(["1a\n", "1AA\n"])),
        hm(vec![(commit_id1, vec![(0..3, 0..4)])])
    );
}

#[test]
fn test_split_file_hunks_single_range() {
    let commit_id1 = &CommitId::from_hex("111111");

    // insert first, middle, and last lines
    assert_eq!(
        split(
            &[(commit_id1, 0..6)],
            &by_line(["1a\n1b\n", "1X\n1a\n1Y\n1b\n1Z\n"])
        ),
        hm(vec![(commit_id1, vec![(0..0, 0..3), (3..3, 6..9), (6..6, 12..15)])])
    );
    // delete first, middle, and last lines
    assert_eq!(
        split(
            &[(commit_id1, 0..15)],
            &by_line(["1a\n1b\n1c\n1d\n1e\n1f\n", "1b\n1d\n1f\n"])
        ),
        hm(vec![(commit_id1, vec![(0..3, 0..0), (6..9, 3..3), (12..15, 6..6)])])
    );
    // modify non-contiguous lines
    assert_eq!(
        split(
            &[(commit_id1, 0..12)],
            &by_line(["1a\n1b\n1c\n1d\n", "1A\n1b\n1C\n1d\n"])
        ),
        hm(vec![(commit_id1, vec![(0..3, 0..3), (6..9, 6..9)])])
    );
}

#[test]
fn test_split_file_hunks_contiguous_ranges_insert() {
    let commit_id1 = &CommitId::from_hex("111111");
    let commit_id2 = &CommitId::from_hex("222222");

    // insert first line
    assert_eq!(
        split(
            &[(commit_id1, 0..6), (commit_id2, 6..12)],
            &by_line(["1a\n1b\n2a\n2b\n", "1X\n1a\n1b\n2a\n2b\n"])
        ),
        hm(vec![(commit_id1, vec![(0..0, 0..3)])])
    );
    // insert middle line to first range
    assert_eq!(
        split(
            &[(commit_id1, 0..6), (commit_id2, 6..12)],
            &by_line(["1a\n1b\n2a\n2b\n", "1a\n1X\n1b\n2a\n2b\n"])
        ),
        hm(vec![(commit_id1, vec![(3..3, 3..6)])])
    );
    // insert middle line between ranges (ambiguous)
    assert_eq!(
        split(
            &[(commit_id1, 0..6), (commit_id2, 6..12)],
            &by_line(["1a\n1b\n2a\n2b\n", "1a\n1b\n3X\n2a\n2b\n"])
        ),
        hm(vec![])
    );
    // insert middle line to second range
    assert_eq!(
        split(
            &[(commit_id1, 0..6), (commit_id2, 6..12)],
            &by_line(["1a\n1b\n2a\n2b\n", "1a\n1b\n2a\n2X\n2b\n"])
        ),
        hm(vec![(commit_id2, vec![(9..9, 9..12)])])
    );
    // insert last line
    assert_eq!(
        split(
            &[(commit_id1, 0..6), (commit_id2, 6..12)],
            &by_line(["1a\n1b\n2a\n2b\n", "1a\n1b\n2a\n2b\n2X\n"])
        ),
        hm(vec![(commit_id2, vec![(12..12, 12..15)])])
    );
}

#[test]
fn test_split_file_hunks_contiguous_ranges_delete() {
    let commit_id1 = &CommitId::from_hex("111111");
    let commit_id2 = &CommitId::from_hex("222222");

    // delete first line
    assert_eq!(
        split(
            &[(commit_id1, 0..6), (commit_id2, 6..12)],
            &by_line(["1a\n1b\n2a\n2b\n", "1b\n2a\n2b\n"])
        ),
        hm(vec![(commit_id1, vec![(0..3, 0..0)])])
    );
    // delete middle line from first range
    assert_eq!(
        split(
            &[(commit_id1, 0..6), (commit_id2, 6..12)],
            &by_line(["1a\n1b\n2a\n2b\n", "1a\n2a\n2b\n"])
        ),
        hm(vec![(commit_id1, vec![(3..6, 3..3)])])
    );
    // delete middle line from second range
    assert_eq!(
        split(
            &[(commit_id1, 0..6), (commit_id2, 6..12)],
            &by_line(["1a\n1b\n2a\n2b\n", "1a\n1b\n2b\n"])
        ),
        hm(vec![(commit_id2, vec![(6..9, 6..6)])])
    );
    // delete last line
    assert_eq!(
        split(
            &[(commit_id1, 0..6), (commit_id2, 6..12)],
            &by_line(["1a\n1b\n2a\n2b\n", "1a\n1b\n2a\n"])
        ),
        hm(vec![(commit_id2, vec![(9..12, 9..9)])])
    );
    // delete first and last lines
    assert_eq!(
        split(
            &[(commit_id1, 0..6), (commit_id2, 6..12)],
            &by_line(["1a\n1b\n2a\n2b\n", "1b\n2a\n"])
        ),
        hm(vec![(commit_id1, vec![(0..3, 0..0)]), (commit_id2, vec![(9..12, 6..6)])])
    );

    // delete across ranges (split first annotation range)
    assert_eq!(
        split(
            &[(commit_id1, 0..6), (commit_id2, 6..12)],
            &by_line(["1a\n1b\n2a\n2b\n", "1a\n"])
        ),
        hm(vec![(commit_id1, vec![(3..6, 3..3)]), (commit_id2, vec![(6..12, 3..3)])])
    );
    // delete middle lines across ranges (split both annotation ranges)
    assert_eq!(
        split(
            &[(commit_id1, 0..6), (commit_id2, 6..12)],
            &by_line(["1a\n1b\n2a\n2b\n", "1a\n2b\n"])
        ),
        hm(vec![(commit_id1, vec![(3..6, 3..3)]), (commit_id2, vec![(6..9, 3..3)])])
    );
    // delete across ranges (split second annotation range)
    assert_eq!(
        split(
            &[(commit_id1, 0..6), (commit_id2, 6..12)],
            &by_line(["1a\n1b\n2a\n2b\n", "2b\n"])
        ),
        hm(vec![(commit_id1, vec![(0..6, 0..0)]), (commit_id2, vec![(6..9, 0..0)])])
    );

    // delete all
    assert_eq!(
        split(
            &[(commit_id1, 0..6), (commit_id2, 6..12)],
            &by_line(["1a\n1b\n2a\n2b\n", ""])
        ),
        hm(vec![(commit_id1, vec![(0..6, 0..0)]), (commit_id2, vec![(6..12, 0..0)])])
    );
}

#[test]
fn test_split_file_hunks_contiguous_ranges_modify() {
    let commit_id1 = &CommitId::from_hex("111111");
    let commit_id2 = &CommitId::from_hex("222222");

    // modify first line
    assert_eq!(
        split(
            &[(commit_id1, 0..6), (commit_id2, 6..12)],
            &by_line(["1a\n1b\n2a\n2b\n", "1A\n1b\n2a\n2b\n"])
        ),
        hm(vec![(commit_id1, vec![(0..3, 0..3)])])
    );
    // modify middle line of first range
    assert_eq!(
        split(
            &[(commit_id1, 0..6), (commit_id2, 6..12)],
            &by_line(["1a\n1b\n2a\n2b\n", "1a\n1B\n2a\n2b\n"])
        ),
        hm(vec![(commit_id1, vec![(3..6, 3..6)])])
    );
    // modify middle lines of both ranges (ambiguous)
    // ('hg absorb' accepts this)
    assert_eq!(
        split(
            &[(commit_id1, 0..6), (commit_id2, 6..12)],
            &by_line(["1a\n1b\n2a\n2b\n", "1a\n1B\n2A\n2b\n"])
        ),
        hm(vec![])
    );
    // modify middle line of second range
    assert_eq!(
        split(
            &[(commit_id1, 0..6), (commit_id2, 6..12)],
            &by_line(["1a\n1b\n2a\n2b\n", "1a\n1b\n2A\n2b\n"])
        ),
        hm(vec![(commit_id2, vec![(6..9, 6..9)])])
    );
    // modify last line
    assert_eq!(
        split(
            &[(commit_id1, 0..6), (commit_id2, 6..12)],
            &by_line(["1a\n1b\n2a\n2b\n", "1a\n1b\n2a\n2B\n"])
        ),
        hm(vec![(commit_id2, vec![(9..12, 9..12)])])
    );
    // modify first and last lines
    assert_eq!(
        split(
            &[(commit_id1, 0..6), (commit_id2, 6..12)],
            &by_line(["1a\n1b\n2a\n2b\n", "1A\n1b\n2a\n2B\n"])
        ),
        hm(vec![(commit_id1, vec![(0..3, 0..3)]), (commit_id2, vec![(9..12, 9..12)])])
    );
}

#[test]
fn test_split_file_hunks_contiguous_ranges_modify_insert() {
    let commit_id1 = &CommitId::from_hex("111111");
    let commit_id2 = &CommitId::from_hex("222222");

    // modify first range, insert adjacent middle line
    assert_eq!(
        split(
            &[(commit_id1, 0..6), (commit_id2, 6..12)],
            &by_line(["1a\n1b\n2a\n2b\n", "1A\n1B\n1X\n2a\n2b\n"])
        ),
        hm(vec![(commit_id1, vec![(0..6, 0..9)])])
    );
    // modify second range, insert adjacent middle line
    assert_eq!(
        split(
            &[(commit_id1, 0..6), (commit_id2, 6..12)],
            &by_line(["1a\n1b\n2a\n2b\n", "1a\n1b\n2X\n2A\n2B\n"])
        ),
        hm(vec![(commit_id2, vec![(6..12, 6..15)])])
    );
    // modify second range, insert last line
    assert_eq!(
        split(
            &[(commit_id1, 0..6), (commit_id2, 6..12)],
            &by_line(["1a\n1b\n2a\n2b\n", "1a\n1b\n2A\n2B\n2X\n"])
        ),
        hm(vec![(commit_id2, vec![(6..12, 6..15)])])
    );
    // modify first and last lines (unambiguous), insert middle line between
    // ranges (ambiguous)
    assert_eq!(
        split(
            &[(commit_id1, 0..6), (commit_id2, 6..12)],
            &by_line(["1a\n1b\n2a\n2b\n", "1A\n1b\n3X\n2a\n2B\n"])
        ),
        hm(vec![(commit_id1, vec![(0..3, 0..3)]), (commit_id2, vec![(9..12, 12..15)])])
    );
}

#[test]
fn test_split_file_hunks_contiguous_ranges_modify_delete() {
    let commit_id1 = &CommitId::from_hex("111111");
    let commit_id2 = &CommitId::from_hex("222222");

    // modify first line, delete adjacent middle line
    assert_eq!(
        split(
            &[(commit_id1, 0..6), (commit_id2, 6..12)],
            &by_line(["1a\n1b\n2a\n2b\n", "1A\n2a\n2b\n"])
        ),
        hm(vec![(commit_id1, vec![(0..6, 0..3)])])
    );
    // modify last line, delete adjacent middle line
    assert_eq!(
        split(
            &[(commit_id1, 0..6), (commit_id2, 6..12)],
            &by_line(["1a\n1b\n2a\n2b\n", "1a\n1b\n2B\n"])
        ),
        hm(vec![(commit_id2, vec![(6..12, 6..9)])])
    );
    // modify first and last lines, delete middle line from first range
    assert_eq!(
        split(
            &[(commit_id1, 0..6), (commit_id2, 6..12)],
            &by_line(["1a\n1b\n2a\n2b\n", "1A\n2a\n2B\n"])
        ),
        hm(vec![(commit_id1, vec![(0..6, 0..3)]), (commit_id2, vec![(9..12, 6..9)])])
    );
    // modify first and last lines, delete middle line from second range
    assert_eq!(
        split(
            &[(commit_id1, 0..6), (commit_id2, 6..12)],
            &by_line(["1a\n1b\n2a\n2b\n", "1A\n1b\n2B\n"])
        ),
        hm(vec![(commit_id1, vec![(0..3, 0..3)]), (commit_id2, vec![(6..12, 6..9)])])
    );
    // modify middle line, delete adjacent middle line (ambiguous)
    assert_eq!(
        split(
            &[(commit_id1, 0..6), (commit_id2, 6..12)],
            &by_line(["1a\n1b\n2a\n2b\n", "1a\n1B\n2b\n"])
        ),
        hm(vec![])
    );
}

#[test]
fn test_split_file_hunks_non_contiguous_ranges_insert() {
    let commit_id1 = &CommitId::from_hex("111111");
    let commit_id2 = &CommitId::from_hex("222222");

    // insert middle line to first range
    assert_eq!(
        split(
            &[(commit_id1, 0..6), /* 6..9, */ (commit_id2, 9..15)],
            &by_line(["1a\n1b\n0a\n2a\n2b\n", "1a\n1b\n1X\n0a\n2a\n2b\n"])
        ),
        hm(vec![(commit_id1, vec![(6..6, 6..9)])])
    );
    // insert middle line to second range
    assert_eq!(
        split(
            &[(commit_id1, 0..6), /* 6..9, */ (commit_id2, 9..15)],
            &by_line(["1a\n1b\n0a\n2a\n2b\n", "1a\n1b\n0a\n2X\n2a\n2b\n"])
        ),
        hm(vec![(commit_id2, vec![(9..9, 9..12)])])
    );
    // insert middle lines to both ranges
    assert_eq!(
        split(
            &[(commit_id1, 0..6), /* 6..9, */ (commit_id2, 9..15)],
            &by_line(["1a\n1b\n0a\n2a\n2b\n", "1a\n1b\n1X\n0a\n2X\n2a\n2b\n"])
        ),
        hm(vec![(commit_id1, vec![(6..6, 6..9)]), (commit_id2, vec![(9..9, 12..15)])])
    );
}

#[test]
fn test_split_file_hunks_non_contiguous_ranges_insert_modify_masked() {
    let commit_id1 = &CommitId::from_hex("111111");
    let commit_id2 = &CommitId::from_hex("222222");

    // insert middle line to first range, modify masked line (ambiguous)
    assert_eq!(
        split(
            &[(commit_id1, 0..6), /* 6..9, */ (commit_id2, 9..15)],
            &by_line(["1a\n1b\n0a\n2a\n2b\n", "1a\n1b\n1X\n0A\n2a\n2b\n"])
        ),
        hm(vec![])
    );
    // insert middle line to second range, modify masked line (ambiguous)
    assert_eq!(
        split(
            &[(commit_id1, 0..6), /* 6..9, */ (commit_id2, 9..15)],
            &by_line(["1a\n1b\n0a\n2a\n2b\n", "1a\n1b\n0A\n2X\n2a\n2b\n"])
        ),
        hm(vec![])
    );
    // insert middle lines to both ranges, modify masked line (ambiguous)
    assert_eq!(
        split(
            &[(commit_id1, 0..6), /* 6..9, */ (commit_id2, 9..15)],
            &by_line(["1a\n1b\n0a\n2a\n2b\n", "1a\n1b\n1X\n0A\n2X\n2a\n2b\n"])
        ),
        hm(vec![])
    );
}

#[test]
fn test_split_file_hunks_non_contiguous_ranges_delete() {
    let commit_id1 = &CommitId::from_hex("111111");
    let commit_id2 = &CommitId::from_hex("222222");

    // delete middle line from first range
    assert_eq!(
        split(
            &[(commit_id1, 0..6), /* 6..9, */ (commit_id2, 9..15)],
            &by_line(["1a\n1b\n0a\n2a\n2b\n", "1a\n0a\n2a\n2b\n"])
        ),
        hm(vec![(commit_id1, vec![(3..6, 3..3)])])
    );
    // delete middle line from second range
    assert_eq!(
        split(
            &[(commit_id1, 0..6), /* 6..9, */ (commit_id2, 9..15)],
            &by_line(["1a\n1b\n0a\n2a\n2b\n", "1a\n1b\n0a\n2b\n"])
        ),
        hm(vec![(commit_id2, vec![(9..12, 9..9)])])
    );
    // delete middle lines from both ranges
    assert_eq!(
        split(
            &[(commit_id1, 0..6), /* 6..9, */ (commit_id2, 9..15)],
            &by_line(["1a\n1b\n0a\n2a\n2b\n", "1a\n0a\n2b\n"])
        ),
        hm(vec![(commit_id1, vec![(3..6, 3..3)]), (commit_id2, vec![(9..12, 6..6)])])
    );
}

#[test]
fn test_split_file_hunks_non_contiguous_ranges_delete_modify_masked() {
    let commit_id1 = &CommitId::from_hex("111111");
    let commit_id2 = &CommitId::from_hex("222222");

    // delete middle line from first range, modify masked line (ambiguous)
    assert_eq!(
        split(
            &[(commit_id1, 0..6), /* 6..9, */ (commit_id2, 9..15)],
            &by_line(["1a\n1b\n0a\n2a\n2b\n", "1a\n0A\n2a\n2b\n"])
        ),
        hm(vec![])
    );
    // delete middle line from second range, modify masked line (ambiguous)
    assert_eq!(
        split(
            &[(commit_id1, 0..6), /* 6..9, */ (commit_id2, 9..15)],
            &by_line(["1a\n1b\n0a\n2a\n2b\n", "1a\n1b\n0A\n2b\n"])
        ),
        hm(vec![])
    );
    // delete middle lines from both ranges, modify masked line (ambiguous)
    assert_eq!(
        split(
            &[(commit_id1, 0..6), /* 6..9, */ (commit_id2, 9..15)],
            &by_line(["1a\n1b\n0a\n2a\n2b\n", "1a\n0A\n2b\n"])
        ),
        hm(vec![])
    );
}

#[test]
fn test_split_file_hunks_non_contiguous_ranges_delete_delete_masked() {
    let commit_id1 = &CommitId::from_hex("111111");
    let commit_id2 = &CommitId::from_hex("222222");

    // 'hg absorb' accepts these, but it seems better to reject them as
    // ambiguous. Masked lines cannot be deleted.

    // delete middle line from first range, delete masked line (ambiguous)
    assert_eq!(
        split(
            &[(commit_id1, 0..6), /* 6..9, */ (commit_id2, 9..15)],
            &by_line(["1a\n1b\n0a\n2a\n2b\n", "1a\n2a\n2b\n"])
        ),
        hm(vec![])
    );
    // delete middle line from second range, delete masked line (ambiguous)
    assert_eq!(
        split(
            &[(commit_id1, 0..6), /* 6..9, */ (commit_id2, 9..15)],
            &by_line(["1a\n1b\n0a\n2a\n2b\n", "1a\n1b\n2b\n"])
        ),
        hm(vec![])
    );
    // delete middle lines from both ranges, delete masked line (ambiguous)
    assert_eq!(
        split(
            &[(commit_id1, 0..6), /* 6..9, */ (commit_id2, 9..15)],
            &by_line(["1a\n1b\n0a\n2a\n2b\n", "1a\n2b\n"])
        ),
        hm(vec![])
    );
}

#[test]
fn test_split_file_hunks_non_contiguous_ranges_modify() {
    let commit_id1 = &CommitId::from_hex("111111");
    let commit_id2 = &CommitId::from_hex("222222");

    // modify middle line of first range
    assert_eq!(
        split(
            &[(commit_id1, 0..6), /* 6..9, */ (commit_id2, 9..15)],
            &by_line(["1a\n1b\n0a\n2a\n2b\n", "1a\n1B\n0a\n2a\n2b\n"])
        ),
        hm(vec![(commit_id1, vec![(3..6, 3..6)])])
    );
    // modify middle line of second range
    assert_eq!(
        split(
            &[(commit_id1, 0..6), /* 6..9, */ (commit_id2, 9..15)],
            &by_line(["1a\n1b\n0a\n2a\n2b\n", "1a\n1b\n0a\n2A\n2b\n"])
        ),
        hm(vec![(commit_id2, vec![(9..12, 9..12)])])
    );
    // modify middle lines of both ranges
    assert_eq!(
        split(
            &[(commit_id1, 0..6), /* 6..9, */ (commit_id2, 9..15)],
            &by_line(["1a\n1b\n0a\n2a\n2b\n", "1a\n1B\n0a\n2A\n2b\n"])
        ),
        hm(vec![(commit_id1, vec![(3..6, 3..6)]), (commit_id2, vec![(9..12, 9..12)])])
    );
}

#[test]
fn test_split_file_hunks_non_contiguous_ranges_modify_modify_masked() {
    let commit_id1 = &CommitId::from_hex("111111");
    let commit_id2 = &CommitId::from_hex("222222");

    // modify middle line of first range, modify masked line (ambiguous)
    assert_eq!(
        split(
            &[(commit_id1, 0..6), /* 6..9, */ (commit_id2, 9..15)],
            &by_line(["1a\n1b\n0a\n2a\n2b\n", "1a\n1B\n0A\n2a\n2b\n"])
        ),
        hm(vec![])
    );
    // modify middle line of second range, modify masked line (ambiguous)
    assert_eq!(
        split(
            &[(commit_id1, 0..6), /* 6..9, */ (commit_id2, 9..15)],
            &by_line(["1a\n1b\n0a\n2a\n2b\n", "1a\n1b\n0A\n2A\n2b\n"])
        ),
        hm(vec![])
    );
    // modify middle lines to both ranges, modify masked line (ambiguous)
    assert_eq!(
        split(
            &[(commit_id1, 0..6), /* 6..9, */ (commit_id2, 9..15)],
            &by_line(["1a\n1b\n0a\n2a\n2b\n", "1a\n1B\n0A\n2A\n2b\n"])
        ),
        hm(vec![])
    );
}

#[test]
fn test_split_file_hunks_non_contiguous_tail_range_insert() {
    let commit_id1 = &CommitId::from_hex("111111");

    // insert middle line to range
    assert_eq!(
        split(
            &[(commit_id1, 0..6) /* , 6..9 */],
            &by_line(["1a\n1b\n0a\n", "1a\n1b\n1X\n0a\n"])
        ),
        hm(vec![(commit_id1, vec![(6..6, 6..9)])])
    );
}

#[test]
fn test_split_file_hunks_non_contiguous_tail_range_insert_modify_masked() {
    let commit_id1 = &CommitId::from_hex("111111");

    // insert middle line to range, modify masked line (ambiguous)
    assert_eq!(
        split(
            &[(commit_id1, 0..6) /* , 6..9 */],
            &by_line(["1a\n1b\n0a\n", "1a\n1b\n1X\n0A\n"])
        ),
        hm(vec![])
    );
}

#[test]
fn test_split_file_hunks_non_contiguous_tail_range_delete() {
    let commit_id1 = &CommitId::from_hex("111111");

    // delete middle line from range
    assert_eq!(
        split(
            &[(commit_id1, 0..6) /* , 6..9 */],
            &by_line(["1a\n1b\n0a\n", "1a\n0a\n"])
        ),
        hm(vec![(commit_id1, vec![(3..6, 3..3)])])
    );
    // delete all lines from range
    assert_eq!(
        split(
            &[(commit_id1, 0..6) /* , 6..9 */],
            &by_line(["1a\n1b\n0a\n", "0a\n"])
        ),
        hm(vec![(commit_id1, vec![(0..6, 0..0)])])
    );
}

#[test]
fn test_split_file_hunks_non_contiguous_tail_range_delete_modify_masked() {
    let commit_id1 = &CommitId::from_hex("111111");

    // delete middle line from range, modify masked line (ambiguous)
    assert_eq!(
        split(
            &[(commit_id1, 0..6) /* , 6..9 */],
            &by_line(["1a\n1b\n0a\n", "1a\n0A\n"])
        ),
        hm(vec![])
    );
    // delete all lines from range, modify masked line (ambiguous)
    assert_eq!(
        split(
            &[(commit_id1, 0..6) /* , 6..9 */],
            &by_line(["1a\n1b\n0a\n", "0A\n"])
        ),
        hm(vec![])
    );
}

#[test]
fn test_split_file_hunks_non_contiguous_tail_range_delete_delete_masked() {
    let commit_id1 = &CommitId::from_hex("111111");

    // 'hg absorb' accepts these, but it seems better to reject them as
    // ambiguous. Masked lines cannot be deleted.

    // delete middle line from range, delete masked line (ambiguous)
    assert_eq!(
        split(
            &[(commit_id1, 0..6) /* , 6..9 */],
            &by_line(["1a\n1b\n0a\n", "1a\n"])
        ),
        hm(vec![])
    );
    // delete all lines from range, delete masked line (ambiguous)
    assert_eq!(
        split(
            &[(commit_id1, 0..6) /* , 6..9 */],
            &by_line(["1a\n1b\n0a\n", ""])
        ),
        hm(vec![])
    );
}

#[test]
fn test_split_file_hunks_non_contiguous_tail_range_modify() {
    let commit_id1 = &CommitId::from_hex("111111");

    // modify middle line of range
    assert_eq!(
        split(
            &[(commit_id1, 0..6) /* , 6..9 */],
            &by_line(["1a\n1b\n0a\n", "1a\n1B\n0a\n"])
        ),
        hm(vec![(commit_id1, vec![(3..6, 3..6)])])
    );
}

#[test]
fn test_split_file_hunks_non_contiguous_tail_range_modify_modify_masked() {
    let commit_id1 = &CommitId::from_hex("111111");

    // modify middle line of range, modify masked line (ambiguous)
    assert_eq!(
        split(
            &[(commit_id1, 0..6) /* , 6..9 */],
            &by_line(["1a\n1b\n0a\n", "1a\n1B\n0A\n"])
        ),
        hm(vec![])
    );
}

#[test]
fn test_split_file_hunks_multiple_edits() {
    let commit_id1 = &CommitId::from_hex("111111");
    let commit_id2 = &CommitId::from_hex("222222");
    let commit_id3 = &CommitId::from_hex("333333");

    assert_eq!(
        split(
            &[
                (commit_id1, 0..3),   // 1a       => 1A
                (commit_id2, 3..6),   // 2a       => 2a
                (commit_id1, 6..15),  // 1b 1c 1d => 1B 1d
                (commit_id3, 15..21), // 3a 3b    => 3X 3A 3b 3Y
            ],
            &by_line([
                "1a\n2a\n1b\n1c\n1d\n3a\n3b\n",
                "1A\n2a\n1B\n1d\n3X\n3A\n3b\n3Y\n"
            ])
        ),
        hm(vec![(commit_id1, vec![(0..3, 0..3), (6..12, 6..9)]), (commit_id3, vec![(15..18, 12..18), (21..21, 21..24)])])
    );
}

#[test]
fn test_combine_texts() {
    assert_eq!(combine_texts(b"", b"", &[]), b"");
    assert_eq!(combine_texts(b"foo", b"bar", &[]), b"foo");
    assert_eq!(combine_texts(b"foo", b"bar", &[(0..3, 0..3)]), b"bar");

    assert_eq!(
        combine_texts(
            b"1a\n2a\n1b\n1c\n1d\n3a\n3b\n",
            b"1A\n2a\n1B\n1d\n3X\n3A\n3b\n3Y\n",
            &[(0..3, 0..3), (6..12, 6..9)]
        ),
        b"1A\n2a\n1B\n1d\n3a\n3b\n"
    );
    assert_eq!(
        combine_texts(
            b"1a\n2a\n1b\n1c\n1d\n3a\n3b\n",
            b"1A\n2a\n1B\n1d\n3X\n3A\n3b\n3Y\n",
            &[(15..18, 12..18), (21..21, 21..24)]
        ),
        b"1a\n2a\n1b\n1c\n1d\n3X\n3A\n3b\n3Y\n"
    );
}
