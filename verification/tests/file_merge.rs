use jj_lib::conflicts::markers::parse_conflict_marker;
use jj_lib::conflicts::markers::parse_conflict_marker_any_len;
use jj_lib::conflicts::choose_materialized_conflict_marker_len;
use jj_lib::conflicts::ConflictMarker;
use jj_lib::conflicts::ConflictMarkerStyle;
use jj_lib::conflicts::MIN_CONFLICT_MARKER_LEN;
use jj_lib::files::merge_hunks;
use jj_lib::files::trivial_merge;
use jj_lib::files::MergeResult;
use jj_lib::merge::Merge;

fn merge(removes: &[&str], adds: &[&str]) -> MergeResult {
    merge_hunks(&Merge::from_removes_adds(
        removes.iter().map(|text| text.as_bytes().to_vec()).collect(),
        adds.iter().map(|text| text.as_bytes().to_vec()).collect(),
    ))
}

fn conflict(terms: &[&str]) -> Merge<Vec<u8>> {
    Merge::from_vec(terms.iter().map(|text| text.as_bytes().to_vec()).collect())
}

fn resolved(text: &str) -> MergeResult {
    MergeResult::Resolved(text.as_bytes().to_vec())
}

fn trivial(terms: &[&str]) -> Option<String> {
    let values: Vec<&[u8]> = terms.iter().map(|text| text.as_bytes()).collect();
    trivial_merge(&values).map(|value| String::from_utf8(value.to_vec()).unwrap())
}

fn some(text: &str) -> Option<String> {
    Some(text.to_string())
}

#[test]
fn test_trivial_merge_of_three_terms() {
    assert_eq!(trivial(&["a"]), some("a"));
    assert_eq!(trivial(&["a", "b", "a"]), some("a"));
    assert_eq!(trivial(&["a", "a", "b"]), some("b"));
    assert_eq!(trivial(&["b", "a", "a"]), some("b"));
    assert_eq!(trivial(&["a", "a", "a"]), some("a"));
    assert_eq!(trivial(&["a", "b", "c"]), None);
}

#[test]
fn test_trivial_merge_of_five_terms() {
    // Two of the adds cancel against the removes.
    assert_eq!(trivial(&["a", "a", "b", "b", "c"]), some("c"));
    assert_eq!(trivial(&["a", "b", "b", "a", "c"]), some("c"));
    // All sides made the same change.
    assert_eq!(trivial(&["a", "b", "a", "b", "a"]), some("a"));
    // One add is left beside a change that two sides made.
    assert_eq!(trivial(&["a", "b", "a", "b", "c"]), None);
    assert_eq!(trivial(&["a", "b", "c", "d", "e"]), None);
    assert_eq!(trivial(&["a", "b", "c", "c", "d"]), None);
}

#[test]
fn test_merge_hunks_resolves_changes_of_different_lines() {
    assert_eq!(merge(&["a\nb\nc\n"], &["A\nb\nc\n", "a\nb\nC\n"]), resolved("A\nb\nC\n"));
    assert_eq!(merge(&["a\n"], &["b\n", "b\n"]), resolved("b\n"));
    assert_eq!(merge(&[], &["a\n"]), resolved("a\n"));
    assert_eq!(merge(&[""], &["", ""]), resolved(""));
}

#[test]
fn test_merge_hunks_keeps_conflicts_between_resolved_text() {
    assert_eq!(
        merge(&["a\nb\nc\n"], &["a\nleft\nc\n", "a\nright\nc\n"]),
        MergeResult::Conflict(vec![
            Merge::resolved("a\n".as_bytes().to_vec()),
            conflict(&["left\n", "b\n", "right\n"]),
            Merge::resolved("c\n".as_bytes().to_vec()),
        ])
    );
    assert_eq!(
        merge(&["a\n"], &["b\n", "c\n"]),
        MergeResult::Conflict(vec![conflict(&["b\n", "a\n", "c\n"])])
    );
}

#[test]
fn test_parse_conflict_marker_kinds_and_lengths() {
    assert_eq!(parse_conflict_marker_any_len(b"<<<<<<<\n"), Some((ConflictMarker::ConflictStart, 7)));
    assert_eq!(parse_conflict_marker_any_len(b">>> end\n"), Some((ConflictMarker::ConflictEnd, 3)));
    assert_eq!(parse_conflict_marker_any_len(b"+"), Some((ConflictMarker::Add, 1)));
    assert_eq!(parse_conflict_marker_any_len(b"--\tx"), Some((ConflictMarker::Remove, 2)));
    assert_eq!(parse_conflict_marker_any_len(b"%%%%\r\n"), Some((ConflictMarker::Diff, 4)));
    assert_eq!(parse_conflict_marker_any_len(b"|||||||| base"), Some((ConflictMarker::GitAncestor, 8)));
    assert_eq!(parse_conflict_marker_any_len(b"======="), Some((ConflictMarker::GitSeparator, 7)));
    assert_eq!(parse_conflict_marker_any_len(b"<<<<<<<x\n"), None);
    assert_eq!(parse_conflict_marker_any_len(b"<<<<>>>>\n"), None);
    assert_eq!(parse_conflict_marker_any_len(b" <<<<<<<\n"), None);
    assert_eq!(parse_conflict_marker_any_len(b""), None);
    assert_eq!(parse_conflict_marker(b"<<<<<<<\n", 7), Some(ConflictMarker::ConflictStart));
    assert_eq!(parse_conflict_marker(b"<<<<<<<<<\n", 7), Some(ConflictMarker::ConflictStart));
    assert_eq!(parse_conflict_marker(b"<<<<<<\n", 7), None);
}

#[test]
fn test_marker_kind_bytes() {
    let kinds = [
        ConflictMarker::ConflictStart,
        ConflictMarker::ConflictEnd,
        ConflictMarker::Add,
        ConflictMarker::Remove,
        ConflictMarker::Diff,
        ConflictMarker::GitAncestor,
        ConflictMarker::GitSeparator,
    ];
    let bytes = b"<>+-%|=";
    for (kind, byte) in kinds.iter().zip(bytes) {
        assert_eq!(kind.to_byte(), *byte);
        assert_eq!(ConflictMarker::parse_byte(*byte), Some(*kind));
    }
    assert_eq!(ConflictMarker::parse_byte(b'#'), None);
}

#[test]
fn test_choose_marker_len_exceeds_markers_in_terms() {
    assert_eq!(MIN_CONFLICT_MARKER_LEN, 7);
    assert_eq!(choose_materialized_conflict_marker_len(&conflict(&["a\n", "b\n", "c\n"])), 7);
    // A marker of three characters asks for seven, as none does.
    assert_eq!(choose_materialized_conflict_marker_len(&conflict(&["a\n<<< x\n", "b\n", "c\n"])), 7);
    assert_eq!(choose_materialized_conflict_marker_len(&conflict(&["a\n", "=======\n", "c\n"])), 11);
    assert_eq!(
        choose_materialized_conflict_marker_len(&conflict(&["a\n", "=======\n", "c\n>>>>>>>>>> end"])),
        14
    );
    // A run of marker characters before other text is no marker.
    assert_eq!(choose_materialized_conflict_marker_len(&conflict(&["==========x\n"])), 7);
}

#[test]
fn test_default_style_is_diff() {
    assert_eq!(ConflictMarkerStyle::default(), ConflictMarkerStyle::Diff);
}
