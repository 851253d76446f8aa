//! Conflicts in files as text: written with conflict markers for a user to
//! edit, and read again.

pub mod determined;
pub mod diff_style;
pub mod hunks;
pub mod lines;
pub mod markers;
pub mod materialize;
pub mod merged;
pub mod parse;
pub mod plain_lines;
pub mod round_trip;
pub mod sections;
pub mod update;

pub use markers::ConflictMarker;
pub use markers::MIN_CONFLICT_MARKER_LEN;
pub use materialize::choose_materialized_conflict_marker_len;
pub use materialize::materialize_merge_result_to_bytes;
pub use materialize::materialize_merge_result_with_marker_len;
pub use materialize::ConflictMarkerStyle;
pub use parse::parse_conflict;
pub use update::extract_as_single_hunk;
pub use update::update_from_content;
