//! Diffing of byte sequences by tokens.

pub mod aligned;
pub mod anchors;
pub mod builder;
pub mod compare;
pub mod determined;
pub mod engine;
pub mod histogram;
pub mod join;
pub mod lcs;
pub mod nway;
pub mod nway_diffs;
pub mod nway_regions;
pub mod regions;
pub mod same_words;
pub mod source;
pub mod tokens;
pub mod unchanged;

pub use tokens::find_line_ranges;
pub use tokens::find_nonword_ranges;
pub use tokens::find_word_ranges;
pub use tokens::is_word_byte;
pub use compare::CompareBytes;
pub use compare::CompareBytesExactly;
pub use compare::CompareBytesIgnoreAllWhitespace;
pub use compare::CompareBytesIgnoreWhitespaceAmount;
pub use compare::WordComparator;
pub use compare::bytes_ignore_all_whitespace;
pub use compare::bytes_ignore_whitespace_amount;
pub use compare::hash_with_length_suffix;
pub use lcs::find_lcs;
pub use engine::diff;
pub use engine::Diff;
pub use engine::DiffHunk;
pub use engine::DiffHunkIterator;
pub use engine::DiffHunkKind;
pub use engine::DiffHunkRange;
pub use engine::DiffHunkRangeIterator;
pub use regions::UnchangedRange;
