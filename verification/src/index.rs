//! The index of commits: positions, ancestry, heads and prefixes.

pub mod ancestry;
pub mod by_ids;
pub mod change_ids;
pub mod common;
pub mod composite;
pub mod graph;
pub mod heads;
pub mod heap;
pub mod lookup;
pub mod mutation;
pub mod neighbors;
pub mod prefix;
pub mod range_heads;
pub mod reachable;
pub mod stats;

pub use heap::dedup_pop;
pub use heap::dedup_replace;
pub use heap::remove_dup;
pub use composite::CompositeIndex;
pub use composite::IndexEntry;
pub use composite::IndexPosition;
pub use composite::LocalPosition;
pub use prefix::HexPrefix;
pub use prefix::PrefixResolution;
pub use stats::IndexLevelStats;
pub use stats::IndexStats;
pub use change_ids::ChangeIdIndexImpl;
