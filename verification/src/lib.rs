//! Revision-control core: byte diffing, hunk absorption, N-way merges and a
//! layered commit index, with machine-checked contracts.

pub mod diff;
pub mod object_id;
pub mod absorb;
pub mod merge;
pub mod backend;
pub mod commit;
pub mod settings;
pub mod repo;
pub mod commit_builder;
pub mod index;
pub mod absorb_fit;
pub mod absorb_trees;
pub mod files;
pub mod conflicts;
pub mod op_store;
pub mod sync;
pub mod workspace;
