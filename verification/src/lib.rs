//! A position index over a library of shogi game records: canonical position
//! keys, a branch-aware walk of each record's move tree, per-file node tables,
//! sorted segments sharded by key, a versioned snapshot store, change
//! detection between directory scans, and a compact binary checkpoint format.

pub mod types;
pub mod text;
pub mod sorting;

pub mod position;
pub mod position_key;
pub mod sfen_position;

pub mod traverse;
pub mod kifu_reader;
pub mod position_apply;
pub mod initial_position;
pub mod node_table;
pub mod index_builder;

pub mod segment;
pub mod file_table;
pub mod index_store;
pub mod compaction;

pub mod fs_scan;
pub mod path_ids;
pub mod index_cache;
pub mod project_manager;
pub mod query_service;
pub mod api;
