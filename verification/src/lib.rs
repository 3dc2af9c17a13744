//! Storage structures of a playlist proxy: slotted pages, an in-memory
//! B+tree and the byte formats of its on-disk files.
pub mod le;
pub mod text;
pub mod page;
pub mod keys;
pub mod bplustree;
pub mod sorted_index;
pub mod tree_format;
pub mod paths;
pub mod model;
pub mod disk_query;
pub mod store;
pub mod ui_names;
pub mod block_cache;
pub mod dir_tree;
pub mod levels;
pub mod strm_files;
pub mod info_codec;
pub mod compact;
