//! Storage: fixed-size pages, the pager that caches them, and the B+ trees built from them.
pub mod format_laws;
pub mod laws;
pub mod low;
pub mod owned;
pub mod page;
pub mod shape;
pub mod pager;
pub mod tree;
pub mod btree;
pub mod store;
