//! Table engines for a small embedded key-value store.
pub mod appendlog;
pub mod art;
pub mod blob;
pub mod bloom;
pub mod btree;
pub mod bytemap;
pub mod bytes;
pub mod fulltext;
pub mod graph;
pub mod hash;
pub mod hnsw;
pub mod mvcc;
pub mod overflow;
pub mod pager;
pub mod snap;
pub mod stream;
pub mod table;
pub mod txn;
pub mod types;
pub mod wire;
