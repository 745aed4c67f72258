//! A content-addressed revision store: immutable data and history packs with
//! sorted node indexes, mutable pack builders, an indexed rotating log with
//! LZ4-compressed payloads, a directory-backed pack store, and a repack
//! pipeline that consolidates small packs. Every store answers the same
//! lookup contract keyed by `(path, node)` pairs.

pub mod codec;
pub mod lexorder;
pub mod logformat;
pub mod mutablehistorypack;
pub mod packformat;
pub mod packindex;
pub mod mutabledatapack;
pub mod packstore;
pub mod patch;
pub mod datapack;
pub mod metadata;
pub mod compress;
pub mod hashing;
pub mod historypack;
pub mod indexedlogdatastore;
pub mod log;
pub mod repack;
pub mod types;
pub mod union;
