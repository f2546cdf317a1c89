//! A persistent collection layer over a flat byte-oriented key-value store.
//!
//! Application code manipulates an append-only list, a key-value map, and a
//! nested map of per-key lists as ordinary in-memory containers, while every
//! element is addressed as a separate entry of a flat store under a
//! collection-specific key prefix. Mutations are buffered in dirty caches
//! and written back in one flush at the end of a successful call, so that an
//! aborted call commits nothing.

pub mod codec;
pub mod errs;
pub mod json;
pub mod kvmap;
pub mod laws;
pub mod list;
pub mod nested;
pub mod registry;
pub mod state;
pub mod store;
