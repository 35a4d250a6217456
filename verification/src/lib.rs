//! An on-disk, key-addressed cache for large binary objects, verified with Verus.
//!
//! The value of a key lies in a file of its own, at a path that follows from the key
//! alone ([`layout`]). What is known about each entry (size, times of writing and of
//! last access, hit count, digest) lies in a small database beside the files
//! ([`meta_db`], [`metadata`]). A bounded least-recently-used layer in memory can stand
//! in front of the files ([`mem_cache`]), and evictors shrink the store to a target
//! size, oldest entries first ([`evictors`]).
//!
//! This library keeps the state and takes every decision; it touches no file. Each
//! operation of [`Cache`] is a step function: the caller begins with a `Start` event, is
//! told what to do with the file, does it, and comes back with what happened.
//!
//! ```text
//! match cache.read(key, ReadEvent::Start) {
//!     ReadStep::Done(bytes) => bytes,                     // served from memory
//!     ReadStep::Load { path, buffer } => {
//!         let data = /* read the file at `path` below the root */;
//!         match cache.read(key, ReadEvent::Loaded(data)) { /* Done or Failed */ }
//!     }
//!     ReadStep::Failed(e) => /* .. */,
//! }
//! ```
//!
//! The contracts of the step functions say what each step does to the metadata and to
//! the memory layer; [`laws`] and [`eviction_laws`] state what follows for several
//! operations in a row.

pub mod builder;
pub mod cache;
pub mod error;
pub mod eviction_laws;
pub mod evictors;
pub mod laws;
pub mod layout;
pub mod mem_cache;
pub mod meta_db;
pub mod metadata;
pub mod tmp;

pub use builder::CacheBuilder;
pub use cache::Cache;
pub use error::ForcepError;
pub use metadata::{Md5Bytes, Metadata};
