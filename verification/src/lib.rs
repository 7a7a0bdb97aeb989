//! A local manager for named, content-hashed configuration profiles.
//!
//! The store keeps an in-memory index over a directory of profile files:
//! each profile has a unique name and a unique SHA-256 content digest,
//! and the index is kept sorted ascending by name. The index is rebuilt
//! from a directory scan on every synchronization pass; callers hand the
//! store the scan entries and file contents as plain values, and receive
//! back the paths to read, write or delete.

pub mod config;
pub mod digest;
pub mod errors;
pub mod index;
pub mod paths;
pub mod store;
