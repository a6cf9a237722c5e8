//! A path-keyed cache for loadable assets.
//!
//! The crate has two parts: key resolution, which turns a base location and a
//! caller-supplied relative path into a normalized absolute key, and the
//! resource manager, which keeps at most one live entry per key, reuses live
//! entries, reconstructs stale ones, and lets a caller pin resources so they
//! outlive their last external owner.

pub mod key;
pub mod resource;
pub mod laws;
pub mod shader;
