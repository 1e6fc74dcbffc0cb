//! Content-based file deduplication engine.
//!
//! The library decides which files are byte-identical duplicates and which
//! duplicate paths may safely be merged into hardlinks of one representative
//! file.  It works on plain values: paths as byte strings, file sizes,
//! `(device, inode)` identities and file contents.  All filesystem access is
//! left to the caller, which feeds the observed values in and carries the
//! planned actions out.

pub mod bytes;
pub mod digest;
pub mod identity;
pub mod cache;
pub mod detect;
pub mod link;
