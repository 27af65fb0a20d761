//! Locate groups of files with byte-identical content beneath a root
//! directory.
//!
//! The core is a two-stage partitioning pipeline: candidates are first
//! grouped by file size (cheap) and each size-equal group is then grouped
//! by a cryptographic content digest (definitive).  Only groups with more
//! than one member are reported.  Key extraction touches the filesystem,
//! so it is performed by the caller; this crate holds the verified
//! grouping engine, the key model, the digest wrappers and the pipeline
//! orchestration.

pub mod clargs;
pub mod grouping;
pub mod hashing;
pub mod keys;
pub mod pipeline;
pub mod sorting;
