//! Duplicate-file detection for NTFS volumes.
//!
//! The library holds the decisions of the tool: decoding change-journal
//! records, rebuilding paths from parent references, sampling and hashing
//! file content, and grouping files by size and content signature.  Device
//! and file access belong to the caller, which hands in plain bytes and
//! numbers and receives plain values back.

pub mod algorithm;
pub mod dirlist;
pub mod image;
pub mod ntfs;
pub mod pipeline;
pub mod signature;
pub mod utils;
pub mod volume;
pub mod wdk_ntfs;

pub use dirlist::DirList;
pub use ntfs::{UsnRange, UsnRecord, UsnRecordType, UsnRecordsIterator};
pub use signature::{Comparison, ContentDigest, FuzzySampler};
