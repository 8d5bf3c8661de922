//! Duplicate-file detection for NTFS volumes.
//!
//! The crate finds groups of files with identical content in three steps:
//! directory enumeration (from raw USN/MFT records, an external index, or a
//! WizTree CSV), two-stage grouping (by size, then by content hash), and an
//! optional crash-safe replacement of duplicates by hardlinks.
//!
//! All file and device I/O is left to the caller: the library consumes plain
//! values (byte buffers, path/size listings, in-memory file contents) and
//! returns plain values, so that every decision it makes is verified.

pub mod algorithm;
pub mod dirlist;
pub mod error;
pub mod globmatch;
pub mod groups;
pub mod hash;
pub mod json;
pub mod link;
pub mod ntfs;
pub mod paths;
pub mod text;
pub mod utf16;
pub mod wiztree;

pub use dirlist::{Backend, DirList};
pub use ntfs::{UsnRange, UsnRecord};
