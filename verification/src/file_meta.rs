//! The file facts that the engine reads.
//!
//! The pipeline never opens files itself; the caller snapshots what it
//! read from the file system into these plain values, and every decision
//! in the library is verified over them.

use vstd::prelude::*;

verus! {

/// A snapshot of a file's metadata. Times are nanoseconds since an
/// arbitrary fixed epoch; a `None` time is one the platform does not
/// expose.
#[derive(Clone, Copy)]
pub struct FileMeta {
    /// Size in bytes.
    pub len: u64,
    /// Modification time, if available.
    pub modified: Option<u64>,
    /// Creation time, if available.
    pub created: Option<u64>,
    /// Whether the path names a symbolic link.
    pub is_symlink: bool,
    /// Permission bits (the low nine bits matter).
    pub mode: u32,
    /// Platform file attribute bits; zero where the platform has none.
    pub attributes: u32,
}

/// What the caller could read of one file: its metadata and its bytes.
/// A `None` part is one whose read failed.
pub struct FileProbe {
    pub meta: Option<FileMeta>,
    pub content: Option<Vec<u8>>,
}

} // verus!
