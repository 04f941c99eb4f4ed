//! The records a scan produces: hashed files and the optional attributes
//! captured with them.

use vstd::prelude::*;

verus! {

/// Timestamp recorded when the filesystem does not expose the real one.
pub const TIMESTAMP_UNAVAILABLE: i128 = -1;

/// What kind of entry a file is, judged from the entry's own metadata
/// without following a symbolic link.
#[derive(Debug, Clone, Copy, Hash, PartialEq, Eq, Structural)]
pub enum FileType {
    SymLink,
    Directory,
    File,
}

/// Metadata captured at scan time and never fetched again.
#[derive(Debug, Clone, Copy, Hash, PartialEq, Eq, Structural)]
pub struct FileAttributes {
    /// Length in bytes.
    pub size: u64,
    /// Seconds since the epoch, or `TIMESTAMP_UNAVAILABLE`.
    pub created_date: i128,
    /// Seconds since the epoch, or `TIMESTAMP_UNAVAILABLE`.
    pub accessed_date: i128,
    /// Seconds since the epoch, or `TIMESTAMP_UNAVAILABLE`.
    pub edit_date: i128,
    pub file_type: FileType,
}

/// One hashed leaf file.
#[derive(Debug, Clone, Hash, PartialEq, Eq)]
pub struct ScannedFile {
    /// Lowercase hexadecimal digest of the content: the content address.
    pub hash: String,
    /// Path of the file as it was discovered.
    pub path: String,
    /// Present only when attribute collection is enabled.
    pub attributes: Option<FileAttributes>,
}

/// The mathematical value of a `ScannedFile`.
pub struct FileRecord {
    pub hash: Seq<char>,
    pub path: Seq<char>,
    pub attributes: Option<FileAttributes>,
}

impl View for ScannedFile {
    type V = FileRecord;

    open spec fn view(&self) -> FileRecord {
        FileRecord { hash: self.hash@, path: self.path@, attributes: self.attributes }
    }
}

/// The paths that a sequence of path strings denotes, in the same order.
pub open spec fn paths_of(paths: Seq<String>) -> Seq<Seq<char>> {
    paths.map_values(|p: String| p@)
}

/// The records of a sequence of scanned files, in the same order.
pub open spec fn records_of(files: Seq<ScannedFile>) -> Seq<FileRecord> {
    files.map_values(|f: ScannedFile| f@)
}

} // verus!
