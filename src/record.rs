//! The values that the index stores, takes and returns.
use vstd::prelude::*;

use crate::calendar::Date;

verus! {

/// One indexed file; `path` is the key of the index.
#[derive(Clone, Debug)]
pub struct FileRecord {
    pub path: String,
    pub name: String,
    /// Lowercased extension, absent when the name has none.
    pub ext: Option<String>,
    pub size: i64,
    /// Last modification, in seconds since the epoch.
    pub modified: i64,
    /// First indexing of this path, in seconds since the epoch.
    pub added_at: i64,
    /// Hex digest of the content, absent unless hashing was asked for.
    pub hash: Option<String>,
}

/// Paths that share one content digest, found by grouping on digest and size.
#[derive(Clone, Debug)]
pub struct DuplicateGroup {
    pub hash: String,
    pub size: i64,
    pub count: i64,
    pub paths: Vec<String>,
}

/// The column that search results are ordered by.
#[derive(Clone, Copy, Debug, PartialEq, Eq, Structural)]
pub enum SortKey {
    Name,
    Size,
    Modified,
}

impl Default for SortKey {
    fn default() -> (r: SortKey)
        ensures
            r == SortKey::Name,
    {
        SortKey::Name
    }
}

/// A search request; every absent field leaves its dimension unconstrained.
#[derive(Clone, Debug)]
pub struct SearchQuery {
    /// Substring that the name must contain (ignored when empty).
    pub name_like: Option<String>,
    /// Extension that must match, compared in lower case (ignored when empty).
    pub ext: Option<String>,
    pub min_size: Option<i64>,
    pub max_size: Option<i64>,
    /// Earliest modification day, from its first second (UTC).
    pub date_from: Option<Date>,
    /// Latest modification day, up to its last second (UTC).
    pub date_to: Option<Date>,
    /// Sort column; `Name` when absent.
    pub sort_key: Option<SortKey>,
    pub desc: bool,
    /// Page length; absent or negative means no bound.
    pub limit: Option<i64>,
    /// Rows skipped after sorting; absent or negative means none.
    pub offset: Option<i64>,
}

impl Default for SearchQuery {
    fn default() -> (r: SearchQuery)
        ensures
            r.name_like is None,
            r.ext is None,
            r.min_size is None,
            r.max_size is None,
            r.date_from is None,
            r.date_to is None,
            r.sort_key is None,
            !r.desc,
            r.limit is None,
            r.offset is None,
    {
        SearchQuery {
            name_like: None,
            ext: None,
            min_size: None,
            max_size: None,
            date_from: None,
            date_to: None,
            sort_key: None,
            desc: false,
            limit: None,
            offset: None,
        }
    }
}

/// What the walk observed of one directory entry.
#[derive(Clone, Debug)]
pub struct FileEntry {
    /// The entry's path, as text.
    pub path: String,
    /// Whether the entry is a regular file.
    pub is_file: bool,
    /// The final path component, absent when it is not valid text.
    pub name: Option<String>,
    /// Length in bytes.
    pub len: u64,
    /// Last modification in seconds since the epoch, absent when unavailable.
    pub modified: Option<i64>,
    /// Hex digest of the content, when hashing was asked for.
    pub hash: Option<String>,
}

/// Why indexing or searching failed.
#[derive(Clone, Debug, PartialEq, Eq)]
pub enum IndexError {
    /// The entry is not a regular file.
    NotRegularFile { path: String },
    /// The file name is not valid text.
    NameNotText { path: String },
    /// The length does not fit a signed 64-bit count.
    TooLarge { path: String },
    /// The modification time is unavailable.
    NoModifiedTime { path: String },
    /// Walking the tree or reading a file failed.
    Io { path: String, message: String },
    /// A date bound of a search names no day of the calendar.
    InvalidDate,
}

} // verus!
