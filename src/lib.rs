//! An index of the files under a directory tree: one record per path, kept
//! by an insert-or-merge rule, searched by a conjunction of optional filters
//! with one sort column and a page window, and grouped by content digest to
//! find duplicate files.
pub mod calendar;
pub mod digest;
pub mod duplicates;
pub mod laws;
pub mod ordering;
pub mod query;
pub mod record;
pub mod reindex;
mod seq_facts;
pub mod size_text;
pub mod store;
pub mod text;

pub use calendar::Date;
pub use digest::{digest_hex, ContentHasher};
pub use record::{DuplicateGroup, FileEntry, FileRecord, IndexError, SearchQuery, SortKey};
pub use size_text::human_bytes;
pub use store::{build_record, entry_problem, FileIndexer};
