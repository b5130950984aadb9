//! The index: one record per path, the insert-or-merge rule that keeps it,
//! and the indexing of the entries that a walk of a directory tree observed.
use vstd::prelude::*;

use crate::record::{FileEntry, FileRecord, IndexError};
use crate::text::{ascii_lower, ascii_lowercase, copy_text, ext_of, extension_of};

verus! {

/// No two records of `s` share a path.
pub open spec fn paths_unique(s: Seq<FileRecord>) -> bool {
    forall|i: int, j: int|
        0 <= i < s.len() && 0 <= j < s.len() && i != j ==> #[trigger] s[i].path@ != #[trigger] s[j].path@
}

/// Some record of `s` has path `p`.
pub open spec fn has_path(s: Seq<FileRecord>, p: Seq<char>) -> bool {
    exists|i: int| 0 <= i < s.len() && #[trigger] s[i].path@ == p
}

/// The stored record `old` refreshed from `new`: every field of `new` but the
/// first indexing time, which `old` keeps.
pub open spec fn merged(old: FileRecord, new: FileRecord) -> FileRecord {
    FileRecord {
        path: new.path,
        name: new.name,
        ext: new.ext,
        size: new.size,
        modified: new.modified,
        added_at: old.added_at,
        hash: new.hash,
    }
}

/// The rows after upserting `rec`: the row of the same path is merged with it,
/// or, where there is none, `rec` is appended.
pub open spec fn upserted(s: Seq<FileRecord>, rec: FileRecord) -> Seq<FileRecord> {
    if has_path(s, rec.path@) {
        let i = choose|i: int| 0 <= i < s.len() && #[trigger] s[i].path@ == rec.path@;
        s.update(i, merged(s[i], rec))
    } else {
        s.push(rec)
    }
}

/// Why an entry cannot become a record, if it cannot.
pub open spec fn entry_error(e: FileEntry) -> Option<IndexError> {
    if !e.is_file {
        Some(IndexError::NotRegularFile { path: e.path })
    } else if e.name is None {
        Some(IndexError::NameNotText { path: e.path })
    } else if e.len > i64::MAX as u64 {
        Some(IndexError::TooLarge { path: e.path })
    } else if e.modified is None {
        Some(IndexError::NoModifiedTime { path: e.path })
    } else {
        None
    }
}

/// The content of a record, with its text taken as characters.
pub struct RecordView {
    pub path: Seq<char>,
    pub name: Seq<char>,
    pub ext: Option<Seq<char>>,
    pub size: i64,
    pub modified: i64,
    pub added_at: i64,
    pub hash: Option<Seq<char>>,
}

/// Optional text, as characters.
pub open spec fn text_view(t: Option<String>) -> Option<Seq<char>> {
    match t {
        Some(s) => Some(s@),
        None => None,
    }
}

impl View for FileRecord {
    type V = RecordView;

    open spec fn view(&self) -> RecordView {
        RecordView {
            path: self.path@,
            name: self.name@,
            ext: text_view(self.ext),
            size: self.size,
            modified: self.modified,
            added_at: self.added_at,
            hash: text_view(self.hash),
        }
    }
}

/// The contents of each record of `s`.
pub open spec fn view_rows(s: Seq<FileRecord>) -> Seq<RecordView> {
    s.map_values(|r: FileRecord| r@)
}

/// The record that a regular file entry becomes when indexed at time `now`.
pub open spec fn record_of(e: FileEntry, now: i64) -> RecordView {
    RecordView {
        path: e.path@,
        name: e.name->0@,
        ext: match ext_of(e.name->0@) {
            Some(x) => Some(ascii_lower(x)),
            None => None,
        },
        size: e.len as i64,
        modified: e.modified->0,
        added_at: now,
        hash: text_view(e.hash),
    }
}

/// Some row of `s` has path `p`.
pub open spec fn has_path_view(s: Seq<RecordView>, p: Seq<char>) -> bool {
    exists|i: int| 0 <= i < s.len() && #[trigger] s[i].path == p
}

/// `merged`, on record contents.
pub open spec fn merged_view(old: RecordView, new: RecordView) -> RecordView {
    RecordView { added_at: old.added_at, ..new }
}

/// `upserted`, on record contents.
pub open spec fn upserted_view(s: Seq<RecordView>, rec: RecordView) -> Seq<RecordView> {
    if has_path_view(s, rec.path) {
        let i = choose|i: int| 0 <= i < s.len() && #[trigger] s[i].path == rec.path;
        s.update(i, merged_view(s[i], rec))
    } else {
        s.push(rec)
    }
}

/// The rows and the outcome after indexing `items` in order onto `rows` at
/// time `now`, with `count` files already processed: entries that are not
/// regular files are skipped, each file is upserted, and the first failure
/// ends the run with that failure, the upserts made before it staying in place.
pub open spec fn index_run(
    rows: Seq<RecordView>,
    items: Seq<Result<FileEntry, IndexError>>,
    count: int,
    now: i64,
) -> (Seq<RecordView>, Result<int, IndexError>)
    decreases items.len(),
{
    if items.len() == 0 {
        (rows, Ok(count))
    } else {
        match items[0] {
            Err(e) => (rows, Err(e)),
            Ok(f) => if !f.is_file {
                index_run(rows, items.drop_first(), count, now)
            } else {
                match entry_error(f) {
                    Some(e) => (rows, Err(e)),
                    None => index_run(
                        upserted_view(rows, record_of(f, now)),
                        items.drop_first(),
                        count + 1,
                        now,
                    ),
                }
            },
        }
    }
}

/// The count of a run, as an integer.
pub open spec fn count_result(r: Result<usize, IndexError>) -> Result<int, IndexError> {
    match r {
        Ok(n) => Ok(n as int),
        Err(e) => Err(e),
    }
}

proof fn lemma_upserted_view(s: Seq<FileRecord>, rec: FileRecord)
    requires
        paths_unique(s),
    ensures
        view_rows(upserted(s, rec)) == upserted_view(view_rows(s), rec@),
        paths_unique(upserted(s, rec)),
{
    let v = view_rows(s);
    if has_path(s, rec.path@) {
        let i = choose|i: int| 0 <= i < s.len() && #[trigger] s[i].path@ == rec.path@;
        assert(v[i].path == rec@.path);
        let k = choose|k: int| 0 <= k < v.len() && #[trigger] v[k].path == rec@.path;
        assert(s[k].path@ == rec.path@);
        assert(k == i);
        assert(view_rows(upserted(s, rec)) =~= upserted_view(v, rec@));
        assert forall|a: int, b: int|
            0 <= a < upserted(s, rec).len() && 0 <= b < upserted(s, rec).len() && a != b implies
            #[trigger] upserted(s, rec)[a].path@ != #[trigger] upserted(s, rec)[b].path@ by {
            assert(s[a].path@ != s[b].path@);
        }
    } else {
        assert forall|k: int| 0 <= k < v.len() implies #[trigger] v[k].path != rec@.path by {
            assert(s[k].path@ != rec.path@);
        }
        assert(!has_path_view(v, rec@.path));
        assert(view_rows(upserted(s, rec)) =~= upserted_view(v, rec@));
    }
}

/// A copy of an indexing failure.
fn copy_error(e: &IndexError) -> (c: IndexError)
    ensures
        c == *e,
{
    match e {
        IndexError::NotRegularFile { path } => IndexError::NotRegularFile { path: path.clone() },
        IndexError::NameNotText { path } => IndexError::NameNotText { path: path.clone() },
        IndexError::TooLarge { path } => IndexError::TooLarge { path: path.clone() },
        IndexError::NoModifiedTime { path } => IndexError::NoModifiedTime { path: path.clone() },
        IndexError::Io { path, message } => IndexError::Io {
            path: path.clone(),
            message: message.clone(),
        },
        IndexError::InvalidDate => IndexError::InvalidDate,
    }
}

/// The index: its records in storage order, one per path.
pub struct FileIndexer {
    rows: Vec<FileRecord>,
}

impl View for FileIndexer {
    type V = Seq<FileRecord>;

    closed spec fn view(&self) -> Seq<FileRecord> {
        self.rows@
    }
}

/// A copy of a record.
pub(crate) fn copy_record(r: &FileRecord) -> (c: FileRecord)
    ensures
        c == *r,
{
    FileRecord {
        path: r.path.clone(),
        name: r.name.clone(),
        ext: copy_text(&r.ext),
        size: r.size,
        modified: r.modified,
        added_at: r.added_at,
        hash: copy_text(&r.hash),
    }
}

/// Why a walked entry cannot become a record, if it cannot; checked before
/// its content is read.
pub fn entry_problem(e: &FileEntry) -> (r: Option<IndexError>)
    ensures
        r == entry_error(*e),
{
    if !e.is_file {
        Some(IndexError::NotRegularFile { path: e.path.clone() })
    } else if e.name.is_none() {
        Some(IndexError::NameNotText { path: e.path.clone() })
    } else if e.len > i64::MAX as u64 {
        Some(IndexError::TooLarge { path: e.path.clone() })
    } else if e.modified.is_none() {
        Some(IndexError::NoModifiedTime { path: e.path.clone() })
    } else {
        None
    }
}

/// Builds the record of one walked entry, stamped with `now` as its first
/// indexing time, or says why the entry cannot be indexed.
pub fn build_record(e: &FileEntry, now: i64) -> (r: Result<FileRecord, IndexError>)
    ensures
        match entry_error(*e) {
            Some(err) => r == Err::<FileRecord, IndexError>(err),
            None => r matches Ok(rec) && rec@ == record_of(*e, now),
        },
{
    if !e.is_file {
        return Err(IndexError::NotRegularFile { path: e.path.clone() });
    }
    let name = match &e.name {
        Some(n) => n.clone(),
        None => {
            return Err(IndexError::NameNotText { path: e.path.clone() });
        },
    };
    if e.len > i64::MAX as u64 {
        return Err(IndexError::TooLarge { path: e.path.clone() });
    }
    let modified = match e.modified {
        Some(m) => m,
        None => {
            return Err(IndexError::NoModifiedTime { path: e.path.clone() });
        },
    };
    let ext = match extension_of(name.as_str()) {
        Some(x) => Some(ascii_lowercase(x.as_str())),
        None => None,
    };
    Ok(
        FileRecord {
            path: e.path.clone(),
            name,
            ext,
            size: e.len as i64,
            modified,
            added_at: now,
            hash: copy_text(&e.hash),
        },
    )
}

impl FileIndexer {
    /// The rows are well formed: one per path.
    pub open spec fn wf(&self) -> bool {
        paths_unique(self@)
    }

    /// An empty index.
    pub fn new() -> (r: FileIndexer)
        ensures
            r.wf(),
            r@ == Seq::<FileRecord>::empty(),
    {
        FileIndexer { rows: Vec::new() }
    }

    /// The stored records, in storage order.
    pub fn records(&self) -> (r: &Vec<FileRecord>)
        ensures
            r@ == self@,
    {
        &self.rows
    }

    /// Inserts `rec`, or, where a record of the same path is stored, replaces
    /// every field of it but its first indexing time.
    pub fn upsert(&mut self, rec: FileRecord)
        requires
            old(self).wf(),
        ensures
            final(self).wf(),
            final(self)@ == upserted(old(self)@, rec),
    {
        let mut i: usize = 0;
        while i < self.rows.len()
            invariant
                i <= self.rows.len(),
                self@ == old(self)@,
                paths_unique(self@),
                forall|j: int| 0 <= j < i ==> #[trigger] self.rows@[j].path@ != rec.path@,
            decreases self.rows.len() - i,
        {
            if self.rows[i].path == rec.path {
                let ghost s = self.rows@;
                let kept = self.rows[i].added_at;
                let mut rec = rec;
                rec.added_at = kept;
                self.rows.set(i, rec);
                proof {
                    assert(has_path(s, rec.path@));
                    let c = choose|c: int| 0 <= c < s.len() && #[trigger] s[c].path@ == rec.path@;
                    assert(s[i as int].path@ == rec.path@);
                    assert(c == i);
                    assert(self.rows@ =~= upserted(s, rec));
                }
                return;
            }
            i += 1;
        }
        proof {
            assert(!has_path(self@, rec.path@));
        }
        self.rows.push(rec);
    }

    /// Indexes the entries that a walk observed, in order, stamping new
    /// records with `now`, the time at which they were observed; see
    /// `index_run` for the outcome.
    pub fn index_dir(
        &mut self,
        items: &Vec<Result<FileEntry, IndexError>>,
        now: i64,
    ) -> (r: Result<usize, IndexError>)
        requires
            old(self).wf(),
        ensures
            final(self).wf(),
            index_run(view_rows(old(self)@), items@, 0, now) == (
                view_rows(final(self)@),
                count_result(r),
            ),
    {
        let mut count: usize = 0;
        let mut i: usize = 0;
        proof {
            assert(items@.skip(0) =~= items@);
        }
        while i < items.len()
            invariant
                self.wf(),
                i <= items.len(),
                count <= i,
                index_run(view_rows(self@), items@.skip(i as int), count as int, now) == index_run(
                    view_rows(old(self)@),
                    items@,
                    0,
                    now,
                ),
            decreases items.len() - i,
        {
            proof {
                assert(items@.skip(i as int).drop_first() =~= items@.skip(i + 1));
            }
            match &items[i] {
                Err(e) => {
                    return Err(copy_error(e));
                },
                Ok(entry) => {
                    if entry.is_file {
                        match build_record(entry, now) {
                            Err(e) => {
                                return Err(e);
                            },
                            Ok(rec) => {
                                proof {
                                    lemma_upserted_view(self@, rec);
                                }
                                self.upsert(rec);
                                count += 1;
                            },
                        }
                    }
                },
            }
            i += 1;
        }
        proof {
            assert(items@.skip(i as int).len() == 0);
        }
        Ok(count)
    }
}

} // verus!
