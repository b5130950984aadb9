//! Search over the index: a conjunction of the filters that a query holds,
//! one sort column, and a page window, and the "recently added" listing.
use vstd::prelude::*;

use crate::calendar::{is_decodable, is_representable, is_valid_date, seconds_at};
use crate::ordering::{column_of, is_sorted_by, sort_records, Column};
use crate::record::{FileRecord, IndexError, SearchQuery};
use crate::store::{copy_record, FileIndexer};
use crate::text::{ascii_lower, ascii_lowercase, contains_text, is_infix};

verus! {

/// The name contains the query's name fragment, if it sets a non-empty one.
pub open spec fn name_ok(q: SearchQuery, r: FileRecord) -> bool {
    match q.name_like {
        Some(n) => n@.len() == 0 || is_infix(n@, r.name@),
        None => true,
    }
}

/// The stored extension equals the query's, lowercased, if it sets a
/// non-empty one.
pub open spec fn ext_ok(q: SearchQuery, r: FileRecord) -> bool {
    match q.ext {
        Some(e) => e@.len() == 0 || (r.ext matches Some(x) && x@ == ascii_lower(e@)),
        None => true,
    }
}

/// The size lies within the query's size bounds, both inclusive.
pub open spec fn size_ok(q: SearchQuery, r: FileRecord) -> bool {
    &&& (q.min_size matches Some(lo) ==> lo <= r.size)
    &&& (q.max_size matches Some(hi) ==> r.size <= hi)
}

/// The modification time lies within the given bounds, both inclusive.
pub open spec fn time_ok(from: Option<i64>, to: Option<i64>, r: FileRecord) -> bool {
    &&& (from matches Some(lo) ==> lo <= r.modified)
    &&& (to matches Some(hi) ==> r.modified <= hi)
}

/// The record meets every filter of `q`, with the modification time bounded
/// by `from` and `to` (both inclusive).
pub open spec fn meets_filters(q: SearchQuery, from: Option<i64>, to: Option<i64>, r: FileRecord) -> bool {
    name_ok(q, r) && ext_ok(q, r) && size_ok(q, r) && time_ok(from, to, r)
}

/// The rows that meet the filters, in storage order.
pub open spec fn selected(
    rows: Seq<FileRecord>,
    q: SearchQuery,
    from: Option<i64>,
    to: Option<i64>,
) -> Seq<FileRecord> {
    rows.filter(|r: FileRecord| meets_filters(q, from, to, r))
}

/// Rows skipped before the page: the offset when positive, at most all rows.
pub open spec fn skipped(len: int, offset: Option<i64>) -> int {
    match offset {
        Some(o) => if o <= 0 {
            0
        } else if o >= len {
            len
        } else {
            o as int
        },
        None => 0,
    }
}

/// The page of `s` that `limit` and `offset` select; an absent or negative
/// limit sets no bound.
pub open spec fn window(s: Seq<FileRecord>, limit: Option<i64>, offset: Option<i64>) -> Seq<FileRecord> {
    let rest = s.skip(skipped(s.len() as int, offset));
    match limit {
        Some(l) => if 0 <= l && l < rest.len() {
            rest.take(l as int)
        } else {
            rest
        },
        None => rest,
    }
}

/// Both times of the record can be read back as instants.
pub open spec fn is_listable(r: FileRecord) -> bool {
    is_decodable(r.modified as int) && is_decodable(r.added_at as int)
}

/// The rows of `s` whose times can be read back; the others are dropped.
pub open spec fn listable(s: Seq<FileRecord>) -> Seq<FileRecord> {
    s.filter(|r: FileRecord| is_listable(r))
}

/// The column that `q` sorts by.
pub open spec fn sort_column(q: SearchQuery) -> Column {
    match q.sort_key {
        Some(k) => column_of(k),
        None => Column::Name,
    }
}

/// `r` is what a search of `rows` by `q` may return, with the modification
/// time bounded by `from` and `to`: the matching rows, sorted by the query's
/// column and direction (rows equal in it in any order), cut to the page, and
/// without the rows whose times cannot be read back.
pub open spec fn is_search_result(
    rows: Seq<FileRecord>,
    q: SearchQuery,
    from: Option<i64>,
    to: Option<i64>,
    r: Seq<FileRecord>,
) -> bool {
    exists|s: Seq<FileRecord>|
        #![trigger is_sorted_by(s, sort_column(q), q.desc)]
        s.to_multiset() == selected(rows, q, from, to).to_multiset() && is_sorted_by(
            s,
            sort_column(q),
            q.desc,
        ) && r == listable(window(s, q.limit, q.offset))
}

/// A date bound of `q` names no day of the calendar.
pub open spec fn has_invalid_date(q: SearchQuery) -> bool {
    ||| (q.date_from matches Some(d) && !is_valid_date(d.year as int, d.month as int, d.day as int))
    ||| (q.date_to matches Some(d) && !is_valid_date(d.year as int, d.month as int, d.day as int))
}

/// The lower bound on modification time that `q` sets: the first second of its
/// `date_from` day.
pub open spec fn from_bound(q: SearchQuery) -> Option<i64> {
    match q.date_from {
        Some(d) => Some(seconds_at(d.year as int, d.month as int, d.day as int, 0) as i64),
        None => None,
    }
}

/// The upper bound on modification time that `q` sets: the last second of its
/// `date_to` day.
pub open spec fn to_bound(q: SearchQuery) -> Option<i64> {
    match q.date_to {
        Some(d) => Some(seconds_at(d.year as int, d.month as int, d.day as int, 86399) as i64),
        None => None,
    }
}

/// Whether `r` meets every filter of `q`, with the given time bounds; `ext`
/// is the query's extension, lowercased.
fn record_matches(
    q: &SearchQuery,
    ext: &Option<String>,
    from: Option<i64>,
    to: Option<i64>,
    r: &FileRecord,
) -> (b: bool)
    requires
        match q.ext {
            Some(e) => ext matches Some(x) && x@ == ascii_lower(e@),
            None => ext is None,
        },
    ensures
        b == meets_filters(*q, from, to, *r),
{
    if let Some(n) = &q.name_like {
        if n.unicode_len() > 0 && !contains_text(r.name.as_str(), n.as_str()) {
            return false;
        }
    }
    if let Some(e) = ext {
        proof {
            assert(q.ext->0@.len() == e@.len());
        }
        if e.unicode_len() > 0 {
            match &r.ext {
                Some(x) => {
                    let same = *x == *e;
                    if !same {
                        return false;
                    }
                },
                None => {
                    return false;
                },
            }
        }
    }
    if let Some(lo) = q.min_size {
        if r.size < lo {
            return false;
        }
    }
    if let Some(hi) = q.max_size {
        if r.size > hi {
            return false;
        }
    }
    if let Some(lo) = from {
        if r.modified < lo {
            return false;
        }
    }
    if let Some(hi) = to {
        if r.modified > hi {
            return false;
        }
    }
    true
}

/// The page of `s` that `limit` and `offset` select, without the rows whose
/// times cannot be read back.
pub fn page_of(s: Vec<FileRecord>, limit: Option<i64>, offset: Option<i64>) -> (r: Vec<FileRecord>)
    ensures
        r@ == listable(window(s@, limit, offset)),
{
    let len = s.len();
    let start: usize = match offset {
        Some(o) => if o <= 0 {
            0
        } else if o as u64 >= len as u64 {
            len
        } else {
            o as usize
        },
        None => 0,
    };
    let end: usize = match limit {
        Some(l) => if 0 <= l && (l as u64) < (len - start) as u64 {
            start + l as usize
        } else {
            len
        },
        None => len,
    };
    let ghost w = window(s@, limit, offset);
    proof {
        assert(w =~= s@.subrange(start as int, end as int));
    }
    let mut out: Vec<FileRecord> = Vec::new();
    let mut i: usize = start;
    while i < end
        invariant
            start <= i <= end <= s.len(),
            w == s@.subrange(start as int, end as int),
            out@ == listable(s@.subrange(start as int, i as int)),
        decreases end - i,
    {
        proof {
            reveal(Seq::filter);
            assert(s@.subrange(start as int, i + 1).drop_last() =~= s@.subrange(start as int, i as int));
        }
        let r = &s[i];
        if is_representable(r.modified) && is_representable(r.added_at) {
            out.push(copy_record(r));
        }
        i += 1;
    }
    out
}

impl FileIndexer {
    /// Searches with the modification time bounded by `from` and `to`, both
    /// inclusive, in place of the query's own dates.
    pub fn search_between(&self, q: &SearchQuery, from: Option<i64>, to: Option<i64>) -> (r: Vec<
        FileRecord,
    >)
        ensures
            is_search_result(self@, *q, from, to, r@),
    {
        let ext: Option<String> = match &q.ext {
            Some(e) => Some(ascii_lowercase(e.as_str())),
            None => None,
        };
        let rows = self.records();
        let mut found: Vec<FileRecord> = Vec::new();
        let mut i: usize = 0;
        while i < rows.len()
            invariant
                i <= rows.len(),
                rows@ == self@,
                found@ == selected(rows@.take(i as int), *q, from, to),
                match q.ext {
                    Some(e) => ext matches Some(x) && x@ == ascii_lower(e@),
                    None => ext is None,
                },
            decreases rows.len() - i,
        {
            proof {
                reveal(Seq::filter);
                assert(rows@.take(i + 1).drop_last() =~= rows@.take(i as int));
                assert(rows@.take(i + 1).last() == rows@[i as int]);
            }
            let keep = record_matches(q, &ext, from, to, &rows[i]);
            if keep {
                found.push(copy_record(&rows[i]));
            }
            i += 1;
        }
        proof {
            assert(rows@.take(rows.len() as int) =~= rows@);
        }
        let key = match q.sort_key {
            Some(k) => k.column(),
            None => Column::Name,
        };
        let sorted = sort_records(found, key, q.desc);
        let r = page_of(sorted, q.limit, q.offset);
        proof {
            assert(is_sorted_by(sorted@, sort_column(*q), q.desc));
        }
        r
    }

    /// Searches by every filter of `q`; the date bounds cover whole days in
    /// UTC. Fails exactly when a date bound names no day of the calendar.
    pub fn search(&self, q: &SearchQuery) -> (r: Result<Vec<FileRecord>, IndexError>)
        ensures
            has_invalid_date(*q) <==> r is Err,
            r matches Err(e) ==> e == IndexError::InvalidDate,
            r matches Ok(v) ==> is_search_result(self@, *q, from_bound(*q), to_bound(*q), v@),
    {
        let from = match &q.date_from {
            Some(d) => match d.start_of_day() {
                Some(t) => Some(t),
                None => {
                    return Err(IndexError::InvalidDate);
                },
            },
            None => None,
        };
        let to = match &q.date_to {
            Some(d) => match d.end_of_day() {
                Some(t) => Some(t),
                None => {
                    return Err(IndexError::InvalidDate);
                },
            },
            None => None,
        };
        Ok(self.search_between(q, from, to))
    }

    /// The most recently added records first, at most `limit` of them (no
    /// bound when negative), without the rows whose times cannot be read back.
    pub fn recently_added(&self, limit: i64) -> (r: Vec<FileRecord>)
        ensures
            exists|s: Seq<FileRecord>|
                #![trigger is_sorted_by(s, Column::AddedAt, true)]
                s.to_multiset() == self@.to_multiset() && is_sorted_by(s, Column::AddedAt, true)
                    && r@ == listable(window(s, Some(limit), None)),
    {
        let rows = self.records();
        let mut all: Vec<FileRecord> = Vec::new();
        let mut i: usize = 0;
        while i < rows.len()
            invariant
                i <= rows.len(),
                rows@ == self@,
                all@ == rows@.take(i as int),
            decreases rows.len() - i,
        {
            all.push(copy_record(&rows[i]));
            proof {
                assert(all@ =~= rows@.take(i + 1));
            }
            i += 1;
        }
        proof {
            assert(rows@.take(rows.len() as int) =~= rows@);
        }
        let sorted = sort_records(all, Column::AddedAt, true);
        page_of(sorted, Some(limit), None)
    }
}

} // verus!
