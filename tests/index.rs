use fsindex::calendar::{is_representable, Date};
use fsindex::text::extension_of;
use fsindex::{
    build_record, digest_hex, entry_problem, human_bytes, ContentHasher, FileEntry, FileIndexer, FileRecord,
    IndexError, SearchQuery, SortKey,
};

fn entry(path: &str, name: &str, len: u64, modified: i64, hash: Option<String>) -> FileEntry {
    FileEntry {
        path: path.to_string(),
        is_file: true,
        name: Some(name.to_string()),
        len,
        modified: Some(modified),
        hash,
    }
}

fn record(path: &str, name: &str, ext: Option<&str>, size: i64, modified: i64) -> FileRecord {
    FileRecord {
        path: path.to_string(),
        name: name.to_string(),
        ext: ext.map(|e| e.to_string()),
        size,
        modified,
        added_at: 1_700_000_000,
        hash: None,
    }
}

fn names(rows: &[FileRecord]) -> Vec<String> {
    rows.iter().map(|r| r.name.clone()).collect()
}

fn index_of(records: Vec<FileRecord>) -> FileIndexer {
    let mut ix = FileIndexer::new();
    for r in records {
        ix.upsert(r);
    }
    ix
}

#[test]
fn two_identical_files_form_one_group() {
    let h = digest_hex(b"AAAAAAAAAA");
    let items = vec![
        Ok(entry("/d/a.txt", "a.txt", 10, 100, Some(h.clone()))),
        Ok(entry("/d/b.txt", "b.txt", 10, 100, Some(h.clone()))),
    ];
    let mut ix = FileIndexer::new();
    assert_eq!(ix.index_dir(&items, 1_700_000_000), Ok(2));
    let groups = ix.duplicate_groups(10);
    assert_eq!(groups.len(), 1);
    assert_eq!(groups[0].size, 10);
    assert_eq!(groups[0].count, 2);
    assert_eq!(groups[0].hash, h);
    assert_eq!(groups[0].paths, vec!["/d/a.txt".to_string(), "/d/b.txt".to_string()]);
}

#[test]
fn three_copies_and_one_distinct_file() {
    let same = digest_hex(b"same content");
    let other = digest_hex(b"other content");
    let items = vec![
        Ok(entry("/d/c.bin", "c.bin", 12, 1, Some(same.clone()))),
        Ok(entry("/d/z.bin", "z.bin", 13, 1, Some(other.clone()))),
        Ok(entry("/d/a.bin", "a.bin", 12, 1, Some(same.clone()))),
        Ok(entry("/d/b.bin", "b.bin", 12, 1, Some(same.clone()))),
    ];
    let mut ix = FileIndexer::new();
    assert_eq!(ix.index_dir(&items, 5), Ok(4));
    let groups = ix.duplicate_groups(10);
    assert_eq!(groups.len(), 1);
    assert_eq!(groups[0].count, 3);
    assert_eq!(
        groups[0].paths,
        vec!["/d/a.bin".to_string(), "/d/b.bin".to_string(), "/d/c.bin".to_string()]
    );
    assert!(groups.iter().all(|g| !g.paths.contains(&"/d/z.bin".to_string())));
}

#[test]
fn duplicate_groups_ordered_by_count_and_limited() {
    let x = digest_hex(b"x");
    let y = digest_hex(b"y");
    let items = vec![
        Ok(entry("/p/x1", "x1", 1, 1, Some(x.clone()))),
        Ok(entry("/p/y1", "y1", 1, 1, Some(y.clone()))),
        Ok(entry("/p/y2", "y2", 1, 1, Some(y.clone()))),
        Ok(entry("/p/x2", "x2", 1, 1, Some(x.clone()))),
        Ok(entry("/p/y3", "y3", 1, 1, Some(y.clone()))),
        Ok(entry("/p/plain", "plain", 1, 1, None)),
    ];
    let mut ix = FileIndexer::new();
    assert_eq!(ix.index_dir(&items, 5), Ok(6));
    let groups = ix.duplicate_groups(10);
    assert_eq!(groups.len(), 2);
    assert_eq!((groups[0].hash.clone(), groups[0].count), (y.clone(), 3));
    assert_eq!((groups[1].hash.clone(), groups[1].count), (x.clone(), 2));
    let top = ix.duplicate_groups(1);
    assert_eq!(top.len(), 1);
    assert_eq!(top[0].hash, y);
    assert!(ix.duplicate_groups(0).is_empty());
}

#[test]
fn same_digest_different_size_is_not_a_group() {
    let h = digest_hex(b"collision");
    let items = vec![
        Ok(entry("/q/a", "a", 1, 1, Some(h.clone()))),
        Ok(entry("/q/b", "b", 2, 1, Some(h.clone()))),
    ];
    let mut ix = FileIndexer::new();
    assert_eq!(ix.index_dir(&items, 5), Ok(2));
    assert!(ix.duplicate_groups(10).is_empty());
}

#[test]
fn page_by_name_with_offset() {
    let ix = index_of(vec![
        record("/t/c.txt", "c.txt", Some("txt"), 3, 10),
        record("/t/a.txt", "a.txt", Some("txt"), 1, 10),
        record("/t/b.txt", "b.txt", Some("txt"), 2, 10),
    ]);
    let mut q = SearchQuery::default();
    q.ext = Some("txt".to_string());
    q.sort_key = Some(SortKey::Name);
    q.limit = Some(1);
    q.offset = Some(1);
    let rows = ix.search(&q).unwrap();
    assert_eq!(names(&rows), vec!["b.txt"]);
}

#[test]
fn unreadable_entry_aborts_the_run() {
    let items = vec![
        Ok(entry("/u/a.txt", "a.txt", 1, 1, None)),
        Err(IndexError::Io {
            path: "/u/secret".to_string(),
            message: "permission denied".to_string(),
        }),
        Ok(entry("/u/c.txt", "c.txt", 1, 1, None)),
    ];
    let mut ix = FileIndexer::new();
    let r = ix.index_dir(&items, 1_700_000_000);
    assert!(matches!(r, Err(IndexError::Io { .. })));
    assert_eq!(ix.records().len(), 1);
    assert_eq!(ix.records()[0].path, "/u/a.txt");
}

#[test]
fn reindexing_keeps_rows_and_first_index_time() {
    let items = vec![
        Ok(entry("/r/a.TXT", "a.TXT", 4, 50, None)),
        Ok(entry("/r/b", "b", 6, 60, None)),
        Ok(FileEntry {
            path: "/r".to_string(),
            is_file: false,
            name: Some("r".to_string()),
            len: 0,
            modified: Some(1),
            hash: None,
        }),
    ];
    let mut ix = FileIndexer::new();
    assert_eq!(ix.index_dir(&items, 1000), Ok(2));
    let first: Vec<FileRecord> = ix.records().clone();
    assert_eq!(ix.index_dir(&items, 2000), Ok(2));
    let second = ix.records();
    assert_eq!(first.len(), second.len());
    for (a, b) in first.iter().zip(second.iter()) {
        assert_eq!(a.path, b.path);
        assert_eq!(a.name, b.name);
        assert_eq!(a.ext, b.ext);
        assert_eq!(a.size, b.size);
        assert_eq!(a.modified, b.modified);
        assert_eq!(a.hash, b.hash);
        assert_eq!(a.added_at, 1000);
        assert_eq!(b.added_at, 1000);
    }
    assert_eq!(second[0].ext, Some("txt".to_string()));
}

#[test]
fn upsert_refreshes_fields_but_keeps_added_at() {
    let mut ix = FileIndexer::new();
    ix.upsert(record("/v/a", "a", None, 1, 10));
    let mut newer = record("/v/a", "a2", Some("md"), 7, 20);
    newer.added_at = 1_800_000_000;
    ix.upsert(newer);
    assert_eq!(ix.records().len(), 1);
    let r = &ix.records()[0];
    assert_eq!((r.name.as_str(), r.size, r.modified), ("a2", 7, 20));
    assert_eq!(r.ext, Some("md".to_string()));
    assert_eq!(r.added_at, 1_700_000_000);
}

#[test]
fn upserted_record_is_found_unchanged() {
    let mut ix = index_of(vec![record("/w/x", "x", None, 5, 5)]);
    let mut rec = record("/w/new.rs", "new.rs", Some("rs"), 99, 1234);
    rec.hash = Some(digest_hex(b"fn main() {}"));
    ix.upsert(rec.clone());
    let mut q = SearchQuery::default();
    q.limit = Some(100);
    let rows = ix.search(&q).unwrap();
    let found = rows.iter().find(|r| r.path == rec.path).unwrap();
    assert_eq!(found.name, rec.name);
    assert_eq!(found.ext, rec.ext);
    assert_eq!(found.size, rec.size);
    assert_eq!(found.modified, rec.modified);
    assert_eq!(found.added_at, rec.added_at);
    assert_eq!(found.hash, rec.hash);
}

#[test]
fn size_bounds_are_inclusive() {
    let ix = index_of(vec![
        record("/s/a", "a", None, 9, 1),
        record("/s/b", "b", None, 10, 1),
        record("/s/c", "c", None, 15, 1),
        record("/s/d", "d", None, 20, 1),
        record("/s/e", "e", None, 21, 1),
    ]);
    let mut q = SearchQuery::default();
    q.min_size = Some(10);
    q.max_size = Some(20);
    let rows = ix.search(&q).unwrap();
    assert_eq!(names(&rows), vec!["b", "c", "d"]);
    q.min_size = Some(15);
    q.max_size = Some(15);
    assert_eq!(names(&ix.search(&q).unwrap()), vec!["c"]);
}

#[test]
fn date_bounds_cover_whole_days() {
    // 2024-01-01T00:00:00Z is 1704067200; 2024-01-02T23:59:59Z is 1704239999.
    let ix = index_of(vec![
        record("/m/a", "a", None, 1, 1704067199),
        record("/m/b", "b", None, 1, 1704067200),
        record("/m/c", "c", None, 1, 1704239999),
        record("/m/d", "d", None, 1, 1704240000),
    ]);
    let mut q = SearchQuery::default();
    q.date_from = Some(Date { year: 2024, month: 1, day: 1 });
    q.date_to = Some(Date { year: 2024, month: 1, day: 2 });
    let rows = ix.search(&q).unwrap();
    assert_eq!(names(&rows), vec!["b", "c"]);
}

#[test]
fn day_boundaries_in_seconds() {
    let d = Date { year: 2024, month: 1, day: 1 };
    assert_eq!(d.start_of_day(), Some(1704067200));
    assert_eq!(d.end_of_day(), Some(1704153599));
    let epoch = Date { year: 1970, month: 1, day: 1 };
    assert_eq!(epoch.start_of_day(), Some(0));
    let leap = Date { year: 2000, month: 2, day: 29 };
    assert_eq!(leap.start_of_day(), Some(951782400));
    assert_eq!(Date { year: 2023, month: 2, day: 29 }.start_of_day(), None);
}

#[test]
fn invalid_date_bound_is_an_error() {
    let ix = index_of(vec![record("/i/a", "a", None, 1, 1)]);
    let mut q = SearchQuery::default();
    q.date_to = Some(Date { year: 2023, month: 13, day: 1 });
    assert!(matches!(ix.search(&q), Err(IndexError::InvalidDate)));
}

#[test]
fn ascending_and_descending_size_are_reversed() {
    let ix = index_of(vec![
        record("/o/a", "a", None, 30, 1),
        record("/o/b", "b", None, 10, 1),
        record("/o/c", "c", None, 20, 1),
    ]);
    let mut q = SearchQuery::default();
    q.sort_key = Some(SortKey::Size);
    let asc = names(&ix.search(&q).unwrap());
    q.desc = true;
    let mut desc = names(&ix.search(&q).unwrap());
    assert_eq!(asc, vec!["b", "c", "a"]);
    desc.reverse();
    assert_eq!(asc, desc);
}

#[test]
fn name_filter_is_case_sensitive_substring() {
    let ix = index_of(vec![
        record("/n/1", "Report.pdf", Some("pdf"), 1, 1),
        record("/n/2", "report_2.pdf", Some("pdf"), 1, 1),
        record("/n/3", "100%_done", None, 1, 1),
    ]);
    let mut q = SearchQuery::default();
    q.name_like = Some("epor".to_string());
    assert_eq!(names(&ix.search(&q).unwrap()), vec!["Report.pdf", "report_2.pdf"]);
    q.name_like = Some("Rep".to_string());
    assert_eq!(names(&ix.search(&q).unwrap()), vec!["Report.pdf"]);
    q.name_like = Some("%_".to_string());
    assert_eq!(names(&ix.search(&q).unwrap()), vec!["100%_done"]);
}

#[test]
fn extension_filter_ignores_query_case() {
    let ix = index_of(vec![
        record("/e/1", "a.txt", Some("txt"), 1, 1),
        record("/e/2", "b", None, 1, 1),
        record("/e/3", "c.md", Some("md"), 1, 1),
    ]);
    let mut q = SearchQuery::default();
    q.ext = Some("TXT".to_string());
    assert_eq!(names(&ix.search(&q).unwrap()), vec!["a.txt"]);
    q.ext = Some(String::new());
    assert_eq!(ix.search(&q).unwrap().len(), 3);
}

#[test]
fn unreadable_timestamp_row_is_dropped() {
    let ix = index_of(vec![
        record("/x/good", "good", None, 1, 1),
        record("/x/bad", "bad", None, 1, i64::MAX),
    ]);
    let rows = ix.search(&SearchQuery::default()).unwrap();
    assert_eq!(names(&rows), vec!["good"]);
    assert_eq!(names(&ix.recently_added(10)), vec!["good"]);
}

#[test]
fn recently_added_newest_first() {
    let mut a = record("/y/a", "a", None, 1, 1);
    a.added_at = 100;
    let mut b = record("/y/b", "b", None, 1, 1);
    b.added_at = 300;
    let mut c = record("/y/c", "c", None, 1, 1);
    c.added_at = 200;
    let ix = index_of(vec![a, b, c]);
    assert_eq!(names(&ix.recently_added(2)), vec!["b", "c"]);
    assert_eq!(names(&ix.recently_added(-1)), vec!["b", "c", "a"]);
}

#[test]
fn empty_index_searches_to_nothing() {
    let ix = FileIndexer::new();
    assert!(ix.search(&SearchQuery::default()).unwrap().is_empty());
    assert!(ix.duplicate_groups(5).is_empty());
    assert!(ix.recently_added(5).is_empty());
}

#[test]
fn record_builder_rejects_bad_entries() {
    let good = entry("/b/Photo.JPG", "Photo.JPG", 3, 7, None);
    let rec = build_record(&good, 11).unwrap();
    assert_eq!(rec.ext, Some("jpg".to_string()));
    assert_eq!((rec.size, rec.modified, rec.added_at), (3, 7, 11));

    let mut dir = good.clone();
    dir.is_file = false;
    assert!(matches!(build_record(&dir, 0), Err(IndexError::NotRegularFile { .. })));
    let mut bad_name = good.clone();
    bad_name.name = None;
    assert!(matches!(build_record(&bad_name, 0), Err(IndexError::NameNotText { .. })));
    let mut huge = good.clone();
    huge.len = (i64::MAX as u64) + 1;
    assert!(matches!(build_record(&huge, 0), Err(IndexError::TooLarge { .. })));
    let mut edge = good.clone();
    edge.len = i64::MAX as u64;
    assert_eq!(build_record(&edge, 0).unwrap().size, i64::MAX);
    let mut no_time = good.clone();
    no_time.modified = None;
    assert!(matches!(build_record(&no_time, 0), Err(IndexError::NoModifiedTime { .. })));
}

#[test]
fn failing_file_entry_stops_indexing() {
    let mut bad = entry("/f/b", "b", 1, 1, None);
    bad.modified = None;
    let items = vec![Ok(entry("/f/a", "a", 1, 1, None)), Ok(bad), Ok(entry("/f/c", "c", 1, 1, None))];
    let mut ix = FileIndexer::new();
    assert!(matches!(ix.index_dir(&items, 1), Err(IndexError::NoModifiedTime { .. })));
    assert_eq!(ix.records().len(), 1);
}

#[test]
fn digests_are_blake3_hex() {
    assert_eq!(
        digest_hex(b""),
        "af1349b9f5f9a1a6a0404dea36dcc9499bcb25c9adc112b7cc9a93cae41f3262"
    );
    assert_eq!(
        digest_hex(b"abc"),
        "6437b3ac38465133ffb63b75273a8db548c558465d79db03fd359c6cd5bd9d85"
    );
    let mut h = ContentHasher::new();
    h.update(b"ab");
    h.update(b"c");
    assert_eq!(h.hex_digest(), digest_hex(b"abc"));
}

#[test]
fn human_readable_sizes() {
    assert_eq!(human_bytes(0), "0 B");
    assert_eq!(human_bytes(1023), "1023 B");
    assert_eq!(human_bytes(1024), "1.00 KB");
    assert_eq!(human_bytes(1536), "1.50 KB");
    assert_eq!(human_bytes(1126), "1.10 KB");
    assert_eq!(human_bytes(1048576), "1.00 MB");
    assert_eq!(human_bytes(5 * 1073741824), "5.00 GB");
    assert_eq!(human_bytes(2048 * 1099511627776), "2048.00 TB");
}

#[test]
fn supported_calendar_range() {
    let first = Date { year: -262143, month: 1, day: 1 };
    let last = Date { year: 262142, month: 12, day: 31 };
    assert_eq!(first.start_of_day(), Some(-8334601228800));
    assert_eq!(last.end_of_day(), Some(8210266876799));
    assert_eq!(Date { year: 262143, month: 1, day: 1 }.start_of_day(), None);
    assert_eq!(Date { year: -262144, month: 12, day: 31 }.end_of_day(), None);
    assert!(is_representable(-8334601228800));
    assert!(!is_representable(-8334601228801));
    assert!(is_representable(8210266876799));
    assert!(!is_representable(8210266876800));
}

#[test]
fn extension_follows_the_last_dot() {
    assert_eq!(extension_of("a.tar.gz"), Some("gz".to_string()));
    assert_eq!(extension_of("README"), None);
    assert_eq!(extension_of(".bashrc"), None);
    assert_eq!(extension_of(".config.toml"), Some("toml".to_string()));
    assert_eq!(extension_of("trailing."), Some(String::new()));
    assert_eq!(extension_of("ünï.Çode"), Some("Çode".to_string()));
    let rec = build_record(&entry("/z/.hidden", ".hidden", 1, 1, None), 0).unwrap();
    assert_eq!(rec.ext, None);
    let rec = build_record(&entry("/z/A.B.TXT", "A.B.TXT", 1, 1, None), 0).unwrap();
    assert_eq!(rec.ext, Some("txt".to_string()));
}

#[test]
fn entry_problems_found_before_reading() {
    let good = entry("/k/a.txt", "a.txt", 1, 1, None);
    assert_eq!(entry_problem(&good), None);
    let mut huge = good.clone();
    huge.len = u64::MAX;
    assert_eq!(
        entry_problem(&huge),
        Some(IndexError::TooLarge { path: "/k/a.txt".to_string() })
    );
    let mut dir = good.clone();
    dir.is_file = false;
    assert_eq!(
        entry_problem(&dir),
        Some(IndexError::NotRegularFile { path: "/k/a.txt".to_string() })
    );
}

#[test]
fn digest_is_lowercase_hex() {
    let d = digest_hex(b"Mixed CASE input");
    assert_eq!(d.len(), 64);
    assert!(d.chars().all(|c| c.is_ascii_digit() || ('a'..='f').contains(&c)));
}

#[test]
fn human_readable_large_counts() {
    assert_eq!(human_bytes(u64::MAX), "16777216.00 TB");
    assert_eq!(human_bytes(10), "10 B");
    assert_eq!(human_bytes(1_234_567_890), "1.15 GB");
}
