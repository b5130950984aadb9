//! Duplicate detection: records grouped by content digest and size, groups of
//! more than one member listed by size of group, each with the paths of the
//! records that share its digest.
use vstd::multiset::Multiset;
use vstd::prelude::*;

use crate::ordering::{is_sorted_by, sort_records, Column};
use crate::record::{DuplicateGroup, FileRecord};
use crate::seq_facts::{lemma_filter_elem, lemma_perm_contains};
use crate::store::{copy_record, FileIndexer};

verus! {

/// The record has digest `h` and size `sz`.
pub open spec fn has_key(r: FileRecord, h: Seq<char>, sz: i64) -> bool {
    r.hash matches Some(x) && x@ == h && r.size == sz
}

/// The record has digest `h`.
pub open spec fn shares_hash(r: FileRecord, h: Seq<char>) -> bool {
    r.hash matches Some(x) && x@ == h
}

/// How many records have digest `h` and size `sz`.
pub open spec fn key_count(rows: Seq<FileRecord>, h: Seq<char>, sz: i64) -> nat {
    rows.filter(|r: FileRecord| has_key(r, h, sz)).len()
}

/// More than one record has digest `h` and size `sz`.
pub open spec fn is_dup_key(rows: Seq<FileRecord>, h: Seq<char>, sz: i64) -> bool {
    key_count(rows, h, sz) > 1
}

/// Some group of `gs` has digest `h` and size `sz`.
pub open spec fn lists_key(gs: Seq<DuplicateGroup>, h: Seq<char>, sz: i64) -> bool {
    exists|i: int| 0 <= i < gs.len() && #[trigger] gs[i].hash@ == h && gs[i].size == sz
}

/// `ps` is the list of paths of the records with digest `h`, ordered by name
/// (records of equal name in any order).
pub open spec fn is_path_list(rows: Seq<FileRecord>, h: Seq<char>, ps: Seq<String>) -> bool {
    exists|s: Seq<FileRecord>|
        #![trigger is_sorted_by(s, Column::Name, false)]
        s.to_multiset() == rows.filter(|r: FileRecord| shares_hash(r, h)).to_multiset()
            && is_sorted_by(s, Column::Name, false) && ps == s.map_values(|r: FileRecord| r.path)
}

/// The group's digest and size are shared by more than one record, and its
/// count says by how many.
pub open spec fn is_counted_group(rows: Seq<FileRecord>, g: DuplicateGroup) -> bool {
    is_dup_key(rows, g.hash@, g.size) && g.count == key_count(rows, g.hash@, g.size)
}

/// No two groups of `gs` have the same digest and size.
pub open spec fn keys_distinct(gs: Seq<DuplicateGroup>) -> bool {
    forall|i: int, j: int|
        0 <= i < gs.len() && 0 <= j < gs.len() && i != j ==> !(#[trigger] gs[i].hash@
            == #[trigger] gs[j].hash@ && gs[i].size == gs[j].size)
}

/// Larger groups come first.
pub open spec fn counts_descending(gs: Seq<DuplicateGroup>) -> bool {
    forall|i: int, j: int| 0 <= i < j < gs.len() ==> #[trigger] gs[i].count >= #[trigger] gs[j].count
}

/// Every duplicated key is listed, unless the list was cut at `limit` and the
/// key's group is no larger than any listed one.
pub open spec fn lists_all_up_to(rows: Seq<FileRecord>, gs: Seq<DuplicateGroup>, limit: i64) -> bool {
    forall|h: Seq<char>, sz: i64|
        #[trigger] is_dup_key(rows, h, sz) && !lists_key(gs, h, sz) ==> 0 <= limit && gs.len()
            == limit && forall|i: int| 0 <= i < gs.len() ==> key_count(rows, h, sz) <= #[trigger] gs[i].count
}

/// `gs` is a duplicate report of `rows` cut at `limit` (no bound when
/// negative): each group is a digest and size shared by more than one record,
/// with its count and the name-ordered paths of the records with its digest;
/// no key twice; larger groups first; every such key listed unless the list
/// was cut.
pub open spec fn is_duplicate_report(rows: Seq<FileRecord>, gs: Seq<DuplicateGroup>, limit: i64) -> bool {
    &&& forall|i: int|
        0 <= i < gs.len() ==> is_counted_group(rows, #[trigger] gs[i]) && is_path_list(
            rows,
            gs[i].hash@,
            gs[i].paths@,
        )
    &&& keys_distinct(gs)
    &&& counts_descending(gs)
    &&& lists_all_up_to(rows, gs, limit)
    &&& (0 <= limit ==> gs.len() <= limit)
}

/// Some record with digest `h` has path `p`.
pub open spec fn is_path_of_digest(rows: Seq<FileRecord>, p: String, h: Seq<char>) -> bool {
    exists|j: int| 0 <= j < rows.len() && rows[j].path == p && shares_hash(rows[j], h)
}

/// Where one digest and size is the only one shared by more than one record,
/// a duplicate report with a positive limit holds exactly one group: that
/// key, with the number of records that share it, listing only paths of
/// records with that digest.
pub proof fn law_single_duplicate_group(
    rows: Seq<FileRecord>,
    gs: Seq<DuplicateGroup>,
    limit: i64,
    h: Seq<char>,
    sz: i64,
)
    requires
        is_duplicate_report(rows, gs, limit),
        limit >= 1,
        is_dup_key(rows, h, sz),
        forall|h2: Seq<char>, s2: i64| #[trigger] is_dup_key(rows, h2, s2) ==> h2 == h && s2 == sz,
    ensures
        gs.len() == 1,
        gs[0].hash@ == h,
        gs[0].size == sz,
        gs[0].count == key_count(rows, h, sz),
        forall|k: int| 0 <= k < gs[0].paths@.len() ==> is_path_of_digest(rows, #[trigger] gs[0].paths@[k], h),
{
    if !lists_key(gs, h, sz) {
        assert(gs.len() == limit);
        assert(is_counted_group(rows, gs[0]));
        assert(is_dup_key(rows, gs[0].hash@, gs[0].size));
        assert(lists_key(gs, h, sz));
    }
    let w = choose|w: int| 0 <= w < gs.len() && #[trigger] gs[w].hash@ == h && gs[w].size == sz;
    assert forall|i: int| 0 <= i < gs.len() implies #[trigger] gs[i] == gs[w] && i == w by {
        assert(is_counted_group(rows, gs[i]));
        assert(is_dup_key(rows, gs[i].hash@, gs[i].size));
        if i != w {
            assert(!(gs[i].hash@ == gs[w].hash@ && gs[i].size == gs[w].size));
        }
    }
    assert(gs[0] == gs[w]);
    if gs.len() > 1 {
        assert(gs[1] == gs[w]);
    }
    assert(is_counted_group(rows, gs[0]));
    let ps = gs[0].paths@;
    assert(is_path_list(rows, h, ps));
    let pred = |r: FileRecord| shares_hash(r, h);
    let s = choose|s: Seq<FileRecord>|
        #![trigger is_sorted_by(s, Column::Name, false)]
        s.to_multiset() == rows.filter(pred).to_multiset() && is_sorted_by(s, Column::Name, false)
            && ps == s.map_values(|r: FileRecord| r.path);
    assert forall|k: int| 0 <= k < ps.len() implies is_path_of_digest(rows, #[trigger] ps[k], h) by {
        assert(s.contains(s[k]));
        lemma_perm_contains(rows.filter(pred), s, s[k]);
        let m = choose|m: int| 0 <= m < rows.filter(pred).len() && rows.filter(pred)[m] == s[k];
        lemma_filter_elem(rows, pred, m);
        let j = choose|j: int| 0 <= j < rows.len() && rows[j] == s[k];
        assert(rows[j].path == ps[k]);
    }
}

/// How many records have digest `h` and size `sz`.
fn count_key(rows: &Vec<FileRecord>, h: &String, sz: i64) -> (n: usize)
    ensures
        n == key_count(rows@, h@, sz),
{
    let mut n: usize = 0;
    let mut i: usize = 0;
    while i < rows.len()
        invariant
            i <= rows.len(),
            n == key_count(rows@.take(i as int), h@, sz),
            n <= i,
        decreases rows.len() - i,
    {
        proof {
            reveal(Seq::filter);
            assert(rows@.take(i + 1).drop_last() =~= rows@.take(i as int));
            assert(rows@.take(i + 1).last() == rows@[i as int]);
        }
        let hit = match &rows[i].hash {
            Some(x) => *x == *h && rows[i].size == sz,
            None => false,
        };
        if hit {
            n += 1;
        }
        i += 1;
    }
    proof {
        assert(rows@.take(rows.len() as int) =~= rows@);
    }
    n
}

/// Whether a group of `gs` has digest `h` and size `sz`.
fn find_key(gs: &Vec<DuplicateGroup>, h: &String, sz: i64) -> (b: bool)
    ensures
        b == lists_key(gs@, h@, sz),
{
    let mut i: usize = 0;
    while i < gs.len()
        invariant
            i <= gs.len(),
            forall|j: int| 0 <= j < i ==> !(#[trigger] gs@[j].hash@ == h@ && gs@[j].size == sz),
        decreases gs.len() - i,
    {
        if gs[i].hash == *h && gs[i].size == sz {
            return true;
        }
        i += 1;
    }
    false
}

/// Sorts groups by count, larger first.
fn sort_by_count(gs: Vec<DuplicateGroup>) -> (r: Vec<DuplicateGroup>)
    ensures
        r@.to_multiset() == gs@.to_multiset(),
        counts_descending(r@),
{
    broadcast use vstd::seq_lib::group_to_multiset_ensures, vstd::multiset::group_multiset_axioms;

    let mut rest = gs;
    let mut out: Vec<DuplicateGroup> = Vec::new();
    proof {
        assert(out@.to_multiset() =~= Multiset::empty());
    }
    while rest.len() > 0
        invariant
            out@.to_multiset().add(rest@.to_multiset()) == gs@.to_multiset(),
            counts_descending(out@),
        decreases rest.len(),
    {
        let ghost before = rest@;
        let x = match rest.pop() {
            Some(x) => x,
            None => {
                return out;
            },
        };
        proof {
            assert(before =~= rest@.push(x));
            vstd::seq_lib::to_multiset_build(rest@, x);
        }
        let mut j: usize = 0;
        while j < out.len() && out[j].count >= x.count
            invariant
                j <= out.len(),
                forall|a: int| 0 <= a < j ==> #[trigger] out@[a].count >= x.count,
            decreases out.len() - j,
        {
            j += 1;
        }
        let ghost old_out = out@;
        out.insert(j, x);
        proof {
            assert(out@ =~= old_out.insert(j as int, x));
            vstd::seq_lib::to_multiset_insert(old_out, j as int, x);
            assert(out@.to_multiset().add(rest@.to_multiset()) =~= gs@.to_multiset());
            assert forall|a: int, b: int| 0 <= a < b < out@.len() implies #[trigger] out@[a].count
                >= #[trigger] out@[b].count by {
                if a < j && b == j {
                } else if a == j && b > j {
                    assert(old_out[j as int].count >= old_out[b - 1].count);
                } else if a < j && b > j {
                    assert(old_out[a].count >= old_out[b - 1].count);
                } else if b < j {
                    assert(old_out[a].count >= old_out[b].count);
                } else {
                    assert(old_out[a - 1].count >= old_out[b - 1].count);
                }
            }
        }
    }
    proof {
        assert(rest@.to_multiset() =~= Multiset::empty());
    }
    out
}

/// The paths of the records with digest `h`, ordered by name.
fn paths_with_hash(rows: &Vec<FileRecord>, h: &String) -> (ps: Vec<String>)
    ensures
        is_path_list(rows@, h@, ps@),
{
    let mut found: Vec<FileRecord> = Vec::new();
    let mut i: usize = 0;
    while i < rows.len()
        invariant
            i <= rows.len(),
            found@ == rows@.take(i as int).filter(|r: FileRecord| shares_hash(r, h@)),
        decreases rows.len() - i,
    {
        proof {
            reveal(Seq::filter);
            assert(rows@.take(i + 1).drop_last() =~= rows@.take(i as int));
            assert(rows@.take(i + 1).last() == rows@[i as int]);
        }
        let hit = match &rows[i].hash {
            Some(x) => *x == *h,
            None => false,
        };
        if hit {
            found.push(copy_record(&rows[i]));
        }
        i += 1;
    }
    proof {
        assert(rows@.take(rows.len() as int) =~= rows@);
    }
    let sorted = sort_records(found, Column::Name, false);
    let mut ps: Vec<String> = Vec::new();
    let mut k: usize = 0;
    while k < sorted.len()
        invariant
            k <= sorted.len(),
            ps@ == sorted@.take(k as int).map_values(|r: FileRecord| r.path),
        decreases sorted.len() - k,
    {
        ps.push(sorted[k].path.clone());
        proof {
            assert(ps@ =~= sorted@.take(k + 1).map_values(|r: FileRecord| r.path));
        }
        k += 1;
    }
    proof {
        assert(sorted@.take(sorted.len() as int) =~= sorted@);
        assert(is_sorted_by(sorted@, Column::Name, false));
    }
    ps
}

proof fn lemma_dup_key_has_row(rows: Seq<FileRecord>, h: Seq<char>, sz: i64)
    requires
        is_dup_key(rows, h, sz),
    ensures
        exists|j: int| 0 <= j < rows.len() && #[trigger] has_key(rows[j], h, sz),
{
    let pred = |r: FileRecord| has_key(r, h, sz);
    lemma_filter_elem(rows, pred, 0);
    let f = rows.filter(pred);
    let j = choose|j: int| 0 <= j < rows.len() && rows[j] == f[0];
    assert(has_key(rows[j], h, sz));
}

/// Distinct keys stay distinct in any reordering.
proof fn lemma_keys_distinct_perm(a: Seq<DuplicateGroup>, b: Seq<DuplicateGroup>)
    requires
        keys_distinct(a),
        a.to_multiset() == b.to_multiset(),
    ensures
        keys_distinct(b),
{
    broadcast use vstd::seq_lib::group_to_multiset_ensures;

    assert(a.no_duplicates()) by {
        assert forall|i: int, j: int| 0 <= i < a.len() && 0 <= j < a.len() && i != j implies a[i]
            != a[j] by {
            assert(!(a[i].hash@ == a[j].hash@ && a[i].size == a[j].size));
        }
    }
    a.lemma_multiset_has_no_duplicates();
    b.lemma_multiset_has_no_duplicates_conv();
    assert forall|i: int, j: int|
        0 <= i < b.len() && 0 <= j < b.len() && i != j implies !(#[trigger] b[i].hash@
        == #[trigger] b[j].hash@ && b[i].size == b[j].size) by {
        assert(b.contains(b[i]));
        assert(b.contains(b[j]));
        lemma_perm_contains(a, b, b[i]);
        lemma_perm_contains(a, b, b[j]);
        let x = choose|x: int| 0 <= x < a.len() && a[x] == b[i];
        let y = choose|y: int| 0 <= y < a.len() && a[y] == b[j];
        if b[i].hash@ == b[j].hash@ && b[i].size == b[j].size {
            assert(x == y);
        }
    }
}

impl FileIndexer {
    /// The groups of records that share digest and size, more than one record
    /// each, larger groups first, at most `limit` of them (no bound when
    /// negative); each lists the paths of the records with its digest, ordered
    /// by name.
    pub fn duplicate_groups(&self, limit: i64) -> (r: Vec<DuplicateGroup>)
        requires
            self@.len() <= i64::MAX,
        ensures
            is_duplicate_report(self@, r@, limit),
    {
        broadcast use vstd::seq_lib::group_to_multiset_ensures;

        let rows = self.records();
        let mut keys: Vec<DuplicateGroup> = Vec::new();
        let mut i: usize = 0;
        while i < rows.len()
            invariant
                i <= rows.len(),
                rows@ == self@,
                rows@.len() <= i64::MAX,
                forall|k: int| 0 <= k < keys@.len() ==> is_counted_group(rows@, #[trigger] keys@[k]),
                keys_distinct(keys@),
                forall|j: int|
                    0 <= j < i && (#[trigger] rows@[j]).hash is Some && is_dup_key(
                        rows@,
                        rows@[j].hash->0@,
                        rows@[j].size,
                    ) ==> lists_key(keys@, rows@[j].hash->0@, rows@[j].size),
            decreases rows.len() - i,
        {
            if let Some(h) = &rows[i].hash {
                let sz = rows[i].size;
                if !find_key(&keys, h, sz) {
                    let n = count_key(rows, h, sz);
                    proof {
                        rows@.lemma_filter_len(|r: FileRecord| has_key(r, h@, sz));
                    }
                    if n > 1 {
                        let ghost old_keys = keys@;
                        keys.push(
                            DuplicateGroup { hash: h.clone(), size: sz, count: n as i64, paths: Vec::new() },
                        );
                        proof {
                            assert forall|j: int|
                                0 <= j <= i && (#[trigger] rows@[j]).hash is Some && is_dup_key(
                                    rows@,
                                    rows@[j].hash->0@,
                                    rows@[j].size,
                                ) implies lists_key(keys@, rows@[j].hash->0@, rows@[j].size) by {
                                if j < i {
                                    let w = choose|w: int|
                                        0 <= w < old_keys.len() && #[trigger] old_keys[w].hash@
                                            == rows@[j].hash->0@ && old_keys[w].size == rows@[j].size;
                                    assert(keys@[w] == old_keys[w]);
                                } else {
                                    assert(keys@[old_keys.len() as int].hash@ == h@);
                                }
                            }
                        }
                    }
                }
            }
            i += 1;
        }
        let ghost keys_seq = keys@;
        let mut sorted = sort_by_count(keys);
        proof {
            lemma_keys_distinct_perm(keys_seq, sorted@);
            assert forall|k: int| 0 <= k < sorted@.len() implies is_counted_group(
                rows@,
                #[trigger] sorted@[k],
            ) by {
                assert(sorted@.contains(sorted@[k]));
                lemma_perm_contains(keys_seq, sorted@, sorted@[k]);
            }
        }
        let ghost full = sorted@;
        if limit >= 0 && (limit as u64) < (sorted.len() as u64) {
            sorted.truncate(limit as usize);
        }
        proof {
            assert(sorted@ =~= full.take(sorted@.len() as int));
            assert forall|h: Seq<char>, sz: i64|
                #[trigger] is_dup_key(rows@, h, sz) && !lists_key(sorted@, h, sz) implies 0 <= limit
                && sorted@.len() == limit && forall|k: int|
                0 <= k < sorted@.len() ==> key_count(rows@, h, sz) <= #[trigger] sorted@[k].count by {
                lemma_dup_key_has_row(rows@, h, sz);
                let j = choose|j: int| 0 <= j < rows@.len() && #[trigger] has_key(rows@[j], h, sz);
                assert(lists_key(keys_seq, h, sz));
                let w = choose|w: int|
                    0 <= w < keys_seq.len() && #[trigger] keys_seq[w].hash@ == h && keys_seq[w].size == sz;
                assert(keys_seq.contains(keys_seq[w]));
                lemma_perm_contains(full, keys_seq, keys_seq[w]);
                let p = choose|p: int| 0 <= p < full.len() && full[p] == keys_seq[w];
                if p < sorted@.len() {
                    assert(sorted@[p] == full[p]);
                }
                assert(p >= sorted@.len());
                assert forall|k: int| 0 <= k < sorted@.len() implies key_count(rows@, h, sz)
                    <= #[trigger] sorted@[k].count by {
                    assert(full[k].count >= full[p].count);
                }
            }
        }
        let mut out: Vec<DuplicateGroup> = Vec::new();
        let mut g: usize = 0;
        while g < sorted.len()
            invariant
                g <= sorted.len(),
                rows@ == self@,
                out@.len() == g,
                forall|k: int|
                    0 <= k < g ==> (#[trigger] out@[k]).hash == sorted@[k].hash && out@[k].size
                        == sorted@[k].size && out@[k].count == sorted@[k].count && is_path_list(
                        rows@,
                        out@[k].hash@,
                        out@[k].paths@,
                    ),
            decreases sorted.len() - g,
        {
            let paths = paths_with_hash(rows, &sorted[g].hash);
            out.push(
                DuplicateGroup {
                    hash: sorted[g].hash.clone(),
                    size: sorted[g].size,
                    count: sorted[g].count,
                    paths,
                },
            );
            g += 1;
        }
        proof {
            assert forall|h: Seq<char>, sz: i64| lists_key(sorted@, h, sz) implies lists_key(
                out@,
                h,
                sz,
            ) by {
                let w = choose|w: int|
                    0 <= w < sorted@.len() && #[trigger] sorted@[w].hash@ == h && sorted@[w].size == sz;
                assert(out@[w].hash@ == h);
            }
            assert forall|k: int| 0 <= k < out@.len() implies is_counted_group(
                self@,
                #[trigger] out@[k],
            ) by {
                assert(is_counted_group(rows@, sorted@[k]));
            }
            assert forall|a: int, b: int|
                0 <= a < out@.len() && 0 <= b < out@.len() && a != b implies !(
                #[trigger] out@[a].hash@ == #[trigger] out@[b].hash@ && out@[a].size == out@[b].size) by {
                assert(!(sorted@[a].hash@ == sorted@[b].hash@ && sorted@[a].size == sorted@[b].size));
            }
            assert forall|a: int, b: int| 0 <= a < b < out@.len() implies #[trigger] out@[a].count
                >= #[trigger] out@[b].count by {
                assert(sorted@[a].count >= sorted@[b].count);
            }
        }
        out
    }
}

} // verus!
