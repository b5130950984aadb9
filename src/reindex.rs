//! Indexing is idempotent: running it twice over the same entries leaves the
//! rows that the first run left, first indexing times included.
use vstd::prelude::*;

use crate::record::{FileEntry, IndexError};
use crate::store::{
    entry_error, has_path_view, index_run, merged_view, record_of, upserted_view, RecordView,
};

verus! {

/// No two rows share a path.
pub open spec fn paths_unique_view(s: Seq<RecordView>) -> bool {
    forall|i: int, j: int|
        0 <= i < s.len() && 0 <= j < s.len() && i != j ==> #[trigger] s[i].path != #[trigger] s[j].path
}

spec fn is_file_item(it: Result<FileEntry, IndexError>) -> bool {
    it matches Ok(f) && f.is_file
}

/// Every item is an entry, and every regular file among them can be indexed.
spec fn items_ok(items: Seq<Result<FileEntry, IndexError>>) -> bool {
    forall|i: int|
        0 <= i < items.len() ==> (#[trigger] items[i] matches Ok(f) && (f.is_file ==> entry_error(
            f,
        ) is None))
}

/// The rows after upserting every file among `items`, in order.
spec fn apply(u: Seq<RecordView>, items: Seq<Result<FileEntry, IndexError>>, n: i64) -> Seq<
    RecordView,
>
    decreases items.len(),
{
    if items.len() == 0 {
        u
    } else {
        let v = apply(u, items.drop_last(), n);
        match items.last() {
            Ok(f) => if f.is_file {
                upserted_view(v, record_of(f, n))
            } else {
                v
            },
            Err(_) => v,
        }
    }
}

spec fn file_count(items: Seq<Result<FileEntry, IndexError>>) -> int
    decreases items.len(),
{
    if items.len() == 0 {
        0
    } else {
        file_count(items.drop_last()) + if is_file_item(items.last()) {
            1int
        } else {
            0int
        }
    }
}

/// The last regular file among `items` with path `p`.
spec fn last_file(items: Seq<Result<FileEntry, IndexError>>, p: Seq<char>) -> Option<FileEntry>
    decreases items.len(),
{
    if items.len() == 0 {
        None
    } else {
        match items.last() {
            Ok(f) => if f.is_file && f.path@ == p {
                Some(f)
            } else {
                last_file(items.drop_last(), p)
            },
            Err(_) => last_file(items.drop_last(), p),
        }
    }
}

/// Every file path among `items` has a row.
spec fn covers(u: Seq<RecordView>, items: Seq<Result<FileEntry, IndexError>>) -> bool {
    forall|i: int|
        0 <= i < items.len() && is_file_item(#[trigger] items[i]) ==> has_path_view(
            u,
            items[i]->Ok_0.path@,
        )
}

/// Every row whose path is a file among `items` holds that file's last values.
spec fn agrees(u: Seq<RecordView>, items: Seq<Result<FileEntry, IndexError>>) -> bool {
    forall|i: int|
        0 <= i < u.len() ==> (last_file(items, (#[trigger] u[i]).path) matches Some(f)
            ==> merged_view(u[i], record_of(f, 0)) == u[i])
}

/// Each row merged with the last file of its path among `items`, if any.
spec fn pointwise(u: Seq<RecordView>, items: Seq<Result<FileEntry, IndexError>>, n: i64) -> Seq<
    RecordView,
> {
    Seq::new(
        u.len(),
        |i: int|
            match last_file(items, u[i].path) {
                Some(f) => merged_view(u[i], record_of(f, n)),
                None => u[i],
            },
    )
}

proof fn lemma_last_file_path(items: Seq<Result<FileEntry, IndexError>>, p: Seq<char>)
    ensures
        last_file(items, p) matches Some(f) ==> f.path@ == p,
    decreases items.len(),
{
    if items.len() > 0 {
        lemma_last_file_path(items.drop_last(), p);
    }
}

proof fn lemma_upsert_view(v: Seq<RecordView>, rec: RecordView)
    requires
        paths_unique_view(v),
    ensures
        paths_unique_view(upserted_view(v, rec)),
        has_path_view(upserted_view(v, rec), rec.path),
        forall|p: Seq<char>| has_path_view(v, p) ==> has_path_view(upserted_view(v, rec), p),
        forall|k: int|
            0 <= k < v.len() && v[k].path == rec.path ==> upserted_view(v, rec) == v.update(
                k,
                merged_view(v[k], rec),
            ),
        !has_path_view(v, rec.path) ==> upserted_view(v, rec) == v.push(rec),
{
    let w = upserted_view(v, rec);
    if has_path_view(v, rec.path) {
        let k = choose|k: int| 0 <= k < v.len() && #[trigger] v[k].path == rec.path;
        assert(w[k].path == rec.path);
        assert forall|p: Seq<char>| has_path_view(v, p) implies has_path_view(w, p) by {
            let j = choose|j: int| 0 <= j < v.len() && #[trigger] v[j].path == p;
            assert(w[j].path == p);
        }
        assert forall|k2: int| 0 <= k2 < v.len() && v[k2].path == rec.path implies w == v.update(
            k2,
            merged_view(v[k2], rec),
        ) by {
            assert(k2 == k);
        }
    } else {
        assert(w[v.len() as int].path == rec.path);
        assert forall|p: Seq<char>| has_path_view(v, p) implies has_path_view(w, p) by {
            let j = choose|j: int| 0 <= j < v.len() && #[trigger] v[j].path == p;
            assert(w[j].path == p);
        }
        assert forall|i: int, j: int|
            0 <= i < w.len() && 0 <= j < w.len() && i != j implies #[trigger] w[i].path
            != #[trigger] w[j].path by {
            if i < v.len() && j == v.len() {
                assert(v[i].path != rec.path);
            } else if j < v.len() && i == v.len() {
                assert(v[j].path != rec.path);
            }
        }
    }
}

proof fn lemma_apply_props(u: Seq<RecordView>, items: Seq<Result<FileEntry, IndexError>>, n: i64)
    requires
        paths_unique_view(u),
    ensures
        paths_unique_view(apply(u, items, n)),
        covers(apply(u, items, n), items),
        agrees(apply(u, items, n), items),
        forall|p: Seq<char>| has_path_view(u, p) ==> has_path_view(apply(u, items, n), p),
    decreases items.len(),
{
    if items.len() > 0 {
        let a = items.drop_last();
        lemma_apply_props(u, a, n);
        let v = apply(u, a, n);
        let w = apply(u, items, n);
        let x = items.last();
        assert forall|i: int| 0 <= i < a.len() implies #[trigger] a[i] == items[i] by {}
        if is_file_item(x) {
            let f = x->Ok_0;
            let rec = record_of(f, n);
            lemma_upsert_view(v, rec);
            assert(w == upserted_view(v, rec));
            assert forall|i: int| 0 <= i < items.len() && is_file_item(#[trigger] items[i]) implies has_path_view(
                w,
                items[i]->Ok_0.path@,
            ) by {
                if i < a.len() {
                    assert(is_file_item(a[i]));
                }
            }
            assert forall|i: int| 0 <= i < w.len() implies (last_file(items, (#[trigger] w[i]).path) matches Some(g)
                ==> merged_view(w[i], record_of(g, 0)) == w[i]) by {
                if w[i].path == f.path@ {
                    assert(last_file(items, w[i].path) == Some(f));
                    if has_path_view(v, rec.path) {
                        let k = choose|k: int| 0 <= k < v.len() && #[trigger] v[k].path == rec.path;
                        assert(w == v.update(k, merged_view(v[k], rec)));
                        if i != k {
                            assert(v[i].path != v[k].path);
                        }
                    }
                } else {
                    assert(last_file(items, w[i].path) == last_file(a, w[i].path));
                    if has_path_view(v, rec.path) {
                        let k = choose|k: int| 0 <= k < v.len() && #[trigger] v[k].path == rec.path;
                        assert(w == v.update(k, merged_view(v[k], rec)));
                        assert(w[i] == v[i]);
                    } else {
                        assert(w == v.push(rec));
                        assert(w[i] == v[i]);
                    }
                }
            }
        } else {
            assert(w == v);
            assert forall|i: int| 0 <= i < items.len() && is_file_item(#[trigger] items[i]) implies has_path_view(
                w,
                items[i]->Ok_0.path@,
            ) by {
                assert(is_file_item(a[i]));
            }
            assert forall|i: int| 0 <= i < w.len() implies (last_file(items, (#[trigger] w[i]).path) matches Some(g)
                ==> merged_view(w[i], record_of(g, 0)) == w[i]) by {
                assert(last_file(items, w[i].path) == last_file(a, w[i].path));
            }
        }
    }
}

proof fn lemma_apply_pointwise(u: Seq<RecordView>, items: Seq<Result<FileEntry, IndexError>>, n: i64)
    requires
        paths_unique_view(u),
        covers(u, items),
    ensures
        apply(u, items, n) == pointwise(u, items, n),
    decreases items.len(),
{
    if items.len() == 0 {
        assert(pointwise(u, items, n) =~= u);
    } else {
        let a = items.drop_last();
        assert forall|i: int| 0 <= i < a.len() && is_file_item(#[trigger] a[i]) implies has_path_view(
            u,
            a[i]->Ok_0.path@,
        ) by {
            assert(a[i] == items[i]);
        }
        lemma_apply_pointwise(u, a, n);
        let v = pointwise(u, a, n);
        let x = items.last();
        assert forall|i: int| 0 <= i < v.len() implies (#[trigger] v[i]).path == u[i].path
            && v[i].added_at == u[i].added_at by {
            lemma_last_file_path(a, u[i].path);
        }
        assert(paths_unique_view(v)) by {
            assert forall|i: int, j: int|
                0 <= i < v.len() && 0 <= j < v.len() && i != j implies #[trigger] v[i].path
                != #[trigger] v[j].path by {
                assert(u[i].path != u[j].path);
            }
        }
        if is_file_item(x) {
            let f = x->Ok_0;
            let rec = record_of(f, n);
            assert(is_file_item(items[items.len() - 1]));
            assert(has_path_view(u, f.path@));
            let k = choose|k: int| 0 <= k < u.len() && #[trigger] u[k].path == f.path@;
            assert(v[k].path == rec.path);
            lemma_upsert_view(v, rec);
            assert(apply(u, items, n) == v.update(k, merged_view(v[k], rec)));
            assert(v.update(k, merged_view(v[k], rec)) =~= pointwise(u, items, n)) by {
                assert forall|i: int| 0 <= i < u.len() implies #[trigger] v.update(
                    k,
                    merged_view(v[k], rec),
                )[i] == pointwise(u, items, n)[i] by {
                    if i == k {
                        assert(last_file(items, u[i].path) == Some(f));
                    } else {
                        assert(u[i].path != u[k].path);
                        assert(last_file(items, u[i].path) == last_file(a, u[i].path));
                    }
                }
            }
        } else {
            assert(v =~= pointwise(u, items, n)) by {
                assert forall|i: int| 0 <= i < u.len() implies #[trigger] v[i] == pointwise(
                    u,
                    items,
                    n,
                )[i] by {
                    assert(last_file(items, u[i].path) == last_file(a, u[i].path));
                }
            }
        }
    }
}

proof fn lemma_apply_front(
    u: Seq<RecordView>,
    x: Result<FileEntry, IndexError>,
    rest: Seq<Result<FileEntry, IndexError>>,
    n: i64,
)
    ensures
        apply(u, seq![x] + rest, n) == apply(apply(u, seq![x], n), rest, n),
        file_count(seq![x] + rest) == file_count(seq![x]) + file_count(rest),
    decreases rest.len(),
{
    assert(seq![x].drop_last() =~= Seq::<Result<FileEntry, IndexError>>::empty());
    if rest.len() > 0 {
        lemma_apply_front(u, x, rest.drop_last(), n);
        assert((seq![x] + rest).drop_last() =~= seq![x] + rest.drop_last());
        assert((seq![x] + rest).last() == rest.last());
    } else {
        assert(seq![x] + rest =~= seq![x]);
    }
}

proof fn lemma_run_is_apply(
    u: Seq<RecordView>,
    items: Seq<Result<FileEntry, IndexError>>,
    c: int,
    n: i64,
)
    requires
        items_ok(items),
    ensures
        index_run(u, items, c, n) == (apply(u, items, n), Ok::<int, IndexError>(c + file_count(items))),
    decreases items.len(),
{
    if items.len() > 0 {
        let x = items[0];
        let rest = items.drop_first();
        assert(items =~= seq![x] + rest);
        assert(items_ok(rest)) by {
            assert forall|i: int| 0 <= i < rest.len() implies (#[trigger] rest[i] matches Ok(f) && (
            f.is_file ==> entry_error(f) is None)) by {
                assert(rest[i] == items[i + 1]);
            }
        }
        assert(items[0] matches Ok(f) && (f.is_file ==> entry_error(f) is None));
        lemma_apply_front(u, x, rest, n);
        let e = Seq::<Result<FileEntry, IndexError>>::empty();
        assert(seq![x].drop_last() =~= e);
        assert(seq![x].last() == x);
        assert(apply(u, e, n) == u);
        assert(file_count(e) == 0);
        let u1 = apply(u, seq![x], n);
        let f = x->Ok_0;
        if f.is_file {
            assert(u1 == upserted_view(u, record_of(f, n)));
            assert(file_count(seq![x]) == 1);
        } else {
            assert(u1 == u);
            assert(file_count(seq![x]) == 0);
        }
        lemma_run_is_apply(u1, rest, c + file_count(seq![x]), n);
    } else {
        assert(apply(u, items, n) == u);
    }
}

proof fn lemma_run_ok_items(
    u: Seq<RecordView>,
    items: Seq<Result<FileEntry, IndexError>>,
    c: int,
    n: i64,
)
    requires
        index_run(u, items, c, n).1 is Ok,
    ensures
        items_ok(items),
    decreases items.len(),
{
    if items.len() > 0 {
        let rest = items.drop_first();
        let f = items[0]->Ok_0;
        if f.is_file {
            lemma_run_ok_items(upserted_view(u, record_of(f, n)), rest, c + 1, n);
        } else {
            lemma_run_ok_items(u, rest, c, n);
        }
        assert forall|i: int| 0 <= i < items.len() implies (#[trigger] items[i] matches Ok(g) && (
        g.is_file ==> entry_error(g) is None)) by {
            if i > 0 {
                assert(items[i] == rest[i - 1]);
            }
        }
    }
}

/// Indexing the same entries a second time, at any time, reports the same
/// count and leaves the rows exactly as the first successful run left them:
/// every field the same, first indexing times included.
pub proof fn law_reindex_is_stable(
    rows: Seq<RecordView>,
    items: Seq<Result<FileEntry, IndexError>>,
    n1: i64,
    n2: i64,
)
    requires
        paths_unique_view(rows),
        index_run(rows, items, 0, n1).1 is Ok,
    ensures
        index_run(index_run(rows, items, 0, n1).0, items, 0, n2) == index_run(rows, items, 0, n1),
{
    lemma_run_ok_items(rows, items, 0, n1);
    lemma_run_is_apply(rows, items, 0, n1);
    let r1 = apply(rows, items, n1);
    lemma_apply_props(rows, items, n1);
    lemma_apply_pointwise(r1, items, n2);
    assert(pointwise(r1, items, n2) =~= r1) by {
        assert forall|i: int| 0 <= i < r1.len() implies #[trigger] pointwise(r1, items, n2)[i]
            == r1[i] by {
            assert(last_file(items, r1[i].path) matches Some(f) ==> merged_view(r1[i], record_of(f, 0)) == r1[i]);
        }
    }
    lemma_run_is_apply(r1, items, 0, n2);
}

} // verus!
