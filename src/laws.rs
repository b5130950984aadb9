//! Properties that relate several operations of the index, stated over the
//! same spec functions as the operations' own contracts.
use vstd::prelude::*;

use crate::ordering::{has_no_ties, in_order, is_sorted_by, key_le, lex_le, Column};
use crate::query::{
    from_bound, is_listable, is_search_result, listable, meets_filters, selected, size_ok,
    sort_column, time_ok, to_bound, window,
};
use crate::calendar::is_decodable;
use crate::seq_facts::{lemma_filter_elem, lemma_filter_keeps, lemma_perm_contains};
use crate::record::{FileRecord, SearchQuery};
use crate::store::{has_path, merged, paths_unique, upserted};

verus! {

/// Every row that a search returns meets the query's filters, can be read
/// back, and is stored in the index.
pub proof fn law_search_rows_match(
    rows: Seq<FileRecord>,
    q: SearchQuery,
    from: Option<i64>,
    to: Option<i64>,
    r: Seq<FileRecord>,
)
    requires
        is_search_result(rows, q, from, to, r),
    ensures
        forall|i: int|
            0 <= i < r.len() ==> meets_filters(q, from, to, #[trigger] r[i]) && is_listable(r[i])
                && rows.contains(r[i]),
{
    let s = choose|s: Seq<FileRecord>|
        #![trigger is_sorted_by(s, crate::query::sort_column(q), q.desc)]
        s.to_multiset() == selected(rows, q, from, to).to_multiset() && is_sorted_by(
            s,
            crate::query::sort_column(q),
            q.desc,
        ) && r == listable(window(s, q.limit, q.offset));
    let w = window(s, q.limit, q.offset);
    assert forall|i: int| 0 <= i < r.len() implies meets_filters(q, from, to, #[trigger] r[i])
        && is_listable(r[i]) && rows.contains(r[i]) by {
        lemma_filter_elem(w, |x: FileRecord| is_listable(x), i);
        let k = choose|k: int| 0 <= k < w.len() && w[k] == r[i];
        let off = crate::query::skipped(s.len() as int, q.offset);
        assert(s[off + k] == w[k]);
        assert(s.contains(r[i]));
        let sel = selected(rows, q, from, to);
        lemma_perm_contains(sel, s, r[i]);
        let m = choose|m: int| 0 <= m < sel.len() && sel[m] == r[i];
        lemma_filter_elem(rows, |x: FileRecord| meets_filters(q, from, to, x), m);
    }
}

/// A search with both size bounds returns only rows whose size lies between
/// them, both bounds included.
pub proof fn law_size_bounds(
    rows: Seq<FileRecord>,
    q: SearchQuery,
    from: Option<i64>,
    to: Option<i64>,
    r: Seq<FileRecord>,
    lo: i64,
    hi: i64,
)
    requires
        is_search_result(rows, q, from, to, r),
        q.min_size == Some(lo),
        q.max_size == Some(hi),
    ensures
        forall|i: int| 0 <= i < r.len() ==> lo <= (#[trigger] r[i]).size <= hi,
{
    law_search_rows_match(rows, q, from, to, r);
    assert forall|i: int| 0 <= i < r.len() implies lo <= (#[trigger] r[i]).size <= hi by {
        assert(size_ok(q, r[i]));
    }
}

/// A search with both date bounds returns only rows modified from the first
/// second of the first day to the last second of the last day.
pub proof fn law_date_bounds(rows: Seq<FileRecord>, q: SearchQuery, r: Seq<FileRecord>, lo: i64, hi: i64)
    requires
        is_search_result(rows, q, from_bound(q), to_bound(q), r),
        from_bound(q) == Some(lo),
        to_bound(q) == Some(hi),
    ensures
        forall|i: int| 0 <= i < r.len() ==> lo <= (#[trigger] r[i]).modified <= hi,
{
    law_search_rows_match(rows, q, from_bound(q), to_bound(q), r);
    assert forall|i: int| 0 <= i < r.len() implies lo <= (#[trigger] r[i]).modified <= hi by {
        assert(time_ok(from_bound(q), to_bound(q), r[i]));
    }
}

/// After a record is upserted, a search without filters whose page holds
/// every row returns a row with the record's path, name, extension, size,
/// modification time and digest, and, where the path was new, the record
/// itself. The stored row's times must be readable back, or it is dropped.
pub proof fn law_upserted_record_is_found(
    rows: Seq<FileRecord>,
    rec: FileRecord,
    q: SearchQuery,
    r: Seq<FileRecord>,
)
    requires
        paths_unique(rows),
        is_listable(rec),
        forall|j: int|
            0 <= j < rows.len() && #[trigger] rows[j].path@ == rec.path@ ==> is_decodable(
                rows[j].added_at as int,
            ),
        q.name_like is None,
        q.ext is None,
        q.min_size is None,
        q.max_size is None,
        q.limit matches Some(l) ==> l > rows.len(),
        q.offset matches Some(o) ==> o <= 0,
        is_search_result(upserted(rows, rec), q, None, None, r),
    ensures
        exists|i: int|
            0 <= i < r.len() && (#[trigger] r[i]).path == rec.path && r[i].name == rec.name
                && r[i].ext == rec.ext && r[i].size == rec.size && r[i].modified == rec.modified
                && r[i].hash == rec.hash && (!has_path(rows, rec.path@) ==> r[i] == rec),
{
    let u = upserted(rows, rec);
    let x = if has_path(rows, rec.path@) {
        let i = choose|i: int| 0 <= i < rows.len() && #[trigger] rows[i].path@ == rec.path@;
        assert(u[i] == merged(rows[i], rec));
        assert(u.contains(u[i]));
        u[i]
    } else {
        assert(u[rows.len() as int] == rec);
        assert(u.contains(rec));
        rec
    };
    assert(is_listable(x));
    let sel = selected(u, q, None, None);
    lemma_filter_keeps(u, |y: FileRecord| meets_filters(q, None, None, y), x);
    let s = choose|s: Seq<FileRecord>|
        #![trigger is_sorted_by(s, crate::query::sort_column(q), q.desc)]
        s.to_multiset() == sel.to_multiset() && is_sorted_by(
            s,
            crate::query::sort_column(q),
            q.desc,
        ) && r == listable(window(s, q.limit, q.offset));
    lemma_perm_contains(s, sel, x);
    s.to_multiset_ensures();
    sel.to_multiset_ensures();
    u.filter_lemma(|y: FileRecord| meets_filters(q, None, None, y));
    assert(s.len() == sel.len());
    assert(window(s, q.limit, q.offset) =~= s);
    lemma_filter_keeps(s, |y: FileRecord| is_listable(y), x);
    assert(r.contains(x));
    let i = choose|i: int| 0 <= i < r.len() && r[i] == x;
    assert(r[i] == x);
}

proof fn lemma_sorted_unique(a: Seq<FileRecord>, c: Seq<FileRecord>, k: Column)
    requires
        a.to_multiset() == c.to_multiset(),
        is_sorted_by(a, k, false),
        is_sorted_by(c, k, false),
        has_no_ties(a, k),
    ensures
        a == c,
    decreases a.len(),
{
    a.to_multiset_ensures();
    c.to_multiset_ensures();
    if a.len() == 0 {
        assert(c.len() == 0);
        assert(a =~= c);
    } else {
        assert(c.len() == a.len());
        assert(a.contains(a[0]));
        lemma_perm_contains(c, a, a[0]);
        assert(c.contains(c[0]));
        lemma_perm_contains(a, c, c[0]);
        let m = choose|m: int| 0 <= m < a.len() && a[m] == c[0];
        let j = choose|j: int| 0 <= j < c.len() && c[j] == a[0];
        if a[0] != c[0] {
            assert(m != 0);
            assert(j != 0);
            assert(in_order(c[0], c[j], k, false));
            assert(in_order(a[0], a[m], k, false));
            assert(key_le(a[0], a[m], k) && key_le(a[m], a[0], k));
            assert(false);
        }
        let a1 = a.drop_first();
        let c1 = c.drop_first();
        assert(a.remove(0) =~= a1);
        assert(c.remove(0) =~= c1);
        assert(a1.to_multiset() == c1.to_multiset());
        assert(is_sorted_by(a1, k, false)) by {
            assert forall|x: int, y: int| 0 <= x < y < a1.len() implies #[trigger] in_order(
                a1[x],
                a1[y],
                k,
                false,
            ) by {
                assert(in_order(a[x + 1], a[y + 1], k, false));
            }
        }
        assert(is_sorted_by(c1, k, false)) by {
            assert forall|x: int, y: int| 0 <= x < y < c1.len() implies #[trigger] in_order(
                c1[x],
                c1[y],
                k,
                false,
            ) by {
                assert(in_order(c[x + 1], c[y + 1], k, false));
            }
        }
        assert(has_no_ties(a1, k)) by {
            assert forall|x: int, y: int|
                0 <= x < a1.len() && 0 <= y < a1.len() && x != y implies !(#[trigger] key_le(
                a1[x],
                a1[y],
                k,
            ) && #[trigger] key_le(a1[y], a1[x], k)) by {
                assert(a1[x] == a[x + 1] && a1[y] == a[y + 1]);
            }
        }
        lemma_sorted_unique(a1, c1, k);
        assert forall|i: int| 0 <= i < a.len() implies a[i] == c[i] by {
            if i > 0 {
                assert(a[i] == a1[i - 1]);
                assert(c[i] == c1[i - 1]);
            }
        }
        assert(a =~= c);
    }
}

/// Where no two rows tie in the sort column, the ascending and the descending
/// orders of the same rows are each other's reverse.
pub proof fn law_descending_reverses_ascending(
    asc: Seq<FileRecord>,
    desc: Seq<FileRecord>,
    k: Column,
)
    requires
        asc.to_multiset() == desc.to_multiset(),
        is_sorted_by(asc, k, false),
        is_sorted_by(desc, k, true),
        has_no_ties(asc, k),
    ensures
        desc == asc.reverse(),
{
    let c = desc.reverse();
    desc.lemma_reverse_to_multiset();
    assert(is_sorted_by(c, k, false)) by {
        assert forall|x: int, y: int| 0 <= x < y < c.len() implies #[trigger] in_order(
            c[x],
            c[y],
            k,
            false,
        ) by {
            let n = desc.len() as int;
            assert(in_order(desc[n - 1 - y], desc[n - 1 - x], k, true));
        }
    }
    lemma_sorted_unique(asc, c, k);
    assert(desc =~= c.reverse());
}

proof fn lemma_lex_refl(a: Seq<char>)
    ensures
        lex_le(a, a),
    decreases a.len(),
{
    if a.len() > 0 {
        lemma_lex_refl(a.drop_first());
    }
}

proof fn lemma_filter_reverse<A>(s: Seq<A>, pred: spec_fn(A) -> bool)
    ensures
        s.reverse().filter(pred) == s.filter(pred).reverse(),
    decreases s.len(),
{
    reveal(Seq::filter);
    if s.len() == 0 {
        assert(s.reverse() =~= s);
        assert(s.filter(pred).reverse() =~= s.filter(pred));
    } else {
        let x = s.last();
        let a = s.drop_last();
        lemma_filter_reverse(a, pred);
        assert(s.reverse() =~= seq![x] + a.reverse());
        Seq::filter_distributes_over_add(seq![x], a.reverse(), pred);
        assert(seq![x].drop_last() =~= Seq::<A>::empty());
        assert(Seq::<A>::empty().filter(pred) =~= Seq::<A>::empty());
        assert(seq![x].last() == x);
        if pred(x) {
            assert(seq![x].filter(pred) =~= seq![x]);
            assert(a.filter(pred).push(x).reverse() =~= seq![x] + a.filter(pred).reverse());
        } else {
            assert(seq![x].filter(pred) =~= Seq::<A>::empty());
            assert(Seq::<A>::empty() + a.filter(pred).reverse() =~= a.filter(pred).reverse());
        }
    }
}

proof fn lemma_filter_pairwise<A>(s: Seq<A>, pred: spec_fn(A) -> bool, rel: spec_fn(A, A) -> bool)
    requires
        forall|i: int, j: int| 0 <= i < j < s.len() ==> #[trigger] rel(s[i], s[j]),
    ensures
        forall|i: int, j: int|
            0 <= i < j < s.filter(pred).len() ==> #[trigger] rel(s.filter(pred)[i], s.filter(pred)[j]),
    decreases s.len(),
{
    reveal(Seq::filter);
    if s.len() > 0 {
        let a = s.drop_last();
        assert forall|i: int, j: int| 0 <= i < j < a.len() implies #[trigger] rel(a[i], a[j]) by {
            assert(rel(s[i], s[j]));
        }
        lemma_filter_pairwise(a, pred, rel);
        let fa = a.filter(pred);
        let f = s.filter(pred);
        if pred(s.last()) {
            assert(f == fa.push(s.last()));
            assert forall|i: int, j: int| 0 <= i < j < f.len() implies #[trigger] rel(f[i], f[j]) by {
                if j < fa.len() {
                    assert(rel(fa[i], fa[j]));
                } else {
                    lemma_filter_elem(a, pred, i);
                    let m = choose|m: int| 0 <= m < a.len() && a[m] == fa[i];
                    assert(rel(s[m], s[s.len() - 1]));
                }
            }
        } else {
            assert(f == fa);
        }
    }
}

/// Rows without ties in a column keep that in any reordering.
proof fn lemma_no_ties_perm(a: Seq<FileRecord>, b: Seq<FileRecord>, k: Column)
    requires
        has_no_ties(a, k),
        a.to_multiset() == b.to_multiset(),
    ensures
        has_no_ties(b, k),
{
    assert(a.no_duplicates()) by {
        assert forall|i: int, j: int| 0 <= i < a.len() && 0 <= j < a.len() && i != j implies a[i]
            != a[j] by {
            if a[i] == a[j] {
                if k == Column::Name {
                    lemma_lex_refl(a[i].name@);
                }
                assert(key_le(a[i], a[j], k) && key_le(a[j], a[i], k));
            }
        }
    }
    a.lemma_multiset_has_no_duplicates();
    b.lemma_multiset_has_no_duplicates_conv();
    assert forall|i: int, j: int|
        0 <= i < b.len() && 0 <= j < b.len() && i != j implies !(#[trigger] key_le(b[i], b[j], k)
        && #[trigger] key_le(b[j], b[i], k)) by {
        lemma_perm_contains(a, b, b[i]);
        lemma_perm_contains(a, b, b[j]);
        let x = choose|x: int| 0 <= x < a.len() && a[x] == b[i];
        let y = choose|y: int| 0 <= y < a.len() && a[y] == b[j];
        assert(b[i] != b[j]);
        assert(x != y);
    }
}

/// A search without a page, run ascending and then descending, returns the
/// same rows in exactly reversed order where the rows it selects do not tie
/// in its sort column; the ascending rows are then strictly ascending in it.
pub proof fn law_descending_search_reverses(
    rows: Seq<FileRecord>,
    asc: SearchQuery,
    desc: SearchQuery,
    from: Option<i64>,
    to: Option<i64>,
    ra: Seq<FileRecord>,
    rd: Seq<FileRecord>,
)
    requires
        !asc.desc,
        desc == (SearchQuery { desc: true, ..asc }),
        asc.limit is None,
        asc.offset is None,
        has_no_ties(selected(rows, asc, from, to), sort_column(asc)),
        is_search_result(rows, asc, from, to, ra),
        is_search_result(rows, desc, from, to, rd),
    ensures
        rd == ra.reverse(),
        forall|i: int, j: int|
            0 <= i < j < ra.len() ==> key_le(ra[i], ra[j], sort_column(asc)) && !key_le(
                #[trigger] ra[j],
                #[trigger] ra[i],
                sort_column(asc),
            ),
{
    let k = sort_column(asc);
    let sel = selected(rows, asc, from, to);
    assert(selected(rows, desc, from, to) == sel) by {
        assert((|r: FileRecord| meets_filters(desc, from, to, r)) =~= (|r: FileRecord|
            meets_filters(asc, from, to, r)));
    }
    let sa = choose|s: Seq<FileRecord>|
        #![trigger is_sorted_by(s, sort_column(asc), asc.desc)]
        s.to_multiset() == sel.to_multiset() && is_sorted_by(s, sort_column(asc), asc.desc) && ra
            == listable(window(s, asc.limit, asc.offset));
    let sd = choose|s: Seq<FileRecord>|
        #![trigger is_sorted_by(s, sort_column(desc), desc.desc)]
        s.to_multiset() == sel.to_multiset() && is_sorted_by(s, sort_column(desc), desc.desc) && rd
            == listable(window(s, desc.limit, desc.offset));
    lemma_no_ties_perm(sel, sa, k);
    law_descending_reverses_ascending(sa, sd, k);
    assert(window(sa, asc.limit, asc.offset) =~= sa);
    assert(window(sd, desc.limit, desc.offset) =~= sd);
    lemma_filter_reverse(sa, |r: FileRecord| is_listable(r));
    let rel = |a: FileRecord, b: FileRecord| key_le(a, b, k) && !key_le(b, a, k);
    assert forall|i: int, j: int| 0 <= i < j < sa.len() implies #[trigger] rel(sa[i], sa[j]) by {
        assert(in_order(sa[i], sa[j], k, false));
    }
    lemma_filter_pairwise(sa, |r: FileRecord| is_listable(r), rel);
    assert forall|i: int, j: int| 0 <= i < j < ra.len() implies key_le(ra[i], ra[j], k) && !key_le(
        #[trigger] ra[j],
        #[trigger] ra[i],
        k,
    ) by {
        assert(rel(ra[i], ra[j]));
    }
}

} // verus!
