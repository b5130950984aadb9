//! The orders that search results and duplicate paths are sorted by, and a
//! sort that yields a sorted permutation of its input.
use vstd::multiset::Multiset;
use vstd::prelude::*;

use crate::record::{FileRecord, SortKey};

verus! {

/// Lexicographic order on text, comparing characters by code point.
pub open spec fn lex_le(a: Seq<char>, b: Seq<char>) -> bool
    decreases a.len(),
{
    if a.len() == 0 {
        true
    } else if b.len() == 0 {
        false
    } else if a[0] as u32 != b[0] as u32 {
        (a[0] as u32) < (b[0] as u32)
    } else {
        lex_le(a.drop_first(), b.drop_first())
    }
}

/// A column of the index that rows can be ordered by.
#[derive(Clone, Copy, Debug, PartialEq, Eq, Structural)]
pub enum Column {
    Name,
    Size,
    Modified,
    AddedAt,
}

impl SortKey {
    /// The column that this sort key orders by.
    pub fn column(self) -> (c: Column)
        ensures
            c == column_of(self),
    {
        match self {
            SortKey::Name => Column::Name,
            SortKey::Size => Column::Size,
            SortKey::Modified => Column::Modified,
        }
    }
}

pub open spec fn column_of(k: SortKey) -> Column {
    match k {
        SortKey::Name => Column::Name,
        SortKey::Size => Column::Size,
        SortKey::Modified => Column::Modified,
    }
}

/// `a` comes no later than `b` when ordered by column `k`, ascending.
pub open spec fn key_le(a: FileRecord, b: FileRecord, k: Column) -> bool {
    match k {
        Column::Name => lex_le(a.name@, b.name@),
        Column::Size => a.size <= b.size,
        Column::Modified => a.modified <= b.modified,
        Column::AddedAt => a.added_at <= b.added_at,
    }
}

/// `a` may come before `b` in an order by column `k` in the given direction.
pub open spec fn in_order(a: FileRecord, b: FileRecord, k: Column, desc: bool) -> bool {
    if desc {
        key_le(b, a, k)
    } else {
        key_le(a, b, k)
    }
}

/// Every earlier record may come before every later one.
pub open spec fn is_sorted_by(s: Seq<FileRecord>, k: Column, desc: bool) -> bool {
    forall|i: int, j: int| 0 <= i < j < s.len() ==> #[trigger] in_order(s[i], s[j], k, desc)
}

/// No two records of `s` are equal in column `k`.
pub open spec fn has_no_ties(s: Seq<FileRecord>, k: Column) -> bool {
    forall|i: int, j: int|
        0 <= i < s.len() && 0 <= j < s.len() && i != j ==> !(#[trigger] key_le(s[i], s[j], k)
            && #[trigger] key_le(s[j], s[i], k))
}

pub proof fn lemma_lex_total(a: Seq<char>, b: Seq<char>)
    ensures
        lex_le(a, b) || lex_le(b, a),
    decreases a.len(),
{
    if a.len() > 0 && b.len() > 0 && a[0] as u32 == b[0] as u32 {
        lemma_lex_total(a.drop_first(), b.drop_first());
    }
}

pub proof fn lemma_lex_trans(a: Seq<char>, b: Seq<char>, c: Seq<char>)
    requires
        lex_le(a, b),
        lex_le(b, c),
    ensures
        lex_le(a, c),
    decreases a.len(),
{
    if a.len() > 0 && b.len() > 0 && c.len() > 0 && a[0] as u32 == b[0] as u32 && b[0] as u32 == c[0] as u32 {
        lemma_lex_trans(a.drop_first(), b.drop_first(), c.drop_first());
    }
}

pub proof fn lemma_in_order_total(a: FileRecord, b: FileRecord, k: Column, desc: bool)
    ensures
        in_order(a, b, k, desc) || in_order(b, a, k, desc),
{
    if k == Column::Name {
        lemma_lex_total(a.name@, b.name@);
    }
}

pub proof fn lemma_in_order_trans(
    a: FileRecord,
    b: FileRecord,
    c: FileRecord,
    k: Column,
    desc: bool,
)
    requires
        in_order(a, b, k, desc),
        in_order(b, c, k, desc),
    ensures
        in_order(a, c, k, desc),
{
    if k == Column::Name {
        if desc {
            lemma_lex_trans(c.name@, b.name@, a.name@);
        } else {
            lemma_lex_trans(a.name@, b.name@, c.name@);
        }
    }
}

/// Whether `a` is no later than `b` in lexicographic order.
pub fn text_le(a: &str, b: &str) -> (r: bool)
    ensures
        r == lex_le(a@, b@),
{
    let la = a.unicode_len();
    let lb = b.unicode_len();
    let mut i: usize = 0;
    proof {
        assert(a@.skip(0) =~= a@);
        assert(b@.skip(0) =~= b@);
    }
    while i < la && i < lb
        invariant
            la == a@.len(),
            lb == b@.len(),
            i <= la,
            i <= lb,
            lex_le(a@, b@) == lex_le(a@.skip(i as int), b@.skip(i as int)),
        decreases la - i,
    {
        let ca = a.get_char(i);
        let cb = b.get_char(i);
        if ca as u32 != cb as u32 {
            return (ca as u32) < (cb as u32);
        }
        proof {
            assert(a@.skip(i as int).drop_first() =~= a@.skip(i + 1));
            assert(b@.skip(i as int).drop_first() =~= b@.skip(i + 1));
        }
        i += 1;
    }
    i == la
}

/// Whether `a` may come before `b` in an order by `k` in direction `desc`.
pub fn record_in_order(a: &FileRecord, b: &FileRecord, k: Column, desc: bool) -> (r: bool)
    ensures
        r == in_order(*a, *b, k, desc),
{
    let (x, y) = if desc {
        (b, a)
    } else {
        (a, b)
    };
    match k {
        Column::Name => text_le(x.name.as_str(), y.name.as_str()),
        Column::Size => x.size <= y.size,
        Column::Modified => x.modified <= y.modified,
        Column::AddedAt => x.added_at <= y.added_at,
    }
}

/// Sorts records by column `k` in direction `desc`; the order among records
/// equal in that column is left open.
pub fn sort_records(rows: Vec<FileRecord>, k: Column, desc: bool) -> (r: Vec<FileRecord>)
    ensures
        r@.to_multiset() == rows@.to_multiset(),
        is_sorted_by(r@, k, desc),
{
    broadcast use vstd::seq_lib::group_to_multiset_ensures, vstd::multiset::group_multiset_axioms;

    let mut rest = rows;
    let mut out: Vec<FileRecord> = Vec::new();
    proof {
        assert(out@.to_multiset() =~= Multiset::empty());
    }
    while rest.len() > 0
        invariant
            out@.to_multiset().add(rest@.to_multiset()) == rows@.to_multiset(),
            is_sorted_by(out@, k, desc),
        decreases rest.len(),
    {
        let ghost before = rest@;
        let x = match rest.pop() {
            Some(x) => x,
            None => {
                return out;
            },
        };
        proof {
            assert(before =~= rest@.push(x));
            vstd::seq_lib::to_multiset_build(rest@, x);
        }
        let mut j: usize = 0;
        while j < out.len() && record_in_order(&out[j], &x, k, desc)
            invariant
                j <= out.len(),
                forall|a: int| 0 <= a < j ==> #[trigger] in_order(out@[a], x, k, desc),
            decreases out.len() - j,
        {
            j += 1;
        }
        proof {
            if j < out.len() {
                lemma_in_order_total(out@[j as int], x, k, desc);
            }
        }
        let ghost old_out = out@;
        out.insert(j, x);
        proof {
            assert(out@ =~= old_out.insert(j as int, x));
            vstd::seq_lib::to_multiset_insert(old_out, j as int, x);
            assert(out@.to_multiset().add(rest@.to_multiset()) =~= rows@.to_multiset());
            assert forall|a: int, b: int| 0 <= a < b < out@.len() implies #[trigger] in_order(
                out@[a],
                out@[b],
                k,
                desc,
            ) by {
                if a < j && b == j {
                } else if a == j && b > j {
                    if b > j + 1 {
                        assert(in_order(old_out[j as int], old_out[b - 1], k, desc));
                        lemma_in_order_trans(x, old_out[j as int], old_out[b - 1], k, desc);
                    }
                } else if a < j && b > j {
                    assert(in_order(old_out[a], old_out[b - 1], k, desc));
                } else if b < j {
                    assert(in_order(old_out[a], old_out[b], k, desc));
                } else {
                    assert(in_order(old_out[a - 1], old_out[b - 1], k, desc));
                }
            }
        }
    }
    proof {
        assert(rest@.to_multiset() =~= Multiset::empty());
    }
    out
}

} // verus!
