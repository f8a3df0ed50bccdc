//! What holds of rename detection, in terms of the cells of the samples.

use crate::column_laws::law_samples_are_the_first_rows;
use crate::diff_laws::{law_keys_must_be_shared, law_reports_follow_the_options, lemma_names_column, lemma_reported_schema};
use crate::float::{fraction, law_shares_are_judged_exactly, law_whole_is_one, total_rank};
use crate::hash::{cell_bytes, is_exact, is_hashable, law_cell_boundaries_matter, law_hashing_follows_matching, row_bytes};
use crate::infer::{key_cells, lemma_none_missing};
use crate::input::{is_sample, BatchIter, Table};
use crate::keyed_laws::lemma_filter_same;
use crate::order_laws::{lemma_filter_mapped, table_rows};
use crate::plan::{all_shared, diff_result, lemma_sampled_columns, sampled_names};
use crate::plan_laws::reported_key;
use crate::rename::{agreeing, all_close_pairs, assignment, close_pairs, desc_names, detected_renames, inserted, is_close, law_highest_similarity_wins, law_renames_pair_close_columns, left_sides, lemma_all_close_pairs, lemma_close_pairs, lemma_no_more, matched_rows, not_named, ranking, right_sides, sample_keys, share_column, similarity, value_set, with_renames, SAMPLE_ROWS};
use crate::report::ReportView;
use crate::schema::{first_missing, has_column};
use crate::schema_diff::{lemma_filter_all, lemma_filter_keeps, lemma_filter_none, schema_diff, RenameView, SchemaDiffView};
use crate::text::{lemma_place, lemma_place_is, place};
use crate::value::{cells_match, CellView, Comparator};
use crate::DiffConfig;
use vstd::prelude::*;
use vstd::set_lib::lemma_len_subset;

verus! {

/// Two cells hold the same value.
pub open spec fn same_cell(a: CellView, b: CellView) -> bool {
    cells_match(Comparator { tol_abs: None, tol_rel: None }, a, b)
}

/// Two cells can be told apart by their bytes: their lengths can be written
/// down, and where an integer meets a float, a double holds the integer.
pub open spec fn distinguishable(a: CellView, b: CellView) -> bool {
    &&& is_hashable(a)
    &&& is_hashable(b)
    &&& b is Float ==> (a matches CellView::Int(i) ==> is_exact(i))
    &&& a is Float ==> (b matches CellView::Int(i) ==> is_exact(i))
}

/// Two rows have the same key.
pub open spec fn same_key(l: Table, i: int, r: Table, j: int, key: Seq<Seq<char>>) -> bool {
    forall|c: int| 0 <= c < key.len() ==> same_cell(l.cell(i, #[trigger] key[c]), r.cell(j, key[c]))
}

/// The keys of two samples can be told apart.
pub open spec fn distinguishable_keys(l: Table, r: Table, key: Seq<Seq<char>>) -> bool {
    forall|i: int, j: int, c: int|
        0 <= i < l.rows@.len() && 0 <= j < r.rows@.len() && 0 <= c < key.len() ==> distinguishable(
            #[trigger] l.cell(i, key[c]),
            #[trigger] r.cell(j, key[c]),
        )
}

/// A row of either sample with the same key, each the first one with that key on
/// its side.
pub open spec fn are_partners(l: Table, r: Table, key: Seq<Seq<char>>, p: (int, int)) -> bool {
    &&& 0 <= p.0 < l.rows@.len()
    &&& 0 <= p.1 < r.rows@.len()
    &&& same_key(l, p.0, r, p.1, key)
    &&& forall|i: int| 0 <= i < p.0 ==> !#[trigger] same_key(l, i, l, p.0, key)
    &&& forall|j: int| 0 <= j < p.1 ==> !#[trigger] same_key(r, j, r, p.1, key)
}

/// Rows have the same bytes exactly where their cells match.
proof fn lemma_same_bytes(a: Seq<CellView>, b: Seq<CellView>)
    requires
        a.len() == b.len(),
        forall|c: int| 0 <= c < a.len() ==> distinguishable(#[trigger] a[c], b[c]),
    ensures
        row_bytes(a) == row_bytes(b) <==> forall|c: int| 0 <= c < a.len() ==> same_cell(#[trigger] a[c], b[c]),
{
    assert forall|c: int| 0 <= c < a.len() implies (cell_bytes(#[trigger] a[c]) == cell_bytes(b[c])
        <==> same_cell(a[c], b[c])) && is_hashable(a[c]) && is_hashable(b[c]) by {
        law_hashing_follows_matching(a[c], b[c]);
    }
    if row_bytes(a) == row_bytes(b) {
        assert forall|c: int| 0 <= c < b.len() implies is_hashable(#[trigger] b[c]) by {
            assert(is_hashable(a[c]) && is_hashable(b[c]));
        }
        law_cell_boundaries_matter(a, b);
    } else if forall|c: int| 0 <= c < a.len() ==> same_cell(#[trigger] a[c], b[c]) {
        lemma_equal_bytes(a, b);
    }
}

proof fn lemma_equal_bytes(a: Seq<CellView>, b: Seq<CellView>)
    requires
        a.len() == b.len(),
        forall|c: int| 0 <= c < a.len() ==> cell_bytes(#[trigger] a[c]) == cell_bytes(b[c]),
    ensures
        row_bytes(a) == row_bytes(b),
    decreases a.len(),
{
    if a.len() > 0 {
        let (x, y) = (a.drop_last(), b.drop_last());
        assert forall|c: int| 0 <= c < x.len() implies cell_bytes(#[trigger] x[c]) == cell_bytes(y[c]) by {
            assert(x[c] == a[c]);
        }
        lemma_equal_bytes(x, y);
        assert(cell_bytes(a[a.len() - 1]) == cell_bytes(b[a.len() - 1]));
    }
}

proof fn lemma_same_key(l: Table, i: int, r: Table, j: int, key: Seq<Seq<char>>)
    requires
        distinguishable_keys(l, r, key),
        0 <= i < l.rows@.len(),
        0 <= j < r.rows@.len(),
    ensures
        sample_keys(l, key)[i] == sample_keys(r, key)[j] <==> same_key(l, i, r, j, key),
{
    let a = key_cells(l, key, i);
    let b = key_cells(r, key, j);
    assert forall|c: int| 0 <= c < a.len() implies distinguishable(#[trigger] a[c], b[c]) by {
        assert(a[c] == l.cell(i, key[c]) && b[c] == r.cell(j, key[c]));
    }
    lemma_same_bytes(a, b);
    if same_key(l, i, r, j, key) {
        assert forall|c: int| 0 <= c < a.len() implies same_cell(#[trigger] a[c], b[c]) by {
            assert(same_cell(l.cell(i, key[c]), r.cell(j, key[c])));
        }
    }
    if sample_keys(l, key)[i] == sample_keys(r, key)[j] {
        assert forall|c: int| 0 <= c < key.len() implies same_cell(
            l.cell(i, #[trigger] key[c]),
            r.cell(j, key[c]),
        ) by {
            assert(same_cell(a[c], b[c]));
        }
    }
}

/// The rows that are matched are those with the same key, the first of each key,
/// and none twice.
proof fn lemma_matched_rows(left: Seq<Seq<u8>>, right: Seq<Seq<u8>>, n: int)
    requires
        0 <= n <= left.len(),
    ensures
        forall|p: (int, int)| #[trigger]
            matched_rows(left, right, n).contains(p) <==> {
                &&& 0 <= p.0 < n
                &&& place(left, left[p.0]) == p.0
                &&& right.contains(left[p.0])
                &&& p.1 == place(right, left[p.0])
            },
        matched_rows(left, right, n).no_duplicates(),
    decreases n,
{
    if n > 0 {
        lemma_matched_rows(left, right, n - 1);
        let before = matched_rows(left, right, n - 1);
        let now = matched_rows(left, right, n);
        let k = left[n - 1];
        let last = (n - 1, place(right, k));
        assert(!before.contains(last));
        if now != before {
            assert forall|p: (int, int)| #[trigger] now.contains(p) <==> before.contains(p) || p == last by {
                if before.contains(p) {
                    let i = choose|i: int| 0 <= i < before.len() && before[i] == p;
                    assert(now[i] == p);
                }
                if p == last {
                    assert(now[before.len() as int] == p);
                }
                if now.contains(p) {
                    let i = choose|i: int| 0 <= i < now.len() && now[i] == p;
                    if i < before.len() {
                        assert(before[i] == p);
                    }
                }
            }
            assert forall|i: int, j: int| 0 <= i < now.len() && 0 <= j < now.len() && i != j implies now[i]
                != now[j] by {
                if i == before.len() {
                    assert(before.contains(before[j]));
                } else if j == before.len() {
                    assert(before.contains(before[i]));
                }
            }
        }
    }
}

proof fn lemma_partners(l: Table, r: Table, key: Seq<Seq<char>>, p: (int, int))
    requires
        distinguishable_keys(l, r, key),
        distinguishable_keys(l, l, key),
        distinguishable_keys(r, r, key),
    ensures
        ({
            let lkeys = sample_keys(l, key);
            matched_rows(lkeys, sample_keys(r, key), lkeys.len() as int).contains(p) <==> are_partners(
                l,
                r,
                key,
                p,
            )
        }),
{
    let x = sample_keys(l, key);
    let y = sample_keys(r, key);
    let matched = matched_rows(x, y, x.len() as int);
    lemma_matched_rows(x, y, x.len() as int);
    if 0 <= p.0 < x.len() {
        let k = x[p.0];
        lemma_place(x, k);
        lemma_place(y, k);
        assert forall|i: int| 0 <= i < x.len() implies (x[i] == k <==> #[trigger] same_key(l, i, l, p.0, key)) by {
            lemma_same_key(l, i, l, p.0, key);
        }
        if matched.contains(p) {
            lemma_same_key(l, p.0, r, p.1, key);
            assert forall|j: int| 0 <= j < p.1 implies !#[trigger] same_key(r, j, r, p.1, key) by {
                lemma_same_key(r, j, r, p.1, key);
            }
        }
        if are_partners(l, r, key, p) {
            lemma_same_key(l, p.0, r, p.1, key);
            assert(y[p.1] == k);
            assert(y.contains(k));
            assert forall|i: int| 0 <= i < p.0 implies x[i] != k by {
                assert(!same_key(l, i, l, p.0, key));
            }
            lemma_place_is(x, k, p.0);
            assert forall|j: int| 0 <= j < p.1 implies y[j] != k by {
                lemma_same_key(r, j, r, p.1, key);
                assert(!same_key(r, j, r, p.1, key));
            }
            lemma_place_is(y, k, p.1);
        }
    }
}

/// Two lists of the same elements, none of them twice, hold the same.
proof fn lemma_same_elements<A>(a: Seq<A>, b: Seq<A>)
    requires
        a.no_duplicates(),
        b.no_duplicates(),
        forall|x: A| #[trigger] a.contains(x) <==> b.contains(x),
    ensures
        a.to_multiset() == b.to_multiset(),
{
    broadcast use vstd::seq_lib::group_to_multiset_ensures;

    a.lemma_multiset_has_no_duplicates();
    b.lemma_multiset_has_no_duplicates();
    assert forall|x: A| a.to_multiset().count(x) == b.to_multiset().count(x) by {
        assert(a.contains(x) <==> b.contains(x));
        assert(a.contains(x) <==> a.to_multiset().count(x) > 0);
        assert(b.contains(x) <==> b.to_multiset().count(x) > 0);
        if a.contains(x) {
            assert(a.to_multiset().contains(x));
            assert(b.to_multiset().contains(x));
        }
    }
    assert(a.to_multiset() =~= b.to_multiset());
}

/// With a key, two columns are taken for one exactly where at least twenty rows
/// have partners and the cells, of whatever kind, are the same in nineteen of
/// twenty of these or more; the share is the similarity.
pub proof fn law_keyed_similarity_is_the_share_of_same_cells(
    l: Table,
    r: Table,
    key: Seq<Seq<char>>,
    left: Seq<char>,
    right: Seq<char>,
    partners: Seq<(int, int)>,
)
    requires
        distinguishable_keys(l, r, key),
        distinguishable_keys(l, l, key),
        distinguishable_keys(r, r, key),
        l.rows@.len() <= 1_000_000,
        partners.no_duplicates(),
        forall|p: (int, int)| #[trigger] partners.contains(p) <==> are_partners(l, r, key, p),
    ensures
        ({
            let n = partners.len();
            let same = partners.filter(
                |p: (int, int)| same_cell(l.cell(p.0, left), r.cell(p.1, right)),
            ).len();
            &&& similarity(l, r, Some(key), left, right) is Some <==> n >= 20 && 20 * same >= 19 * n
            &&& similarity(l, r, Some(key), left, right) matches Some(s) ==> s == fraction(same, n)
        }),
{
    let x = sample_keys(l, key);
    let y = sample_keys(r, key);
    let matched = matched_rows(x, y, x.len() as int);
    let p = |p: (int, int)| same_cell(l.cell(p.0, left), r.cell(p.1, right));
    lemma_matched_rows(x, y, x.len() as int);
    assert forall|q: (int, int)| #[trigger] matched.contains(q) <==> partners.contains(q) by {
        lemma_partners(l, r, key, q);
        assert(partners.contains(q) <==> are_partners(l, r, key, q));
    }
    lemma_same_elements(matched, partners);
    lemma_filter_same(matched, partners, p);
    assert(p =~= agreeing(l, r, left, right));
    broadcast use vstd::seq_lib::group_to_multiset_ensures;

    assert(matched.to_multiset().len() == partners.to_multiset().len());
    lemma_matched_bounded(x, y, x.len() as int);
    if partners.len() > 0 {
        law_shares_are_judged_exactly(partners.filter(p).len(), partners.len());
    }
}

proof fn lemma_matched_bounded(left: Seq<Seq<u8>>, right: Seq<Seq<u8>>, n: int)
    requires
        0 <= n <= left.len(),
    ensures
        matched_rows(left, right, n).len() <= n,
    decreases n,
{
    if n > 0 {
        lemma_matched_bounded(left, right, n - 1);
    }
}

/// With a key, two columns that hold the same cell, of whatever kind, in every
/// row and its partner are fully similar, where at least twenty rows have
/// partners.
pub proof fn law_same_cells_are_fully_similar(
    l: Table,
    r: Table,
    key: Seq<Seq<char>>,
    left: Seq<char>,
    right: Seq<char>,
    partners: Seq<(int, int)>,
)
    requires
        distinguishable_keys(l, r, key),
        distinguishable_keys(l, l, key),
        distinguishable_keys(r, r, key),
        partners.len() >= 20,
        partners.no_duplicates(),
        forall|p: (int, int)| #[trigger] partners.contains(p) ==> are_partners(l, r, key, p),
        forall|p: (int, int)| #[trigger]
            are_partners(l, r, key, p) ==> l.cell(p.0, left) == r.cell(p.1, right),
    ensures
        similarity(l, r, Some(key), left, right) == Some(0x3ff0_0000_0000_0000u64),
{
    let x = sample_keys(l, key);
    let y = sample_keys(r, key);
    let matched = matched_rows(x, y, x.len() as int);
    let p = agreeing(l, r, left, right);
    lemma_matched_rows(x, y, x.len() as int);
    assert forall|q: (int, int)| #[trigger] matched.contains(q) <==> are_partners(l, r, key, q) by {
        lemma_partners(l, r, key, q);
    }
    assert forall|i: int| 0 <= i < matched.len() implies p(matched[i]) by {
        assert(matched.contains(matched[i]));
        assert(are_partners(l, r, key, matched[i]));
    }
    lemma_filter_all(matched, p);
    assert forall|i: int| 0 <= i < partners.len() implies matched.contains(#[trigger] partners[i]) by {
        assert(partners.contains(partners[i]));
    }
    lemma_no_more(partners, matched);
    law_whole_is_one(matched.len());
}

/// The values of a column, each once: cells of the column of which no two are the
/// same, and every cell of the column is the same as one of them.
pub open spec fn are_values(values: Seq<CellView>, t: Table, col: Seq<char>) -> bool {
    &&& forall|a: int| 0 <= a < values.len() ==> exists|i: int|
        0 <= i < t.rows@.len() && #[trigger] t.cell(i, col) == #[trigger] values[a]
    &&& forall|a: int, b: int|
        0 <= a < b < values.len() ==> !same_cell(#[trigger] values[a], #[trigger] values[b])
    &&& forall|i: int|
        0 <= i < t.rows@.len() ==> exists|a: int|
            0 <= a < values.len() && same_cell(#[trigger] t.cell(i, col), #[trigger] values[a])
}

/// The cells of two columns can be told apart.
pub open spec fn distinguishable_columns(l: Table, left: Seq<char>, r: Table, right: Seq<char>) -> bool {
    forall|i: int, j: int|
        0 <= i < l.rows@.len() && 0 <= j < r.rows@.len() ==> distinguishable(
            #[trigger] l.cell(i, left),
            #[trigger] r.cell(j, right),
        )
}

spec fn lone_bytes() -> spec_fn(CellView) -> Seq<u8> {
    |c: CellView| row_bytes(seq![c])
}

proof fn lemma_lone_bytes(a: CellView, b: CellView)
    requires
        distinguishable(a, b),
    ensures
        lone_bytes()(a) == lone_bytes()(b) <==> same_cell(a, b),
{
    let (x, y) = (seq![a], seq![b]);
    lemma_same_bytes(x, y);
    if same_cell(a, b) {
        assert forall|c: int| 0 <= c < x.len() implies same_cell(#[trigger] x[c], y[c]) by {}
    }
    if row_bytes(x) == row_bytes(y) {
        assert(same_cell(x[0], y[0]));
    }
}

/// The distinct values of a column are as many as are listed.
proof fn lemma_values(values: Seq<CellView>, t: Table, col: Seq<char>)
    requires
        are_values(values, t, col),
        distinguishable_columns(t, col, t, col),
    ensures
        value_set(t, col) == values.map_values(lone_bytes()).to_set(),
        values.map_values(lone_bytes()).no_duplicates(),
        value_set(t, col).len() == values.len(),
        value_set(t, col).finite(),
{
    let bytes = values.map_values(lone_bytes());
    let keys = sample_keys(t, seq![col]);
    assert forall|i: int| 0 <= i < keys.len() implies #[trigger] keys[i] == lone_bytes()(t.cell(i, col)) by {
        assert(key_cells(t, seq![col], i) =~= seq![t.cell(i, col)]);
    }
    assert forall|k: Seq<u8>| keys.contains(k) <==> #[trigger] bytes.contains(k) by {
        if keys.contains(k) {
            let i = choose|i: int| 0 <= i < keys.len() && keys[i] == k;
            let a = choose|a: int|
                0 <= a < values.len() && same_cell(#[trigger] t.cell(i, col), #[trigger] values[a]);
            let j = choose|j: int| 0 <= j < t.rows@.len() && #[trigger] t.cell(j, col) == values[a];
            assert(distinguishable(t.cell(i, col), t.cell(j, col)));
            lemma_lone_bytes(t.cell(i, col), values[a]);
            assert(bytes[a] == k);
        }
        if bytes.contains(k) {
            let a = choose|a: int| 0 <= a < bytes.len() && bytes[a] == k;
            let j = choose|j: int| 0 <= j < t.rows@.len() && #[trigger] t.cell(j, col) == #[trigger] values[a];
            assert(keys[j] == k);
        }
    }
    assert(keys.to_set() =~= bytes.to_set());
    assert forall|a: int, b: int| 0 <= a < b < values.len() implies bytes[a] != bytes[b] by {
        let i = choose|i: int| 0 <= i < t.rows@.len() && #[trigger] t.cell(i, col) == #[trigger] values[a];
        let j = choose|j: int| 0 <= j < t.rows@.len() && #[trigger] t.cell(j, col) == #[trigger] values[b];
        assert(distinguishable(t.cell(i, col), t.cell(j, col)));
        lemma_lone_bytes(values[a], values[b]);
        assert(!same_cell(values[a], values[b]));
    }
    assert(bytes.no_duplicates());
    bytes.unique_seq_to_set();
}

/// Without a key, two columns are taken for one exactly where each has at least
/// eight distinct values and seventeen of twenty of all their distinct values or
/// more are in both; the share is the similarity.
pub proof fn law_keyless_similarity_is_the_share_of_common_values(
    l: Table,
    r: Table,
    left: Seq<char>,
    right: Seq<char>,
    ls: Seq<CellView>,
    rs: Seq<CellView>,
)
    requires
        distinguishable_columns(l, left, l, left),
        distinguishable_columns(r, right, r, right),
        distinguishable_columns(l, left, r, right),
        l.rows@.len() + r.rows@.len() <= 1_000_000,
        are_values(ls, l, left),
        are_values(rs, r, right),
    ensures
        ({
            let common = ls.filter(
                |c: CellView| exists|b: int| 0 <= b < rs.len() && same_cell(c, #[trigger] rs[b]),
            ).len();
            let all = ls.len() + rs.len() - common;
            let found = similarity(l, r, None, left, right);
            &&& found is Some <==> ls.len() >= 8 && rs.len() >= 8 && 20 * common >= 17 * all
            &&& found matches Some(s) ==> s == fraction(common, all as nat)
        }),
{
    let p = |c: CellView| exists|b: int| 0 <= b < rs.len() && same_cell(c, #[trigger] rs[b]);
    let common = ls.filter(p);
    let (x, y) = (value_set(l, left), value_set(r, right));
    let (u, v) = (ls.map_values(lone_bytes()), rs.map_values(lone_bytes()));
    lemma_values(ls, l, left);
    lemma_values(rs, r, right);
    let q = |k: Seq<u8>| y.contains(k);
    assert forall|a: int| 0 <= a < ls.len() implies q(lone_bytes()(#[trigger] ls[a])) == p(ls[a]) by {
        let i = choose|i: int| 0 <= i < l.rows@.len() && #[trigger] l.cell(i, left) == #[trigger] ls[a];
        let k = lone_bytes()(ls[a]);
        assert forall|b: int| 0 <= b < rs.len() implies (v[b] == k <==> same_cell(ls[a], #[trigger] rs[b])) by {
            let j = choose|j: int| 0 <= j < r.rows@.len() && #[trigger] r.cell(j, right) == #[trigger] rs[b];
            assert(distinguishable(l.cell(i, left), r.cell(j, right)));
            lemma_lone_bytes(ls[a], rs[b]);
        }
        if q(k) {
            assert(v.contains(k));
            let b = choose|b: int| 0 <= b < v.len() && v[b] == k;
            assert(same_cell(ls[a], rs[b]));
        }
        if p(ls[a]) {
            let b = choose|b: int| 0 <= b < rs.len() && same_cell(ls[a], #[trigger] rs[b]);
            assert(v[b] == k);
            assert(v.to_set().contains(k));
        }
    }
    lemma_filter_mapped(ls, lone_bytes(), q, p);
    lemma_filter_no_duplicates(u, q);
    let both = u.filter(q);
    both.unique_seq_to_set();
    assert(both.to_set() =~= x.intersect(y)) by {
        lemma_filter_keeps(u, q);
        assert forall|k: Seq<u8>| both.to_set().contains(k) == x.intersect(y).contains(k) by {
            if both.contains(k) {
                let i = choose|i: int| 0 <= i < both.len() && both[i] == k;
                assert(q(both[i]) && u.contains(both[i]));
            }
            if x.contains(k) && y.contains(k) {
                let i = choose|i: int| 0 <= i < u.len() && u[i] == k;
                assert(q(u[i]));
            }
        }
    }
    assert(common.len() == x.intersect(y).len());
    lemma_values_bounded(ls, l, left);
    lemma_values_bounded(rs, r, right);
    lemma_len_subset(x.intersect(y), x);
    lemma_len_subset(x.intersect(y), y);
    let all = (ls.len() + rs.len() - common.len()) as nat;
    if all > 0 {
        law_shares_are_judged_exactly(common.len(), all);
    }
}

/// There are no more values than rows.
proof fn lemma_values_bounded(values: Seq<CellView>, t: Table, col: Seq<char>)
    requires
        value_set(t, col).len() == values.len(),
    ensures
        values.len() <= t.rows@.len(),
{
    sample_keys(t, seq![col]).lemma_cardinality_of_set();
}

/// A filter keeps elements distinct.
pub proof fn lemma_filter_no_duplicates<A>(s: Seq<A>, p: spec_fn(A) -> bool)
    requires
        s.no_duplicates(),
    ensures
        s.filter(p).no_duplicates(),
    decreases s.len(),
{
    reveal(Seq::filter);
    if s.len() > 0 {
        let less = s.drop_last();
        lemma_filter_no_duplicates(less, p);
        let f = less.filter(p);
        lemma_filter_keeps(less, p);
        assert forall|i: int| 0 <= i < f.len() implies f[i] != s.last() by {
            assert(less.contains(f[i]));
            let j = choose|j: int| 0 <= j < less.len() && less[j] == f[i];
            assert(s[j] != s[s.len() - 1]);
        }
    }
}

/// Every close pair is a candidate.
proof fn lemma_pairs_are_candidates(
    l: Table,
    r: Table,
    key: Option<Seq<Seq<char>>>,
    removed: Seq<Seq<char>>,
    added: Seq<Seq<char>>,
    left: Seq<char>,
    right: Seq<char>,
    s: u64,
)
    requires
        removed.contains(left),
        added.contains(right),
        similarity(l, r, key, left, right) == Some(s),
    ensures
        all_close_pairs(l, r, key, removed, added).contains(RenameView { left, right, similarity: s }),
    decreases removed.len(),
{
    let pair = RenameView { left, right, similarity: s };
    let all = all_close_pairs(l, r, key, removed, added);
    let less = removed.drop_last();
    let before = all_close_pairs(l, r, key, less, added);
    let more = close_pairs(l, r, key, removed.last(), added);
    if removed.last() == left {
        lemma_added_are_candidates(l, r, key, left, added, right, s);
        let i = choose|i: int| 0 <= i < more.len() && more[i] == pair;
        assert(all[before.len() + i] == pair);
    } else {
        let j = choose|j: int| 0 <= j < removed.len() && removed[j] == left;
        assert(less[j] == left);
        lemma_pairs_are_candidates(l, r, key, less, added, left, right, s);
        let i = choose|i: int| 0 <= i < before.len() && before[i] == pair;
        assert(all[i] == pair);
    }
}

proof fn lemma_added_are_candidates(
    l: Table,
    r: Table,
    key: Option<Seq<Seq<char>>>,
    left: Seq<char>,
    added: Seq<Seq<char>>,
    right: Seq<char>,
    s: u64,
)
    requires
        added.contains(right),
        similarity(l, r, key, left, right) == Some(s),
    ensures
        close_pairs(l, r, key, left, added).contains(RenameView { left, right, similarity: s }),
    decreases added.len(),
{
    let pair = RenameView { left, right, similarity: s };
    let all = close_pairs(l, r, key, left, added);
    let less = added.drop_last();
    let before = close_pairs(l, r, key, left, less);
    if added.last() == right {
        assert(all[before.len() as int] == pair);
    } else {
        let j = choose|j: int| 0 <= j < added.len() && added[j] == right;
        assert(less[j] == right);
        lemma_added_are_candidates(l, r, key, left, less, right, s);
        let i = choose|i: int| 0 <= i < before.len() && before[i] == pair;
        assert(all[i] == pair);
    }
}

/// A removed and an added column that are similar are a rename, unless one of
/// them is in a rename of at least the same similarity.
pub proof fn law_similar_columns_are_renamed(
    schema: SchemaDiffView,
    l: Table,
    r: Table,
    key: Option<Seq<Seq<char>>>,
    left: Seq<char>,
    right: Seq<char>,
    s: u64,
)
    requires
        desc_names(schema.removed).contains(left),
        desc_names(schema.added).contains(right),
        similarity(l, r, key, left, right) == Some(s),
    ensures
        ({
            let found = detected_renames(schema, l, r, key);
            found.contains(RenameView { left, right, similarity: s }) || exists|j: int|
                0 <= j < found.len() && ((#[trigger] found[j]).left == left || found[j].right == right)
                    && total_rank(found[j].similarity) >= total_rank(s)
        }),
{
    let removed = desc_names(schema.removed);
    let added = desc_names(schema.added);
    let pairs = all_close_pairs(l, r, key, removed, added);
    let pair = RenameView { left, right, similarity: s };
    lemma_pairs_are_candidates(l, r, key, removed, added, left, right, s);
    law_highest_similarity_wins(pairs);
    let taken = assignment(ranking(pairs));
    assert(pairs.contains(pair));
    if !taken.contains(pair) {
        let j = choose|j: int|
            0 <= j < taken.len() && share_column(#[trigger] taken[j], pair)
                && total_rank(taken[j].similarity) >= total_rank(s);
        assert(taken[j].left == left || taken[j].right == right);
    }
}

/// Where one column was removed and one added, they are a rename exactly where
/// they are similar, and then neither is reported as removed or added.
pub proof fn law_lone_similar_columns_are_renamed(
    schema: SchemaDiffView,
    l: Table,
    r: Table,
    key: Option<Seq<Seq<char>>>,
)
    requires
        schema.removed.len() == 1,
        schema.added.len() == 1,
        schema.renamed.len() == 0,
    ensures
        ({
            let (left, right) = (schema.removed[0].name, schema.added[0].name);
            let after = with_renames(schema, detected_renames(schema, l, r, key));
            match similarity(l, r, key, left, right) {
                Some(s) => {
                    &&& after.renamed == seq![RenameView { left, right, similarity: s }]
                    &&& after.removed.len() == 0
                    &&& after.added.len() == 0
                },
                None => after.renamed.len() == 0 && after.removed == schema.removed && after.added
                    == schema.added,
            }
        }),
{
    let (left, right) = (schema.removed[0].name, schema.added[0].name);
    let found = detected_renames(schema, l, r, key);
    let after = with_renames(schema, found);
    let removed = desc_names(schema.removed);
    let added = desc_names(schema.added);
    law_renames_pair_close_columns(schema, l, r, key);
    assert(removed =~= seq![left]);
    assert(added =~= seq![right]);
    assert(removed[0] == left && added[0] == right);
    if found.len() > 0 {
        assert(is_close(l, r, key, removed, added, found[0]));
        assert(found[0].left == left && found[0].right == right);
    }
    assert(after.renamed =~= found);
    match similarity(l, r, key, left, right) {
        Some(s) => {
            law_similar_columns_are_renamed(schema, l, r, key, left, right, s);
            assert(found.len() > 0);
            assert(found =~= seq![RenameView { left, right, similarity: s }]);
            assert(left_sides(found)[0] == left);
            assert(right_sides(found)[0] == right);
            assert(left_sides(found).contains(left));
            assert(right_sides(found).contains(right));
            lemma_filter_none(schema.removed, not_named(left_sides(found)));
            lemma_filter_none(schema.added, not_named(right_sides(found)));
        },
        None => {
            assert(found.len() == 0);
            lemma_filter_all(schema.removed, not_named(left_sides(found)));
            lemma_filter_all(schema.added, not_named(right_sides(found)));
        },
    }
}

/// A table holds the first rows of another, as many as there are up to ten
/// thousand, with their cells in a column.
pub open spec fn holds_first_rows(t: Table, stream: BatchIter, name: Seq<char>) -> bool {
    let rows = table_rows(stream);
    &&& t.rows@.len() == if rows.len() < 10_000 {
        rows.len()
    } else {
        10_000
    }
    &&& forall|n: int| 0 <= n < t.rows@.len() ==> #[trigger] t.cell(n, name) == rows[n][name].cell
}

proof fn lemma_holds_first_rows(t: Table, stream: BatchIter, wanted: Seq<Seq<char>>, name: Seq<char>)
    requires
        is_sample(t, stream, wanted, 10_000),
        stream.wf(),
        first_missing(stream.schema@, wanted) is None,
        wanted.contains(name),
    ensures
        holds_first_rows(t, stream, name),
{
    lemma_none_missing(stream.schema@, wanted);
    law_samples_are_the_first_rows(t, stream, wanted, 10_000, 0, name);
    assert forall|n: int| 0 <= n < t.rows@.len() implies #[trigger] t.cell(n, name) == table_rows(
        stream,
    )[n][name].cell by {
        law_samples_are_the_first_rows(t, stream, wanted, 10_000, n, name);
    }
}

/// The key columns of a report are columns of both tables.
proof fn lemma_reported_key_shared(cfg: DiffConfig, left: BatchIter, right: BatchIter, report: ReportView)
    requires
        diff_result(cfg, left, right, Ok(report)),
    ensures
        reported_key(report) matches Some(k) ==> all_shared(left.schema@, right.schema@, k),
{
    let (lf, rf) = (left.schema@, right.schema@);
    law_reports_follow_the_options(cfg, left, right, report);
    if let Some(k) = reported_key(report) {
        assert forall|i: int| 0 <= i < k.len() implies has_column(lf, #[trigger] k[i]) && has_column(rf, k[i]) by {
            lemma_names_column(lf, k[i]);
            lemma_names_column(rf, k[i]);
            if let Some(key) = cfg.key {
                law_keys_must_be_shared(cfg, left, right, Ok(report), key, i, k[i]);
            }
        }
    }
}

/// A reported rename is told by the first rows of both tables: its similarity is
/// that of the two columns there, beside the key columns where there are any.
pub proof fn law_renames_are_told_by_the_first_rows(
    cfg: DiffConfig,
    left: BatchIter,
    right: BatchIter,
    report: ReportView,
    i: int,
) -> (s: (Table, Table))
    requires
        diff_result(cfg, left, right, Ok(report)),
        left.wf(),
        right.wf(),
        0 <= i < report.schema.renamed.len(),
    ensures
        ({
            let pair = report.schema.renamed[i];
            let key = reported_key(report);
            &&& similarity(s.0, s.1, key, pair.left, pair.right) == Some(pair.similarity)
            &&& holds_first_rows(s.0, left, pair.left)
            &&& holds_first_rows(s.1, right, pair.right)
            &&& key matches Some(k) ==> forall|c: int|
                0 <= c < k.len() ==> holds_first_rows(s.0, left, #[trigger] k[c]) && holds_first_rows(
                    s.1,
                    right,
                    k[c],
                )
        }),
{
    let (lf, rf) = (left.schema@, right.schema@);
    let d = schema_diff(lf, rf);
    let found = report.schema;
    let key = reported_key(report);
    lemma_reported_schema(cfg, left, right, report);
    lemma_reported_key_shared(cfg, left, right, report);
    lemma_sampled_columns(lf, rf, key);
    let (ln, rn) = (sampled_names(key, d.removed), sampled_names(key, d.added));
    assert(d.renamed.len() == 0);
    let (l, m) = choose|l: Table, m: Table|
        {
            &&& #[trigger] is_sample(l, left, ln, SAMPLE_ROWS as nat)
            &&& #[trigger] is_sample(m, right, rn, SAMPLE_ROWS as nat)
            &&& found == with_renames(d, detected_renames(d, l, m, key))
        };
    let renames = detected_renames(d, l, m, key);
    law_renames_pair_close_columns(d, l, m, key);
    assert(found.renamed =~= renames);
    let pair = found.renamed[i];
    assert(is_close(l, m, key, desc_names(d.removed), desc_names(d.added), renames[i]));
    let a = choose|a: int| 0 <= a < desc_names(d.removed).len() && desc_names(d.removed)[a] == pair.left;
    let b = choose|b: int| 0 <= b < desc_names(d.added).len() && desc_names(d.added)[b] == pair.right;
    let skip = match key {
        Some(k) => k.len() as int,
        None => 0,
    };
    assert(ln[a + skip] == pair.left);
    assert(rn[b + skip] == pair.right);
    lemma_holds_first_rows(l, left, ln, pair.left);
    lemma_holds_first_rows(m, right, rn, pair.right);
    if let Some(k) = key {
        assert forall|c: int| 0 <= c < k.len() implies holds_first_rows(l, left, #[trigger] k[c])
            && holds_first_rows(m, right, k[c]) by {
            assert(ln[c] == k[c] && rn[c] == k[c]);
            lemma_holds_first_rows(l, left, ln, k[c]);
            lemma_holds_first_rows(m, right, rn, k[c]);
        }
    }
    (l, m)
}

/// The pairs of a given similarity.
pub open spec fn as_similar_as(v: int) -> spec_fn(RenameView) -> bool {
    |c: RenameView| total_rank(c.similarity) == v
}

/// A pair is put behind the others of its similarity.
proof fn lemma_put_behind(ranked: Seq<RenameView>, c: RenameView, v: int)
    ensures
        inserted(ranked, c).filter(as_similar_as(v)) == ranked.push(c).filter(as_similar_as(v)),
    decreases ranked.len(),
{
    reveal(Seq::filter);
    let p = as_similar_as(v);
    if !(ranked.len() == 0 || total_rank(ranked.last().similarity) >= total_rank(c.similarity)) {
        let less = ranked.drop_last();
        let before = inserted(less, c);
        lemma_put_behind(less, c, v);
        assert(inserted(ranked, c) == before.push(ranked.last()));
        assert(before.push(ranked.last()).drop_last() =~= before);
        assert(less.push(c).drop_last() =~= less);
        assert(ranked.push(c).drop_last() =~= ranked);
        assert(ranked.filter(p) == if p(ranked.last()) {
            less.filter(p).push(ranked.last())
        } else {
            less.filter(p)
        });
        assert(less.push(c).filter(p) == if p(c) {
            less.filter(p).push(c)
        } else {
            less.filter(p)
        });
        assert(ranked.push(c).filter(p) == if p(c) {
            ranked.filter(p).push(c)
        } else {
            ranked.filter(p)
        });
        assert(before.push(ranked.last()).filter(p) == if p(ranked.last()) {
            before.filter(p).push(ranked.last())
        } else {
            before.filter(p)
        });
    }
}

/// Pairs of the same similarity are ranked in the order in which they were found.
pub proof fn law_equally_similar_pairs_keep_their_order(pairs: Seq<RenameView>, v: int)
    ensures
        ranking(pairs).filter(as_similar_as(v)) == pairs.filter(as_similar_as(v)),
    decreases pairs.len(),
{
    reveal(Seq::filter);
    if pairs.len() > 0 {
        let less = pairs.drop_last();
        law_equally_similar_pairs_keep_their_order(less, v);
        lemma_put_behind(ranking(less), pairs.last(), v);
        assert(ranking(less).push(pairs.last()).drop_last() =~= ranking(less));
    } else {
        assert(ranking(pairs) =~= pairs);
    }
}

/// The place of a name in a list does not depend on what follows.
proof fn lemma_place_before(list: Seq<Seq<char>>, name: Seq<char>)
    requires
        list.len() > 0,
        list.drop_last().contains(name),
    ensures
        place(list, name) == place(list.drop_last(), name),
        place(list, name) < list.len() - 1,
{
    let less = list.drop_last();
    lemma_place(less, name);
    let i = place(less, name);
    assert forall|j: int| 0 <= j < i implies list[j] != name by {
        assert(less[j] != name);
    }
    assert(list[i] == less[i]);
    lemma_place_is(list, name, i);
}

proof fn lemma_place_last(list: Seq<Seq<char>>)
    requires
        list.len() > 0,
        list.no_duplicates(),
    ensures
        place(list, list.last()) == list.len() - 1,
{
    assert forall|j: int| 0 <= j < list.len() - 1 implies list[j] != list.last() by {}
    lemma_place_is(list, list.last(), list.len() - 1);
}

/// The candidates of one removed column come in the order of the added ones.
proof fn lemma_added_in_turn(
    l: Table,
    r: Table,
    key: Option<Seq<Seq<char>>>,
    left: Seq<char>,
    added: Seq<Seq<char>>,
    i: int,
    j: int,
)
    requires
        added.no_duplicates(),
        0 <= i < j < close_pairs(l, r, key, left, added).len(),
    ensures
        ({
            let pairs = close_pairs(l, r, key, left, added);
            place(added, pairs[i].right) < place(added, pairs[j].right)
        }),
    decreases added.len(),
{
    let less = added.drop_last();
    let before = close_pairs(l, r, key, left, less);
    lemma_close_pairs(l, r, key, left, less);
    assert(less.contains(before[i].right));
    lemma_place_before(added, before[i].right);
    if j < before.len() {
        assert(less.contains(before[j].right));
        lemma_place_before(added, before[j].right);
        lemma_added_in_turn(l, r, key, left, less, i, j);
    } else {
        lemma_place_last(added);
    }
}

/// Candidates for renames are found column by column: in the order of the removed
/// columns, and for each of these in the order of the added ones.
pub proof fn law_candidates_follow_the_columns(
    l: Table,
    r: Table,
    key: Option<Seq<Seq<char>>>,
    removed: Seq<Seq<char>>,
    added: Seq<Seq<char>>,
    i: int,
    j: int,
)
    requires
        removed.no_duplicates(),
        added.no_duplicates(),
        0 <= i < j < all_close_pairs(l, r, key, removed, added).len(),
    ensures
        ({
            let pairs = all_close_pairs(l, r, key, removed, added);
            let (a, b) = (place(removed, pairs[i].left), place(removed, pairs[j].left));
            a < b || a == b && place(added, pairs[i].right) < place(added, pairs[j].right)
        }),
    decreases removed.len(),
{
    let less = removed.drop_last();
    let before = all_close_pairs(l, r, key, less, added);
    let own = close_pairs(l, r, key, removed.last(), added);
    let n = before.len() as int;
    lemma_all_close_pairs(l, r, key, less, added);
    lemma_close_pairs(l, r, key, removed.last(), added);
    lemma_place_last(removed);
    if i < n {
        assert(is_close(l, r, key, less, added, before[i]));
        lemma_place_before(removed, before[i].left);
        if j < n {
            assert(is_close(l, r, key, less, added, before[j]));
            lemma_place_before(removed, before[j].left);
            law_candidates_follow_the_columns(l, r, key, less, added, i, j);
        } else {
            assert(own[j - n].left == removed.last());
        }
    } else {
        assert(own[i - n].left == removed.last() && own[j - n].left == removed.last());
        lemma_added_in_turn(l, r, key, removed.last(), added, i - n, j - n);
    }
}

} // verus!
