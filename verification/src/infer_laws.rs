//! Which column is taken for a key where none is given.

use crate::column_laws::law_samples_are_the_first_rows;
use crate::diff_laws::{lemma_names_column, lemma_reported_mode, lemma_reported_schema, names_column};
use crate::error::ErrorView;
use crate::filter_laws::reads;
use crate::float::lemma_total_rank_injective;
use crate::infer::{added_names, inferred_key, is_id, is_key_like, is_unique_key, key_candidates, key_cells, law_candidates_are_shared, lemma_added_names};
use crate::input::{is_sample, BatchIter, Table};
use crate::order_laws::{lemma_found, table_rows};
use crate::plan::{diff_result, inferred_mode, mode_result, KEY_INFER_SAMPLE_ROWS};
use crate::plan_laws::reported_key;
use crate::rename_laws::lemma_filter_no_duplicates;
use crate::report::{lemma_text_order_total, ReportView};
use crate::schema::{column, has_column, lemma_column, names};
use crate::schema_diff::{law_schema_columns_are_classified, lemma_filter_keeps, schema_diff};
use crate::text::{lemma_place, lemma_place_is, lower, lowered, place};
use crate::value::{cell_order, comparable, key_order, CellView};
use crate::DiffConfig;
use vstd::prelude::*;

verus! {

/// Two cells hold different values; doubles differ by their bits.
pub open spec fn distinct_cells(a: CellView, b: CellView) -> bool {
    match (a, b) {
        (CellView::Float { bits: x, text: _ }, CellView::Float { bits: y, text: _ }) => x != y,
        _ => a != b,
    }
}

/// A column identifies the rows of a table: it has no null, and no value twice.
pub open spec fn identifies_rows(t: Table, name: Seq<char>) -> bool {
    &&& forall|i: int| 0 <= i < t.rows@.len() ==> !(#[trigger] t.cell(i, name) is Null)
    &&& forall|i: int, j: int|
        0 <= i < j < t.rows@.len() ==> distinct_cells(
            #[trigger] t.cell(i, name),
            #[trigger] t.cell(j, name),
        )
}

/// A column is a key of its own exactly where it identifies the rows.
pub proof fn law_keys_identify_rows(t: Table, name: Seq<char>)
    requires
        t.wf(),
        has_column(t.schema@, name),
    ensures
        is_unique_key(t, seq![name]) <==> identifies_rows(t, name),
{
    let cols = seq![name];
    let c = column(t.schema@, name);
    lemma_column(t.schema@, name);
    assert forall|i: int| 0 <= i < t.rows@.len() implies #[trigger] key_cells(t, cols, i) == seq![
        t.cell(i, name),
    ] by {
        assert(key_cells(t, cols, i) =~= seq![t.cell(i, name)]);
    }
    assert forall|i: int, j: int| 0 <= i < j < t.rows@.len() implies (key_order(
        #[trigger] key_cells(t, cols, i),
        #[trigger] key_cells(t, cols, j),
    ) != 0 <==> distinct_cells(t.cell(i, name), t.cell(j, name))) by {
        let (a, b) = (t.cell(i, name), t.cell(j, name));
        assert(comparable(t.rows@[i]@[c]@, t.rows@[j]@[c]@));
        lemma_key_of_one(a, b);
    }
    if is_unique_key(t, cols) {
        assert forall|i: int| 0 <= i < t.rows@.len() implies !(#[trigger] t.cell(i, name) is Null) by {
            assert(!(key_cells(t, cols, i)[0] is Null));
        }
        assert forall|i: int, j: int| 0 <= i < j < t.rows@.len() implies distinct_cells(
            #[trigger] t.cell(i, name),
            #[trigger] t.cell(j, name),
        ) by {
            assert(key_order(key_cells(t, cols, i), key_cells(t, cols, j)) != 0);
        }
    }
    if identifies_rows(t, name) {
        assert forall|i: int, j: int| 0 <= i < t.rows@.len() && 0 <= j < cols.len() implies !(
        #[trigger] key_cells(t, cols, i)[j] is Null) by {
            assert(!(t.cell(i, name) is Null));
        }
    }
}

/// Keys of one cell are the same where the cells are.
proof fn lemma_key_of_one(a: CellView, b: CellView)
    requires
        comparable(a, b),
    ensures
        key_order(seq![a], seq![b]) != 0 <==> distinct_cells(a, b),
{
    let (x, y) = (seq![a], seq![b]);
    assert(x.drop_first() =~= seq![]);
    assert(y.drop_first() =~= seq![]);
    assert(key_order(x.drop_first(), y.drop_first()) == 0);
    match (a, b) {
        (CellView::Float { bits: u, text: _ }, CellView::Float { bits: v, text: _ }) => {
            lemma_total_rank_injective(u, v);
        },
        (CellView::Str(s), CellView::Str(t)) => {
            lemma_text_order_total(s, t);
        },
        _ => {},
    }
    assert(cell_order(a, b) != 0 <==> distinct_cells(a, b));
}

/// The first candidate that identifies the rows on both sides is inferred, and
/// none only where none does.
pub proof fn law_first_identifying_column_is_inferred(left: Table, right: Table, candidates: Seq<Seq<char>>)
    requires
        left.wf(),
        right.wf(),
        forall|i: int|
            0 <= i < candidates.len() ==> has_column(left.schema@, #[trigger] candidates[i]) && has_column(
                right.schema@,
                candidates[i],
            ),
    ensures
        match inferred_key(left, right, candidates) {
            Ok(c) => exists|n: int|
                {
                    &&& 0 <= n < candidates.len()
                    &&& #[trigger] candidates[n] == c
                    &&& identifies_rows(left, c)
                    &&& identifies_rows(right, c)
                    &&& forall|i: int|
                        0 <= i < n ==> !(identifies_rows(left, #[trigger] candidates[i]) && identifies_rows(
                            right,
                            candidates[i],
                        ))
                },
            Err(e) => {
                &&& e == ErrorView::NoKeyFound
                &&& forall|i: int|
                    0 <= i < candidates.len() ==> !(identifies_rows(left, #[trigger] candidates[i])
                        && identifies_rows(right, candidates[i]))
            },
        },
    decreases candidates.len(),
{
    if candidates.len() > 0 {
        let c = candidates[0];
        let rest = candidates.drop_first();
        assert(has_column(left.schema@, c) && has_column(right.schema@, c));
        law_keys_identify_rows(left, c);
        law_keys_identify_rows(right, c);
        assert forall|i: int| 0 <= i < rest.len() implies has_column(left.schema@, #[trigger] rest[i]) && has_column(
            right.schema@,
            rest[i],
        ) by {
            assert(rest[i] == candidates[i + 1]);
        }
        law_first_identifying_column_is_inferred(left, right, rest);
        if identifies_rows(left, c) && identifies_rows(right, c) {
            assert(candidates[0] == c);
        } else {
            match inferred_key(left, right, rest) {
                Ok(d) => {
                    let n = choose|n: int|
                        {
                            &&& 0 <= n < rest.len()
                            &&& #[trigger] rest[n] == d
                            &&& identifies_rows(left, d)
                            &&& identifies_rows(right, d)
                            &&& forall|i: int|
                                0 <= i < n ==> !(identifies_rows(left, #[trigger] rest[i]) && identifies_rows(
                                    right,
                                    rest[i],
                                ))
                        };
                    assert(candidates[n + 1] == d);
                    assert forall|i: int| 0 <= i < n + 1 implies !(identifies_rows(
                        left,
                        #[trigger] candidates[i],
                    ) && identifies_rows(right, candidates[i])) by {
                        if i > 0 {
                            assert(rest[i - 1] == candidates[i]);
                        }
                    }
                },
                Err(_) => {
                    assert forall|i: int| 0 <= i < candidates.len() implies !(identifies_rows(
                        left,
                        #[trigger] candidates[i],
                    ) && identifies_rows(right, candidates[i])) by {
                        if i > 0 {
                            assert(rest[i - 1] == candidates[i]);
                        }
                    }
                },
            }
        }
    }
}

/// How soon a name is tried: first `id`, then names that end in `_id` and the
/// names `key`, `pk` and `uuid`, and last every other one, each in any case.
pub open spec fn preference(name: Seq<char>) -> int {
    if reads(name, seq!['i', 'd']) {
        0
    } else if (name.len() >= 3 && reads(name.skip(name.len() - 3), seq!['_', 'i', 'd'])) || reads(
        name,
        seq!['k', 'e', 'y'],
    ) || reads(name, seq!['p', 'k']) || reads(name, seq!['u', 'u', 'i', 'd']) {
        1
    } else {
        2
    }
}

/// A word reads like another exactly where it is the same in small letters.
pub proof fn lemma_reads_lowered(word: Seq<char>, small: Seq<char>)
    requires
        forall|i: int| 0 <= i < small.len() ==> ('a' <= #[trigger] small[i] <= 'z' || small[i] == '_'),
    ensures
        reads(word, small) <==> lowered(word) == small,
{
    if reads(word, small) {
        assert forall|i: int| 0 <= i < word.len() implies #[trigger] lowered(word)[i] == small[i] by {
            assert('a' <= small[i] <= 'z' || small[i] == '_');
            assert(word[i] == small[i] || word[i] as int + 32 == small[i] as int);
        }
        assert(lowered(word) =~= small);
    }
    if lowered(word) == small {
        assert forall|i: int| 0 <= i < small.len() implies {
            ||| #[trigger] word[i] == small[i]
            ||| 'a' <= small[i] <= 'z' && word[i] as int + 32 == small[i] as int
        } by {
            assert(lowered(word)[i] == lower(word[i]));
        }
    }
}

proof fn lemma_preference(name: Seq<char>)
    ensures
        preference(name) == 0 <==> is_id()(name),
        preference(name) == 1 <==> !is_id()(name) && is_key_like()(name),
{
    reveal_strlit("id");
    reveal_strlit("key");
    reveal_strlit("pk");
    reveal_strlit("uuid");
    let (id, key, pk, uuid) = (
        seq!['i', 'd'],
        seq!['k', 'e', 'y'],
        seq!['p', 'k'],
        seq!['u', 'u', 'i', 'd'],
    );
    assert(id =~= "id"@ && key =~= "key"@ && pk =~= "pk"@ && uuid =~= "uuid"@);
    lemma_reads_lowered(name, id);
    lemma_reads_lowered(name, key);
    lemma_reads_lowered(name, pk);
    lemma_reads_lowered(name, uuid);
    if name.len() >= 3 {
        let tail = name.skip(name.len() - 3);
        lemma_reads_lowered(tail, seq!['_', 'i', 'd']);
        assert(lowered(name).skip(lowered(name).len() - 3) =~= lowered(tail));
    }
}

/// What is added to a list of names comes behind it, in order.
proof fn lemma_added_in_order(
    found: Seq<Seq<char>>,
    list: Seq<Seq<char>>,
    accepts: spec_fn(Seq<char>) -> bool,
)
    requires
        list.no_duplicates(),
        found.no_duplicates(),
    ensures
        ({
            let r = added_names(found, list, accepts);
            &&& r.len() >= found.len()
            &&& r.no_duplicates()
            &&& forall|i: int| 0 <= i < found.len() ==> #[trigger] r[i] == found[i]
            &&& forall|i: int|
                found.len() <= i < r.len() ==> accepts(#[trigger] r[i]) && !found.contains(r[i]) && list.contains(
                    r[i],
                )
            &&& forall|i: int, j: int|
                found.len() <= i < j < r.len() ==> place(list, #[trigger] r[i]) < place(list, #[trigger] r[j])
        }),
    decreases list.len(),
{
    if list.len() > 0 {
        let less = list.drop_last();
        lemma_added_in_order(found, less, accepts);
        let before = added_names(found, less, accepts);
        let r = added_names(found, list, accepts);
        let last = list.last();
        assert forall|i: int| found.len() <= i < before.len() implies list.contains(#[trigger] before[i])
            && place(list, before[i]) == place(less, before[i]) && place(list, before[i]) < less.len() by {
            assert(less.contains(before[i]));
            let n = choose|n: int| 0 <= n < less.len() && less[n] == before[i];
            assert(list[n] == before[i]);
            lemma_place(less, before[i]);
            let q = place(less, before[i]);
            assert forall|m: int| 0 <= m < q implies list[m] != before[i] by {
                assert(less[m] != before[i]);
            }
            assert(list[q] == less[q]);
            lemma_place_is(list, before[i], q);
        }
        assert forall|m: int| 0 <= m < list.len() - 1 implies list[m] != last by {}
        lemma_place_is(list, last, list.len() - 1);
        if r != before {
            assert(r == before.push(last));
            assert(!before.contains(last));
            assert(list.contains(last));
            assert forall|i: int| 0 <= i < before.len() implies before[i] != last by {
                assert(before.contains(before[i]));
            }
            if found.contains(last) {
                let n = choose|n: int| 0 <= n < found.len() && found[n] == last;
                assert(before[n] == last);
            }
        }
    }
}

/// The columns that are tried as a key are tried in the order of their
/// preference, and those of the same preference in the order of the columns.
pub proof fn law_likely_keys_are_tried_first(mutual: Seq<Seq<char>>, i: int, j: int)
    requires
        mutual.no_duplicates(),
        0 <= i < j < key_candidates(mutual).len(),
    ensures
        ({
            let (a, b) = (key_candidates(mutual)[i], key_candidates(mutual)[j]);
            &&& preference(a) <= preference(b)
            &&& preference(a) == preference(b) ==> place(mutual, a) < place(mutual, b)
        }),
{
    let ids = mutual.filter(is_id());
    let likely = added_names(ids, mutual, is_key_like());
    let any = |c: Seq<char>| true;
    let all = key_candidates(mutual);
    let (a, b) = (all[i], all[j]);
    lemma_filter_no_duplicates(mutual, is_id());
    lemma_filter_keeps(mutual, is_id());
    lemma_filter_in_order(mutual, is_id());
    lemma_added_in_order(ids, mutual, is_key_like());
    lemma_added_in_order(likely, mutual, any);
    lemma_preference(a);
    lemma_preference(b);
    assert forall|n: int| 0 <= n < all.len() implies (n < ids.len() ==> is_id()(#[trigger] all[n]) && all[n]
        == ids[n]) && (ids.len() <= n < likely.len() ==> is_key_like()(all[n]) && !is_id()(all[n]) && all[n]
        == likely[n]) && (n >= likely.len() ==> !is_id()(all[n]) && !is_key_like()(all[n])) by {
        if n < ids.len() {
            assert(likely[n] == ids[n]);
            assert(all[n] == likely[n]);
        } else if n < likely.len() {
            assert(all[n] == likely[n]);
            if is_id()(likely[n]) {
                assert(mutual.contains(likely[n]));
                let m = choose|m: int| 0 <= m < mutual.len() && mutual[m] == likely[n];
                assert(ids.contains(mutual[m]));
            }
        } else {
            assert(!likely.contains(all[n]));
            assert(mutual.contains(all[n]));
            lemma_likely_are_there(mutual, all[n]);
        }
    }
    assert(is_id()(a) || !is_id()(a));
}

/// A likely key among the columns is among the candidates before the others.
proof fn lemma_likely_are_there(mutual: Seq<Seq<char>>, name: Seq<char>)
    requires
        mutual.contains(name),
    ensures
        is_id()(name) || is_key_like()(name) ==> added_names(
            mutual.filter(is_id()),
            mutual,
            is_key_like(),
        ).contains(name),
{
    let ids = mutual.filter(is_id());
    lemma_filter_keeps(mutual, is_id());
    lemma_added_names(ids, mutual, is_key_like(), name);
    if is_id()(name) {
        let m = choose|m: int| 0 <= m < mutual.len() && mutual[m] == name;
        assert(ids.contains(mutual[m]));
    }
}

/// A filter keeps the order.
proof fn lemma_filter_in_order(s: Seq<Seq<char>>, p: spec_fn(Seq<char>) -> bool)
    requires
        s.no_duplicates(),
    ensures
        forall|i: int, j: int|
            0 <= i < j < s.filter(p).len() ==> place(s, #[trigger] s.filter(p)[i]) < place(
                s,
                #[trigger] s.filter(p)[j],
            ),
    decreases s.len(),
{
    reveal(Seq::filter);
    if s.len() > 0 {
        let less = s.drop_last();
        lemma_filter_in_order(less, p);
        lemma_filter_keeps(less, p);
        let f = less.filter(p);
        let last = s.last();
        assert forall|i: int| 0 <= i < f.len() implies place(s, #[trigger] f[i]) == place(less, f[i]) && place(
            s,
            f[i],
        ) < less.len() by {
            assert(less.contains(f[i]));
            lemma_place(less, f[i]);
            let q = place(less, f[i]);
            assert forall|m: int| 0 <= m < q implies s[m] != f[i] by {
                assert(less[m] != f[i]);
            }
            assert(s[q] == less[q]);
            lemma_place_is(s, f[i], q);
        }
        assert forall|m: int| 0 <= m < s.len() - 1 implies s[m] != last by {}
        lemma_place_is(s, last, s.len() - 1);
    }
}

/// How many of the first rows of a table are looked at for a key.
pub open spec fn rows_tried(t: BatchIter) -> nat {
    if table_rows(t).len() < 100_000 {
        table_rows(t).len()
    } else {
        100_000
    }
}

/// A column identifies the rows of a table that are looked at: it has no null
/// there, and no value twice.
pub open spec fn identifies_first_rows(t: BatchIter, name: Seq<char>) -> bool {
    let rows = table_rows(t);
    &&& forall|i: int| 0 <= i < rows_tried(t) ==> !((#[trigger] rows[i])[name].cell is Null)
    &&& forall|i: int, j: int|
        0 <= i < j < rows_tried(t) ==> distinct_cells(
            (#[trigger] rows[i])[name].cell,
            (#[trigger] rows[j])[name].cell,
        )
}

/// A column identifies the rows of a sample where it identifies those of the
/// table that are looked at.
proof fn lemma_identified_in_sample(t: Table, stream: BatchIter, wanted: Seq<Seq<char>>, name: Seq<char>)
    requires
        is_sample(t, stream, wanted, 100_000),
        stream.wf(),
        forall|c: int| 0 <= c < wanted.len() ==> has_column(stream.schema@, #[trigger] wanted[c]),
        wanted.contains(name),
    ensures
        identifies_rows(t, name) <==> identifies_first_rows(stream, name),
        has_column(t.schema@, name),
{
    let rows = table_rows(stream);
    law_samples_are_the_first_rows(t, stream, wanted, 100_000, 0, name);
    assert(t.rows@.len() == rows_tried(stream));
    assert forall|i: int| 0 <= i < t.rows@.len() implies #[trigger] t.cell(i, name) == rows[i][name].cell by {
        law_samples_are_the_first_rows(t, stream, wanted, 100_000, i, name);
    }
    if identifies_rows(t, name) {
        assert forall|i: int| 0 <= i < rows_tried(stream) implies !((#[trigger] rows[i])[name].cell is Null) by {
            assert(!(t.cell(i, name) is Null));
        }
        assert forall|i: int, j: int| 0 <= i < j < rows_tried(stream) implies distinct_cells(
            (#[trigger] rows[i])[name].cell,
            (#[trigger] rows[j])[name].cell,
        ) by {
            assert(distinct_cells(t.cell(i, name), t.cell(j, name)));
        }
    }
    if identifies_first_rows(stream, name) {
        assert forall|i: int| 0 <= i < t.rows@.len() implies !(#[trigger] t.cell(i, name) is Null) by {
            assert(!(rows[i][name].cell is Null));
        }
        assert forall|i: int, j: int| 0 <= i < j < t.rows@.len() implies distinct_cells(
            #[trigger] t.cell(i, name),
            #[trigger] t.cell(j, name),
        ) by {
            assert(distinct_cells(rows[i][name].cell, rows[j][name].cell));
        }
    }
    let c = choose|c: int| 0 <= c < wanted.len() && wanted[c] == name;
    assert(has_column(stream.schema@, wanted[c]));
    lemma_column(stream.schema@, name);
    assert(stream.schema.fields.len() <= usize::MAX);
    assert(names(t.schema@)[c] == name);
    lemma_place(names(t.schema@), name);
}

/// Where no key is given, a report is made by a shared column that identifies the
/// first rows of both tables, and of these by one of the most preferred; it is
/// made by content only where there is no such column.
pub proof fn law_inferred_key_identifies_rows(
    cfg: DiffConfig,
    left: BatchIter,
    right: BatchIter,
    report: ReportView,
    name: Seq<char>,
)
    requires
        diff_result(cfg, left, right, Ok(report)),
        left.wf(),
        right.wf(),
        cfg.key is None,
        !cfg.keyless,
    ensures
        ({
            let shared = names_column(left.schema@, name) && names_column(right.schema@, name);
            let identifies = identifies_first_rows(left, name) && identifies_first_rows(right, name);
            &&& report.keyless ==> !(shared && identifies)
            &&& !report.keyless && report.key_columns == seq![name] ==> shared && identifies
            &&& !report.keyless && report.schema.mutual.no_duplicates() && shared && identifies ==> preference(
                report.key_columns[0],
            ) <= preference(name)
        }),
{
    let (lf, rf) = (left.schema@, right.schema@);
    let shared = schema_diff(lf, rf).mutual;
    let candidates = key_candidates(shared);
    let (l, m) = choose|l: Table, m: Table|
        {
            &&& #[trigger] is_sample(l, left, shared, KEY_INFER_SAMPLE_ROWS as nat)
            &&& #[trigger] is_sample(m, right, shared, KEY_INFER_SAMPLE_ROWS as nat)
            &&& match inferred_mode(cfg, inferred_key(l, m, candidates)) {
                Err(e) => Ok::<ReportView, ErrorView>(report) == Err::<ReportView, ErrorView>(e),
                Ok(mode) => mode_result(cfg, left, right, mode, Ok(report)),
            }
        };
    let mode = inferred_mode(cfg, inferred_key(l, m, candidates))->Ok_0;
    lemma_reported_mode(cfg, left, right, mode, report);
    lemma_reported_schema(cfg, left, right, report);
    lemma_found(left, right, reported_key(report), report.schema);
    assert forall|n: Seq<char>| #[trigger] shared.contains(n) <==> names_column(lf, n) && names_column(rf, n) by {
        law_schema_columns_are_classified(lf, rf, n);
        lemma_names_column(lf, n);
        lemma_names_column(rf, n);
    }
    assert forall|c: int| 0 <= c < shared.len() implies has_column(lf, #[trigger] shared[c]) && has_column(
        rf,
        shared[c],
    ) by {
        assert(shared.contains(shared[c]));
        law_schema_columns_are_classified(lf, rf, shared[c]);
    }
    assert forall|n: Seq<char>| #[trigger] shared.contains(n) implies (identifies_rows(l, n)
        <==> identifies_first_rows(left, n)) && (identifies_rows(m, n) <==> identifies_first_rows(right, n))
        && has_column(l.schema@, n) && has_column(m.schema@, n) by {
        lemma_identified_in_sample(l, left, shared, n);
        lemma_identified_in_sample(m, right, shared, n);
    }
    assert forall|i: int| 0 <= i < candidates.len() implies has_column(l.schema@, #[trigger] candidates[i])
        && has_column(m.schema@, candidates[i]) && shared.contains(candidates[i]) by {
        assert(candidates.contains(candidates[i]));
        law_candidates_are_shared(shared, candidates[i]);
        assert(shared.contains(candidates[i]));
    }
    law_first_identifying_column_is_inferred(l, m, candidates);
    law_candidates_are_shared(shared, name);
    assert(shared.contains(name) <==> names_column(lf, name) && names_column(rf, name));
    if shared.contains(name) && identifies_first_rows(left, name) && identifies_first_rows(right, name) {
        let j = choose|j: int| 0 <= j < candidates.len() && candidates[j] == name;
        assert(identifies_rows(l, candidates[j]) && identifies_rows(m, candidates[j]));
        if let Ok(c) = inferred_key(l, m, candidates) {
            let n = choose|n: int|
                {
                    &&& 0 <= n < candidates.len()
                    &&& #[trigger] candidates[n] == c
                    &&& identifies_rows(l, c)
                    &&& identifies_rows(m, c)
                    &&& forall|i: int|
                        0 <= i < n ==> !(identifies_rows(l, #[trigger] candidates[i]) && identifies_rows(
                            m,
                            candidates[i],
                        ))
                };
            if n < j && shared.no_duplicates() {
                law_likely_keys_are_tried_first(shared, n, j);
            }
        }
    }
    if let Ok(c) = inferred_key(l, m, candidates) {
        assert(report.key_columns == seq![c]);
        assert(seq![c][0] == c);
        assert(shared.contains(c));
    }
}

} // verus!
