//! What keyless reports say of rows: how many there are more of on either side,
//! and which are shown.

use crate::error::ErrorView;
use crate::hash::{picked, row_bytes, xxh3};
use crate::infer::lemma_none_missing;
use crate::input::{is_projected, picked_fields, projects, Batch, BatchIter};
use crate::key::same_values;
use crate::keyless::{content, hash_codec, hashed_row, hashed_rows, keyless_diff, keyless_refusal, keyless_result, keyless_step, keyless_walk, lemma_group_nonempty, lemma_keyless_step_shrinks, no_surplus, row_hashes, sample_cols, shown_row, KeylessStep, Surplus};
use crate::keyless_laws::{law_keyless_report_counts, lemma_sampled_surplus};
use crate::merge::{begin, lemma_same_rows_contains, SourceView};
use crate::order_laws::{held_row, held_rows, lemma_projected_column, table_rows, Held};
use crate::plan::{diff_result, lemma_scanned_columns, mode_result, renames_found, requested_mode, scan_result, ModeView};
use crate::plan_laws::{lemma_restated_keyed, lemma_restated_keyless};
use crate::report::{sampled_rows, KeyValView, ReportView};
use crate::row_diff::{as_limit, first, keyed_result};
use crate::schema::{column, first_missing, has_column, lemma_column, names, places, FieldShape};
use crate::schema_diff::{schema_diff, SchemaDiffView};
use crate::sort::{sorts, RowView};
use crate::text::lemma_place;
use crate::value::{shown, CellView, Comparator};
use crate::DiffConfig;
use vstd::prelude::*;

verus! {

/// The columns of the left table that make up a row's content: the shared ones
/// and the renamed ones.
pub open spec fn left_content(s: SchemaDiffView) -> Seq<Seq<char>> {
    s.mutual + Seq::new(s.renamed.len(), |i: int| s.renamed[i].left)
}

/// The columns of the right table that make up a row's content, in the same
/// order.
pub open spec fn right_content(s: SchemaDiffView) -> Seq<Seq<char>> {
    s.mutual + Seq::new(s.renamed.len(), |i: int| s.renamed[i].right)
}

/// The cells of a row in the named columns.
pub open spec fn cells_in(names: Seq<Seq<char>>, h: Map<Seq<char>, Held>) -> Seq<CellView> {
    Seq::new(names.len(), |c: int| h[names[c]].cell)
}

/// The hash of a row's content.
pub open spec fn content_hash(names: Seq<Seq<char>>) -> spec_fn(Map<Seq<char>, Held>) -> u128 {
    |h: Map<Seq<char>, Held>| xxh3(row_bytes(cells_in(names, h)))
}

/// A row as it is shown without a key: the named columns with the texts of the
/// cells.
pub open spec fn shown_content(names: Seq<Seq<char>>, h: Map<Seq<char>, Held>) -> Seq<KeyValView> {
    Seq::new(names.len(), |c: int| KeyValView { column: names[c], value: shown(h[names[c]].cell) })
}

/// A row holds the cells of another in the named columns.
spec fn holds_cells(fields: Seq<FieldShape>, names: Seq<Seq<char>>, row: RowView, h: Map<Seq<char>, Held>) -> bool {
    forall|c: int| 0 <= c < names.len() ==> row.cells[column(fields, #[trigger] names[c])] == h[names[c]].cell
}

/// The cells of a row of a projection, by the names of its columns.
proof fn lemma_projected_cells(
    fields: Seq<FieldShape>,
    p: Batch,
    q: Batch,
    wanted: Seq<Seq<char>>,
    i: int,
    c: int,
)
    requires
        fields.len() <= usize::MAX,
        wanted.len() <= usize::MAX,
        is_projected(p, q, places(fields, wanted)),
        forall|n: int| 0 <= n < wanted.len() ==> has_column(fields, #[trigger] wanted[n]),
        0 <= i < q.rows,
        forall|n: int| 0 <= n < p.columns@.len() ==> (#[trigger] p.columns@[n]).spec_len() == p.rows,
        0 <= c < wanted.len(),
    ensures
        ({
            let side = picked_fields(fields, places(fields, wanted));
            &&& 0 <= column(side, wanted[c]) < wanted.len()
            &&& p.row(i)[column(side, wanted[c])] == held_row(fields, q, i)[wanted[c]].cell
        }),
{
    let idx = places(fields, wanted);
    let side = picked_fields(fields, idx);
    let name = wanted[c];
    assert(has_column(fields, name));
    lemma_column(fields, name);
    assert(side[c].name == name);
    lemma_column(side, name);
    assert(names(side)[c] == name);
    lemma_place(names(side), name);
    lemma_projected_column(fields, wanted, name);
    let n = column(side, name);
    assert(same_values(p.columns@[n], q.columns@[idx[n] as int]));
    assert(p.columns@[n].spec_len() == p.rows);
}

/// The rows of a projection with their hashes are those of the table.
proof fn lemma_content_rows(fields: Seq<FieldShape>, batches: Seq<Batch>, from: Seq<Batch>, wanted: Seq<Seq<char>>)
    requires
        fields.len() <= usize::MAX,
        wanted.len() <= usize::MAX,
        batches.len() == from.len(),
        forall|b: int|
            0 <= b < from.len() ==> (#[trigger] batches[b]).wf() && is_projected(
                batches[b],
                from[b],
                places(fields, wanted),
            ),
        forall|i: int| 0 <= i < wanted.len() ==> has_column(fields, #[trigger] wanted[i]),
    ensures
        ({
            let side = picked_fields(fields, places(fields, wanted));
            let rows = held_rows(fields, from);
            &&& row_hashes(batches, places(side, wanted)) == rows.map_values(content_hash(wanted))
            &&& hashed_rows(batches, places(side, wanted)).len() == rows.len()
            &&& forall|i: int|
                0 <= i < rows.len() ==> holds_cells(
                    side,
                    wanted,
                    #[trigger] hashed_rows(batches, places(side, wanted))[i],
                    rows[i],
                )
        }),
    decreases from.len(),
{
    let side = picked_fields(fields, places(fields, wanted));
    let idx = places(side, wanted);
    let f = content_hash(wanted);
    let rows = held_rows(fields, from);
    if from.len() > 0 {
        let (x, y) = (batches.drop_last(), from.drop_last());
        assert forall|b: int| 0 <= b < y.len() implies (#[trigger] x[b]).wf() && is_projected(
            x[b],
            y[b],
            places(fields, wanted),
        ) by {
            assert(batches[b].wf());
        }
        lemma_content_rows(fields, x, y, wanted);
        let (p, q) = (batches.last(), from.last());
        assert(batches[from.len() - 1].wf());
        let here = Seq::new(q.rows as nat, |i: int| held_row(fields, q, i));
        let before = held_rows(fields, y);
        assert forall|i: int| 0 <= i < q.rows implies content(#[trigger] p.row(i), idx) == f(here[i]) by {
            assert forall|c: int| 0 <= c < wanted.len() implies picked(p.row(i), idx)[c] == cells_in(
                wanted,
                here[i],
            )[c] by {
                lemma_projected_cells(fields, p, q, wanted, i, c);
            }
            assert(picked(p.row(i), idx) =~= cells_in(wanted, here[i]));
        }
        assert(Seq::new(p.rows as nat, |i: int| content(p.row(i), idx)) =~= here.map_values(f)) by {
            assert forall|i: int| 0 <= i < p.rows implies content(p.row(i), idx) == f(here[i]) by {}
        }
        assert(rows.map_values(f) =~= before.map_values(f) + here.map_values(f));
        let hashed = hashed_rows(batches, idx);
        assert forall|i: int| 0 <= i < rows.len() implies holds_cells(side, wanted, #[trigger] hashed[i], rows[i]) by {
            if i < before.len() {
                assert(hashed[i] == hashed_rows(x, idx)[i]);
                assert(rows[i] == before[i]);
            } else {
                let n = i - before.len();
                assert(hashed[i] == hashed_row(p.row(n), idx));
                assert(rows[i] == here[n]);
                assert forall|c: int| 0 <= c < wanted.len() implies hashed[i].cells[column(
                    side,
                    #[trigger] wanted[c],
                )] == rows[i][wanted[c]].cell by {
                    lemma_projected_cells(fields, p, q, wanted, n, c);
                }
            }
        }
    } else {
        assert(row_hashes(batches, idx) =~= rows.map_values(f));
    }
}

/// What is scanned of two tables in a keyless diff.
proof fn lemma_scanned_keyless(
    cfg: DiffConfig,
    left: BatchIter,
    right: BatchIter,
    report: ReportView,
) -> (r: (BatchIter, BatchIter, bool))
    requires
        diff_result(cfg, left, right, Ok(report)),
        report.keyless,
    ensures
        projects(r.0, left, left_content(report.schema)),
        projects(r.1, right, right_content(report.schema)),
        keyless_result(r.0, r.1, r.2, report.schema, cfg, Ok(report)),
        first_missing(left.schema@, left_content(report.schema)) is None,
        first_missing(right.schema@, right_content(report.schema)) is None,
        report.schema.left_names() == left_content(report.schema),
        report.schema.right_names() == right_content(report.schema),
{
    let shared = schema_diff(left.schema@, right.schema@).mutual;
    let r = Ok::<ReportView, ErrorView>(report);
    let mode = match requested_mode(cfg, shared) {
        Some(Ok(mode)) => mode,
        _ => choose|mode: ModeView| mode_result(cfg, left, right, mode, r),
    };
    assert(mode_result(cfg, left, right, mode, r));
    let found = choose|found: SchemaDiffView| #[trigger]
        renames_found(left, right, schema_diff(left.schema@, right.schema@), mode.key(), found)
            && scan_result(cfg, left, right, mode, found, r);
    let comparator = Comparator { tol_abs: cfg.tol_abs, tol_rel: cfg.tol_rel };
    let (l, m) = choose|l: BatchIter, m: BatchIter|
        {
            &&& #[trigger] projects(l, left, found.left_names())
            &&& #[trigger] projects(m, right, found.right_names())
            &&& match mode {
                ModeView::Keyed { key, inferred } => keyed_result(
                    l,
                    m,
                    key,
                    inferred,
                    found,
                    cfg,
                    comparator,
                    r,
                ),
                ModeView::Keyless { auto } => keyless_result(l, m, auto, found, cfg, r),
            }
        };
    match mode {
        ModeView::Keyed { key, inferred } => {
            lemma_restated_keyed(l, m, key, inferred, found, found, cfg, comparator, r);
            (l, m, false)
        },
        ModeView::Keyless { auto } => {
            lemma_restated_keyless(l, m, auto, found, found, cfg, r);
            lemma_scanned_columns(left, right, mode.key(), found);
            assert(found.left_names() =~= left_content(found));
            assert(found.right_names() =~= right_content(found));
            (l, m, auto)
        },
    }
}

proof fn lemma_side_content(l: BatchIter, t: BatchIter, wanted: Seq<Seq<char>>)
    requires
        projects(l, t, wanted),
        first_missing(t.schema@, wanted) is None,
    ensures
        ({
            let idx = places(l.schema@, wanted);
            let rows = table_rows(t);
            &&& row_hashes(l.batches@, idx) == rows.map_values(content_hash(wanted))
            &&& hashed_rows(l.batches@, idx).len() == rows.len()
            &&& forall|i: int|
                0 <= i < rows.len() ==> holds_cells(
                    l.schema@,
                    wanted,
                    #[trigger] hashed_rows(l.batches@, idx)[i],
                    rows[i],
                )
        }),
{
    lemma_none_missing(t.schema@, wanted);
    assert(t.schema.fields.len() <= usize::MAX);
    assert(l.schema.fields.len() <= usize::MAX);
    assert(l.schema@.len() == wanted.len());
    assert forall|b: int| 0 <= b < t.batches@.len() implies (#[trigger] l.batches@[b]).wf() && is_projected(
        l.batches@[b],
        t.batches@[b],
        places(t.schema@, wanted),
    ) by {
        assert(is_projected(l.batches@[b], t.batches@[b], places(t.schema@, wanted)));
    }
    lemma_content_rows(t.schema@, l.batches@, t.batches@, wanted);
}

/// What a diff by content without a limit counts, in terms of the rows by the
/// names of their columns alone: as removed the rows whose content the left table
/// has more often, and as added those whose content the right table has more
/// often, by as many as it is more often. The content of a row is its cells in
/// the shared and the renamed columns, and is told by its hash.
pub proof fn law_rows_are_counted_by_content(cfg: DiffConfig, left: BatchIter, right: BatchIter, report: ReportView)
    requires
        diff_result(cfg, left, right, Ok(report)),
        report.keyless,
        cfg.fail_fast is None,
    ensures
        ({
            let l = table_rows(left).map_values(content_hash(left_content(report.schema))).to_multiset();
            let r = table_rows(right).map_values(content_hash(right_content(report.schema))).to_multiset();
            &&& report.left_rows == table_rows(left).len()
            &&& report.right_rows == table_rows(right).len()
            &&& report.removed == l.sub(r).len()
            &&& report.added == r.sub(l).len()
            &&& report.modified == 0
            &&& !report.truncated
        }),
{
    let (l, m, auto) = lemma_scanned_keyless(cfg, left, right, report);
    law_keyless_report_counts(l, m, auto, report.schema, cfg, report);
    lemma_side_content(l, left, left_content(report.schema));
    lemma_side_content(m, right, right_content(report.schema));
}

/// A surplus is of rows of its side, each at least once.
spec fn is_surplus_of(found: Seq<(RowView, nat)>, rows: Seq<RowView>) -> bool {
    forall|i: int| 0 <= i < found.len() ==> rows.contains((#[trigger] found[i]).0) && found[i].1 > 0
}

proof fn lemma_surplus_of_its_side(
    limit: Option<nat>,
    left: SourceView,
    right: SourceView,
    found: Surplus,
    l: Seq<RowView>,
    r: Seq<RowView>,
)
    requires
        is_surplus_of(found.removed, l),
        is_surplus_of(found.added, r),
        forall|i: int| 0 <= i < left.rest.len() ==> l.contains(#[trigger] left.rest[i]),
        forall|i: int| 0 <= i < right.rest.len() ==> r.contains(#[trigger] right.rest[i]),
    ensures
        is_surplus_of(keyless_walk(limit, left, right, found).found.removed, l),
        is_surplus_of(keyless_walk(limit, left, right, found).found.added, r),
    decreases left.rest.len() + right.rest.len(),
{
    match keyless_step(limit, left, right, found) {
        KeylessStep::More { left: x, right: y, found: f } => {
            lemma_keyless_step_shrinks(limit, left, right, found);
            lemma_group_nonempty(left);
            lemma_group_nonempty(right);
            assert(left.rest.len() > 0 ==> l.contains(left.rest[0]));
            assert(right.rest.len() > 0 ==> r.contains(right.rest[0]));
            assert forall|i: int| 0 <= i < f.removed.len() implies l.contains((#[trigger] f.removed[i]).0)
                && f.removed[i].1 > 0 by {
                if i < found.removed.len() {
                    assert(f.removed[i] == found.removed[i]);
                }
            }
            assert forall|i: int| 0 <= i < f.added.len() implies r.contains((#[trigger] f.added[i]).0)
                && f.added[i].1 > 0 by {
                if i < found.added.len() {
                    assert(f.added[i] == found.added[i]);
                }
            }
            let n = left.rest.len() - x.rest.len();
            let k = right.rest.len() - y.rest.len();
            assert forall|i: int| 0 <= i < x.rest.len() implies l.contains(#[trigger] x.rest[i]) by {
                assert(x.rest[i] == left.rest[i + n]);
            }
            assert forall|i: int| 0 <= i < y.rest.len() implies r.contains(#[trigger] y.rest[i]) by {
                assert(y.rest[i] == right.rest[i + k]);
            }
            lemma_surplus_of_its_side(limit, x, y, f, l, r);
        },
        _ => {},
    }
}

/// The rows that a diff by content shows are rows of their table, each by the
/// texts of its content, and each stands for one row or more. Where fewer are
/// shown than were asked for, they stand for all that were removed or added.
#[verifier::rlimit(40)]
#[verifier::spinoff_prover]
pub proof fn law_rows_are_shown_by_content(cfg: DiffConfig, left: BatchIter, right: BatchIter, report: ReportView, i: int)
    requires
        diff_result(cfg, left, right, Ok(report)),
        report.keyless,
    ensures
        report.samples.modified.len() == 0,
        report.samples.removed.len() <= cfg.max_samples,
        report.samples.added.len() <= cfg.max_samples,
        report.samples.removed.len() < cfg.max_samples ==> sampled_rows(report.samples.removed) == report.removed,
        report.samples.added.len() < cfg.max_samples ==> sampled_rows(report.samples.added) == report.added,
        0 <= i < report.samples.removed.len() ==> report.samples.removed[i].count > 0 && exists|n: int|
            0 <= n < table_rows(left).len() && report.samples.removed[i].row == shown_content(
                left_content(report.schema),
                #[trigger] table_rows(left)[n],
            ),
        0 <= i < report.samples.added.len() ==> report.samples.added[i].count > 0 && exists|n: int|
            0 <= n < table_rows(right).len() && report.samples.added[i].row == shown_content(
                right_content(report.schema),
                #[trigger] table_rows(right)[n],
            ),
{
    let (l, m, auto) = lemma_scanned_keyless(cfg, left, right, report);
    let schema = report.schema;
    let (ln, rn) = (left_content(schema), right_content(schema));
    let (lidx, ridx) = (places(l.schema@, ln), places(m.schema@, rn));
    let lrows = hashed_rows(l.batches@, lidx);
    let rrows = hashed_rows(m.batches@, ridx);
    lemma_side_content(l, left, ln);
    lemma_side_content(m, right, rn);
    assert(keyless_refusal(l.schema@, m.schema@, schema) is None);
    let (x, y) = choose|x: Seq<RowView>, y: Seq<RowView>|
        {
            &&& #[trigger] sorts(x, lrows)
            &&& #[trigger] sorts(y, rrows)
            &&& Ok::<ReportView, ErrorView>(report) == Ok::<ReportView, ErrorView>(
                keyless_diff(l.schema@, m.schema@, schema, auto, cfg, x, y),
            )
        };
    let xs = begin(hash_codec(l.schema@.len()), cfg.left@, x, false);
    let ys = begin(hash_codec(m.schema@.len()), cfg.right@, y, false);
    let end = keyless_walk(as_limit(cfg.fail_fast), xs, ys, no_surplus());
    assert forall|n: int| 0 <= n < x.len() implies x.contains(#[trigger] x[n]) by {}
    assert forall|n: int| 0 <= n < y.len() implies y.contains(#[trigger] y[n]) by {}
    lemma_surplus_of_its_side(as_limit(cfg.fail_fast), xs, ys, no_surplus(), x, y);
    let max = cfg.max_samples as nat;
    lemma_sampled_surplus(first(end.found.removed, max), sample_cols(ln, l.schema@));
    lemma_sampled_surplus(first(end.found.added, max), sample_cols(rn, m.schema@));
    if 0 <= i < report.samples.removed.len() {
        let (row, count) = end.found.removed[i];
        assert(x.contains(end.found.removed[i].0));
        lemma_same_rows_contains(x, lrows, row);
        let n = choose|n: int| 0 <= n < lrows.len() && lrows[n] == row;
        lemma_shown_content(l.schema@, ln, row, table_rows(left)[n]);
        assert(report.samples.removed[i].row == shown_content(ln, table_rows(left)[n]));
    }
    if 0 <= i < report.samples.added.len() {
        let (row, count) = end.found.added[i];
        assert(y.contains(end.found.added[i].0));
        lemma_same_rows_contains(y, rrows, row);
        let n = choose|n: int| 0 <= n < rrows.len() && rrows[n] == row;
        lemma_shown_content(m.schema@, rn, row, table_rows(right)[n]);
        assert(report.samples.added[i].row == shown_content(rn, table_rows(right)[n]));
    }
}

proof fn lemma_shown_content(fields: Seq<FieldShape>, names: Seq<Seq<char>>, row: RowView, h: Map<Seq<char>, Held>)
    requires
        holds_cells(fields, names, row, h),
    ensures
        shown_row(sample_cols(names, fields), row) == shown_content(names, h),
{
    assert forall|c: int| 0 <= c < names.len() implies shown_row(sample_cols(names, fields), row)[c]
        == shown_content(names, h)[c] by {
        assert(row.cells[column(fields, names[c])] == h[names[c]].cell);
    }
    assert(shown_row(sample_cols(names, fields), row) =~= shown_content(names, h));
}

} // verus!
