//! What holds of diffs as a whole, however rows are matched.

use crate::error::ErrorView;
use crate::float::ONE;
use crate::hash::picked;
use crate::infer::{inferred_key, key_candidates, lemma_none_missing};
use crate::input::{all_rows, is_projected, is_sample, lemma_projected_counts, picked_fields, projects, row_count, Batch, BatchIter, Table};
use crate::key::{key_part, key_parts, same_values};
use crate::keyed_laws::{law_counts_are_bounded, law_scan_of_same_rows_finds_nothing, lemma_filter_agree, lemma_unmodified_tally};
use crate::keyless::{hashed_rows, keyless_diff, keyless_refusal, keyless_result};
use crate::keyless_laws::{law_keyless_counts_are_bounded, law_same_rows_show_nothing_keyless};
use crate::merge::{arranged, begin, lemma_same_rows_len, SourceView};
use crate::plan::{diff_result, inferred_mode, lemma_mutual_shared, lemma_scanned_columns, mode_result, renames_found, requested_mode, sampled_names, scan_result, ModeView, KEY_INFER_SAMPLE_ROWS};
use crate::rename::{detected_renames, law_renames_pair_close_columns, law_similarity_is_a_share, left_sides, right_sides, with_renames, SAMPLE_ROWS};
use crate::report::{differs, is_printable, row_differences, shown_rows, ReportView};
use crate::row_diff::{differences, keyed_diff, keyed_missing, keyed_result, keyed_setup, keyed_step, keyed_walk, lemma_step_shrinks, nothing_found, renamed_names, value_names, Found, KeyedEnd, KeyedRules, KeyedStep};
use crate::schema::{column, first_missing, has_column, lemma_all_shared, lemma_column, names, places, FieldShape, TypeShape};
use crate::schema_diff::{absent_from, law_same_schema_has_no_changes, law_schema_columns_are_classified, lemma_filter_keeps, no_schema_change, one_type_per_name, present_in, retyped, schema_diff, typed_otherwise, DescView, RenameView, SchemaDiffView};
use crate::sort::{keyed_rows, lemma_stream_len, sorts, stream_rows, twice, CodecView, RowView};
use crate::value::{cell_views, Comparator};
use crate::DiffConfig;
use vstd::prelude::*;

verus! {

/// The memory budget has no part in what a diff may come to.
pub proof fn law_budget_does_not_show(
    cfg: DiffConfig,
    memory_mb: usize,
    left: BatchIter,
    right: BatchIter,
    r: Result<ReportView, ErrorView>,
)
    requires
        diff_result(cfg, left, right, r),
    ensures
        diff_result(DiffConfig { memory_mb, ..cfg }, left, right, r),
{
    let other = DiffConfig { memory_mb, ..cfg };
    let shared = schema_diff(left.schema@, right.schema@).mutual;
    assert(requested_mode(other, shared) == requested_mode(cfg, shared));
    match requested_mode(cfg, shared) {
        Some(Ok(mode)) => {
            lemma_mode_budget(cfg, memory_mb, left, right, mode, r);
        },
        Some(Err(_)) => {},
        None => {
            let (l, m) = choose|l: Table, m: Table|
                {
                    &&& #[trigger] is_sample(l, left, shared, KEY_INFER_SAMPLE_ROWS as nat)
                    &&& #[trigger] is_sample(m, right, shared, KEY_INFER_SAMPLE_ROWS as nat)
                    &&& match inferred_mode(cfg, inferred_key(l, m, key_candidates(shared))) {
                        Err(e) => r == Err::<ReportView, ErrorView>(e),
                        Ok(mode) => mode_result(cfg, left, right, mode, r),
                    }
                };
            let found = inferred_key(l, m, key_candidates(shared));
            assert(inferred_mode(other, found) == inferred_mode(cfg, found));
            match inferred_mode(cfg, found) {
                Ok(mode) => {
                    lemma_mode_budget(cfg, memory_mb, left, right, mode, r);
                },
                Err(_) => {},
            }
        },
    }
}

proof fn lemma_mode_budget(
    cfg: DiffConfig,
    memory_mb: usize,
    left: BatchIter,
    right: BatchIter,
    mode: ModeView,
    r: Result<ReportView, ErrorView>,
)
    requires
        mode_result(cfg, left, right, mode, r),
    ensures
        mode_result(DiffConfig { memory_mb, ..cfg }, left, right, mode, r),
{
    let other = DiffConfig { memory_mb, ..cfg };
    let schema = schema_diff(left.schema@, right.schema@);
    let found = choose|found: SchemaDiffView| #[trigger]
        renames_found(left, right, schema, mode.key(), found) && scan_result(
            cfg,
            left,
            right,
            mode,
            found,
            r,
        );
    let (l, m) = choose|l: BatchIter, m: BatchIter|
        {
            &&& #[trigger] projects(l, left, found.left_names())
            &&& #[trigger] projects(m, right, found.right_names())
            &&& match mode {
                ModeView::Keyed { key, inferred } => keyed_result(
                    l,
                    m,
                    key,
                    inferred,
                    found,
                    cfg,
                    Comparator { tol_abs: cfg.tol_abs, tol_rel: cfg.tol_rel },
                    r,
                ),
                ModeView::Keyless { auto } => keyless_result(l, m, auto, found, cfg, r),
            }
        };
    match mode {
        ModeView::Keyed { key, inferred } => {
            let comparator = Comparator { tol_abs: cfg.tol_abs, tol_rel: cfg.tol_rel };
            lemma_keyed_budget(l, m, key, inferred, found, cfg, memory_mb, comparator, r);
        },
        ModeView::Keyless { auto } => {
            lemma_keyless_budget(l, m, auto, found, cfg, memory_mb, r);
        },
    }
    assert(scan_result(other, left, right, mode, found, r));
}

proof fn lemma_keyed_budget(
    left: BatchIter,
    right: BatchIter,
    key: Seq<Seq<char>>,
    inferred: bool,
    schema: SchemaDiffView,
    cfg: DiffConfig,
    memory_mb: usize,
    comparator: Comparator,
    r: Result<ReportView, ErrorView>,
)
    requires
        keyed_result(left, right, key, inferred, schema, cfg, comparator, r),
    ensures
        keyed_result(
            left,
            right,
            key,
            inferred,
            schema,
            DiffConfig { memory_mb, ..cfg },
            comparator,
            r,
        ),
{
    if keyed_missing(key, left.schema@, right.schema@, schema) is None {
        let setup = keyed_setup(key, left.schema@, right.schema@, schema, comparator, cfg.fail_fast);
        let (l, m) = choose|l: Seq<RowView>, m: Seq<RowView>|
            {
                &&& #[trigger] arranged(cfg.assume_sorted, l, stream_rows(setup.left, left.batches@))
                &&& #[trigger] arranged(cfg.assume_sorted, m, stream_rows(setup.right, right.batches@))
                &&& r == keyed_diff(setup, schema, inferred, cfg, l, m)
            };
        assert(keyed_diff(setup, schema, inferred, DiffConfig { memory_mb, ..cfg }, l, m) == r);
    }
}

proof fn lemma_keyless_budget(
    left: BatchIter,
    right: BatchIter,
    auto: bool,
    schema: SchemaDiffView,
    cfg: DiffConfig,
    memory_mb: usize,
    r: Result<ReportView, ErrorView>,
)
    requires
        keyless_result(left, right, auto, schema, cfg, r),
    ensures
        keyless_result(left, right, auto, schema, DiffConfig { memory_mb, ..cfg }, r),
{
    if keyless_refusal(left.schema@, right.schema@, schema) is None {
        let lrows = hashed_rows(left.batches@, places(left.schema@, schema.left_names()));
        let rrows = hashed_rows(right.batches@, places(right.schema@, schema.right_names()));
        let (l, m) = choose|l: Seq<RowView>, m: Seq<RowView>|
            {
                &&& #[trigger] sorts(l, lrows)
                &&& #[trigger] sorts(m, rrows)
                &&& r == Ok::<ReportView, ErrorView>(
                    keyless_diff(left.schema@, right.schema@, schema, auto, cfg, l, m),
                )
            };
        let other = DiffConfig { memory_mb, ..cfg };
        assert(r == Ok::<ReportView, ErrorView>(
            keyless_diff(left.schema@, right.schema@, schema, auto, other, l, m),
        ));
    }
}

/// Two projections of a batch onto the same columns hold the same rows.
proof fn lemma_same_projection(a: Batch, b: Batch, from: Batch, idx: Seq<usize>, row: int)
    requires
        is_projected(a, from, idx),
        is_projected(b, from, idx),
        a.wf(),
        b.wf(),
        0 <= row < from.rows,
    ensures
        a.row(row) == b.row(row),
        forall|codec: CodecView|
            (forall|i: int| 0 <= i < codec.idx.len() ==> #[trigger] codec.idx[i] < idx.len())
                ==> #[trigger] key_parts(a.columns@, codec.idx, codec.types, row) == key_parts(
                b.columns@,
                codec.idx,
                codec.types,
                row,
            ),
{
    assert forall|c: int| 0 <= c < idx.len() implies #[trigger] a.columns@[c].cell(row)
        == b.columns@[c].cell(row) by {
        assert(same_values(a.columns@[c], from.columns@[idx[c] as int]));
        assert(same_values(b.columns@[c], from.columns@[idx[c] as int]));
    }
    assert(a.row(row) =~= b.row(row));
    assert forall|codec: CodecView|
        (forall|i: int| 0 <= i < codec.idx.len() ==> #[trigger] codec.idx[i] < idx.len()) implies #[trigger] key_parts(
        a.columns@,
        codec.idx,
        codec.types,
        row,
    ) == key_parts(b.columns@, codec.idx, codec.types, row) by {
        assert forall|i: int| 0 <= i < codec.idx.len() implies key_part(
            a.columns@[codec.idx[i] as int],
            codec.types[i],
            row,
        ) == key_part(b.columns@[codec.idx[i] as int], codec.types[i], row) by {
            let c = codec.idx[i] as int;
            assert(codec.idx[i] < idx.len());
            assert(same_values(a.columns@[c], from.columns@[idx[c] as int]));
            assert(same_values(b.columns@[c], from.columns@[idx[c] as int]));
            assert(key_part(a.columns@[c], codec.types[i], row) == key_part(
                from.columns@[idx[c] as int],
                codec.types[i],
                row,
            ));
        }
        assert(key_parts(a.columns@, codec.idx, codec.types, row) =~= key_parts(
            b.columns@,
            codec.idx,
            codec.types,
            row,
        ));
    }
}

/// Batches that are projections of the same batches hold the same rows.
proof fn lemma_same_streams(
    a: Seq<Batch>,
    b: Seq<Batch>,
    from: Seq<Batch>,
    idx: Seq<usize>,
    codec: CodecView,
)
    requires
        a.len() == from.len(),
        b.len() == from.len(),
        forall|i: int|
            0 <= i < from.len() ==> (#[trigger] a[i]).wf() && is_projected(a[i], from[i], idx),
        forall|i: int|
            0 <= i < from.len() ==> (#[trigger] b[i]).wf() && is_projected(b[i], from[i], idx),
        forall|i: int| 0 <= i < codec.idx.len() ==> #[trigger] codec.idx[i] < idx.len(),
    ensures
        stream_rows(codec, a) == stream_rows(codec, b),
        forall|at: Seq<usize>| #[trigger] hashed_rows(a, at) == hashed_rows(b, at),
    decreases from.len(),
{
    if from.len() > 0 {
        let n = from.len() - 1;
        let x = a.drop_last();
        let y = b.drop_last();
        assert forall|i: int| 0 <= i < n implies (#[trigger] x[i]).wf() && is_projected(
            x[i],
            from.drop_last()[i],
            idx,
        ) by {
            assert(a[i].wf());
        }
        assert forall|i: int| 0 <= i < n implies (#[trigger] y[i]).wf() && is_projected(
            y[i],
            from.drop_last()[i],
            idx,
        ) by {
            assert(b[i].wf());
        }
        lemma_same_streams(x, y, from.drop_last(), idx, codec);
        assert(a[n].wf() && b[n].wf());
        let p = a.last();
        let q = b.last();
        assert forall|row: int| 0 <= row < p.rows implies #[trigger] p.row(row) == q.row(row)
            && key_parts(p.columns@, codec.idx, codec.types, row) == key_parts(
            q.columns@,
            codec.idx,
            codec.types,
            row,
        ) by {
            lemma_same_projection(p, q, from[n], idx, row);
        }
        assert(keyed_rows(codec, p) =~= keyed_rows(codec, q));
        assert forall|at: Seq<usize>| #[trigger] hashed_rows(a, at) == hashed_rows(b, at) by {
            assert(hashed_rows(x, at) == hashed_rows(y, at));
            assert(hashed_rows(a, at) =~= hashed_rows(b, at));
        }
    } else {
        assert(a =~= b);
    }
}

/// True for a report without a row difference, of tables with equally many rows.
pub open spec fn shows_nothing(r: ReportView) -> bool {
    &&& r.added == 0 && r.removed == 0 && r.modified == 0
    &&& r.columns_changed.len() == 0
    &&& r.samples.added.len() == 0 && r.samples.removed.len() == 0 && r.samples.modified.len() == 0
    &&& r.left_rows == r.right_rows
}

/// A keyed diff of two projections of one stream shows no difference.
proof fn lemma_keyed_self(
    l: BatchIter,
    m: BatchIter,
    t: BatchIter,
    wanted: Seq<Seq<char>>,
    key: Seq<Seq<char>>,
    inferred: bool,
    schema: SchemaDiffView,
    cfg: DiffConfig,
    comparator: Comparator,
    report: ReportView,
)
    requires
        projects(l, t, wanted),
        projects(m, t, wanted),
        schema.renamed.len() == 0,
        keyed_result(l, m, key, inferred, schema, cfg, comparator, Ok(report)),
    ensures
        report.schema == schema,
        shows_nothing(report),
{
    let fields = l.schema@;
    let setup = keyed_setup(key, fields, fields, schema, comparator, cfg.fail_fast);
    let (x, y) = choose|x: Seq<RowView>, y: Seq<RowView>|
        {
            &&& #[trigger] arranged(cfg.assume_sorted, x, stream_rows(setup.left, l.batches@))
            &&& #[trigger] arranged(cfg.assume_sorted, y, stream_rows(setup.right, m.batches@))
            &&& Ok::<ReportView, ErrorView>(report) == keyed_diff(setup, schema, inferred, cfg, x, y)
        };
    let idx = places(t.schema@, wanted);
    assert forall|i: int| 0 <= i < setup.left.idx.len() implies #[trigger] setup.left.idx[i] < idx.len() by {
        lemma_all_shared(fields, fields, twice(key), i);
        lemma_column(fields, key[i]);
        assert(has_column(fields, key[i]));
    }
    assert forall|b: int| 0 <= b < t.batches@.len() implies (#[trigger] l.batches@[b]).wf() && is_projected(
        l.batches@[b],
        t.batches@[b],
        idx,
    ) by {
        assert(is_projected(l.batches@[b], t.batches@[b], idx));
    }
    assert forall|b: int| 0 <= b < t.batches@.len() implies (#[trigger] m.batches@[b]).wf() && is_projected(
        m.batches@[b],
        t.batches@[b],
        idx,
    ) by {
        assert(is_projected(m.batches@[b], t.batches@[b], idx));
    }
    lemma_same_streams(l.batches@, m.batches@, t.batches@, idx, setup.left);
    assert forall|i: int| 0 <= i < setup.rules.cols.len() implies (#[trigger] setup.rules.cols[i]).left
        == setup.rules.cols[i].right by {
        let n = value_names(schema, key)[i];
        assert(n.left == n.right);
    }
    assert(differences(setup.rules, nothing_found()) == 0) by {
        reveal(Seq::filter);
    }
    let rows = stream_rows(setup.left, l.batches@);
    if !cfg.assume_sorted {
        lemma_same_rows_len(x, rows);
        lemma_same_rows_len(y, rows);
    }
    let s = begin(setup.left, cfg.left@, x, cfg.assume_sorted);
    let t = begin(setup.right, cfg.right@, y, cfg.assume_sorted);
    law_scan_of_same_rows_finds_nothing(setup.rules, s, t, nothing_found());
    match keyed_walk(setup.rules, s, t, nothing_found()) {
        KeyedEnd::Done { found, .. } => {
            lemma_unmodified_tally(setup.rules, found.matched);
        },
        _ => {},
    }
}

proof fn lemma_mode_self(cfg: DiffConfig, t: BatchIter, mode: ModeView, report: ReportView)
    requires
        one_type_per_name(t.schema@),
        mode_result(cfg, t, t, mode, Ok(report)),
    ensures
        no_schema_change(report.schema),
        shows_nothing(report),
{
    let schema = schema_diff(t.schema@, t.schema@);
    law_same_schema_has_no_changes(t.schema@);
    let found = choose|found: SchemaDiffView| #[trigger]
        renames_found(t, t, schema, mode.key(), found) && scan_result(
            cfg,
            t,
            t,
            mode,
            found,
            Ok(report),
        );
    assert(found == schema);
    let wanted = found.left_names();
    assert(found.right_names() =~= wanted);
    let (l, m) = choose|l: BatchIter, m: BatchIter|
        {
            &&& #[trigger] projects(l, t, found.left_names())
            &&& #[trigger] projects(m, t, found.right_names())
            &&& match mode {
                ModeView::Keyed { key, inferred } => keyed_result(
                    l,
                    m,
                    key,
                    inferred,
                    found,
                    cfg,
                    Comparator { tol_abs: cfg.tol_abs, tol_rel: cfg.tol_rel },
                    Ok(report),
                ),
                ModeView::Keyless { auto } => keyless_result(l, m, auto, found, cfg, Ok(report)),
            }
        };
    match mode {
        ModeView::Keyed { key, inferred } => {
            let comparator = Comparator { tol_abs: cfg.tol_abs, tol_rel: cfg.tol_rel };
            lemma_keyed_self(l, m, t, wanted, key, inferred, found, cfg, comparator, report);
        },
        ModeView::Keyless { auto } => {
            let idx = places(t.schema@, wanted);
            assert forall|b: int| 0 <= b < t.batches@.len() implies (#[trigger] l.batches@[b]).wf()
                && is_projected(l.batches@[b], t.batches@[b], idx) by {
                assert(is_projected(l.batches@[b], t.batches@[b], idx));
            }
            assert forall|b: int| 0 <= b < t.batches@.len() implies (#[trigger] m.batches@[b]).wf()
                && is_projected(m.batches@[b], t.batches@[b], idx) by {
                assert(is_projected(m.batches@[b], t.batches@[b], idx));
            }
            let none = CodecView { idx: seq![], cols: seq![], types: seq![] };
            lemma_same_streams(l.batches@, m.batches@, t.batches@, idx, none);
            let at = places(l.schema@, wanted);
            assert(hashed_rows(l.batches@, at) == hashed_rows(m.batches@, at));
            law_same_rows_show_nothing_keyless(l, m, auto, found, cfg, report);
        },
    }
}

/// A table compared with itself shows no difference, in whatever mode and with
/// whatever options it is compared, if it is compared at all: nothing is
/// reported of the schema, of the rows or of the columns, there is no example,
/// and both sides have equally many rows. Left out is a table that has a name
/// for two columns of different types.
pub proof fn law_table_does_not_differ_from_itself(cfg: DiffConfig, t: BatchIter, report: ReportView)
    requires
        one_type_per_name(t.schema@),
        diff_result(cfg, t, t, Ok(report)),
    ensures
        !differs(report),
        no_schema_change(report.schema),
        shows_nothing(report),
{
    let shared = schema_diff(t.schema@, t.schema@).mutual;
    match requested_mode(cfg, shared) {
        Some(Ok(mode)) => {
            lemma_mode_self(cfg, t, mode, report);
        },
        Some(Err(_)) => {},
        None => {
            let (l, m) = choose|l: Table, m: Table|
                {
                    &&& #[trigger] is_sample(l, t, shared, KEY_INFER_SAMPLE_ROWS as nat)
                    &&& #[trigger] is_sample(m, t, shared, KEY_INFER_SAMPLE_ROWS as nat)
                    &&& match inferred_mode(cfg, inferred_key(l, m, key_candidates(shared))) {
                        Err(e) => Ok::<ReportView, ErrorView>(report) == Err::<ReportView, ErrorView>(e),
                        Ok(mode) => mode_result(cfg, t, t, mode, Ok(report)),
                    }
                };
            match inferred_mode(cfg, inferred_key(l, m, key_candidates(shared))) {
                Ok(mode) => {
                    lemma_mode_self(cfg, t, mode, report);
                },
                Err(_) => {},
            }
        },
    }
}

/// Two schemas have the same columns under the same names, in whatever order.
pub open spec fn same_fields(a: Seq<FieldShape>, b: Seq<FieldShape>) -> bool {
    &&& forall|name: Seq<char>| #[trigger] has_column(a, name) == has_column(b, name)
    &&& forall|name: Seq<char>| #[trigger]
        has_column(a, name) ==> a[column(a, name)] == b[column(b, name)]
}

/// Two tables have the same columns under the same names, in whatever order.
pub open spec fn same_columns(a: BatchIter, b: BatchIter) -> bool {
    &&& a.wf()
    &&& b.wf()
    &&& a.batches@.len() == b.batches@.len()
    &&& same_fields(a.schema@, b.schema@)
    &&& forall|i: int|
        0 <= i < a.batches@.len() ==> (#[trigger] a.batches@[i]).rows == b.batches@[i].rows
    &&& forall|i: int, name: Seq<char>|
        0 <= i < a.batches@.len() && has_column(a.schema@, name) ==> same_values(
            #[trigger] a.batches@[i].columns@[#[trigger] column(a.schema@, name)],
            b.batches@[i].columns@[column(b.schema@, name)],
        ) && a.batches@[i].sizes@[column(a.schema@, name)] == b.batches@[i].sizes@[column(
            b.schema@,
            name,
        )]
}

/// Columns in another order are found under their names all the same.
proof fn lemma_reordered_fields(a: BatchIter, b: BatchIter, wanted: Seq<Seq<char>>)
    requires
        same_columns(a, b),
        first_missing(a.schema@, wanted) is None,
    ensures
        picked_fields(a.schema@, places(a.schema@, wanted)) == picked_fields(
            b.schema@,
            places(b.schema@, wanted),
        ),
        forall|i: int|
            0 <= i < wanted.len() ==> {
                &&& has_column(a.schema@, #[trigger] wanted[i])
                &&& has_column(b.schema@, wanted[i])
                &&& places(a.schema@, wanted)[i] == column(a.schema@, wanted[i])
                &&& places(b.schema@, wanted)[i] == column(b.schema@, wanted[i])
                &&& places(a.schema@, wanted)[i] < a.schema@.len()
                &&& places(b.schema@, wanted)[i] < b.schema@.len()
            },
{
    lemma_none_missing(a.schema@, wanted);
    assert(a.schema.fields.len() <= usize::MAX);
    assert(b.schema.fields.len() <= usize::MAX);
    assert forall|i: int| 0 <= i < wanted.len() implies {
        &&& has_column(a.schema@, #[trigger] wanted[i])
        &&& has_column(b.schema@, wanted[i])
        &&& places(a.schema@, wanted)[i] == column(a.schema@, wanted[i])
        &&& places(b.schema@, wanted)[i] == column(b.schema@, wanted[i])
        &&& places(a.schema@, wanted)[i] < a.schema@.len()
        &&& places(b.schema@, wanted)[i] < b.schema@.len()
    } by {
        lemma_column(a.schema@, wanted[i]);
        lemma_column(b.schema@, wanted[i]);
    }
    assert(picked_fields(a.schema@, places(a.schema@, wanted)) =~= picked_fields(
        b.schema@,
        places(b.schema@, wanted),
    ));
}

/// A projection of a table is one of the table with its columns in another
/// order.
proof fn lemma_reordered_projects(m: BatchIter, a: BatchIter, b: BatchIter, wanted: Seq<Seq<char>>)
    requires
        same_columns(a, b),
        first_missing(a.schema@, wanted) is None,
        projects(m, a, wanted),
    ensures
        projects(m, b, wanted),
{
    lemma_reordered_fields(a, b, wanted);
    let ia = places(a.schema@, wanted);
    let ib = places(b.schema@, wanted);
    assert forall|i: int| 0 <= i < b.batches@.len() implies is_projected(
        #[trigger] m.batches@[i],
        b.batches@[i],
        ib,
    ) by {
        assert(is_projected(m.batches@[i], a.batches@[i], ia));
        assert(a.batches@[i].rows == b.batches@[i].rows);
        assert forall|c: int| 0 <= c < ib.len() implies same_values(
            #[trigger] m.batches@[i].columns@[c],
            b.batches@[i].columns@[ib[c] as int],
        ) by {
            let name = wanted[c];
            let p = m.batches@[i].columns@[c];
            let q = a.batches@[i].columns@[column(a.schema@, name)];
            let s = b.batches@[i].columns@[column(b.schema@, name)];
            assert(same_values(p, q));
            assert(same_values(q, s));
            assert forall|t: TypeShape, k: int| 0 <= k < p.spec_len() implies #[trigger] key_part(p, t, k)
                == key_part(s, t, k) by {
                assert(key_part(q, t, k) == key_part(s, t, k));
            }
            assert forall|k: int| 0 <= k < p.spec_len() implies #[trigger] p.cell(k) == s.cell(k) by {
                assert(q.cell(k) == s.cell(k));
            }
        }
        assert forall|c: int| 0 <= c < ib.len() implies a.batches@[i].sizes@[ia[c] as int]
            == b.batches@[i].sizes@[#[trigger] ib[c] as int] by {
            let name = wanted[c];
            assert(same_values(
                a.batches@[i].columns@[column(a.schema@, name)],
                b.batches@[i].columns@[column(b.schema@, name)],
            ));
        }
        assert(m.batches@[i].sizes@ =~= ib.map_values(|p: usize| b.batches@[i].sizes@[p as int]));
    }
}

/// The rows of two tables with the same columns are the same in those columns.
proof fn lemma_reordered_rows(a: BatchIter, b: BatchIter, wanted: Seq<Seq<char>>, n: int)
    requires
        same_columns(a, b),
        first_missing(a.schema@, wanted) is None,
        0 <= n <= a.batches@.len(),
    ensures
        all_rows(a.batches@.take(n)).len() == all_rows(b.batches@.take(n)).len(),
        forall|i: int|
            0 <= i < all_rows(a.batches@.take(n)).len() ==> picked(
                #[trigger] all_rows(a.batches@.take(n))[i],
                places(a.schema@, wanted),
            ) == picked(all_rows(b.batches@.take(n))[i], places(b.schema@, wanted)),
    decreases n,
{
    if n > 0 {
        lemma_reordered_rows(a, b, wanted, n - 1);
        lemma_reordered_fields(a, b, wanted);
        let x = a.batches@.take(n);
        let y = b.batches@.take(n);
        assert(x.drop_last() =~= a.batches@.take(n - 1));
        assert(y.drop_last() =~= b.batches@.take(n - 1));
        let p = a.batches@[n - 1];
        let q = b.batches@[n - 1];
        assert(p.rows == q.rows);
        assert(p.wf() && q.wf());
        let before = all_rows(x.drop_last()).len();
        assert forall|i: int| 0 <= i < all_rows(x).len() implies picked(
            #[trigger] all_rows(x)[i],
            places(a.schema@, wanted),
        ) == picked(all_rows(y)[i], places(b.schema@, wanted)) by {
            if i < before {
                assert(all_rows(x)[i] == all_rows(x.drop_last())[i]);
                assert(all_rows(y)[i] == all_rows(y.drop_last())[i]);
            } else {
                let row = i - before;
                assert(all_rows(x)[i] == p.row(row));
                assert(all_rows(y)[i] == q.row(row));
                assert forall|c: int| 0 <= c < wanted.len() implies picked(
                    p.row(row),
                    places(a.schema@, wanted),
                )[c] == picked(q.row(row), places(b.schema@, wanted))[c] by {
                    let name = wanted[c];
                    assert(same_values(
                        p.columns@[column(a.schema@, name)],
                        q.columns@[column(b.schema@, name)],
                    ));
                }
                assert(picked(p.row(row), places(a.schema@, wanted)) =~= picked(
                    q.row(row),
                    places(b.schema@, wanted),
                ));
            }
        }
    }
}

/// A sample of a table is one of the table with its columns in another order.
proof fn lemma_reordered_sample(
    t: Table,
    a: BatchIter,
    b: BatchIter,
    wanted: Seq<Seq<char>>,
    limit: nat,
)
    requires
        same_columns(a, b),
        first_missing(a.schema@, wanted) is None,
        is_sample(t, a, wanted, limit),
    ensures
        is_sample(t, b, wanted, limit),
{
    let n = a.batches@.len() as int;
    lemma_reordered_fields(a, b, wanted);
    lemma_reordered_rows(a, b, wanted, n);
    assert(a.batches@.take(n) =~= a.batches@);
    assert(b.batches@.take(n) =~= b.batches@);
    let rows = all_rows(a.batches@);
    assert forall|i: int| 0 <= i < t.rows@.len() implies cell_views((#[trigger] t.rows@[i])@) == picked(
        all_rows(b.batches@)[i],
        places(b.schema@, wanted),
    ) by {
        assert(picked(rows[i], places(a.schema@, wanted)) == picked(
            all_rows(b.batches@)[i],
            places(b.schema@, wanted),
        ));
    }
}

/// Where the left table has all columns of the right one, it has them in
/// whatever order they are.
proof fn lemma_nothing_added(left: Seq<FieldShape>, a: Seq<FieldShape>, b: Seq<FieldShape>)
    requires
        same_fields(a, b),
        schema_diff(left, a).added.len() == 0,
    ensures
        schema_diff(left, b).added.len() == 0,
{
    let x = schema_diff(left, a);
    if schema_diff(left, b).added.len() > 0 {
        let extra = b.filter(absent_from(left));
        lemma_filter_keeps(b, absent_from(left));
        let f = extra[0];
        assert(absent_from(left)(f));
        let j = choose|j: int| 0 <= j < b.len() && b[j] == f;
        lemma_column(b, f.name);
        assert(names(b)[j] == f.name);
        assert(has_column(b, f.name));
        assert(has_column(a, f.name) == has_column(b, f.name));
        law_schema_columns_are_classified(left, a, f.name);
        let added = x.added.map_values(|c: DescView| c.name);
        assert(added.contains(f.name));
    }
}

/// Reordering the columns of the right table changes nothing in the schema
/// difference but the order of the added columns.
pub proof fn lemma_reordered_schema(left: Seq<FieldShape>, a: Seq<FieldShape>, b: Seq<FieldShape>)
    requires
        same_fields(a, b),
    ensures
        schema_diff(left, b) == (SchemaDiffView {
            added: schema_diff(left, b).added,
            ..schema_diff(left, a)
        }),
        schema_diff(left, a).added.len() == 0 <==> schema_diff(left, b).added.len() == 0,
        schema_diff(left, a).added.len() == 0 ==> schema_diff(left, a) == schema_diff(left, b),
{
    let x = schema_diff(left, a);
    let y = schema_diff(left, b);
    assert forall|i: int| 0 <= i < left.len() implies {
        let f = #[trigger] left[i];
        &&& present_in(a)(f) == present_in(b)(f)
        &&& absent_from(a)(f) == absent_from(b)(f)
        &&& typed_otherwise(a)(f) == typed_otherwise(b)(f)
        &&& present_in(a)(f) ==> retyped(a)(f) == retyped(b)(f)
    } by {
        let name = left[i].name;
        assert(has_column(a, name) == has_column(b, name));
    }
    lemma_filter_agree(left, present_in(a), present_in(b));
    lemma_filter_agree(left, absent_from(a), absent_from(b));
    lemma_filter_agree(left, typed_otherwise(a), typed_otherwise(b));
    let kept = left.filter(typed_otherwise(a));
    lemma_filter_keeps(left, typed_otherwise(a));
    assert forall|i: int| 0 <= i < kept.len() implies retyped(a)(#[trigger] kept[i]) == retyped(b)(kept[i]) by {
        assert(typed_otherwise(a)(kept[i]));
        let j = choose|j: int| 0 <= j < left.len() && left[j] == kept[i];
        assert(present_in(a)(left[j]));
    }
    assert(x.type_changed =~= y.type_changed);
    if x.added.len() == 0 {
        lemma_nothing_added(left, a, b);
        assert(x.added =~= y.added);
    }
    if y.added.len() == 0 {
        assert forall|name: Seq<char>| #[trigger] has_column(b, name) implies b[column(b, name)]
            == a[column(a, name)] by {
            assert(has_column(a, name) == has_column(b, name));
        }
        assert(same_fields(b, a)) by {
            assert forall|name: Seq<char>| #[trigger] has_column(b, name) == has_column(a, name) by {
                assert(has_column(a, name) == has_column(b, name));
            }
        }
        lemma_nothing_added(left, b, a);
    }
}

/// The names that renamed columns have on the two sides.
pub open spec fn renamed_pairs(renamed: Seq<RenameView>) -> Seq<(Seq<char>, Seq<char>)> {
    renamed.map_values(|r: RenameView| (r.left, r.right))
}

/// A report with another schema difference.
pub open spec fn with_schema(report: ReportView, schema: SchemaDiffView) -> ReportView {
    ReportView { schema, ..report }
}

/// What a diff comes to, with another schema difference.
pub open spec fn restated(r: Result<ReportView, ErrorView>, schema: SchemaDiffView) -> Result<
    ReportView,
    ErrorView,
> {
    match r {
        Ok(report) => Ok(with_schema(report, schema)),
        Err(e) => Err(e),
    }
}

/// The key that a report was made by, where there was one.
pub open spec fn reported_key(report: ReportView) -> Option<Seq<Seq<char>>> {
    if report.keyless {
        None
    } else {
        Some(report.key_columns)
    }
}

/// Which columns are scanned and compared goes by the shared names and those of
/// the renamed columns alone.
pub proof fn lemma_same_names(a: SchemaDiffView, b: SchemaDiffView)
    requires
        a.mutual == b.mutual,
        renamed_pairs(a.renamed) == renamed_pairs(b.renamed),
    ensures
        a.left_names() == b.left_names(),
        a.right_names() == b.right_names(),
        left_sides(a.renamed) == left_sides(b.renamed),
        right_sides(a.renamed) == right_sides(b.renamed),
        forall|key: Seq<Seq<char>>| #[trigger] value_names(a, key) == value_names(b, key),
{
    let (x, y) = (a.renamed, b.renamed);
    assert(x.len() == renamed_pairs(x).len() && y.len() == renamed_pairs(y).len());
    assert forall|i: int| 0 <= i < x.len() implies (#[trigger] x[i]).left == y[i].left && x[i].right
        == y[i].right by {
        assert(renamed_pairs(x)[i] == renamed_pairs(y)[i]);
    }
    assert(left_sides(x) =~= left_sides(y));
    assert(right_sides(x) =~= right_sides(y));
    assert(a.left_names() =~= b.left_names());
    assert(a.right_names() =~= b.right_names());
    assert(renamed_names(x) =~= renamed_names(y));
}

/// A scan goes by one key to its end.
proof fn lemma_walk_keeps_key(rules: KeyedRules, left: SourceView, right: SourceView, found: Found)
    ensures
        keyed_walk(rules, left, right, found) matches KeyedEnd::Done { left: l, .. } ==> l.codec == left.codec,
    decreases left.rest.len() + right.rest.len(),
{
    lemma_step_shrinks(rules, left, right, found);
    match keyed_step(rules, left, right, found) {
        KeyedStep::More { left: l, right: r, found: f } => {
            lemma_walk_keeps_key(rules, l, r, f);
        },
        _ => {},
    }
}

/// A keyed diff takes no more from the schema difference than the names of the
/// compared columns, and reports it as it is, with the key.
pub proof fn lemma_restated_keyed(
    left: BatchIter,
    right: BatchIter,
    key: Seq<Seq<char>>,
    inferred: bool,
    schema: SchemaDiffView,
    other: SchemaDiffView,
    cfg: DiffConfig,
    comparator: Comparator,
    r: Result<ReportView, ErrorView>,
)
    requires
        keyed_result(left, right, key, inferred, schema, cfg, comparator, r),
        value_names(schema, key) == value_names(other, key),
    ensures
        keyed_result(left, right, key, inferred, other, cfg, comparator, restated(r, other)),
        r matches Ok(report) ==> report.schema == schema && reported_key(report) == Some(key),
{
    if keyed_missing(key, left.schema@, right.schema@, schema) is None {
        let setup = keyed_setup(key, left.schema@, right.schema@, schema, comparator, cfg.fail_fast);
        let (x, y) = choose|x: Seq<RowView>, y: Seq<RowView>|
            {
                &&& #[trigger] arranged(cfg.assume_sorted, x, stream_rows(setup.left, left.batches@))
                &&& #[trigger] arranged(cfg.assume_sorted, y, stream_rows(setup.right, right.batches@))
                &&& r == keyed_diff(setup, schema, inferred, cfg, x, y)
            };
        lemma_walk_keeps_key(
            setup.rules,
            begin(setup.left, cfg.left@, x, cfg.assume_sorted),
            begin(setup.right, cfg.right@, y, cfg.assume_sorted),
            nothing_found(),
        );
        assert(restated(r, other) == keyed_diff(setup, other, inferred, cfg, x, y));
    }
}

/// A keyless diff takes no more from the schema difference than the names of the
/// scanned columns, and reports it as it is.
pub proof fn lemma_restated_keyless(
    left: BatchIter,
    right: BatchIter,
    auto: bool,
    schema: SchemaDiffView,
    other: SchemaDiffView,
    cfg: DiffConfig,
    r: Result<ReportView, ErrorView>,
)
    requires
        keyless_result(left, right, auto, schema, cfg, r),
        schema.left_names() == other.left_names(),
        schema.right_names() == other.right_names(),
    ensures
        keyless_result(left, right, auto, other, cfg, restated(r, other)),
        r matches Ok(report) ==> report.schema == schema && reported_key(report) is None,
{
    if keyless_refusal(left.schema@, right.schema@, schema) is None {
        let lidx = places(left.schema@, schema.left_names());
        let ridx = places(right.schema@, schema.right_names());
        let (l, m) = choose|l: Seq<RowView>, m: Seq<RowView>|
            {
                &&& #[trigger] sorts(l, hashed_rows(left.batches@, lidx))
                &&& #[trigger] sorts(m, hashed_rows(right.batches@, ridx))
                &&& r == Ok::<ReportView, ErrorView>(
                    keyless_diff(left.schema@, right.schema@, schema, auto, cfg, l, m),
                )
            };
        assert(restated(r, other) == Ok::<ReportView, ErrorView>(
            keyless_diff(left.schema@, right.schema@, other, auto, cfg, l, m),
        ));
    }
}

/// What a scan may come to with some renames, it may come to with the right
/// table's columns in another order and the same renames.
proof fn lemma_reordered_scan(
    cfg: DiffConfig,
    left: BatchIter,
    right: BatchIter,
    reordered: BatchIter,
    mode: ModeView,
    found: SchemaDiffView,
    other: SchemaDiffView,
    r: Result<ReportView, ErrorView>,
)
    requires
        same_columns(right, reordered),
        renames_found(left, right, schema_diff(left.schema@, right.schema@), mode.key(), found),
        found.mutual == other.mutual,
        renamed_pairs(found.renamed) == renamed_pairs(other.renamed),
        scan_result(cfg, left, right, mode, found, r),
    ensures
        scan_result(cfg, left, reordered, mode, other, restated(r, other)),
        r matches Ok(report) ==> report.schema == found && reported_key(report) == mode.key(),
{
    let comparator = Comparator { tol_abs: cfg.tol_abs, tol_rel: cfg.tol_rel };
    lemma_same_names(found, other);
    lemma_scanned_columns(left, right, mode.key(), found);
    let (l, m) = choose|l: BatchIter, m: BatchIter|
        {
            &&& #[trigger] projects(l, left, found.left_names())
            &&& #[trigger] projects(m, right, found.right_names())
            &&& match mode {
                ModeView::Keyed { key, inferred } => keyed_result(
                    l,
                    m,
                    key,
                    inferred,
                    found,
                    cfg,
                    comparator,
                    r,
                ),
                ModeView::Keyless { auto } => keyless_result(l, m, auto, found, cfg, r),
            }
        };
    lemma_reordered_projects(m, right, reordered, found.right_names());
    match mode {
        ModeView::Keyed { key, inferred } => {
            lemma_restated_keyed(l, m, key, inferred, found, other, cfg, comparator, r);
        },
        ModeView::Keyless { auto } => {
            lemma_restated_keyless(l, m, auto, found, other, cfg, r);
        },
    }
}

/// The order of the right table's columns has no part in what a diff may come
/// to, where only one table has columns that the other has not, so that there
/// are no renames. The list of the added columns alone goes by that order.
pub proof fn law_column_order_does_not_matter(
    cfg: DiffConfig,
    left: BatchIter,
    right: BatchIter,
    reordered: BatchIter,
    r: Result<ReportView, ErrorView>,
)
    requires
        same_columns(right, reordered),
        ({
            let schema = schema_diff(left.schema@, right.schema@);
            schema.added.len() == 0 || schema.removed.len() == 0
        }),
        diff_result(cfg, left, right, r),
    ensures
        diff_result(cfg, left, reordered, restated(r, schema_diff(left.schema@, reordered.schema@))),
        schema_diff(left.schema@, right.schema@).added.len() == 0 ==> restated(
            r,
            schema_diff(left.schema@, reordered.schema@),
        ) == r,
{
    let schema = schema_diff(left.schema@, right.schema@);
    lemma_reordered_schema(left.schema@, right.schema@, reordered.schema@);
    lemma_mutual_shared(left.schema@, right.schema@);
    match requested_mode(cfg, schema.mutual) {
        Some(Ok(mode)) => {
            lemma_reordered_mode(cfg, left, right, reordered, mode, r);
        },
        Some(Err(_)) => {},
        None => {
            let n = KEY_INFER_SAMPLE_ROWS as nat;
            let (l, m) = choose|l: Table, m: Table|
                {
                    &&& #[trigger] is_sample(l, left, schema.mutual, n)
                    &&& #[trigger] is_sample(m, right, schema.mutual, n)
                    &&& match inferred_mode(cfg, inferred_key(l, m, key_candidates(schema.mutual))) {
                        Err(e) => r == Err::<ReportView, ErrorView>(e),
                        Ok(mode) => mode_result(cfg, left, right, mode, r),
                    }
                };
            lemma_reordered_sample(m, right, reordered, schema.mutual, n);
            match inferred_mode(cfg, inferred_key(l, m, key_candidates(schema.mutual))) {
                Ok(mode) => {
                    lemma_reordered_mode(cfg, left, right, reordered, mode, r);
                },
                Err(_) => {},
            }
        },
    }
}

proof fn lemma_reordered_mode(
    cfg: DiffConfig,
    left: BatchIter,
    right: BatchIter,
    reordered: BatchIter,
    mode: ModeView,
    r: Result<ReportView, ErrorView>,
)
    requires
        same_columns(right, reordered),
        ({
            let schema = schema_diff(left.schema@, right.schema@);
            schema.added.len() == 0 || schema.removed.len() == 0
        }),
        mode_result(cfg, left, right, mode, r),
    ensures
        mode_result(
            cfg,
            left,
            reordered,
            mode,
            restated(r, schema_diff(left.schema@, reordered.schema@)),
        ),
        r matches Ok(report) ==> report.schema == schema_diff(left.schema@, right.schema@),
{
    let schema = schema_diff(left.schema@, right.schema@);
    let other = schema_diff(left.schema@, reordered.schema@);
    lemma_reordered_schema(left.schema@, right.schema@, reordered.schema@);
    let found = choose|found: SchemaDiffView| #[trigger]
        renames_found(left, right, schema, mode.key(), found) && scan_result(
            cfg,
            left,
            right,
            mode,
            found,
            r,
        );
    lemma_reordered_scan(cfg, left, right, reordered, mode, found, other, r);
    assert(renames_found(left, reordered, other, mode.key(), other));
}

/// The order of the right table's columns has no part in what a diff may report,
/// where the same renames are found in that order. The schema difference alone
/// goes by the order: it lists the added columns in it.
pub proof fn law_column_order_does_not_matter_beside_renames(
    cfg: DiffConfig,
    left: BatchIter,
    right: BatchIter,
    reordered: BatchIter,
    report: ReportView,
    other: SchemaDiffView,
)
    requires
        same_columns(right, reordered),
        diff_result(cfg, left, right, Ok(report)),
        renames_found(
            left,
            reordered,
            schema_diff(left.schema@, reordered.schema@),
            reported_key(report),
            other,
        ),
        renamed_pairs(other.renamed) == renamed_pairs(report.schema.renamed),
    ensures
        diff_result(cfg, left, reordered, Ok(with_schema(report, other))),
{
    let r = Ok::<ReportView, ErrorView>(report);
    let schema = schema_diff(left.schema@, right.schema@);
    lemma_reordered_schema(left.schema@, right.schema@, reordered.schema@);
    lemma_mutual_shared(left.schema@, right.schema@);
    match requested_mode(cfg, schema.mutual) {
        Some(Ok(mode)) => {
            lemma_reordered_renames(cfg, left, right, reordered, mode, report, other);
        },
        Some(Err(_)) => {},
        None => {
            let n = KEY_INFER_SAMPLE_ROWS as nat;
            let (l, m) = choose|l: Table, m: Table|
                {
                    &&& #[trigger] is_sample(l, left, schema.mutual, n)
                    &&& #[trigger] is_sample(m, right, schema.mutual, n)
                    &&& match inferred_mode(cfg, inferred_key(l, m, key_candidates(schema.mutual))) {
                        Err(e) => r == Err::<ReportView, ErrorView>(e),
                        Ok(mode) => mode_result(cfg, left, right, mode, r),
                    }
                };
            lemma_reordered_sample(m, right, reordered, schema.mutual, n);
            match inferred_mode(cfg, inferred_key(l, m, key_candidates(schema.mutual))) {
                Ok(mode) => {
                    lemma_reordered_renames(cfg, left, right, reordered, mode, report, other);
                },
                Err(_) => {},
            }
        },
    }
}

proof fn lemma_reordered_renames(
    cfg: DiffConfig,
    left: BatchIter,
    right: BatchIter,
    reordered: BatchIter,
    mode: ModeView,
    report: ReportView,
    other: SchemaDiffView,
)
    requires
        same_columns(right, reordered),
        mode_result(cfg, left, right, mode, Ok(report)),
        renames_found(
            left,
            reordered,
            schema_diff(left.schema@, reordered.schema@),
            reported_key(report),
            other,
        ),
        renamed_pairs(other.renamed) == renamed_pairs(report.schema.renamed),
    ensures
        mode_result(cfg, left, reordered, mode, Ok(with_schema(report, other))),
{
    let r = Ok::<ReportView, ErrorView>(report);
    let schema = schema_diff(left.schema@, right.schema@);
    lemma_reordered_schema(left.schema@, right.schema@, reordered.schema@);
    let found = choose|found: SchemaDiffView| #[trigger]
        renames_found(left, right, schema, mode.key(), found) && scan_result(
            cfg,
            left,
            right,
            mode,
            found,
            r,
        );
    lemma_reordered_scan(cfg, left, right, reordered, mode, found, found, r);
    lemma_reordered_scan(cfg, left, right, reordered, mode, found, other, r);
}

/// There are as many hashed rows as the batches have.
proof fn lemma_hashed_len(batches: Seq<Batch>, idx: Seq<usize>)
    ensures
        hashed_rows(batches, idx).len() == row_count(batches),
    decreases batches.len(),
{
    if batches.len() > 0 {
        lemma_hashed_len(batches.drop_last(), idx);
    }
}

proof fn lemma_mode_bounded(
    cfg: DiffConfig,
    left: BatchIter,
    right: BatchIter,
    mode: ModeView,
    report: ReportView,
)
    requires
        mode_result(cfg, left, right, mode, Ok(report)),
    ensures
        report.removed + report.modified <= row_count(left.batches@),
        report.added + report.modified <= row_count(right.batches@),
        shown_rows(report.samples) <= row_differences(report),
        forall|i: int|
            0 <= i < report.schema.renamed.len() ==> (#[trigger] report.schema.renamed[i]).similarity <= ONE,
{
    let schema = schema_diff(left.schema@, right.schema@);
    let r = Ok::<ReportView, ErrorView>(report);
    let found = choose|found: SchemaDiffView| #[trigger]
        renames_found(left, right, schema, mode.key(), found) && scan_result(
            cfg,
            left,
            right,
            mode,
            found,
            r,
        );
    let (l, m) = choose|l: BatchIter, m: BatchIter|
        {
            &&& #[trigger] projects(l, left, found.left_names())
            &&& #[trigger] projects(m, right, found.right_names())
            &&& match mode {
                ModeView::Keyed { key, inferred } => keyed_result(
                    l,
                    m,
                    key,
                    inferred,
                    found,
                    cfg,
                    Comparator { tol_abs: cfg.tol_abs, tol_rel: cfg.tol_rel },
                    r,
                ),
                ModeView::Keyless { auto } => keyless_result(l, m, auto, found, cfg, r),
            }
        };
    lemma_projected_counts(l.batches@, left.batches@, places(left.schema@, found.left_names()));
    lemma_projected_counts(m.batches@, right.batches@, places(right.schema@, found.right_names()));
    match mode {
        ModeView::Keyed { key, inferred } => {
            let comparator = Comparator { tol_abs: cfg.tol_abs, tol_rel: cfg.tol_rel };
            let setup = keyed_setup(key, l.schema@, m.schema@, found, comparator, cfg.fail_fast);
            let lrows = stream_rows(setup.left, l.batches@);
            let rrows = stream_rows(setup.right, m.batches@);
            let (x, y) = choose|x: Seq<RowView>, y: Seq<RowView>|
                {
                    &&& #[trigger] arranged(cfg.assume_sorted, x, lrows)
                    &&& #[trigger] arranged(cfg.assume_sorted, y, rrows)
                    &&& r == keyed_diff(setup, found, inferred, cfg, x, y)
                };
            if !cfg.assume_sorted {
                lemma_same_rows_len(x, lrows);
                lemma_same_rows_len(y, rrows);
            }
            lemma_stream_len(setup.left, l.batches@);
            lemma_stream_len(setup.right, m.batches@);
            law_counts_are_bounded(setup, found, inferred, cfg, x, y);
        },
        ModeView::Keyless { auto } => {
            let lidx = places(l.schema@, found.left_names());
            let ridx = places(m.schema@, found.right_names());
            let (x, y) = choose|x: Seq<RowView>, y: Seq<RowView>|
                {
                    &&& #[trigger] sorts(x, hashed_rows(l.batches@, lidx))
                    &&& #[trigger] sorts(y, hashed_rows(m.batches@, ridx))
                    &&& r == Ok::<ReportView, ErrorView>(
                        keyless_diff(l.schema@, m.schema@, found, auto, cfg, x, y),
                    )
                };
            lemma_same_rows_len(x, hashed_rows(l.batches@, lidx));
            lemma_same_rows_len(y, hashed_rows(m.batches@, ridx));
            lemma_hashed_len(l.batches@, lidx);
            lemma_hashed_len(m.batches@, ridx);
            law_keyless_counts_are_bounded(l.schema@, m.schema@, found, auto, cfg, x, y);
        },
    }
    assert(report.schema == found);
    assert forall|i: int| 0 <= i < found.renamed.len() implies (#[trigger] found.renamed[i]).similarity
        <= ONE by {
        let key = mode.key();
        let (a, b) = choose|a: Table, b: Table|
            {
                &&& #[trigger] is_sample(a, left, sampled_names(key, schema.removed), SAMPLE_ROWS as nat)
                &&& #[trigger] is_sample(b, right, sampled_names(key, schema.added), SAMPLE_ROWS as nat)
                &&& found == with_renames(schema, detected_renames(schema, a, b, key))
            };
        let renames = detected_renames(schema, a, b, key);
        law_renames_pair_close_columns(schema, a, b, key);
        assert(found.renamed =~= renames);
        law_similarity_is_a_share(a, b, key, renames[i].left, renames[i].right);
    }
}

/// A diff counts no more rows as removed or modified than the left table has,
/// nor as added or modified than the right one has. So the report of tables
/// whose rows can be counted together can be printed.
pub proof fn law_reports_are_printable(
    cfg: DiffConfig,
    left: BatchIter,
    right: BatchIter,
    report: ReportView,
)
    requires
        diff_result(cfg, left, right, Ok(report)),
    ensures
        report.removed + report.modified <= row_count(left.batches@),
        report.added + report.modified <= row_count(right.batches@),
        row_count(left.batches@) + row_count(right.batches@) <= u64::MAX ==> is_printable(report),
{
    let shared = schema_diff(left.schema@, right.schema@).mutual;
    match requested_mode(cfg, shared) {
        Some(Err(e)) => {},
        Some(Ok(mode)) => {
            lemma_mode_bounded(cfg, left, right, mode, report);
        },
        None => {
            let (l, m) = choose|l: Table, m: Table|
                {
                    &&& #[trigger] is_sample(l, left, shared, KEY_INFER_SAMPLE_ROWS as nat)
                    &&& #[trigger] is_sample(m, right, shared, KEY_INFER_SAMPLE_ROWS as nat)
                    &&& match inferred_mode(cfg, inferred_key(l, m, key_candidates(shared))) {
                        Err(e) => Ok::<ReportView, ErrorView>(report) == Err::<ReportView, ErrorView>(e),
                        Ok(mode) => mode_result(cfg, left, right, mode, Ok(report)),
                    }
                };
            match inferred_mode(cfg, inferred_key(l, m, key_candidates(shared))) {
                Err(e) => {},
                Ok(mode) => {
                    lemma_mode_bounded(cfg, left, right, mode, report);
                },
            }
        },
    }
}

} // verus!
