//! That the order of rows and columns does not show in a diff.

use crate::error::ErrorView;
use crate::infer::lemma_none_missing;
use crate::input::{is_projected, is_sample, picked_fields, projects, Batch, BatchIter, Table};
use crate::key::{key_part, key_parts, row_key, same_values, KeyPart};
use crate::keyed_laws::{has_match, has_no_match, is_changed, law_keyed_diff_needs_distinct_keys, law_keyed_report_counts, law_keyed_result_is_determined, law_row_order_does_not_matter, lemma_filter_same, row_keys};
use crate::keyless_laws::lemma_map_same;
use crate::plan::{diff_result, lemma_mutual_shared, lemma_none_outside, lemma_scanned_columns, mode_result, renames_found, requested_mode, sampled_names, scan_result, ModeView};
use crate::plan_laws::{lemma_reordered_schema, lemma_restated_keyed, lemma_same_names, renamed_pairs, same_fields, with_schema};
use crate::rename::{desc_names, detected_renames, left_sides, not_named, right_sides, with_renames, SAMPLE_ROWS};
use crate::report::{differs, ReportView};
use crate::row_diff::{changes, differs as columns_differ, keyed_missing, keyed_result, keyed_setup, not_in, side_names, value_names};
use crate::schema::{column, has_column, lemma_all_shared, lemma_column, places, FieldShape, TypeShape};
use crate::schema_diff::{law_schema_columns_are_classified, lemma_filter_all, lemma_filter_keeps, no_schema_change, schema_diff, DescView, RenameView, SchemaDiffView};
use crate::sort::{key_types, keyed_rows, same_rows, side_codec, stream_rows, twice, RowView};
use crate::text::{lemma_place, place, views};
use crate::value::{cells_match, Array, CellView, Comparator};
use crate::DiffConfig;
use vstd::prelude::*;

verus! {

/// What a column holds in a row: the cell, and what stands for it in a key of
/// each type.
pub struct Held {
    pub cell: CellView,
    pub part: spec_fn(TypeShape) -> KeyPart,
}

pub open spec fn held(col: Array, row: int) -> Held {
    Held { cell: col.cell(row), part: |t: TypeShape| key_part(col, t, row) }
}

/// What a row holds, by the names of the columns; of columns with the same name,
/// by the first.
pub open spec fn held_row(fields: Seq<FieldShape>, batch: Batch, row: int) -> Map<Seq<char>, Held> {
    Map::new(
        |name: Seq<char>| has_column(fields, name),
        |name: Seq<char>| held(batch.columns@[column(fields, name)], row),
    )
}

/// What the rows of batches hold.
pub open spec fn held_rows(fields: Seq<FieldShape>, batches: Seq<Batch>) -> Seq<Map<Seq<char>, Held>>
    decreases batches.len(),
{
    if batches.len() == 0 {
        seq![]
    } else {
        held_rows(fields, batches.drop_last()) + Seq::new(
            batches.last().rows as nat,
            |i: int| held_row(fields, batches.last(), i),
        )
    }
}

/// The rows of a table, by the names of its columns.
pub open spec fn table_rows(t: BatchIter) -> Seq<Map<Seq<char>, Held>> {
    held_rows(t.schema@, t.batches@)
}

/// Two tables have the same columns and the same rows, each as often, in
/// whatever order and in whatever batches.
pub open spec fn same_table(a: BatchIter, b: BatchIter) -> bool {
    &&& a.wf()
    &&& b.wf()
    &&& same_fields(a.schema@, b.schema@)
    &&& table_rows(a).to_multiset() == table_rows(b).to_multiset()
}

/// The key of a row, in the types that keys are compared in.
pub open spec fn key_of(key: Seq<Seq<char>>, types: Seq<TypeShape>, h: Map<Seq<char>, Held>) -> Seq<u8> {
    row_key(Seq::new(key.len(), |j: int| (h[key[j]].part)(types[j])))
}

/// A row as it is scanned: its key, and its cells in the wanted columns.
pub open spec fn scanned_row(wanted: Seq<Seq<char>>, key: Seq<Seq<char>>, types: Seq<TypeShape>) -> spec_fn(
    Map<Seq<char>, Held>,
) -> RowView {
    |h: Map<Seq<char>, Held>|
        RowView {
            key: key_of(key, types, h),
            cells: wanted.map_values(|name: Seq<char>| h[name].cell),
        }
}

/// Where a column of a projection comes from.
pub proof fn lemma_projected_column(fields: Seq<FieldShape>, wanted: Seq<Seq<char>>, name: Seq<char>)
    requires
        fields.len() <= usize::MAX,
        forall|i: int| 0 <= i < wanted.len() ==> has_column(fields, #[trigger] wanted[i]),
        has_column(picked_fields(fields, places(fields, wanted)), name),
    ensures
        ({
            let picked = picked_fields(fields, places(fields, wanted));
            let c = column(picked, name);
            &&& 0 <= c < wanted.len()
            &&& wanted[c] == name
            &&& has_column(fields, name)
            &&& places(fields, wanted)[c] == column(fields, name)
            &&& picked[c] == fields[column(fields, name)]
        }),
{
    let picked = picked_fields(fields, places(fields, wanted));
    let c = column(picked, name);
    lemma_column(picked, name);
    assert(has_column(fields, wanted[c]));
    lemma_column(fields, wanted[c]);
    assert(picked[c].name == wanted[c]);
}

/// The rows of a projection are those that the table holds in its columns.
proof fn lemma_projected_rows(
    fields: Seq<FieldShape>,
    batches: Seq<Batch>,
    from: Seq<Batch>,
    wanted: Seq<Seq<char>>,
    key: Seq<Seq<char>>,
    types: Seq<TypeShape>,
)
    requires
        fields.len() <= usize::MAX,
        wanted.len() <= usize::MAX,
        batches.len() == from.len(),
        forall|b: int|
            0 <= b < from.len() ==> (#[trigger] batches[b]).wf() && is_projected(
                batches[b],
                from[b],
                places(fields, wanted),
            ),
        forall|i: int| 0 <= i < wanted.len() ==> has_column(fields, #[trigger] wanted[i]),
        forall|i: int|
            0 <= i < key.len() ==> has_column(
                picked_fields(fields, places(fields, wanted)),
                #[trigger] key[i],
            ),
    ensures
        stream_rows(side_codec(key, picked_fields(fields, places(fields, wanted)), types), batches)
            == held_rows(fields, from).map_values(scanned_row(wanted, key, types)),
    decreases from.len(),
{
    let idx = places(fields, wanted);
    let picked = picked_fields(fields, idx);
    let codec = side_codec(key, picked, types);
    let f = scanned_row(wanted, key, types);
    if from.len() > 0 {
        let x = batches.drop_last();
        let y = from.drop_last();
        assert forall|b: int| 0 <= b < y.len() implies (#[trigger] x[b]).wf() && is_projected(x[b], y[b], idx) by {
            assert(batches[b].wf());
        }
        lemma_projected_rows(fields, x, y, wanted, key, types);
        let p = batches.last();
        let q = from.last();
        assert(batches[from.len() - 1].wf());
        assert(is_projected(p, q, idx));
        let rows = keyed_rows(codec, p);
        let held = Seq::new(q.rows as nat, |i: int| held_row(fields, q, i));
        assert forall|i: int| 0 <= i < rows.len() implies #[trigger] rows[i] == f(held[i]) by {
            let h = held_row(fields, q, i);
            assert forall|c: int| 0 <= c < wanted.len() implies #[trigger] p.columns@[c].cell(i)
                == h[wanted[c]].cell by {
                assert(same_values(p.columns@[c], q.columns@[idx[c] as int]));
                assert(has_column(fields, wanted[c]));
                lemma_column(fields, wanted[c]);
            }
            assert(p.row(i) =~= wanted.map_values(|name: Seq<char>| h[name].cell));
            let parts = key_parts(p.columns@, codec.idx, codec.types, i);
            let values = Seq::new(key.len(), |j: int| (h[key[j]].part)(types[j]));
            assert forall|j: int| 0 <= j < key.len() implies parts[j] == values[j] by {
                assert(has_column(picked, key[j]));
                lemma_projected_column(fields, wanted, key[j]);
                let c = column(picked, key[j]);
                assert(codec.idx[j] == c);
                assert(same_values(p.columns@[c], q.columns@[idx[c] as int]));
                assert(key_part(p.columns@[c], types[j], i) == key_part(
                    q.columns@[idx[c] as int],
                    types[j],
                    i,
                ));
                assert(h[key[j]] == self::held(q.columns@[column(fields, key[j])], i));
            }
            assert(parts =~= values);
        }
        assert(rows =~= held.map_values(f));
        assert(held_rows(fields, from).map_values(f) =~= held_rows(fields, y).map_values(f)
            + held.map_values(f));
    } else {
        assert(stream_rows(codec, batches) =~= held_rows(fields, from).map_values(f));
    }
}

/// What is scanned of a table is what it holds.
pub proof fn lemma_scanned_rows(
    l: BatchIter,
    t: BatchIter,
    wanted: Seq<Seq<char>>,
    key: Seq<Seq<char>>,
    types: Seq<TypeShape>,
)
    requires
        projects(l, t, wanted),
        forall|i: int| 0 <= i < wanted.len() ==> has_column(t.schema@, #[trigger] wanted[i]),
        forall|i: int| 0 <= i < key.len() ==> has_column(l.schema@, #[trigger] key[i]),
    ensures
        stream_rows(side_codec(key, l.schema@, types), l.batches@) == table_rows(t).map_values(
            scanned_row(wanted, key, types),
        ),
{
    let idx = places(t.schema@, wanted);
    assert(t.schema.fields.len() <= usize::MAX);
    assert(l.schema.fields.len() <= usize::MAX);
    assert(l.schema@.len() == wanted.len());
    assert forall|b: int| 0 <= b < t.batches@.len() implies (#[trigger] l.batches@[b]).wf() && is_projected(
        l.batches@[b],
        t.batches@[b],
        idx,
    ) by {
        assert(is_projected(l.batches@[b], t.batches@[b], idx));
    }
    lemma_projected_rows(t.schema@, l.batches@, t.batches@, wanted, key, types);
}

/// Projections of tables with the same columns have the same columns.
proof fn lemma_same_projected_fields(a: BatchIter, b: BatchIter, wanted: Seq<Seq<char>>)
    requires
        same_fields(a.schema@, b.schema@),
        forall|i: int| 0 <= i < wanted.len() ==> has_column(a.schema@, #[trigger] wanted[i]),
    ensures
        picked_fields(a.schema@, places(a.schema@, wanted)) == picked_fields(
            b.schema@,
            places(b.schema@, wanted),
        ),
        forall|i: int| 0 <= i < wanted.len() ==> has_column(b.schema@, #[trigger] wanted[i]),
{
    let (x, y) = (a.schema@, b.schema@);
    assert(a.schema.fields.len() <= usize::MAX);
    assert(b.schema.fields.len() <= usize::MAX);
    assert forall|i: int| 0 <= i < wanted.len() implies has_column(y, #[trigger] wanted[i]) && picked_fields(
        x,
        places(x, wanted),
    )[i] == picked_fields(y, places(y, wanted))[i] by {
        assert(has_column(x, wanted[i]));
        lemma_column(x, wanted[i]);
        lemma_column(y, wanted[i]);
    }
    assert(picked_fields(x, places(x, wanted)) =~= picked_fields(y, places(y, wanted)));
}

/// Projections of the same table to the same names hold the same rows.
proof fn lemma_same_projected_rows(
    l: BatchIter,
    m: BatchIter,
    a: BatchIter,
    b: BatchIter,
    wanted: Seq<Seq<char>>,
    key: Seq<Seq<char>>,
    types: Seq<TypeShape>,
)
    requires
        same_table(a, b),
        projects(l, a, wanted),
        projects(m, b, wanted),
        forall|i: int| 0 <= i < wanted.len() ==> has_column(a.schema@, #[trigger] wanted[i]),
        forall|i: int| 0 <= i < key.len() ==> has_column(l.schema@, #[trigger] key[i]),
    ensures
        l.schema@ == m.schema@,
        same_rows(
            stream_rows(side_codec(key, l.schema@, types), l.batches@),
            stream_rows(side_codec(key, l.schema@, types), m.batches@),
        ),
{
    lemma_same_projected_fields(a, b, wanted);
    lemma_scanned_rows(l, a, wanted, key, types);
    lemma_scanned_rows(m, b, wanted, key, types);
    lemma_map_same(table_rows(a), table_rows(b), scanned_row(wanted, key, types));
}

/// What is scanned of two tables in a keyed diff.
pub proof fn lemma_scanned(
    cfg: DiffConfig,
    left: BatchIter,
    right: BatchIter,
    key: Seq<Seq<char>>,
    report: ReportView,
) -> (r: (BatchIter, BatchIter))
    requires
        mode_result(cfg, left, right, ModeView::Keyed { key, inferred: false }, Ok(report)),
    ensures
        renames_found(
            left,
            right,
            schema_diff(left.schema@, right.schema@),
            Some(key),
            report.schema,
        ),
        projects(r.0, left, report.schema.left_names()),
        projects(r.1, right, report.schema.right_names()),
        keyed_result(
            r.0,
            r.1,
            key,
            false,
            report.schema,
            cfg,
            Comparator { tol_abs: cfg.tol_abs, tol_rel: cfg.tol_rel },
            Ok(report),
        ),
{
    let mode = ModeView::Keyed { key, inferred: false };
    let comparator = Comparator { tol_abs: cfg.tol_abs, tol_rel: cfg.tol_rel };
    let schema = schema_diff(left.schema@, right.schema@);
    let found = choose|found: SchemaDiffView| #[trigger]
        renames_found(left, right, schema, mode.key(), found) && scan_result(
            cfg,
            left,
            right,
            mode,
            found,
            Ok(report),
        );
    let (l, m) = choose|l: BatchIter, m: BatchIter|
        {
            &&& #[trigger] projects(l, left, found.left_names())
            &&& #[trigger] projects(m, right, found.right_names())
            &&& keyed_result(l, m, key, false, found, cfg, comparator, Ok(report))
        };
    lemma_restated_keyed(l, m, key, false, found, found, cfg, comparator, Ok(report));
    (l, m)
}

/// The scanned columns are columns of the tables.
pub proof fn lemma_scanned_there(left: BatchIter, right: BatchIter, key: Seq<Seq<char>>, found: SchemaDiffView)
    requires
        renames_found(left, right, schema_diff(left.schema@, right.schema@), Some(key), found),
    ensures
        forall|i: int|
            0 <= i < found.left_names().len() ==> has_column(left.schema@, #[trigger] found.left_names()[i]),
        forall|i: int|
            0 <= i < found.right_names().len() ==> has_column(
                right.schema@,
                #[trigger] found.right_names()[i],
            ),
{
    lemma_scanned_columns(left, right, Some(key), found);
    lemma_none_missing(left.schema@, found.left_names());
    lemma_none_missing(right.schema@, found.right_names());
}

/// A schema difference in which renames were found is the one without them, but
/// for the columns that are renamed.
pub proof fn lemma_found(
    left: BatchIter,
    right: BatchIter,
    key: Option<Seq<Seq<char>>>,
    found: SchemaDiffView,
)
    requires
        renames_found(left, right, schema_diff(left.schema@, right.schema@), key, found),
    ensures
        found == with_renames(schema_diff(left.schema@, right.schema@), found.renamed),
        ({
            let schema = schema_diff(left.schema@, right.schema@);
            schema.added.len() == 0 || schema.removed.len() == 0
        }) ==> found.renamed.len() == 0,
{
    let schema = schema_diff(left.schema@, right.schema@);
    let none: Seq<RenameView> = seq![];
    if schema.added.len() == 0 || schema.removed.len() == 0 {
        lemma_filter_all(schema.added, not_named(right_sides(none)));
        lemma_filter_all(schema.removed, not_named(left_sides(none)));
        assert(schema.renamed + none =~= none);
        assert(found == with_renames(schema, none));
    } else {
        let (l, m) = choose|l: Table, m: Table|
            {
                &&& #[trigger] is_sample(l, left, sampled_names(key, schema.removed), SAMPLE_ROWS as nat)
                &&& #[trigger] is_sample(m, right, sampled_names(key, schema.added), SAMPLE_ROWS as nat)
                &&& found == with_renames(schema, detected_renames(schema, l, m, key))
            };
        assert(found.renamed =~= detected_renames(schema, l, m, key));
    }
}

/// Scans of the same rows come to the same report.
proof fn lemma_same_scans(
    cfg: DiffConfig,
    l: BatchIter,
    m: BatchIter,
    x: BatchIter,
    y: BatchIter,
    key: Seq<Seq<char>>,
    schema: SchemaDiffView,
    comparator: Comparator,
    a: ReportView,
    b: ReportView,
)
    requires
        !cfg.assume_sorted,
        cfg.fail_fast is None,
        l.schema@ == x.schema@,
        m.schema@ == y.schema@,
        ({
            let setup = keyed_setup(key, l.schema@, m.schema@, schema, comparator, cfg.fail_fast);
            &&& same_rows(stream_rows(setup.left, l.batches@), stream_rows(setup.left, x.batches@))
            &&& same_rows(stream_rows(setup.right, m.batches@), stream_rows(setup.right, y.batches@))
        }),
        keyed_result(l, m, key, false, schema, cfg, comparator, Ok(a)),
        keyed_result(x, y, key, false, schema, cfg, comparator, Ok(b)),
    ensures
        a == b,
{
    law_row_order_does_not_matter(x, y, l, m, key, false, schema, cfg, comparator, Ok(b));
    law_keyed_diff_needs_distinct_keys(l, m, key, false, schema, cfg, comparator, Ok(a));
    law_keyed_result_is_determined(l, m, key, false, schema, cfg, comparator, Ok(a), Ok(b));
}

/// The key columns are among those that are scanned.
pub proof fn lemma_key_there(l: BatchIter, m: BatchIter, key: Seq<Seq<char>>, schema: SchemaDiffView)
    requires
        keyed_missing(key, l.schema@, m.schema@, schema) is None,
    ensures
        forall|i: int|
            0 <= i < key.len() ==> has_column(l.schema@, #[trigger] key[i]) && has_column(m.schema@, key[i]),
{
    assert forall|i: int| 0 <= i < key.len() implies has_column(l.schema@, #[trigger] key[i]) && has_column(
        m.schema@,
        key[i],
    ) by {
        lemma_all_shared(l.schema@, m.schema@, twice(key), i);
        assert(twice(key)[i] == (key[i], key[i]));
    }
}

/// Which names stay added beside renames.
proof fn lemma_names_left(cols: Seq<DescView>, renamed: Seq<Seq<char>>, name: Seq<char>)
    ensures
        desc_names(cols.filter(not_named(renamed))).contains(name) <==> desc_names(cols).contains(name)
            && !renamed.contains(name),
{
    let p = not_named(renamed);
    let kept = cols.filter(p);
    lemma_filter_keeps(cols, p);
    if desc_names(kept).contains(name) {
        let i = choose|i: int| 0 <= i < kept.len() && desc_names(kept)[i] == name;
        assert(p(kept[i]) && cols.contains(kept[i]));
        let j = choose|j: int| 0 <= j < cols.len() && cols[j] == kept[i];
        assert(desc_names(cols)[j] == name);
    }
    if desc_names(cols).contains(name) && !renamed.contains(name) {
        let j = choose|j: int| 0 <= j < cols.len() && desc_names(cols)[j] == name;
        assert(p(cols[j]));
        assert(kept.contains(cols[j]));
        let i = choose|i: int| 0 <= i < kept.len() && kept[i] == cols[j];
        assert(desc_names(kept)[i] == name);
    }
}

/// With the same renames, a table whose columns are in another order has the
/// same columns added, removed, changed and shared.
proof fn lemma_same_found(
    left: BatchIter,
    right: BatchIter,
    other_left: BatchIter,
    other_right: BatchIter,
    key: Seq<Seq<char>>,
    a: SchemaDiffView,
    b: SchemaDiffView,
)
    requires
        left.schema@ == other_left.schema@,
        same_fields(right.schema@, other_right.schema@),
        renames_found(left, right, schema_diff(left.schema@, right.schema@), Some(key), a),
        renames_found(
            other_left,
            other_right,
            schema_diff(other_left.schema@, other_right.schema@),
            Some(key),
            b,
        ),
        renamed_pairs(a.renamed) == renamed_pairs(b.renamed),
    ensures
        b == (SchemaDiffView { added: b.added, renamed: b.renamed, ..a }),
        forall|name: Seq<char>| #[trigger]
            desc_names(a.added).contains(name) <==> desc_names(b.added).contains(name),
        no_schema_change(a) == no_schema_change(b),
{
    let schema = schema_diff(left.schema@, right.schema@);
    let other = schema_diff(left.schema@, other_right.schema@);
    lemma_reordered_schema(left.schema@, right.schema@, other_right.schema@);
    lemma_found(left, right, Some(key), a);
    lemma_found(other_left, other_right, Some(key), b);
    lemma_same_names(a, b);
    let gone = right_sides(a.renamed);
    assert forall|name: Seq<char>| #[trigger] desc_names(a.added).contains(name) <==> desc_names(
        b.added,
    ).contains(name) by {
        lemma_names_left(schema.added, gone, name);
        lemma_names_left(other.added, gone, name);
        law_schema_columns_are_classified(left.schema@, right.schema@, name);
        law_schema_columns_are_classified(left.schema@, other_right.schema@, name);
        assert(has_column(right.schema@, name) == has_column(other_right.schema@, name));
        assert(desc_names(schema.added) =~= schema.added.map_values(|c: DescView| c.name));
        assert(desc_names(other.added) =~= other.added.map_values(|c: DescView| c.name));
    }
    if a.added.len() > 0 {
        assert(desc_names(a.added).contains(desc_names(a.added)[0]));
        assert(desc_names(b.added).contains(desc_names(a.added)[0]));
    }
    if b.added.len() > 0 {
        assert(desc_names(b.added).contains(desc_names(b.added)[0]));
        assert(desc_names(a.added).contains(desc_names(b.added)[0]));
    }
    assert(a.renamed.len() == renamed_pairs(a.renamed).len());
    assert(b.renamed.len() == renamed_pairs(b.renamed).len());
}

proof fn lemma_keyed_order(
    cfg: DiffConfig,
    left: BatchIter,
    right: BatchIter,
    other_left: BatchIter,
    other_right: BatchIter,
    key: Seq<Seq<char>>,
    a: ReportView,
    b: ReportView,
)
    requires
        !cfg.assume_sorted,
        cfg.fail_fast is None,
        same_table(left, other_left),
        left.schema@ == other_left.schema@,
        same_table(right, other_right),
        ({
            let schema = schema_diff(left.schema@, right.schema@);
            schema.added.len() == 0 || schema.removed.len() == 0
        }) || renamed_pairs(a.schema.renamed) == renamed_pairs(b.schema.renamed),
        mode_result(cfg, left, right, ModeView::Keyed { key, inferred: false }, Ok(a)),
        mode_result(cfg, other_left, other_right, ModeView::Keyed { key, inferred: false }, Ok(b)),
    ensures
        b == with_schema(a, b.schema),
        b.schema == (SchemaDiffView { added: b.schema.added, renamed: b.schema.renamed, ..a.schema }),
        forall|name: Seq<char>| #[trigger]
            desc_names(a.schema.added).contains(name) <==> desc_names(b.schema.added).contains(name),
        no_schema_change(a.schema) == no_schema_change(b.schema),
        schema_diff(left.schema@, right.schema@).added.len() == 0 ==> a.schema == b.schema,
{
    let schema = schema_diff(left.schema@, right.schema@);
    let comparator = Comparator { tol_abs: cfg.tol_abs, tol_rel: cfg.tol_rel };
    lemma_reordered_schema(left.schema@, right.schema@, other_right.schema@);
    let (l, m) = lemma_scanned(cfg, left, right, key, a);
    let (x, y) = lemma_scanned(cfg, other_left, other_right, key, b);
    lemma_found(left, right, Some(key), a.schema);
    lemma_found(other_left, other_right, Some(key), b.schema);
    if schema.added.len() == 0 || schema.removed.len() == 0 {
        assert(a.schema.renamed =~= b.schema.renamed);
    }
    lemma_same_found(left, right, other_left, other_right, key, a.schema, b.schema);
    lemma_same_names(a.schema, b.schema);
    lemma_scanned_there(left, right, key, a.schema);
    lemma_restated_keyed(x, y, key, false, b.schema, a.schema, cfg, comparator, Ok(b));
    let c = with_schema(b, a.schema);
    assert(keyed_missing(key, l.schema@, m.schema@, a.schema) is None);
    lemma_key_there(l, m, key, a.schema);
    let types = key_types(key, l.schema@, m.schema@);
    lemma_same_projected_rows(l, x, left, other_left, a.schema.left_names(), key, types);
    lemma_same_projected_rows(m, y, right, other_right, a.schema.right_names(), key, types);
    lemma_same_scans(cfg, l, m, x, y, key, a.schema, comparator, a, c);
}

/// Neither the order of the rows, nor that of the right table's columns shows in
/// the report of a diff by a given key that sorts its sides and has no limit,
/// where both orders show the same renames. Renames are looked for in the first
/// rows, and only where each table has columns that the other has not. The
/// schema difference has the same columns added, listed in the order in which
/// the right table has them, and the renames with the similarity that the first
/// rows show.
pub proof fn law_order_does_not_matter(
    cfg: DiffConfig,
    left: BatchIter,
    right: BatchIter,
    other_left: BatchIter,
    other_right: BatchIter,
    a: ReportView,
    b: ReportView,
)
    requires
        cfg.key is Some,
        !cfg.assume_sorted,
        cfg.fail_fast is None,
        same_table(left, other_left),
        left.schema@ == other_left.schema@,
        same_table(right, other_right),
        ({
            let schema = schema_diff(left.schema@, right.schema@);
            schema.added.len() == 0 || schema.removed.len() == 0
        }) || renamed_pairs(a.schema.renamed) == renamed_pairs(b.schema.renamed),
        diff_result(cfg, left, right, Ok(a)),
        diff_result(cfg, other_left, other_right, Ok(b)),
    ensures
        b == with_schema(a, b.schema),
        b.schema == (SchemaDiffView { added: b.schema.added, renamed: b.schema.renamed, ..a.schema }),
        forall|name: Seq<char>| #[trigger]
            desc_names(a.schema.added).contains(name) <==> desc_names(b.schema.added).contains(name),
        differs(a) == differs(b),
        schema_diff(left.schema@, right.schema@).added.len() == 0 ==> a == b,
{
    let schema = schema_diff(left.schema@, right.schema@);
    lemma_reordered_schema(left.schema@, right.schema@, other_right.schema@);
    match requested_mode(cfg, schema.mutual) {
        Some(Ok(ModeView::Keyed { key, inferred })) => {
            lemma_keyed_order(cfg, left, right, other_left, other_right, key, a, b);
        },
        _ => {},
    }
}

/// True for a row whose key no row of the other table has.
pub open spec fn unmatched(
    key: Seq<Seq<char>>,
    types: Seq<TypeShape>,
    other: Seq<Map<Seq<char>, Held>>,
) -> spec_fn(Map<Seq<char>, Held>) -> bool {
    |h: Map<Seq<char>, Held>|
        forall|j: int|
            0 <= j < other.len() ==> key_of(key, types, #[trigger] other[j]) != key_of(key, types, h)
}

/// The columns that are compared, under their names on the two sides: those that
/// both tables have and that are no key columns, and the renamed ones.
pub open spec fn compared(
    left: Seq<FieldShape>,
    right: Seq<FieldShape>,
    key: Seq<Seq<char>>,
    renamed: Seq<RenameView>,
) -> Set<(Seq<char>, Seq<char>)> {
    Set::new(
        |p: (Seq<char>, Seq<char>)|
            (p.0 == p.1 && has_column(left, p.0) && has_column(right, p.0) && !key.contains(p.0))
                || renamed_pairs(renamed).contains(p),
    )
}

/// True for two rows that differ in one of the columns.
pub open spec fn rows_differ(
    columns: Set<(Seq<char>, Seq<char>)>,
    comparator: Comparator,
    h: Map<Seq<char>, Held>,
    g: Map<Seq<char>, Held>,
) -> bool {
    exists|p: (Seq<char>, Seq<char>)| #[trigger]
        columns.contains(p) && !cells_match(comparator, h[p.0].cell, g[p.1].cell)
}

/// True for a row that differs from one of the other table with the same key.
pub open spec fn altered(
    columns: Set<(Seq<char>, Seq<char>)>,
    comparator: Comparator,
    key: Seq<Seq<char>>,
    types: Seq<TypeShape>,
    other: Seq<Map<Seq<char>, Held>>,
) -> spec_fn(Map<Seq<char>, Held>) -> bool {
    |h: Map<Seq<char>, Held>|
        exists|j: int|
            0 <= j < other.len() && key_of(key, types, #[trigger] other[j]) == key_of(key, types, h)
                && rows_differ(columns, comparator, h, other[j])
}

/// A filter keeps something where there is something to keep.
pub proof fn lemma_filter_some<A>(s: Seq<A>, p: spec_fn(A) -> bool)
    ensures
        s.filter(p).len() > 0 <==> exists|i: int| 0 <= i < s.len() && p(#[trigger] s[i]),
    decreases s.len(),
{
    reveal(Seq::filter);
    if s.len() > 0 {
        let less = s.drop_last();
        lemma_filter_some(less, p);
        if less.filter(p).len() > 0 {
            let i = choose|i: int| 0 <= i < less.len() && p(#[trigger] less[i]);
            assert(p(s[i]));
        } else if p(s.last()) {
            assert(p(s[s.len() - 1]));
        } else {
            assert forall|i: int| 0 <= i < s.len() implies !p(#[trigger] s[i]) by {
                if i < less.len() {
                    assert(!p(less[i]));
                }
            }
        }
    }
}

/// A filter of mapped elements keeps those that one of the elements themselves
/// keeps.
pub proof fn lemma_filter_mapped<A, B>(s: Seq<A>, f: spec_fn(A) -> B, p: spec_fn(B) -> bool, q: spec_fn(A) -> bool)
    requires
        forall|i: int| 0 <= i < s.len() ==> p(f(#[trigger] s[i])) == q(s[i]),
    ensures
        s.map_values(f).filter(p) == s.filter(q).map_values(f),
        s.map_values(f).filter(p).len() == s.filter(q).len(),
    decreases s.len(),
{
    reveal(Seq::filter);
    if s.len() > 0 {
        let less = s.drop_last();
        assert forall|i: int| 0 <= i < less.len() implies p(f(#[trigger] less[i])) == q(less[i]) by {
            assert(less[i] == s[i]);
        }
        lemma_filter_mapped(less, f, p, q);
        assert(s.map_values(f).drop_last() =~= less.map_values(f));
        assert(p(f(s[s.len() - 1])) == q(s[s.len() - 1]));
        assert(less.filter(q).push(s.last()).map_values(f) =~= less.filter(q).map_values(f).push(f(s.last())));
    } else {
        assert(s.map_values(f).filter(p) =~= s.filter(q).map_values(f));
    }
}

/// A row has no match among scanned rows exactly where no row has its key.
pub proof fn lemma_unmatched(
    other: Seq<Map<Seq<char>, Held>>,
    wanted: Seq<Seq<char>>,
    mine: Seq<Seq<char>>,
    key: Seq<Seq<char>>,
    types: Seq<TypeShape>,
    h: Map<Seq<char>, Held>,
)
    ensures
        has_no_match(other.map_values(scanned_row(wanted, key, types)))(scanned_row(mine, key, types)(h))
            == unmatched(key, types, other)(h),
{
    let rows = other.map_values(scanned_row(wanted, key, types));
    let k = key_of(key, types, h);
    if row_keys(rows).contains(k) {
        let j = choose|j: int| 0 <= j < rows.len() && row_keys(rows)[j] == k;
        assert(key_of(key, types, other[j]) == k);
    }
    if !unmatched(key, types, other)(h) {
        let j = choose|j: int| 0 <= j < other.len() && key_of(key, types, #[trigger] other[j]) == k;
        assert(row_keys(rows)[j] == k);
    }
}

/// A scanned row is changed exactly where the row that it was scanned of is
/// altered.
pub proof fn lemma_altered(
    l: BatchIter,
    m: BatchIter,
    left: BatchIter,
    right: BatchIter,
    key: Seq<Seq<char>>,
    types: Seq<TypeShape>,
    found: SchemaDiffView,
    comparator: Comparator,
    h: Map<Seq<char>, Held>,
)
    requires
        renames_found(left, right, schema_diff(left.schema@, right.schema@), Some(key), found),
        projects(l, left, found.left_names()),
        projects(m, right, found.right_names()),
        keyed_missing(key, l.schema@, m.schema@, found) is None,
        row_keys(table_rows(right).map_values(scanned_row(found.right_names(), key, types))).no_duplicates(),
    ensures
        ({
            let setup = keyed_setup(key, l.schema@, m.schema@, found, comparator, None);
            let others = table_rows(right).map_values(scanned_row(found.right_names(), key, types));
            let columns = compared(left.schema@, right.schema@, key, found.renamed);
            is_changed(setup.rules, others)(scanned_row(found.left_names(), key, types)(h)) == altered(
                columns,
                comparator,
                key,
                types,
                table_rows(right),
            )(h)
        }),
{
    let (ln, rn) = (found.left_names(), found.right_names());
    let b = table_rows(right);
    let f = scanned_row(ln, key, types);
    let g = scanned_row(rn, key, types);
    let y = b.map_values(g);
    lemma_unmatched(b, rn, ln, key, types, h);
    lemma_place(row_keys(y), f(h).key);
    if has_match(y)(f(h)) {
        let j = place(row_keys(y), f(h).key);
        assert(row_keys(y)[j] == f(h).key);
        assert(y[j] == g(b[j]));
        lemma_rows_differ(l, m, left, right, key, types, found, comparator, h, b[j]);
        assert forall|n: int| 0 <= n < b.len() && key_of(key, types, #[trigger] b[n]) == key_of(key, types, h) implies n
            == j by {
            assert(row_keys(y)[n] == row_keys(y)[j]);
        }
    }
}

/// Two scanned rows have changes exactly where they differ in a compared
/// column.
proof fn lemma_rows_differ(
    l: BatchIter,
    m: BatchIter,
    left: BatchIter,
    right: BatchIter,
    key: Seq<Seq<char>>,
    types: Seq<TypeShape>,
    found: SchemaDiffView,
    comparator: Comparator,
    h: Map<Seq<char>, Held>,
    g: Map<Seq<char>, Held>,
)
    requires
        renames_found(left, right, schema_diff(left.schema@, right.schema@), Some(key), found),
        projects(l, left, found.left_names()),
        projects(m, right, found.right_names()),
        keyed_missing(key, l.schema@, m.schema@, found) is None,
    ensures
        ({
            let setup = keyed_setup(key, l.schema@, m.schema@, found, comparator, None);
            changes(
                setup.rules,
                scanned_row(found.left_names(), key, types)(h),
                scanned_row(found.right_names(), key, types)(g),
            ).len() > 0 <==> rows_differ(
                compared(left.schema@, right.schema@, key, found.renamed),
                comparator,
                h,
                g,
            )
        }),
{
    let wanted = found.mutual;
    let setup = keyed_setup(key, l.schema@, m.schema@, found, comparator, None);
    let x = scanned_row(found.left_names(), key, types)(h);
    let y = scanned_row(found.right_names(), key, types)(g);
    let cols = setup.rules.cols;
    let p = columns_differ(comparator, x, y);
    let columns = compared(left.schema@, right.schema@, key, found.renamed);
    let kept = wanted.filter(not_in(key));
    let pairs = renamed_pairs(found.renamed);
    let sides = side_names(value_names(found, key));
    let n = kept.len() as int;
    lemma_found(left, right, Some(key), found);
    lemma_mutual_shared(left.schema@, right.schema@);
    lemma_scanned_there(left, right, key, found);
    lemma_filter_keeps(wanted, not_in(key));
    lemma_filter_some(cols, p);
    assert(left.schema.fields.len() <= usize::MAX);
    assert(right.schema.fields.len() <= usize::MAX);
    assert forall|i: int| 0 <= i < sides.len() implies sides[i] == (if i < n {
        (kept[i], kept[i])
    } else {
        pairs[i - n]
    }) by {}
    assert forall|i: int| 0 <= i < cols.len() implies {
        &&& columns.contains(#[trigger] sides[i])
        &&& p(cols[i]) == !cells_match(comparator, h[sides[i].0].cell, g[sides[i].1].cell)
    } by {
        let (ln, rn) = sides[i];
        lemma_all_shared(l.schema@, m.schema@, sides, i);
        lemma_projected_column(left.schema@, found.left_names(), ln);
        lemma_projected_column(right.schema@, found.right_names(), rn);
        if i < n {
            assert(not_in(key)(kept[i]));
            let j = choose|j: int| 0 <= j < wanted.len() && wanted[j] == kept[i];
            assert(has_column(right.schema@, kept[i]));
        } else {
            assert(pairs.contains(pairs[i - n]));
        }
        assert(cols[i].left == column(l.schema@, ln));
        assert(cols[i].right == column(m.schema@, rn));
        assert(x.cells[cols[i].left] == h[ln].cell);
        assert(y.cells[cols[i].right] == g[rn].cell);
    }
    if exists|i: int| 0 <= i < cols.len() && p(#[trigger] cols[i]) {
        let i = choose|i: int| 0 <= i < cols.len() && p(#[trigger] cols[i]);
        assert(columns.contains(sides[i]));
    }
    if rows_differ(columns, comparator, h, g) {
        let q = choose|q: (Seq<char>, Seq<char>)| #[trigger]
            columns.contains(q) && !cells_match(comparator, h[q.0].cell, g[q.1].cell);
        let i = if pairs.contains(q) {
            n + choose|i: int| 0 <= i < pairs.len() && pairs[i] == q
        } else {
            law_schema_columns_are_classified(left.schema@, right.schema@, q.0);
            assert(wanted.contains(q.0));
            assert(not_in(key)(q.0));
            lemma_filter_contains(wanted, not_in(key), q.0);
            choose|i: int| 0 <= i < kept.len() && kept[i] == q.0
        };
        assert(sides[i] == q);
        assert(columns.contains(sides[i]));
        assert(p(cols[i]));
    }
}

/// A filter keeps what it accepts.
pub proof fn lemma_filter_contains<A>(s: Seq<A>, p: spec_fn(A) -> bool, x: A)
    requires
        s.contains(x),
        p(x),
    ensures
        s.filter(p).contains(x),
    decreases s.len(),
{
    reveal(Seq::filter);
    let less = s.drop_last();
    if s.last() == x {
        assert(s.filter(p).last() == x);
    } else {
        let i = choose|i: int| 0 <= i < s.len() && s[i] == x;
        assert(less[i] == x);
        lemma_filter_contains(less, p, x);
        let j = choose|j: int| 0 <= j < less.filter(p).len() && less.filter(p)[j] == x;
        assert(s.filter(p)[j] == x);
    }
}

/// The types that keys are compared in are those of the tables' columns.
pub proof fn lemma_key_types(
    l: BatchIter,
    m: BatchIter,
    left: BatchIter,
    right: BatchIter,
    found: SchemaDiffView,
    key: Seq<Seq<char>>,
)
    requires
        renames_found(left, right, schema_diff(left.schema@, right.schema@), Some(key), found),
        projects(l, left, found.left_names()),
        projects(m, right, found.right_names()),
        forall|i: int|
            0 <= i < key.len() ==> has_column(l.schema@, #[trigger] key[i]) && has_column(m.schema@, key[i]),
    ensures
        key_types(key, l.schema@, m.schema@) == key_types(key, left.schema@, right.schema@),
{
    let x = key_types(key, l.schema@, m.schema@);
    let y = key_types(key, left.schema@, right.schema@);
    lemma_scanned_there(left, right, key, found);
    assert(left.schema.fields.len() <= usize::MAX);
    assert(right.schema.fields.len() <= usize::MAX);
    assert forall|i: int| 0 <= i < key.len() implies x[i] == y[i] by {
        assert(has_column(l.schema@, key[i]));
        lemma_projected_column(left.schema@, found.left_names(), key[i]);
        lemma_projected_column(right.schema@, found.right_names(), key[i]);
    }
    assert(x =~= y);
}

/// What a diff by a given key without a limit counts, in terms of the rows by
/// the names of their columns alone: as removed the left rows whose key no
/// right row has, as added the right rows whose key no left row has, and as
/// modified the left rows that differ in a shared or a renamed column from a
/// right row with their key.
pub proof fn law_rows_are_counted_by_name(
    cfg: DiffConfig,
    left: BatchIter,
    right: BatchIter,
    key: Vec<String>,
    report: ReportView,
)
    requires
        cfg.key == Some(key),
        cfg.fail_fast is None,
        diff_result(cfg, left, right, Ok(report)),
    ensures
        ({
            let k = views(key@);
            let (l, r) = (table_rows(left), table_rows(right));
            let types = key_types(k, left.schema@, right.schema@);
            let columns = compared(left.schema@, right.schema@, k, report.schema.renamed);
            let comparator = Comparator { tol_abs: cfg.tol_abs, tol_rel: cfg.tol_rel };
            &&& report.left_rows == l.len()
            &&& report.right_rows == r.len()
            &&& report.removed == l.filter(unmatched(k, types, r)).len()
            &&& report.added == r.filter(unmatched(k, types, l)).len()
            &&& report.modified == l.filter(altered(columns, comparator, k, types, r)).len()
        }),
{
    let k = views(key@);
    let schema = schema_diff(left.schema@, right.schema@);
    let comparator = Comparator { tol_abs: cfg.tol_abs, tol_rel: cfg.tol_rel };
    assert(requested_mode(cfg, schema.mutual) == Some(
        Ok::<ModeView, ErrorView>(ModeView::Keyed { key: k, inferred: false }),
    ));
    let (l, m) = lemma_scanned(cfg, left, right, k, report);
    lemma_counted_by_name(cfg, left, right, l, m, k, comparator, report);
}

proof fn lemma_counted_by_name(
    cfg: DiffConfig,
    left: BatchIter,
    right: BatchIter,
    l: BatchIter,
    m: BatchIter,
    key: Seq<Seq<char>>,
    comparator: Comparator,
    report: ReportView,
)
    requires
        cfg.fail_fast is None,
        renames_found(
            left,
            right,
            schema_diff(left.schema@, right.schema@),
            Some(key),
            report.schema,
        ),
        projects(l, left, report.schema.left_names()),
        projects(m, right, report.schema.right_names()),
        keyed_result(l, m, key, false, report.schema, cfg, comparator, Ok(report)),
    ensures
        ({
            let (a, b) = (table_rows(left), table_rows(right));
            let types = key_types(key, left.schema@, right.schema@);
            let columns = compared(left.schema@, right.schema@, key, report.schema.renamed);
            &&& report.left_rows == a.len()
            &&& report.right_rows == b.len()
            &&& report.removed == a.filter(unmatched(key, types, b)).len()
            &&& report.added == b.filter(unmatched(key, types, a)).len()
            &&& report.modified == a.filter(altered(columns, comparator, key, types, b)).len()
        }),
{
    let found = report.schema;
    let (ln, rn) = (found.left_names(), found.right_names());
    let (a, b) = (table_rows(left), table_rows(right));
    let columns = compared(left.schema@, right.schema@, key, found.renamed);
    assert(keyed_missing(key, l.schema@, m.schema@, found) is None);
    lemma_scanned_there(left, right, key, found);
    lemma_key_there(l, m, key, found);
    lemma_key_types(l, m, left, right, found, key);
    let types = key_types(key, left.schema@, right.schema@);
    let f = scanned_row(ln, key, types);
    let g = scanned_row(rn, key, types);
    lemma_scanned_rows(l, left, ln, key, types);
    lemma_scanned_rows(m, right, rn, key, types);
    law_keyed_report_counts(l, m, key, false, found, cfg, comparator, report);
    let setup = keyed_setup(key, l.schema@, m.schema@, found, comparator, None);
    let (x, y) = (a.map_values(f), b.map_values(g));
    assert forall|i: int| 0 <= i < a.len() implies has_no_match(y)(f(#[trigger] a[i])) == unmatched(
        key,
        types,
        b,
    )(a[i]) by {
        lemma_unmatched(b, rn, ln, key, types, a[i]);
    }
    assert forall|i: int| 0 <= i < b.len() implies has_no_match(x)(g(#[trigger] b[i])) == unmatched(
        key,
        types,
        a,
    )(b[i]) by {
        lemma_unmatched(a, ln, rn, key, types, b[i]);
    }
    assert forall|i: int| 0 <= i < a.len() implies is_changed(setup.rules, y)(f(#[trigger] a[i])) == altered(
        columns,
        comparator,
        key,
        types,
        b,
    )(a[i]) by {
        lemma_altered(l, m, left, right, key, types, found, comparator, a[i]);
    }
    lemma_filter_mapped(a, f, has_no_match(y), unmatched(key, types, b));
    lemma_filter_mapped(b, g, has_no_match(x), unmatched(key, types, a));
    lemma_filter_mapped(a, f, is_changed(setup.rules, y), altered(columns, comparator, key, types, b));
}

/// Whether a row has a match, and whether it is altered, does not depend on the
/// order of the other rows.
proof fn lemma_other_order(
    a: Seq<Map<Seq<char>, Held>>,
    b: Seq<Map<Seq<char>, Held>>,
    columns: Set<(Seq<char>, Seq<char>)>,
    comparator: Comparator,
    key: Seq<Seq<char>>,
    types: Seq<TypeShape>,
)
    requires
        a.to_multiset() == b.to_multiset(),
    ensures
        unmatched(key, types, a) == unmatched(key, types, b),
        altered(columns, comparator, key, types, a) == altered(columns, comparator, key, types, b),
{
    broadcast use vstd::seq_lib::group_to_multiset_ensures;

    assert forall|j: int| 0 <= j < a.len() implies b.contains(#[trigger] a[j]) by {
        assert(a.contains(a[j]));
        assert(a.to_multiset().count(a[j]) > 0);
    }
    assert forall|j: int| 0 <= j < b.len() implies a.contains(#[trigger] b[j]) by {
        assert(b.contains(b[j]));
        assert(b.to_multiset().count(b[j]) > 0);
    }
    let u = unmatched(key, types, a);
    let v = unmatched(key, types, b);
    assert forall|h: Map<Seq<char>, Held>| #[trigger] u(h) == v(h) by {
        if !u(h) {
            let j = choose|j: int|
                0 <= j < a.len() && key_of(key, types, #[trigger] a[j]) == key_of(key, types, h);
            let n = choose|n: int| 0 <= n < b.len() && b[n] == a[j];
            assert(key_of(key, types, b[n]) == key_of(key, types, h));
        }
        if !v(h) {
            let j = choose|j: int|
                0 <= j < b.len() && key_of(key, types, #[trigger] b[j]) == key_of(key, types, h);
            let n = choose|n: int| 0 <= n < a.len() && a[n] == b[j];
            assert(key_of(key, types, a[n]) == key_of(key, types, h));
        }
    }
    assert(u =~= v);
    let p = altered(columns, comparator, key, types, a);
    let q = altered(columns, comparator, key, types, b);
    assert forall|h: Map<Seq<char>, Held>| #[trigger] p(h) == q(h) by {
        if p(h) {
            let j = choose|j: int|
                0 <= j < a.len() && key_of(key, types, #[trigger] a[j]) == key_of(key, types, h)
                    && rows_differ(columns, comparator, h, a[j]);
            let n = choose|n: int| 0 <= n < b.len() && b[n] == a[j];
            assert(key_of(key, types, b[n]) == key_of(key, types, h));
        }
        if q(h) {
            let j = choose|j: int|
                0 <= j < b.len() && key_of(key, types, #[trigger] b[j]) == key_of(key, types, h)
                    && rows_differ(columns, comparator, h, b[j]);
            let n = choose|n: int| 0 <= n < a.len() && a[n] == b[j];
            assert(key_of(key, types, a[n]) == key_of(key, types, h));
        }
    }
    assert(p =~= q);
}

/// Whether a table has columns of its own goes by the names.
proof fn lemma_own_columns(left: Seq<FieldShape>, right: Seq<FieldShape>)
    ensures
        schema_diff(left, right).added.len() == 0 <==> forall|name: Seq<char>|
            has_column(right, name) ==> #[trigger] has_column(left, name),
        schema_diff(left, right).removed.len() == 0 <==> forall|name: Seq<char>|
            has_column(left, name) ==> #[trigger] has_column(right, name),
{
    let d = schema_diff(left, right);
    let added = d.added.map_values(|c: DescView| c.name);
    let removed = d.removed.map_values(|c: DescView| c.name);
    assert forall|name: Seq<char>| {
        &&& added.contains(name) <==> has_column(right, name) && !(#[trigger] has_column(left, name))
        &&& removed.contains(name) <==> has_column(left, name) && !has_column(right, name)
    } by {
        law_schema_columns_are_classified(left, right, name);
    }
    if added.len() > 0 {
        assert(added.contains(added[0]));
        assert(!has_column(left, added[0]));
    }
    if removed.len() > 0 {
        assert(removed.contains(removed[0]));
        assert(has_column(left, removed[0]));
    }
}

/// A key that a diff goes by is of columns that both tables have.
proof fn lemma_keys_shared(cfg: DiffConfig, left: Seq<FieldShape>, right: Seq<FieldShape>, key: Vec<String>)
    requires
        cfg.key == Some(key),
        requested_mode(cfg, schema_diff(left, right).mutual) is Some,
        requested_mode(cfg, schema_diff(left, right).mutual)->0 is Ok,
    ensures
        forall|i: int|
            0 <= i < key@.len() ==> has_column(left, #[trigger] views(key@)[i]) && has_column(
                right,
                views(key@)[i],
            ),
{
    let mutual = schema_diff(left, right).mutual;
    let k = views(key@);
    lemma_none_outside(mutual, k);
    lemma_mutual_shared(left, right);
    assert forall|i: int| 0 <= i < k.len() implies has_column(left, #[trigger] k[i]) && has_column(right, k[i]) by {
        assert(mutual.contains(k[i]));
        let j = choose|j: int| 0 <= j < mutual.len() && mutual[j] == k[i];
        assert(has_column(left, mutual[j]));
    }
}

/// A diff by a given key reports what renames it found.
proof fn lemma_reported_renames(
    cfg: DiffConfig,
    left: BatchIter,
    right: BatchIter,
    key: Vec<String>,
    report: ReportView,
)
    requires
        cfg.key == Some(key),
        diff_result(cfg, left, right, Ok(report)),
    ensures
        renames_found(
            left,
            right,
            schema_diff(left.schema@, right.schema@),
            Some(views(key@)),
            report.schema,
        ),
{
    let schema = schema_diff(left.schema@, right.schema@);
    assert(requested_mode(cfg, schema.mutual) == Some(
        Ok::<ModeView, ErrorView>(ModeView::Keyed { key: views(key@), inferred: false }),
    ));
    let _ = lemma_scanned(cfg, left, right, views(key@), report);
}

/// Neither the order of the rows nor that of the columns of either table shows
/// in how many rows a diff by a given key counts, where it has no limit: not in
/// the rows of either side, nor in those that are only on one side; nor in the
/// modified ones, where both orders show the same renames, in whatever order
/// these are.
pub proof fn law_order_does_not_change_counts(
    cfg: DiffConfig,
    left: BatchIter,
    right: BatchIter,
    other_left: BatchIter,
    other_right: BatchIter,
    a: ReportView,
    b: ReportView,
)
    requires
        cfg.key is Some,
        cfg.fail_fast is None,
        same_table(left, other_left),
        same_table(right, other_right),
        diff_result(cfg, left, right, Ok(a)),
        diff_result(cfg, other_left, other_right, Ok(b)),
    ensures
        a.left_rows == b.left_rows,
        a.right_rows == b.right_rows,
        a.removed == b.removed,
        a.added == b.added,
        renamed_pairs(a.schema.renamed).to_set() == renamed_pairs(b.schema.renamed).to_set() ==> a.modified
            == b.modified,
        ({
            let schema = schema_diff(left.schema@, right.schema@);
            schema.added.len() == 0 || schema.removed.len() == 0
        }) ==> a.modified == b.modified,
{
    broadcast use vstd::seq_lib::group_to_multiset_ensures;

    let key = cfg.key->0;
    let k = views(key@);
    let (lf, rf) = (left.schema@, right.schema@);
    let (of, pf) = (other_left.schema@, other_right.schema@);
    let comparator = Comparator { tol_abs: cfg.tol_abs, tol_rel: cfg.tol_rel };
    let schema = schema_diff(lf, rf);
    lemma_own_columns(lf, rf);
    lemma_own_columns(of, pf);
    assert forall|name: Seq<char>| (#[trigger] has_column(of, name)) == has_column(lf, name) by {
        assert(has_column(lf, name) == has_column(of, name));
    }
    assert forall|name: Seq<char>| (#[trigger] has_column(pf, name)) == has_column(rf, name) by {
        assert(has_column(rf, name) == has_column(pf, name));
    }
    law_rows_are_counted_by_name(cfg, left, right, key, a);
    law_rows_are_counted_by_name(cfg, other_left, other_right, key, b);
    let types = key_types(k, lf, rf);
    lemma_keys_shared(cfg, lf, rf, key);
    assert(types =~= key_types(k, of, pf)) by {
        assert forall|i: int| 0 <= i < k.len() implies types[i] == key_types(k, of, pf)[i] by {
            assert(has_column(lf, k[i]) && has_column(rf, k[i]));
        }
    }
    let (x, y) = (table_rows(left), table_rows(right));
    let (v, w) = (table_rows(other_left), table_rows(other_right));
    assert(x.to_multiset().len() == v.to_multiset().len());
    assert(y.to_multiset().len() == w.to_multiset().len());
    let columns = compared(lf, rf, k, a.schema.renamed);
    lemma_other_order(y, w, columns, comparator, k, types);
    lemma_other_order(x, v, columns, comparator, k, types);
    lemma_filter_same(x, v, unmatched(k, types, y));
    lemma_filter_same(y, w, unmatched(k, types, x));
    lemma_filter_same(x, v, altered(columns, comparator, k, types, y));
    let (p, q) = (renamed_pairs(a.schema.renamed), renamed_pairs(b.schema.renamed));
    lemma_reported_renames(cfg, left, right, key, a);
    lemma_reported_renames(cfg, other_left, other_right, key, b);
    lemma_found(left, right, Some(k), a.schema);
    lemma_found(other_left, other_right, Some(k), b.schema);
    if schema.added.len() == 0 || schema.removed.len() == 0 {
        assert(p =~= q);
    }
    if p.to_set() == q.to_set() {
        let others = compared(of, pf, k, b.schema.renamed);
        assert forall|c: (Seq<char>, Seq<char>)| columns.contains(c) == others.contains(c) by {
            assert(has_column(lf, c.0) == has_column(of, c.0));
            assert(has_column(rf, c.0) == has_column(pf, c.0));
            assert(p.to_set().contains(c) == q.to_set().contains(c));
        }
        assert(columns =~= others);
    }
}

} // verus!
