//! What holds of whole diffs, in terms of the two tables and the options.

use crate::error::ErrorView;
use crate::infer::{first_outside, inferred_key, key_candidates, law_candidates_are_shared, law_inferred_key_is_unique};
use crate::input::{is_sample, projects, BatchIter, Table};
use crate::keyed_laws::{law_limit_truncates, lemma_filter_agree};
use crate::keyless::{hash_codec, hashed_rows, keyless_diff, keyless_result, no_surplus};
use crate::keyless_laws::law_limit_truncates_keyless;
use crate::merge::{arranged, begin, SourceView};
use crate::order_laws::{lemma_filter_mapped, lemma_found};
use crate::plan::{code_of, diff_result, inferred_mode, mode_result, renames_found, requested_mode, sampled_names, scan_result, ModeView, KEY_INFER_SAMPLE_ROWS};
use crate::plan_laws::{lemma_restated_keyed, lemma_restated_keyless, reported_key};
use crate::rename::{desc_names, detected_renames, is_close, law_renames_move_columns, law_renames_pair_close_columns, left_sides, not_named, right_sides, with_renames, SAMPLE_ROWS};
use crate::report::{differs, ReportView};
use crate::row_diff::{as_limit, differences, is_modified, keyed_diff, keyed_result, keyed_setup, keyed_step, keyed_walk, nothing_found, Found, KeyedEnd, KeyedRules, KeyedStep};
use crate::row_laws::lemma_filter_twice;
use crate::schema::{column, has_column, lemma_column, names, places, type_label, FieldShape};
use crate::schema_diff::{absent_from, described, law_schema_columns_are_classified, lemma_filter_keeps, lemma_filter_none, present_in, retyped, schema_diff, typed_otherwise, ChangeView, DescView, SchemaDiffView};
use crate::sort::{sorts, stream_rows, RowView};
use crate::text::{lemma_place, views};
use crate::value::Comparator;
use crate::DiffConfig;
use vstd::prelude::*;

verus! {

/// A schema has a column of that name.
pub open spec fn names_column(fields: Seq<FieldShape>, name: Seq<char>) -> bool {
    exists|i: int| 0 <= i < fields.len() && (#[trigger] fields[i]).name == name
}

/// The first column of that name.
pub open spec fn is_first_column(fields: Seq<FieldShape>, name: Seq<char>, i: int) -> bool {
    &&& 0 <= i < fields.len()
    &&& fields[i].name == name
    &&& forall|j: int| 0 <= j < i ==> (#[trigger] fields[j]).name != name
}

/// A column of the left schema has another type than the first one of its name
/// in the right schema.
pub open spec fn has_other_type(left: Seq<FieldShape>, right: Seq<FieldShape>, name: Seq<char>) -> bool {
    exists|i: int, j: int|
        0 <= i < left.len() && (#[trigger] left[i]).name == name && #[trigger] is_first_column(right, name, j)
            && left[i].data_type != right[j].data_type
}

/// A change of type from that of a left column to that of the first right column
/// of its name, which is another one.
pub open spec fn is_type_change(
    left: Seq<FieldShape>,
    right: Seq<FieldShape>,
    c: ChangeView,
    a: int,
    b: int,
) -> bool {
    &&& 0 <= a < left.len()
    &&& left[a].name == c.name
    &&& is_first_column(right, c.name, b)
    &&& left[a].data_type != right[b].data_type
    &&& c.left == type_label(left[a].data_type)
    &&& c.right == type_label(right[b].data_type)
}

/// A change of type between two schemas.
pub open spec fn changes_type(left: Seq<FieldShape>, right: Seq<FieldShape>, c: ChangeView) -> bool {
    exists|a: int, b: int| is_type_change(left, right, c, a, b)
}

/// Columns are found by their names.
pub proof fn lemma_names_column(fields: Seq<FieldShape>, name: Seq<char>)
    ensures
        has_column(fields, name) <==> names_column(fields, name),
        forall|i: int| #[trigger] is_first_column(fields, name, i) ==> i == column(fields, name),
        has_column(fields, name) ==> is_first_column(fields, name, column(fields, name)),
{
    lemma_column(fields, name);
    lemma_place(names(fields), name);
    let c = column(fields, name);
    if has_column(fields, name) {
        assert(names(fields)[c] == fields[c].name);
        assert forall|j: int| 0 <= j < c implies (#[trigger] fields[j]).name != name by {
            assert(names(fields)[j] != name);
        }
    }
    if names_column(fields, name) {
        let i = choose|i: int| 0 <= i < fields.len() && (#[trigger] fields[i]).name == name;
        assert(names(fields)[i] == name);
    }
    assert forall|i: int| #[trigger] is_first_column(fields, name, i) implies i == c by {
        assert(names(fields)[i] == name);
        if c < i {
            assert(fields[c].name != name);
        }
    }
}

/// What a report says of the schemas: the difference, with the renames that were
/// found.
pub proof fn lemma_reported_schema(cfg: DiffConfig, left: BatchIter, right: BatchIter, report: ReportView)
    requires
        diff_result(cfg, left, right, Ok(report)),
    ensures
        renames_found(
            left,
            right,
            schema_diff(left.schema@, right.schema@),
            reported_key(report),
            report.schema,
        ),
{
    let shared = schema_diff(left.schema@, right.schema@).mutual;
    let mode = match requested_mode(cfg, shared) {
        Some(Ok(mode)) => mode,
        _ => choose|mode: ModeView| mode_result(cfg, left, right, mode, Ok(report)),
    };
    assert(mode_result(cfg, left, right, mode, Ok(report)));
    let found = choose|found: SchemaDiffView| #[trigger]
        renames_found(left, right, schema_diff(left.schema@, right.schema@), mode.key(), found)
            && scan_result(cfg, left, right, mode, found, Ok(report));
    let comparator = Comparator { tol_abs: cfg.tol_abs, tol_rel: cfg.tol_rel };
    let r = Ok::<ReportView, ErrorView>(report);
    let (l, m) = choose|l: BatchIter, m: BatchIter|
        {
            &&& #[trigger] projects(l, left, found.left_names())
            &&& #[trigger] projects(m, right, found.right_names())
            &&& match mode {
                ModeView::Keyed { key, inferred } => keyed_result(
                    l,
                    m,
                    key,
                    inferred,
                    found,
                    cfg,
                    comparator,
                    r,
                ),
                ModeView::Keyless { auto } => keyless_result(l, m, auto, found, cfg, r),
            }
        };
    match mode {
        ModeView::Keyed { key, inferred } => {
            lemma_restated_keyed(l, m, key, inferred, found, found, cfg, comparator, r);
        },
        ModeView::Keyless { auto } => {
            lemma_restated_keyless(l, m, auto, found, found, cfg, r);
        },
    }
}

/// A report accounts for every column of either table by its name: one that both
/// have is shared, one that only the left has is removed or renamed, and one that
/// only the right has is added or renamed.
pub proof fn law_report_accounts_for_every_column(
    cfg: DiffConfig,
    left: BatchIter,
    right: BatchIter,
    report: ReportView,
    name: Seq<char>,
)
    requires
        diff_result(cfg, left, right, Ok(report)),
    ensures
        ({
            let s = report.schema;
            let (l, r) = (names_column(left.schema@, name), names_column(right.schema@, name));
            let removed = exists|i: int| 0 <= i < s.removed.len() && (#[trigger] s.removed[i]).name == name;
            let added = exists|i: int| 0 <= i < s.added.len() && (#[trigger] s.added[i]).name == name;
            let from = exists|i: int| 0 <= i < s.renamed.len() && (#[trigger] s.renamed[i]).left == name;
            let to = exists|i: int| 0 <= i < s.renamed.len() && (#[trigger] s.renamed[i]).right == name;
            &&& l && r <==> s.mutual.contains(name)
            &&& l && !r <==> removed || from
            &&& r && !l <==> added || to
            &&& !(removed && from)
            &&& !(added && to)
        }),
{
    let s = report.schema;
    let d = schema_diff(left.schema@, right.schema@);
    let key = reported_key(report);
    lemma_reported_schema(cfg, left, right, report);
    lemma_found(left, right, key, s);
    lemma_names_column(left.schema@, name);
    lemma_names_column(right.schema@, name);
    law_renames_move_columns(d, s.renamed, name);
    law_schema_columns_are_classified(left.schema@, right.schema@, name);
    assert(desc_names(d.removed) =~= d.removed.map_values(|c: DescView| c.name));
    assert(desc_names(d.added) =~= d.added.map_values(|c: DescView| c.name));
    lemma_renamed_columns(left, right, key, s);
    lemma_named(s.removed, name);
    lemma_named(s.added, name);
    if exists|i: int| 0 <= i < s.renamed.len() && (#[trigger] s.renamed[i]).left == name {
        let i = choose|i: int| 0 <= i < s.renamed.len() && (#[trigger] s.renamed[i]).left == name;
        assert(left_sides(s.renamed)[i] == name);
    }
    if exists|i: int| 0 <= i < s.renamed.len() && (#[trigger] s.renamed[i]).right == name {
        let i = choose|i: int| 0 <= i < s.renamed.len() && (#[trigger] s.renamed[i]).right == name;
        assert(right_sides(s.renamed)[i] == name);
    }
    if left_sides(s.renamed).contains(name) {
        let i = choose|i: int| 0 <= i < s.renamed.len() && left_sides(s.renamed)[i] == name;
        assert(s.renamed[i].left == name);
    }
    if right_sides(s.renamed).contains(name) {
        let i = choose|i: int| 0 <= i < s.renamed.len() && right_sides(s.renamed)[i] == name;
        assert(s.renamed[i].right == name);
    }
}

proof fn lemma_named(cols: Seq<DescView>, name: Seq<char>)
    ensures
        desc_names(cols).contains(name) <==> exists|i: int|
            0 <= i < cols.len() && (#[trigger] cols[i]).name == name,
{
    if desc_names(cols).contains(name) {
        let i = choose|i: int| 0 <= i < cols.len() && desc_names(cols)[i] == name;
        assert(cols[i].name == name);
    }
    if exists|i: int| 0 <= i < cols.len() && (#[trigger] cols[i]).name == name {
        let i = choose|i: int| 0 <= i < cols.len() && (#[trigger] cols[i]).name == name;
        assert(desc_names(cols)[i] == name);
    }
}

/// A rename is of a column that only the left has into one that only the right
/// has.
pub proof fn lemma_renamed_columns(
    left: BatchIter,
    right: BatchIter,
    key: Option<Seq<Seq<char>>>,
    found: SchemaDiffView,
)
    requires
        renames_found(left, right, schema_diff(left.schema@, right.schema@), key, found),
    ensures
        ({
            let d = schema_diff(left.schema@, right.schema@);
            forall|i: int|
                0 <= i < found.renamed.len() ==> desc_names(d.removed).contains(
                    (#[trigger] found.renamed[i]).left,
                ) && desc_names(d.added).contains(found.renamed[i].right)
        }),
{
    let d = schema_diff(left.schema@, right.schema@);
    if d.added.len() > 0 && d.removed.len() > 0 {
        let (l, m) = choose|l: Table, m: Table|
            {
                &&& #[trigger] is_sample(
                    l,
                    left,
                    sampled_names(key, d.removed),
                    SAMPLE_ROWS as nat,
                )
                &&& #[trigger] is_sample(
                    m,
                    right,
                    sampled_names(key, d.added),
                    SAMPLE_ROWS as nat,
                )
                &&& found == with_renames(
                    d,
                    detected_renames(d, l, m, key),
                )
            };
        let renames = detected_renames(d, l, m, key);
        law_renames_pair_close_columns(d, l, m, key);
        assert(found.renamed =~= renames);
        assert forall|i: int| 0 <= i < found.renamed.len() implies desc_names(d.removed).contains(
            (#[trigger] found.renamed[i]).left,
        ) && desc_names(d.added).contains(found.renamed[i].right) by {
            assert(is_close(
                l,
                m,
                key,
                desc_names(d.removed),
                desc_names(d.added),
                renames[i],
            ));
        }
    }
}

/// A shared column is reported as changed exactly where its types are not the
/// same, with the names of both types.
pub proof fn law_type_changes_are_reported(
    cfg: DiffConfig,
    left: BatchIter,
    right: BatchIter,
    report: ReportView,
    name: Seq<char>,
)
    requires
        diff_result(cfg, left, right, Ok(report)),
    ensures
        has_other_type(left.schema@, right.schema@, name) <==> exists|i: int|
            0 <= i < report.schema.type_changed.len() && (#[trigger] report.schema.type_changed[i]).name == name,
        forall|i: int|
            0 <= i < report.schema.type_changed.len() ==> changes_type(
                left.schema@,
                right.schema@,
                #[trigger] report.schema.type_changed[i],
            ),
{
    let (lf, rf) = (left.schema@, right.schema@);
    lemma_reported_schema(cfg, left, right, report);
    lemma_found(left, right, reported_key(report), report.schema);
    let p = typed_otherwise(rf);
    let kept = lf.filter(p);
    let changed = report.schema.type_changed;
    assert(changed == kept.map_values(retyped(rf)));
    lemma_filter_keeps(lf, p);
    assert forall|i: int| 0 <= i < changed.len() implies changes_type(lf, rf, #[trigger] changed[i]) by {
        let f = kept[i];
        assert(p(f) && lf.contains(f));
        let a = choose|a: int| 0 <= a < lf.len() && lf[a] == f;
        lemma_names_column(rf, f.name);
        let b = column(rf, f.name);
        assert(is_type_change(lf, rf, changed[i], a, b));
    }
    if has_other_type(lf, rf, name) {
        let (i, j) = choose|i: int, j: int|
            0 <= i < lf.len() && (#[trigger] lf[i]).name == name && #[trigger] is_first_column(rf, name, j)
                && lf[i].data_type != rf[j].data_type;
        lemma_names_column(rf, name);
        assert(rf[j].name == name);
        assert(names_column(rf, name));
        assert(p(lf[i]));
        assert(kept.contains(lf[i]));
        let n = choose|n: int| 0 <= n < kept.len() && kept[n] == lf[i];
        assert(changed[n].name == name);
    }
    if exists|i: int| 0 <= i < changed.len() && (#[trigger] changed[i]).name == name {
        let i = choose|i: int| 0 <= i < changed.len() && (#[trigger] changed[i]).name == name;
        let (a, b) = choose|a: int, b: int| is_type_change(lf, rf, changed[i], a, b);
        assert(lf[a].name == name && is_first_column(rf, name, b));
    }
}

/// A diff of two tables shows a difference, and ends in the exit code for one,
/// where a column is in only one of them or has two types.
pub proof fn law_schema_differences_show(
    cfg: DiffConfig,
    left: BatchIter,
    right: BatchIter,
    report: ReportView,
    name: Seq<char>,
)
    requires
        diff_result(cfg, left, right, Ok(report)),
        names_column(left.schema@, name) != names_column(right.schema@, name) || has_other_type(
            left.schema@,
            right.schema@,
            name,
        ),
    ensures
        differs(report),
        code_of(Ok(report)) == 1,
{
    law_report_accounts_for_every_column(cfg, left, right, report, name);
    law_type_changes_are_reported(cfg, left, right, report, name);
}

/// A report shows a difference exactly where it lists a column or counts a row,
/// and the exit code says so.
pub proof fn law_a_difference_is_a_column_or_a_row(report: ReportView, e: ErrorView)
    ensures
        differs(report) <==> {
            ||| report.schema.added.len() > 0
            ||| report.schema.removed.len() > 0
            ||| report.schema.type_changed.len() > 0
            ||| report.schema.renamed.len() > 0
            ||| report.added > 0
            ||| report.removed > 0
            ||| report.modified > 0
        },
        differs(report) <==> code_of(Ok(report)) == 1,
        !differs(report) <==> code_of(Ok(report)) == 0,
        code_of(Err(e)) == 2,
{
}

/// What a report says of the mode that it was made in.
pub proof fn lemma_reported_mode(
    cfg: DiffConfig,
    left: BatchIter,
    right: BatchIter,
    mode: ModeView,
    report: ReportView,
)
    requires
        mode_result(cfg, left, right, mode, Ok(report)),
    ensures
        match mode {
            ModeView::Keyed { key, inferred } => {
                &&& !report.keyless
                &&& report.key_columns == key
                &&& report.inferred == inferred
            },
            ModeView::Keyless { auto } => {
                &&& report.keyless
                &&& report.key_columns.len() == 0
                &&& report.inferred == auto
                &&& report.modified == 0
                &&& report.columns_changed.len() == 0
            },
        },
{
    let found = choose|found: SchemaDiffView| #[trigger]
        renames_found(left, right, schema_diff(left.schema@, right.schema@), mode.key(), found)
            && scan_result(cfg, left, right, mode, found, Ok(report));
    let comparator = Comparator { tol_abs: cfg.tol_abs, tol_rel: cfg.tol_rel };
    let r = Ok::<ReportView, ErrorView>(report);
    let (l, m) = choose|l: BatchIter, m: BatchIter|
        {
            &&& #[trigger] projects(l, left, found.left_names())
            &&& #[trigger] projects(m, right, found.right_names())
            &&& match mode {
                ModeView::Keyed { key, inferred } => keyed_result(
                    l,
                    m,
                    key,
                    inferred,
                    found,
                    cfg,
                    comparator,
                    r,
                ),
                ModeView::Keyless { auto } => keyless_result(l, m, auto, found, cfg, r),
            }
        };
    match mode {
        ModeView::Keyed { key, inferred } => {
            lemma_restated_keyed(l, m, key, inferred, found, found, cfg, comparator, r);
        },
        ModeView::Keyless { auto } => {},
    }
}

/// Options that contradict each other, or the tables, are refused, each with its
/// own error: no shared column; keyless with a key, with a tolerance or on sorted
/// input; a key column that a table does not have; sorted input without a key.
pub proof fn law_contradictory_options_are_refused(
    cfg: DiffConfig,
    left: BatchIter,
    right: BatchIter,
    r: Result<ReportView, ErrorView>,
    name: Seq<char>,
)
    requires
        diff_result(cfg, left, right, r),
    ensures
        ({
            let (lf, rf) = (left.schema@, right.schema@);
            let none_shared = forall|n: Seq<char>|
                !(names_column(lf, n) && #[trigger] names_column(rf, n));
            let shared = names_column(lf, name) && names_column(rf, name);
            let tolerant = cfg.tol_abs is Some || cfg.tol_rel is Some;
            &&& none_shared ==> r == Err::<ReportView, ErrorView>(ErrorView::NoSharedColumns)
            &&& shared && cfg.keyless && cfg.key is Some ==> r == Err::<ReportView, ErrorView>(
                ErrorView::KeylessWithKey,
            )
            &&& shared && cfg.keyless && cfg.key is None && tolerant ==> r == Err::<
                ReportView,
                ErrorView,
            >(ErrorView::KeylessWithTolerances)
            &&& shared && cfg.keyless && cfg.key is None && !tolerant && cfg.assume_sorted ==> r
                == Err::<ReportView, ErrorView>(ErrorView::KeylessAssumeSorted)
            &&& shared && !cfg.keyless && cfg.key is None && cfg.assume_sorted ==> r == Err::<
                ReportView,
                ErrorView,
            >(ErrorView::AssumeSortedWithoutKey)
        }),
{
    let (lf, rf) = (left.schema@, right.schema@);
    let mutual = schema_diff(lf, rf).mutual;
    lemma_names_column(lf, name);
    lemma_names_column(rf, name);
    law_schema_columns_are_classified(lf, rf, name);
    if mutual.len() > 0 {
        let n = mutual[0];
        law_schema_columns_are_classified(lf, rf, n);
        lemma_names_column(lf, n);
        lemma_names_column(rf, n);
        assert(names_column(lf, n) && names_column(rf, n));
    }
}

/// A key is refused exactly where one of its columns is not in both tables, and
/// the error names the first such column.
pub proof fn law_keys_must_be_shared(
    cfg: DiffConfig,
    left: BatchIter,
    right: BatchIter,
    r: Result<ReportView, ErrorView>,
    key: Vec<String>,
    i: int,
    name: Seq<char>,
)
    requires
        diff_result(cfg, left, right, r),
        cfg.key == Some(key),
        !cfg.keyless,
        0 <= i < key@.len(),
    ensures
        ({
            let (lf, rf) = (left.schema@, right.schema@);
            let column = key@[i]@;
            &&& r is Ok ==> names_column(lf, column) && names_column(rf, column)
            &&& names_column(lf, name) && names_column(rf, name) && !(names_column(lf, column)
                && names_column(rf, column)) && (forall|j: int|
                0 <= j < i ==> names_column(lf, (#[trigger] key@[j])@) && names_column(rf, key@[j]@)) ==> {
                r matches Err(ErrorView::KeyNotShared { column: c, shared }) && c == column && shared
                    == schema_diff(lf, rf).mutual
            }
        }),
{
    let (lf, rf) = (left.schema@, right.schema@);
    let mutual = schema_diff(lf, rf).mutual;
    let k = views(key@);
    assert forall|n: Seq<char>| #[trigger] mutual.contains(n) <==> names_column(lf, n) && names_column(rf, n) by {
        law_schema_columns_are_classified(lf, rf, n);
        lemma_names_column(lf, n);
        lemma_names_column(rf, n);
    }
    assert(mutual.contains(name) <==> names_column(lf, name) && names_column(rf, name));
    assert(mutual.contains(k[i]) <==> names_column(lf, k[i]) && names_column(rf, k[i]));
    lemma_first_outside_is(mutual, k, i);
    if forall|j: int| 0 <= j < i ==> names_column(lf, (#[trigger] key@[j])@) && names_column(rf, key@[j]@) {
        assert forall|j: int| 0 <= j < i implies mutual.contains(#[trigger] k[j]) by {
            assert(key@[j]@ == k[j]);
        }
    }
}

/// The first name that is not in a list.
proof fn lemma_first_outside_is(list: Seq<Seq<char>>, wanted: Seq<Seq<char>>, i: int)
    requires
        0 <= i < wanted.len(),
    ensures
        first_outside(list, wanted) is None ==> list.contains(wanted[i]),
        !list.contains(wanted[i]) && (forall|j: int| 0 <= j < i ==> list.contains(#[trigger] wanted[j]))
            ==> first_outside(list, wanted) == Some(wanted[i]),
    decreases wanted.len(),
{
    if i > 0 {
        let rest = wanted.drop_first();
        assert(rest[i - 1] == wanted[i]);
        lemma_first_outside_is(list, rest, i - 1);
        if forall|j: int| 0 <= j < i ==> list.contains(#[trigger] wanted[j]) {
            assert(list.contains(wanted[0]));
            assert forall|j: int| 0 <= j < i - 1 implies list.contains(#[trigger] rest[j]) by {
                assert(rest[j] == wanted[j + 1]);
            }
        }
    }
}

/// A report is made as the options ask: by content where that is asked for, by
/// the given key where there is one, and otherwise by an inferred key of one
/// shared column, or by content where none was found and there is no tolerance.
pub proof fn law_reports_follow_the_options(cfg: DiffConfig, left: BatchIter, right: BatchIter, report: ReportView)
    requires
        diff_result(cfg, left, right, Ok(report)),
    ensures
        cfg.keyless ==> report.keyless && !report.inferred && cfg.key is None,
        cfg.key matches Some(key) ==> !report.keyless && !report.inferred && report.key_columns == views(key@),
        !cfg.keyless && cfg.key is None ==> report.inferred,
        report.keyless ==> cfg.tol_abs is None && cfg.tol_rel is None && report.key_columns.len() == 0
            && report.modified == 0,
        report.inferred && !report.keyless ==> {
            &&& report.key_columns.len() == 1
            &&& names_column(left.schema@, report.key_columns[0])
            &&& names_column(right.schema@, report.key_columns[0])
        },
{
    let (lf, rf) = (left.schema@, right.schema@);
    let shared = schema_diff(lf, rf).mutual;
    match requested_mode(cfg, shared) {
        Some(Ok(mode)) => {
            lemma_reported_mode(cfg, left, right, mode, report);
        },
        Some(Err(_)) => {},
        None => {
            let n = KEY_INFER_SAMPLE_ROWS as nat;
            let candidates = key_candidates(shared);
            let (l, m) = choose|l: Table, m: Table|
                {
                    &&& #[trigger] is_sample(l, left, shared, n)
                    &&& #[trigger] is_sample(m, right, shared, n)
                    &&& match inferred_mode(cfg, inferred_key(l, m, candidates)) {
                        Err(e) => Ok::<ReportView, ErrorView>(report) == Err::<ReportView, ErrorView>(e),
                        Ok(mode) => mode_result(cfg, left, right, mode, Ok(report)),
                    }
                };
            let mode = inferred_mode(cfg, inferred_key(l, m, candidates))->Ok_0;
            lemma_reported_mode(cfg, left, right, mode, report);
            if let Ok(column) = inferred_key(l, m, candidates) {
                law_inferred_key_is_unique(l, m, candidates);
                law_candidates_are_shared(shared, column);
                law_schema_columns_are_classified(lf, rf, column);
                lemma_names_column(lf, column);
                lemma_names_column(rf, column);
            }
        },
    }
}

/// A column of that name is the new one of a rename.
pub open spec fn is_renamed_to(s: SchemaDiffView, name: Seq<char>) -> bool {
    exists|i: int| 0 <= i < s.renamed.len() && (#[trigger] s.renamed[i]).right == name
}

/// A column of that name is the old one of a rename.
pub open spec fn is_renamed_from(s: SchemaDiffView, name: Seq<char>) -> bool {
    exists|i: int| 0 <= i < s.renamed.len() && (#[trigger] s.renamed[i]).left == name
}

/// A report lists shared, removed and added columns in the order of the table
/// that they are taken from, removed and added ones with the names of their
/// types.
pub proof fn law_columns_are_listed_in_order(cfg: DiffConfig, left: BatchIter, right: BatchIter, report: ReportView)
    requires
        diff_result(cfg, left, right, Ok(report)),
    ensures
        ({
            let s = report.schema;
            let (lf, rf) = (left.schema@, right.schema@);
            let desc = |f: FieldShape| DescView { name: f.name, data_type: type_label(f.data_type) };
            &&& s.mutual == lf.filter(|f: FieldShape| names_column(rf, f.name)).map_values(|f: FieldShape| f.name)
            &&& s.removed == lf.filter(
                |f: FieldShape| !names_column(rf, f.name) && !is_renamed_from(s, f.name),
            ).map_values(desc)
            &&& s.added == rf.filter(
                |f: FieldShape| !names_column(lf, f.name) && !is_renamed_to(s, f.name),
            ).map_values(desc)
        }),
{
    let s = report.schema;
    let (lf, rf) = (left.schema@, right.schema@);
    let desc = |f: FieldShape| DescView { name: f.name, data_type: type_label(f.data_type) };
    let both = |f: FieldShape| names_column(rf, f.name);
    let gone = |f: FieldShape| !names_column(rf, f.name) && !is_renamed_from(s, f.name);
    let come = |f: FieldShape| !names_column(lf, f.name) && !is_renamed_to(s, f.name);
    lemma_reported_schema(cfg, left, right, report);
    lemma_found(left, right, reported_key(report), s);
    assert forall|f: FieldShape| #[trigger] present_in(rf)(f) == both(f) by {
        lemma_names_column(rf, f.name);
    }
    lemma_filter_agree(lf, present_in(rf), both);
    assert(names(lf.filter(both)) =~= lf.filter(both).map_values(|f: FieldShape| f.name));
    let (from, to) = (left_sides(s.renamed), right_sides(s.renamed));
    let kept = |f: FieldShape| !from.contains(f.name);
    let new = |f: FieldShape| !to.contains(f.name);
    assert forall|name: Seq<char>| #[trigger] from.contains(name) == is_renamed_from(s, name) by {
        if is_renamed_from(s, name) {
            let i = choose|i: int| 0 <= i < s.renamed.len() && (#[trigger] s.renamed[i]).left == name;
            assert(from[i] == name);
        }
        if from.contains(name) {
            let i = choose|i: int| 0 <= i < from.len() && from[i] == name;
            assert(s.renamed[i].left == name);
        }
    }
    assert forall|name: Seq<char>| #[trigger] to.contains(name) == is_renamed_to(s, name) by {
        if is_renamed_to(s, name) {
            let i = choose|i: int| 0 <= i < s.renamed.len() && (#[trigger] s.renamed[i]).right == name;
            assert(to[i] == name);
        }
        if to.contains(name) {
            let i = choose|i: int| 0 <= i < to.len() && to[i] == name;
            assert(s.renamed[i].right == name);
        }
    }
    lemma_filter_mapped(lf.filter(absent_from(rf)), described(), not_named(from), kept);
    lemma_filter_mapped(rf.filter(absent_from(lf)), described(), not_named(to), new);
    assert forall|f: FieldShape| #[trigger] gone(f) == (absent_from(rf)(f) && kept(f)) by {
        lemma_names_column(rf, f.name);
        assert(from.contains(f.name) == is_renamed_from(s, f.name));
    }
    assert forall|f: FieldShape| #[trigger] come(f) == (absent_from(lf)(f) && new(f)) by {
        lemma_names_column(lf, f.name);
        assert(to.contains(f.name) == is_renamed_to(s, f.name));
    }
    lemma_filter_twice(lf, absent_from(rf), kept, gone);
    lemma_filter_twice(rf, absent_from(lf), new, come);
    assert(lf.filter(gone).map_values(described()) =~= lf.filter(gone).map_values(desc));
    assert(rf.filter(come).map_values(described()) =~= rf.filter(come).map_values(desc));
}

/// A scan by key without a limit is not cut short.
proof fn lemma_no_limit(rules: KeyedRules, left: SourceView, right: SourceView, found: Found)
    requires
        rules.limit is None,
    ensures
        keyed_walk(rules, left, right, found) matches KeyedEnd::Done { truncated, .. } ==> !truncated,
    decreases left.rest.len() + right.rest.len(),
{
    match keyed_step(rules, left, right, found) {
        KeyedStep::More { left: l, right: r, found: f } => {
            lemma_no_limit(rules, l, r, f);
        },
        _ => {},
    }
}

proof fn lemma_limited(cfg: DiffConfig, left: BatchIter, right: BatchIter, mode: ModeView, report: ReportView)
    requires
        mode_result(cfg, left, right, mode, Ok(report)),
    ensures
        ({
            let total = report.added + report.removed + report.modified;
            match cfg.fail_fast {
                None => !report.truncated,
                Some(n) => {
                    &&& report.truncated <==> total >= n
                    &&& !report.keyless ==> total <= n
                },
            }
        }),
{
    let found = choose|found: SchemaDiffView| #[trigger]
        renames_found(left, right, schema_diff(left.schema@, right.schema@), mode.key(), found)
            && scan_result(cfg, left, right, mode, found, Ok(report));
    let comparator = Comparator { tol_abs: cfg.tol_abs, tol_rel: cfg.tol_rel };
    let r = Ok::<ReportView, ErrorView>(report);
    let (l, m) = choose|l: BatchIter, m: BatchIter|
        {
            &&& #[trigger] projects(l, left, found.left_names())
            &&& #[trigger] projects(m, right, found.right_names())
            &&& match mode {
                ModeView::Keyed { key, inferred } => keyed_result(
                    l,
                    m,
                    key,
                    inferred,
                    found,
                    cfg,
                    comparator,
                    r,
                ),
                ModeView::Keyless { auto } => keyless_result(l, m, auto, found, cfg, r),
            }
        };
    match mode {
        ModeView::Keyed { key, inferred } => {
            let setup = keyed_setup(key, l.schema@, m.schema@, found, comparator, cfg.fail_fast);
            let (x, y) = choose|x: Seq<RowView>, y: Seq<RowView>|
                {
                    &&& #[trigger] arranged(cfg.assume_sorted, x, stream_rows(setup.left, l.batches@))
                    &&& #[trigger] arranged(cfg.assume_sorted, y, stream_rows(setup.right, m.batches@))
                    &&& r == keyed_diff(setup, found, inferred, cfg, x, y)
                };
            let a = begin(setup.left, cfg.left@, x, cfg.assume_sorted);
            let b = begin(setup.right, cfg.right@, y, cfg.assume_sorted);
            lemma_filter_none(nothing_found().matched, is_modified(setup.rules));
            assert(differences(setup.rules, nothing_found()) == 0);
            if cfg.fail_fast is Some {
                law_limit_truncates(setup.rules, a, b, nothing_found());
            } else {
                lemma_no_limit(setup.rules, a, b, nothing_found());
            }
        },
        ModeView::Keyless { auto } => {
            let lidx = places(l.schema@, found.left_names());
            let ridx = places(m.schema@, found.right_names());
            let (x, y) = choose|x: Seq<RowView>, y: Seq<RowView>|
                {
                    &&& #[trigger] sorts(x, hashed_rows(l.batches@, lidx))
                    &&& #[trigger] sorts(y, hashed_rows(m.batches@, ridx))
                    &&& r == Ok::<ReportView, ErrorView>(
                        keyless_diff(l.schema@, m.schema@, found, auto, cfg, x, y),
                    )
                };
            law_limit_truncates_keyless(
                as_limit(cfg.fail_fast),
                begin(hash_codec(l.schema@.len()), cfg.left@, x, false),
                begin(hash_codec(m.schema@.len()), cfg.right@, y, false),
                no_surplus(),
            );
        },
    }
}

/// A diff with a limit is cut short exactly where it finds that many row
/// differences, and by key it finds no more; one without a limit never is.
pub proof fn law_limits_cut_diffs_short(cfg: DiffConfig, left: BatchIter, right: BatchIter, report: ReportView)
    requires
        diff_result(cfg, left, right, Ok(report)),
    ensures
        ({
            let total = report.added + report.removed + report.modified;
            match cfg.fail_fast {
                None => !report.truncated,
                Some(n) => {
                    &&& report.truncated <==> total >= n
                    &&& !report.keyless ==> total <= n
                },
            }
        }),
{
    let shared = schema_diff(left.schema@, right.schema@).mutual;
    let r = Ok::<ReportView, ErrorView>(report);
    let mode = match requested_mode(cfg, shared) {
        Some(Ok(mode)) => mode,
        _ => choose|mode: ModeView| mode_result(cfg, left, right, mode, r),
    };
    lemma_limited(cfg, left, right, mode, report);
}

} // verus!
