//! When diffs are refused and when they succeed, and what the errors say.

use crate::diff_laws::{lemma_names_column, names_column};
use crate::error::ErrorView;
use crate::hash::HASH_COL;
use crate::infer::{first_outside, lemma_none_missing};
use crate::input::{projects, BatchIter};
use crate::keyed_laws::{law_keyed_diff_needs_distinct_keys, law_unsorted_rows_are_refused, lemma_filter_same, lemma_scan_of_report, row_keys};
use crate::keyless::keyless_result;
use crate::merge::{advance_error, arranged, begin, lemma_same_rows_contains, SourceView};
use crate::order_laws::{key_of, lemma_filter_contains, lemma_found, lemma_key_there, lemma_key_types, lemma_scanned, lemma_scanned_rows, lemma_scanned_there, scanned_row, table_rows, Held};
use crate::plan::{diff_result, lemma_scanned_columns, mode_result, renames_found, requested_mode, scan_result, ModeView};
use crate::report::{key_val_text, row_text, KeyValView, ReportView};
use crate::row_diff::{keyed_diff, keyed_missing, keyed_result, keyed_setup, keyed_step, keyed_walk, lemma_step_shrinks, not_in, nothing_found, shown_key, side_names, value_names, Found, KeyedEnd, KeyedRules, KeyedStep};
use crate::row_laws::{lemma_filter_one, lemma_shown_key, shown_key_of};
use crate::schema::{first_missing, has_column, lemma_column, lemma_first_missing, lemma_first_unshared, names, places, TypeShape};
use crate::schema_diff::{law_schema_columns_are_classified, lemma_filter_keeps, schema_diff, SchemaDiffView};
use crate::sort::{in_order, key_text, key_types, row_order, side_codec, stream_rows, twice, CodecView, RowView};
use crate::text::{byte_order, joined, law_byte_order_total, lemma_place, views};
use crate::value::{shown, Comparator};
use crate::DiffConfig;
use vstd::prelude::*;

verus! {

/// An error is about a row of a side and the one before it: they have the same
/// key, or they are not in the order that is verified.
pub open spec fn is_about(e: ErrorView, s: SourceView, i: int) -> bool {
    &&& 0 < i < s.rest.len()
    &&& match e {
        ErrorView::NotUnique { columns, label, example } => {
            &&& columns == s.codec.cols
            &&& label == s.label
            &&& s.rest[i].key == s.rest[i - 1].key
            &&& example == key_text(s.codec, s.rest[i - 1].cells)
        },
        ErrorView::NotSorted { label, row, after } => {
            &&& s.validate_order
            &&& label == s.label
            &&& row_order(s.rest[i], s.rest[i - 1]) < 0
            &&& row == key_text(s.codec, s.rest[i].cells)
            &&& after == key_text(s.codec, s.rest[i - 1].cells)
        },
        _ => false,
    }
}

/// A scan that fails does so for two rows of a side that follow each other.
proof fn lemma_failure_is_about(
    rules: KeyedRules,
    left: SourceView,
    right: SourceView,
    found: Found,
    e: ErrorView,
) -> (r: (bool, int))
    requires
        keyed_walk(rules, left, right, found) == KeyedEnd::Failed(e),
    ensures
        is_about(
            e,
            if r.0 {
                left
            } else {
                right
            },
            r.1,
        ),
    decreases left.rest.len() + right.rest.len(),
{
    match keyed_step(rules, left, right, found) {
        KeyedStep::More { left: l, right: m, found: f } => {
            lemma_step_shrinks(rules, left, right, found);
            let (side, i) = lemma_failure_is_about(rules, l, m, f, e);
            if side {
                (true, i + (left.rest.len() - l.rest.len()))
            } else {
                (false, i + (right.rest.len() - m.rest.len()))
            }
        },
        _ => {
            if left.rest.len() > 0 && advance_error(left) == Some(e) && is_about(e, left, 1) {
                (true, 1)
            } else {
                (false, 1)
            }
        },
    }
}

/// Two rows of a table have the same key, and the first one's reads as an example.
pub open spec fn repeats_key(
    rows: Seq<Map<Seq<char>, Held>>,
    key: Seq<Seq<char>>,
    types: Seq<TypeShape>,
    example: Seq<char>,
) -> bool {
    exists|i: int, j: int|
        {
            &&& 0 <= i < rows.len()
            &&& 0 <= j < rows.len()
            &&& i != j
            &&& key_of(key, types, #[trigger] rows[i]) == key_of(key, types, #[trigger] rows[j])
            &&& example == row_text(shown_key_of(key, rows[i]))
        }
}

/// A row of a table has a smaller key than the one before it, and both keys read
/// as given.
pub open spec fn breaks_off(
    rows: Seq<Map<Seq<char>, Held>>,
    key: Seq<Seq<char>>,
    types: Seq<TypeShape>,
    row: Seq<char>,
    after: Seq<char>,
) -> bool {
    exists|i: int, j: int|
        {
            &&& 0 <= j < rows.len()
            &&& i == j + 1
            &&& i < rows.len()
            &&& byte_order(key_of(key, types, #[trigger] rows[i]), key_of(key, types, #[trigger] rows[j])) < 0
            &&& row == row_text(shown_key_of(key, rows[i]))
            &&& after == row_text(shown_key_of(key, rows[j]))
        }
}

/// What a refused side shows of its table.
spec fn shows_flaw(
    e: ErrorView,
    side: Seq<char>,
    rows: Seq<Map<Seq<char>, Held>>,
    key: Seq<Seq<char>>,
    types: Seq<TypeShape>,
    sorted: bool,
) -> bool {
    match e {
        ErrorView::NotUnique { columns, label, example } => {
            &&& columns == key
            &&& label == side
            &&& repeats_key(rows, key, types, example)
        },
        ErrorView::NotSorted { label, row, after } => {
            &&& sorted
            &&& label == side
            &&& breaks_off(rows, key, types, row, after)
        },
        _ => false,
    }
}

/// The text of a key is that of the key that is shown.
proof fn lemma_key_text(codec: CodecView, row: RowView)
    ensures
        key_text(codec, row.cells) == row_text(shown_key(codec, row)),
{
    let texts = shown_key(codec, row).map_values(|kv: KeyValView| kv.column + "="@ + kv.value);
    assert(row_text(shown_key(codec, row)) == joined(texts, ", "@)) by {
        assert(texts =~= shown_key(codec, row).map_values(key_val_text()));
    }
    assert(Seq::new(
        codec.cols.len(),
        |i: int| codec.cols[i] + "="@ + shown(row.cells[codec.idx[i] as int]),
    ) =~= texts);
}

/// What is wrong with a scanned side is wrong with its table.
proof fn lemma_flaw_of_table(
    e: ErrorView,
    side: BatchIter,
    t: BatchIter,
    wanted: Seq<Seq<char>>,
    key: Seq<Seq<char>>,
    types: Seq<TypeShape>,
    label: Seq<char>,
    sorted: bool,
    scanned: Seq<RowView>,
    i: int,
)
    requires
        projects(side, t, wanted),
        forall|n: int| 0 <= n < wanted.len() ==> has_column(t.schema@, #[trigger] wanted[n]),
        forall|n: int| 0 <= n < key.len() ==> has_column(side.schema@, #[trigger] key[n]),
        arranged(sorted, scanned, stream_rows(side_codec(key, side.schema@, types), side.batches@)),
        is_about(e, begin(side_codec(key, side.schema@, types), label, scanned, sorted), i),
    ensures
        shows_flaw(e, label, table_rows(t), key, types, sorted),
{
    let codec = side_codec(key, side.schema@, types);
    let rows = table_rows(t);
    let f = scanned_row(wanted, key, types);
    let all = rows.map_values(f);
    lemma_scanned_rows(side, t, wanted, key, types);
    assert forall|n: int| 0 <= n < rows.len() implies key_text(codec, (#[trigger] all[n]).cells) == row_text(
        shown_key_of(key, rows[n]),
    ) && all[n].key == key_of(key, types, rows[n]) by {
        lemma_shown_key(side, t, wanted, key, types, rows[n]);
        lemma_key_text(codec, all[n]);
    }
    match e {
        ErrorView::NotUnique { columns, label: l, example } => {
            let row = scanned[i - 1];
            let p = |r: RowView| r.key == row.key;
            assert(scanned.contains(row));
            let n = if sorted {
                i - 1
            } else {
                lemma_same_rows_contains(scanned, all, row);
                choose|n: int| 0 <= n < all.len() && all[n] == row
            };
            assert(all[n] == row);
            if !sorted {
                lemma_filter_same(scanned, all, p);
                lemma_two_kept(scanned, p, i - 1, i);
            } else {
                lemma_two_kept(all, p, i - 1, i);
            }
            let m = choose|m: int| 0 <= m < all.len() && m != n && p(#[trigger] all[m]);
            if !(exists|m: int| 0 <= m < all.len() && m != n && p(#[trigger] all[m])) {
                lemma_filter_one(all, p, n);
            }
            assert(key_of(key, types, rows[n]) == key_of(key, types, rows[m]));
        },
        ErrorView::NotSorted { label: l, row, after } => {
            assert(all[i] == scanned[i] && all[i - 1] == scanned[i - 1]);
            let j = i - 1;
            assert(byte_order(key_of(key, types, rows[i]), key_of(key, types, rows[j])) < 0);
        },
        _ => {},
    }
}

/// A filter that accepts two elements keeps at least two.
proof fn lemma_two_kept<A>(s: Seq<A>, p: spec_fn(A) -> bool, i: int, j: int)
    requires
        0 <= i < j < s.len(),
        p(s[i]),
        p(s[j]),
    ensures
        s.filter(p).len() >= 2,
    decreases s.len(),
{
    reveal(Seq::filter);
    let less = s.drop_last();
    if j < s.len() - 1 {
        lemma_two_kept(less, p, i, j);
    } else {
        assert(less[i] == s[i]);
        lemma_filter_contains(less, p, s[i]);
    }
}

/// A diff by a given key that is refused for its rows is refused rightly: the
/// error names the key and a side on which two rows have the same key, and shows
/// it; or it names a side that is taken to be sorted, and shows a row whose key is
/// smaller than that of the row before it.
pub proof fn law_refusals_are_right(
    cfg: DiffConfig,
    left: BatchIter,
    right: BatchIter,
    key: Vec<String>,
    e: ErrorView,
)
    requires
        cfg.key == Some(key),
        diff_result(cfg, left, right, Err(e)),
    ensures
        ({
            let k = views(key@);
            let types = key_types(k, left.schema@, right.schema@);
            let (l, r) = (table_rows(left), table_rows(right));
            match e {
                ErrorView::NotUnique { columns, label, example } => {
                    &&& columns == k
                    &&& label == cfg.left@ && repeats_key(l, k, types, example) || label == cfg.right@
                        && repeats_key(r, k, types, example)
                },
                ErrorView::NotSorted { label, row, after } => {
                    &&& cfg.assume_sorted
                    &&& label == cfg.left@ && breaks_off(l, k, types, row, after) || label == cfg.right@
                        && breaks_off(r, k, types, row, after)
                },
                _ => true,
            }
        }),
{
    let k = views(key@);
    let schema = schema_diff(left.schema@, right.schema@);
    let comparator = Comparator { tol_abs: cfg.tol_abs, tol_rel: cfg.tol_rel };
    let mode = ModeView::Keyed { key: k, inferred: false };
    let r = Err::<ReportView, ErrorView>(e);
    if (e is NotUnique || e is NotSorted) && requested_mode(cfg, schema.mutual) == Some(
        Ok::<ModeView, ErrorView>(mode),
    ) {
        assert(mode_result(cfg, left, right, mode, r));
        let found = choose|found: SchemaDiffView| #[trigger]
            renames_found(left, right, schema, mode.key(), found) && scan_result(cfg, left, right, mode, found, r);
        let (l, m) = choose|l: BatchIter, m: BatchIter|
            {
                &&& #[trigger] projects(l, left, found.left_names())
                &&& #[trigger] projects(m, right, found.right_names())
                &&& keyed_result(l, m, k, false, found, cfg, comparator, r)
            };
        assert(keyed_missing(k, l.schema@, m.schema@, found) is None);
        let setup = keyed_setup(k, l.schema@, m.schema@, found, comparator, cfg.fail_fast);
        let (x, y) = choose|x: Seq<RowView>, y: Seq<RowView>|
            {
                &&& #[trigger] arranged(cfg.assume_sorted, x, stream_rows(setup.left, l.batches@))
                &&& #[trigger] arranged(cfg.assume_sorted, y, stream_rows(setup.right, m.batches@))
                &&& r == keyed_diff(setup, found, false, cfg, x, y)
            };
        lemma_scanned_there(left, right, k, found);
        lemma_key_there(l, m, k, found);
        lemma_key_types(l, m, left, right, found, k);
        let types = key_types(k, left.schema@, right.schema@);
        let a = begin(setup.left, cfg.left@, x, cfg.assume_sorted);
        let b = begin(setup.right, cfg.right@, y, cfg.assume_sorted);
        let (side, i) = lemma_failure_is_about(setup.rules, a, b, nothing_found(), e);
        if side {
            lemma_flaw_of_table(e, l, left, found.left_names(), k, types, cfg.left@, cfg.assume_sorted, x, i);
        } else {
            lemma_flaw_of_table(e, m, right, found.right_names(), k, types, cfg.right@, cfg.assume_sorted, y, i);
        }
    }
}

/// A diff by a given key without a limit succeeds only where no two rows of a
/// table have the same key and, where the tables are taken to be sorted, each row
/// has a greater key than those before it.
pub proof fn law_reported_rows_have_distinct_keys(
    cfg: DiffConfig,
    left: BatchIter,
    right: BatchIter,
    key: Vec<String>,
    report: ReportView,
    i: int,
    j: int,
)
    requires
        cfg.key == Some(key),
        cfg.fail_fast is None,
        diff_result(cfg, left, right, Ok(report)),
        0 <= i < j,
    ensures
        ({
            let k = views(key@);
            let types = key_types(k, left.schema@, right.schema@);
            let (l, r) = (table_rows(left), table_rows(right));
            let (x, y) = (key_of(k, types, l[i]), key_of(k, types, l[j]));
            let (z, w) = (key_of(k, types, r[i]), key_of(k, types, r[j]));
            &&& j < l.len() ==> x != y && (cfg.assume_sorted ==> byte_order(x, y) < 0)
            &&& j < r.len() ==> z != w && (cfg.assume_sorted ==> byte_order(z, w) < 0)
        }),
{
    let k = views(key@);
    let schema = schema_diff(left.schema@, right.schema@);
    let comparator = Comparator { tol_abs: cfg.tol_abs, tol_rel: cfg.tol_rel };
    assert(requested_mode(cfg, schema.mutual) == Some(
        Ok::<ModeView, ErrorView>(ModeView::Keyed { key: k, inferred: false }),
    ));
    let (l, m) = lemma_scanned(cfg, left, right, k, report);
    let found = report.schema;
    lemma_scan_of_report(l, m, k, false, found, cfg, comparator, report);
    lemma_scanned_there(left, right, k, found);
    lemma_key_there(l, m, k, found);
    lemma_key_types(l, m, left, right, found, k);
    let types = key_types(k, left.schema@, right.schema@);
    lemma_scanned_rows(l, left, found.left_names(), k, types);
    lemma_scanned_rows(m, right, found.right_names(), k, types);
    let setup = keyed_setup(k, l.schema@, m.schema@, found, comparator, None);
    let (a, b) = (stream_rows(setup.left, l.batches@), stream_rows(setup.right, m.batches@));
    if cfg.assume_sorted && !(in_order(a) && in_order(b)) {
        law_unsorted_rows_are_refused(setup, found, false, cfg, a, b);
    }
    if j < a.len() {
        assert(row_keys(a)[i] != row_keys(a)[j]);
        law_byte_order_total(a[i].key, a[j].key);
        assert(cfg.assume_sorted ==> row_order(a[i], a[j]) <= 0);
    }
    if j < b.len() {
        assert(row_keys(b)[i] != row_keys(b)[j]);
        law_byte_order_total(b[i].key, b[j].key);
        assert(cfg.assume_sorted ==> row_order(b[i], b[j]) <= 0);
    }
}

/// What is scanned of two tables in a given mode, whatever the diff comes to.
proof fn lemma_scanned_of(
    cfg: DiffConfig,
    left: BatchIter,
    right: BatchIter,
    mode: ModeView,
    r: Result<ReportView, ErrorView>,
) -> (s: (SchemaDiffView, BatchIter, BatchIter))
    requires
        mode_result(cfg, left, right, mode, r),
    ensures
        renames_found(left, right, schema_diff(left.schema@, right.schema@), mode.key(), s.0),
        projects(s.1, left, s.0.left_names()),
        projects(s.2, right, s.0.right_names()),
        match mode {
            ModeView::Keyed { key, inferred } => keyed_result(
                s.1,
                s.2,
                key,
                inferred,
                s.0,
                cfg,
                Comparator { tol_abs: cfg.tol_abs, tol_rel: cfg.tol_rel },
                r,
            ),
            ModeView::Keyless { auto } => keyless_result(s.1, s.2, auto, s.0, cfg, r),
        },
{
    let found = choose|found: SchemaDiffView| #[trigger]
        renames_found(left, right, schema_diff(left.schema@, right.schema@), mode.key(), found)
            && scan_result(cfg, left, right, mode, found, r);
    let (l, m) = choose|l: BatchIter, m: BatchIter|
        {
            &&& #[trigger] projects(l, left, found.left_names())
            &&& #[trigger] projects(m, right, found.right_names())
            &&& match mode {
                ModeView::Keyed { key, inferred } => keyed_result(
                    l,
                    m,
                    key,
                    inferred,
                    found,
                    cfg,
                    Comparator { tol_abs: cfg.tol_abs, tol_rel: cfg.tol_rel },
                    r,
                ),
                ModeView::Keyless { auto } => keyless_result(l, m, auto, found, cfg, r),
            }
        };
    (found, l, m)
}

/// A column that was picked is a column of the projection.
proof fn lemma_picked_column(l: BatchIter, t: BatchIter, wanted: Seq<Seq<char>>, name: Seq<char>)
    requires
        projects(l, t, wanted),
        forall|n: int| 0 <= n < wanted.len() ==> has_column(t.schema@, #[trigger] wanted[n]),
    ensures
        has_column(l.schema@, name) <==> wanted.contains(name),
{
    let idx = places(t.schema@, wanted);
    assert(t.schema.fields.len() <= usize::MAX);
    assert forall|c: int| 0 <= c < wanted.len() implies #[trigger] names(l.schema@)[c] == wanted[c] by {
        assert(has_column(t.schema@, wanted[c]));
        lemma_column(t.schema@, wanted[c]);
    }
    assert(names(l.schema@) =~= wanted);
    lemma_column(l.schema@, name);
    lemma_place(wanted, name);
}

/// What is compared by key is there on both sides.
proof fn lemma_key_in_scan(
    left: BatchIter,
    right: BatchIter,
    l: BatchIter,
    m: BatchIter,
    key: Seq<Seq<char>>,
    found: SchemaDiffView,
)
    requires
        projects(l, left, found.left_names()),
        projects(m, right, found.right_names()),
        forall|n: int|
            0 <= n < found.left_names().len() ==> has_column(left.schema@, #[trigger] found.left_names()[n]),
        forall|n: int|
            0 <= n < found.right_names().len() ==> has_column(right.schema@, #[trigger] found.right_names()[n]),
        forall|i: int| 0 <= i < key.len() ==> found.mutual.contains(#[trigger] key[i]),
    ensures
        keyed_missing(key, l.schema@, m.schema@, found) is None,
{
    let (ln, rn) = (found.left_names(), found.right_names());
    assert forall|name: Seq<char>| #[trigger] found.mutual.contains(name) implies has_column(l.schema@, name)
        && has_column(m.schema@, name) by {
        let i = choose|i: int| 0 <= i < found.mutual.len() && found.mutual[i] == name;
        assert(ln[i] == name && rn[i] == name);
        lemma_picked_column(l, left, ln, name);
        lemma_picked_column(m, right, rn, name);
    }
    let pairs = twice(key);
    assert forall|j: int| 0 <= j < pairs.len() implies has_column(l.schema@, (#[trigger] pairs[j]).0)
        && has_column(m.schema@, pairs[j].1) by {
        assert(found.mutual.contains(key[j]));
    }
    lemma_first_unshared(l.schema@, m.schema@, pairs, pairs.len() as int);
    let kept = found.mutual.filter(not_in(key));
    let sides = side_names(value_names(found, key));
    lemma_filter_keeps(found.mutual, not_in(key));
    assert forall|j: int| 0 <= j < sides.len() implies has_column(l.schema@, (#[trigger] sides[j]).0)
        && has_column(m.schema@, sides[j].1) by {
        if j < kept.len() {
            assert(found.mutual.contains(kept[j]));
        } else {
            let n = found.mutual.len() + (j - kept.len());
            assert(ln[n] == sides[j].0 && rn[n] == sides[j].1);
            lemma_picked_column(l, left, ln, sides[j].0);
            lemma_picked_column(m, right, rn, sides[j].1);
        }
    }
    lemma_first_unshared(l.schema@, m.schema@, sides, sides.len() as int);
}

/// No name is outside a list that has them all.
proof fn lemma_none_outside_all(list: Seq<Seq<char>>, wanted: Seq<Seq<char>>)
    requires
        forall|i: int| 0 <= i < wanted.len() ==> list.contains(#[trigger] wanted[i]),
    ensures
        first_outside(list, wanted) is None,
    decreases wanted.len(),
{
    if wanted.len() > 0 {
        let rest = wanted.drop_first();
        assert(list.contains(wanted[0]));
        assert forall|i: int| 0 <= i < rest.len() implies list.contains(#[trigger] rest[i]) by {
            assert(rest[i] == wanted[i + 1]);
        }
        lemma_none_outside_all(list, rest);
    }
}

/// Rows with distinct keys are scanned with distinct keys.
proof fn lemma_distinct_rows(
    rows: Seq<Map<Seq<char>, Held>>,
    wanted: Seq<Seq<char>>,
    key: Seq<Seq<char>>,
    types: Seq<TypeShape>,
)
    requires
        has_distinct_keys(rows, key, types),
    ensures
        row_keys(rows.map_values(scanned_row(wanted, key, types))).no_duplicates(),
{
    let keys = row_keys(rows.map_values(scanned_row(wanted, key, types)));
    assert forall|i: int, j: int| 0 <= i < keys.len() && 0 <= j < keys.len() && i != j implies keys[i] != keys[j] by {
        if i < j {
            assert(key_of(key, types, rows[i]) != key_of(key, types, rows[j]));
        } else {
            assert(key_of(key, types, rows[j]) != key_of(key, types, rows[i]));
        }
    }
}

/// No two rows have the same key.
pub open spec fn has_distinct_keys(
    rows: Seq<Map<Seq<char>, Held>>,
    key: Seq<Seq<char>>,
    types: Seq<TypeShape>,
) -> bool {
    forall|i: int, j: int|
        0 <= i < j < rows.len() ==> key_of(key, types, #[trigger] rows[i]) != key_of(key, types, #[trigger] rows[j])
}

/// A diff by a key that both tables have succeeds where no two rows of a table
/// have the same key and the tables are not taken to be sorted.
pub proof fn law_distinct_keys_are_not_refused(
    cfg: DiffConfig,
    left: BatchIter,
    right: BatchIter,
    key: Vec<String>,
    r: Result<ReportView, ErrorView>,
)
    requires
        diff_result(cfg, left, right, r),
        cfg.key == Some(key),
        key@.len() > 0,
        !cfg.keyless,
        !cfg.assume_sorted,
        cfg.fail_fast is None,
        forall|i: int|
            0 <= i < key@.len() ==> names_column(left.schema@, (#[trigger] key@[i])@) && names_column(
                right.schema@,
                key@[i]@,
            ),
        has_distinct_keys(
            table_rows(left),
            views(key@),
            key_types(views(key@), left.schema@, right.schema@),
        ),
        has_distinct_keys(
            table_rows(right),
            views(key@),
            key_types(views(key@), left.schema@, right.schema@),
        ),
    ensures
        r is Ok,
{
    let k = views(key@);
    let (lf, rf) = (left.schema@, right.schema@);
    let schema = schema_diff(lf, rf);
    let comparator = Comparator { tol_abs: cfg.tol_abs, tol_rel: cfg.tol_rel };
    assert forall|i: int| 0 <= i < k.len() implies schema.mutual.contains(#[trigger] k[i]) by {
        assert(names_column(lf, key@[i]@) && names_column(rf, key@[i]@));
        lemma_names_column(lf, k[i]);
        lemma_names_column(rf, k[i]);
        law_schema_columns_are_classified(lf, rf, k[i]);
    }
    assert(schema.mutual.contains(k[0]));
    lemma_none_outside_all(schema.mutual, k);
    let mode = ModeView::Keyed { key: k, inferred: false };
    let (found, l, m) = lemma_scanned_of(cfg, left, right, mode, r);
    lemma_scanned_there(left, right, k, found);
    lemma_found(left, right, mode.key(), found);
    lemma_key_in_scan(left, right, l, m, k, found);
    lemma_key_there(l, m, k, found);
    lemma_key_types(l, m, left, right, found, k);
    let types = key_types(k, lf, rf);
    lemma_scanned_rows(l, left, found.left_names(), k, types);
    lemma_scanned_rows(m, right, found.right_names(), k, types);
    lemma_distinct_rows(table_rows(left), found.left_names(), k, types);
    lemma_distinct_rows(table_rows(right), found.right_names(), k, types);
    law_keyed_diff_needs_distinct_keys(l, m, k, false, found, cfg, comparator, r);
}

/// The column that a diff by content adds to the tables.
pub open spec fn added_column() -> Seq<char> {
    seq!['_', '_', 't', 'a', 'b', 'd', 'i', 'f', 'f', '_', 'r', 'o', 'w', '_', 'h', 'a', 's', 'h']
}

/// A diff by content that nothing contradicts succeeds where the tables share a
/// column and none has a column of the name that is added to them; where both have
/// one of that name, it is refused.
pub proof fn law_diffs_by_content_succeed(
    cfg: DiffConfig,
    left: BatchIter,
    right: BatchIter,
    r: Result<ReportView, ErrorView>,
    name: Seq<char>,
)
    requires
        diff_result(cfg, left, right, r),
        cfg.keyless,
        cfg.key is None,
        cfg.tol_abs is None,
        cfg.tol_rel is None,
        !cfg.assume_sorted,
        names_column(left.schema@, name),
        names_column(right.schema@, name),
    ensures
        !names_column(left.schema@, added_column()) && !names_column(right.schema@, added_column()) ==> r is Ok,
        name == added_column() ==> r == Err::<ReportView, ErrorView>(ErrorView::HashColumnTaken),
{
    let (lf, rf) = (left.schema@, right.schema@);
    let schema = schema_diff(lf, rf);
    lemma_names_column(lf, name);
    lemma_names_column(rf, name);
    law_schema_columns_are_classified(lf, rf, name);
    assert(schema.mutual.contains(name));
    let mode = ModeView::Keyless { auto: false };
    let (found, l, m) = lemma_scanned_of(cfg, left, right, mode, r);
    lemma_found(left, right, mode.key(), found);
    lemma_scanned_columns(left, right, mode.key(), found);
    let (ln, rn) = (found.left_names(), found.right_names());
    lemma_none_missing(lf, ln);
    lemma_none_missing(rf, rn);
    reveal_strlit("__tabdiff_row_hash");
    assert(HASH_COL@ =~= added_column());
    let added = added_column();
    lemma_names_column(lf, added);
    lemma_names_column(rf, added);
    lemma_picked_column(l, left, ln, added);
    lemma_picked_column(m, right, rn, added);
    lemma_all_there(l, left, ln);
    lemma_all_there(m, right, rn);
    if name == added {
        let i = choose|i: int| 0 <= i < found.mutual.len() && found.mutual[i] == name;
        assert(ln[i] == name);
    }
    if ln.contains(added) {
        let i = choose|i: int| 0 <= i < ln.len() && ln[i] == added;
        assert(has_column(lf, ln[i]));
    }
    if rn.contains(added) {
        let i = choose|i: int| 0 <= i < rn.len() && rn[i] == added;
        assert(has_column(rf, rn[i]));
    }
}

/// No picked column is missing.
proof fn lemma_all_there(l: BatchIter, t: BatchIter, wanted: Seq<Seq<char>>)
    requires
        projects(l, t, wanted),
        forall|n: int| 0 <= n < wanted.len() ==> has_column(t.schema@, #[trigger] wanted[n]),
    ensures
        first_missing(l.schema@, wanted) is None,
{
    assert forall|n: int| 0 <= n < wanted.len() implies has_column(l.schema@, #[trigger] wanted[n]) by {
        lemma_picked_column(l, t, wanted, wanted[n]);
    }
    lemma_first_missing(l.schema@, wanted, wanted.len() as int);
}

} // verus!
