//! What keyed reports say of rows: which columns changed how often, and which
//! rows are shown.

use crate::diff_laws::lemma_renamed_columns;
use crate::error::ErrorView;
use crate::input::{is_sample, projects, BatchIter, Table};
use crate::keyed_laws::{ascending, classified, has_match, has_no_match, is_changed, lemma_filter_agree, lemma_filter_same, lemma_match_same_rows, lemma_modified_rows, lemma_scan_of_report, paired, row_keys};
use crate::merge::lemma_same_rows_contains;
use crate::order_laws::{altered, compared, key_of, lemma_altered, lemma_filter_contains, lemma_filter_mapped, lemma_found, lemma_key_there, lemma_key_types, lemma_projected_column, lemma_scanned, lemma_scanned_rows, lemma_scanned_there, lemma_unmatched, rows_differ, scanned_row, table_rows, unmatched, Held};
use crate::plan::{diff_result, lemma_mutual_shared, renames_found, requested_mode, sampled_names, ModeView};
use crate::plan_laws::renamed_pairs;
use crate::rename::{desc_names, detected_renames, law_renames_pair_close_columns, left_sides, with_renames, SAMPLE_ROWS};
use crate::rename_laws::lemma_filter_no_duplicates;
use crate::report::{count_of, law_bumping_counts_one_column, lemma_text_order_total, well_counted, CellChangeView, CountView, KeyValView, ModifiedView, ReportView, SampleView};
use crate::row_diff::{change, changes, column_tally, count_changes, differs, first, is_modified, keyed_missing, keyed_setup, modified, modified_sample, not_in, renamed_names, shown_key, side_names, value_names, KeyedRules, ValueColView};
use crate::schema::{column, has_column, lemma_all_shared, names, FieldShape, TypeShape};
use crate::schema_diff::{law_schema_columns_are_classified, lemma_filter_keeps, lemma_filter_none, present_in, schema_diff, DescView, RenameView, SchemaDiffView};
use crate::sort::{key_types, row_order, same_rows, side_codec, stream_rows, RowView};
use crate::text::{byte_order, law_byte_order_total, lemma_place, place, text_order, views};
use crate::value::{cells_match, shown, shown_typed, Comparator};
use crate::DiffConfig;
use vstd::prelude::*;

verus! {

/// In how many columns of a name two rows differ.
pub open spec fn changed_cells(rules: KeyedRules, p: (RowView, RowView), name: Seq<char>) -> nat {
    rules.cols.filter(
        |c: ValueColView|
            c.name == name && !cells_match(rules.comparator, p.0.cells[c.left], p.1.cells[c.right]),
    ).len()
}

/// How many cells under a name changed among matched rows.
pub open spec fn all_changed_cells(rules: KeyedRules, matched: Seq<(RowView, RowView)>, name: Seq<char>) -> nat
    decreases matched.len(),
{
    if matched.len() == 0 {
        0
    } else {
        all_changed_cells(rules, matched.drop_last(), name) + changed_cells(rules, matched.last(), name)
    }
}

/// Filtering twice is filtering by both.
pub proof fn lemma_filter_twice<A>(s: Seq<A>, p: spec_fn(A) -> bool, q: spec_fn(A) -> bool, both: spec_fn(A) -> bool)
    requires
        forall|a: A| #[trigger] both(a) == (p(a) && q(a)),
    ensures
        s.filter(p).filter(q) == s.filter(both),
    decreases s.len(),
{
    reveal(Seq::filter);
    if s.len() > 0 {
        let less = s.drop_last();
        lemma_filter_twice(less, p, q, both);
        assert(both(s.last()) == (p(s.last()) && q(s.last())));
        if p(s.last()) {
            let f = less.filter(p).push(s.last());
            assert(f.drop_last() =~= less.filter(p));
        }
    }
}

/// Counting changes raises each column's count by the number of its changes.
proof fn lemma_count_changes(counts: Seq<CountView>, found: Seq<CellChangeView>, name: Seq<char>)
    requires
        well_counted(counts),
    ensures
        well_counted(count_changes(counts, found)),
        count_of(count_changes(counts, found), name) == count_of(counts, name) + found.filter(
            |c: CellChangeView| c.column == name,
        ).len(),
    decreases found.len(),
{
    reveal(Seq::filter);
    if found.len() > 0 {
        let less = found.drop_last();
        lemma_count_changes(counts, less, name);
        law_bumping_counts_one_column(count_changes(counts, less), found.last().column, name);
    }
}

proof fn lemma_tally(rules: KeyedRules, matched: Seq<(RowView, RowView)>, name: Seq<char>)
    ensures
        well_counted(column_tally(rules, matched)),
        count_of(column_tally(rules, matched), name) == all_changed_cells(rules, matched, name),
    decreases matched.len(),
{
    if matched.len() > 0 {
        let p = matched.last();
        let before = column_tally(rules, matched.drop_last());
        lemma_tally(rules, matched.drop_last(), name);
        lemma_count_changes(before, changes(rules, p.0, p.1), name);
        let d = differs(rules.comparator, p.0, p.1);
        let named = |c: ValueColView| c.name == name;
        let both = |c: ValueColView|
            c.name == name && !cells_match(rules.comparator, p.0.cells[c.left], p.1.cells[c.right]);
        lemma_filter_mapped(
            rules.cols.filter(d),
            change(p.0, p.1),
            |c: CellChangeView| c.column == name,
            named,
        );
        lemma_filter_twice(rules.cols, d, named, both);
    }
}

/// An entry says what its column counts, and a column that counts has an entry.
proof fn lemma_entries(counts: Seq<CountView>, name: Seq<char>)
    requires
        well_counted(counts),
    ensures
        forall|i: int|
            0 <= i < counts.len() && (#[trigger] counts[i]).column == name ==> counts[i].count == count_of(
                counts,
                name,
            ),
        count_of(counts, name) > 0 <==> exists|i: int|
            0 <= i < counts.len() && (#[trigger] counts[i]).column == name,
    decreases counts.len(),
{
    if counts.len() > 0 {
        let rest = counts.drop_first();
        assert forall|i: int, j: int| 0 <= i < j < rest.len() implies text_order(
            (#[trigger] rest[i]).column,
            (#[trigger] rest[j]).column,
        ) < 0 by {
            assert(text_order(counts[i + 1].column, counts[j + 1].column) < 0);
        }
        assert forall|i: int| 0 <= i < rest.len() implies (#[trigger] rest[i]).count > 0 by {
            assert(counts[i + 1].count > 0);
        }
        lemma_entries(rest, name);
        assert(counts[0].count > 0);
        assert forall|i: int| 0 <= i < counts.len() && (#[trigger] counts[i]).column == name implies counts[i].count
            == count_of(counts, name) by {
            if i > 0 {
                assert(text_order(counts[0].column, counts[i].column) < 0);
                lemma_text_order_total(counts[0].column, counts[i].column);
                assert(rest[i - 1].column == name);
            }
        }
        if exists|i: int| 0 <= i < rest.len() && (#[trigger] rest[i]).column == name {
            let i = choose|i: int| 0 <= i < rest.len() && (#[trigger] rest[i]).column == name;
            assert(counts[i + 1].column == name);
        }
        if exists|i: int| 0 <= i < counts.len() && (#[trigger] counts[i]).column == name {
            let i = choose|i: int| 0 <= i < counts.len() && (#[trigger] counts[i]).column == name;
            if i > 0 {
                assert(rest[i - 1].column == name);
            }
        }
    }
}

/// The tally of changed columns has an entry for each name under which a cell
/// changed, in the order of the names, and each entry counts every changed cell
/// of every matched pair of rows.
pub proof fn law_every_changed_cell_is_tallied(rules: KeyedRules, matched: Seq<(RowView, RowView)>, name: Seq<char>)
    ensures
        ({
            let tally = column_tally(rules, matched);
            &&& forall|i: int|
                0 <= i < tally.len() && (#[trigger] tally[i]).column == name ==> tally[i].count
                    == all_changed_cells(rules, matched, name)
            &&& all_changed_cells(rules, matched, name) > 0 <==> exists|i: int|
                0 <= i < tally.len() && (#[trigger] tally[i]).column == name
            &&& forall|i: int, j: int|
                0 <= i < j < tally.len() ==> text_order(
                    (#[trigger] tally[i]).column,
                    (#[trigger] tally[j]).column,
                ) < 0
        }),
{
    lemma_tally(rules, matched, name);
    lemma_entries(column_tally(rules, matched), name);
}

/// The rules for one of the compared columns alone.
spec fn for_one(rules: KeyedRules, c: ValueColView) -> KeyedRules {
    KeyedRules { cols: seq![c], ..rules }
}

/// A column that is the only one of its name counts once for each pair that
/// differs in it.
proof fn lemma_one_column(rules: KeyedRules, matched: Seq<(RowView, RowView)>, i: int)
    requires
        0 <= i < rules.cols.len(),
        forall|j: int| 0 <= j < rules.cols.len() && j != i ==> (#[trigger] rules.cols[j]).name != rules.cols[i].name,
    ensures
        all_changed_cells(rules, matched, rules.cols[i].name) == matched.filter(
            is_modified(for_one(rules, rules.cols[i])),
        ).len(),
    decreases matched.len(),
{
    let c = rules.cols[i];
    reveal(Seq::filter);
    if matched.len() > 0 {
        lemma_one_column(rules, matched.drop_last(), i);
        let p = matched.last();
        let both = |d: ValueColView|
            d.name == c.name && !cells_match(rules.comparator, p.0.cells[d.left], p.1.cells[d.right]);
        lemma_filter_one(rules.cols, both, i);
        lemma_one_change(rules, c, p);
    }
}

proof fn lemma_one_change(rules: KeyedRules, c: ValueColView, p: (RowView, RowView))
    ensures
        is_modified(for_one(rules, c))(p) <==> !cells_match(
            rules.comparator,
            p.0.cells[c.left],
            p.1.cells[c.right],
        ),
{
    reveal(Seq::filter);
    let one = seq![c];
    assert(one.drop_last() =~= seq![]);
    assert(one.drop_last().filter(differs(rules.comparator, p.0, p.1)) =~= seq![]);
    assert(one.last() == c);
}

/// A filter that rejects all but one element keeps that one or nothing.
pub proof fn lemma_filter_one<A>(s: Seq<A>, p: spec_fn(A) -> bool, i: int)
    requires
        0 <= i < s.len(),
        forall|j: int| 0 <= j < s.len() && j != i ==> !p(#[trigger] s[j]),
    ensures
        s.filter(p).len() == if p(s[i]) {
            1nat
        } else {
            0nat
        },
    decreases s.len(),
{
    reveal(Seq::filter);
    let less = s.drop_last();
    if i == s.len() - 1 {
        assert forall|j: int| 0 <= j < less.len() implies !p(less[j]) by {
            assert(!p(s[j]));
        }
        lemma_filter_none(less, p);
    } else {
        assert forall|j: int| 0 <= j < less.len() && j != i implies !p(#[trigger] less[j]) by {
            assert(!p(s[j]));
        }
        lemma_filter_one(less, p, i);
        assert(!p(s[s.len() - 1]));
    }
}

/// The name that a compared column is reported under: its own, or both of its
/// names with an arrow between them.
pub open spec fn reported_name(p: (Seq<char>, Seq<char>)) -> Seq<char> {
    if p.0 == p.1 {
        p.0
    } else {
        p.0 + seq!['→'] + p.1
    }
}

/// No two columns of a schema have the same name.
pub open spec fn distinct_names(fields: Seq<FieldShape>) -> bool {
    forall|i: int, j: int|
        0 <= i < j < fields.len() ==> (#[trigger] fields[i]).name != (#[trigger] fields[j]).name
}

/// The names of the renamed columns are distinct on the left, and none is on the
/// right.
proof fn lemma_renamed_distinct(
    left: BatchIter,
    right: BatchIter,
    key: Seq<Seq<char>>,
    found: SchemaDiffView,
)
    requires
        renames_found(left, right, schema_diff(left.schema@, right.schema@), Some(key), found),
    ensures
        left_sides(found.renamed).no_duplicates(),
        forall|i: int|
            0 <= i < found.renamed.len() ==> (#[trigger] found.renamed[i]).left != found.renamed[i].right,
{
    let d = schema_diff(left.schema@, right.schema@);
    lemma_renamed_columns(left, right, Some(key), found);
    assert forall|i: int| 0 <= i < found.renamed.len() implies (#[trigger] found.renamed[i]).left
        != found.renamed[i].right by {
        let c = found.renamed[i];
        law_schema_columns_are_classified(left.schema@, right.schema@, c.left);
        law_schema_columns_are_classified(left.schema@, right.schema@, c.right);
        assert(desc_names(d.removed) =~= d.removed.map_values(
            |c: DescView| c.name,
        ));
        assert(desc_names(d.added) =~= d.added.map_values(
            |c: DescView| c.name,
        ));
    }
    if d.added.len() > 0 && d.removed.len() > 0 {
        let (l, m) = choose|l: Table, m: Table|
            {
                &&& #[trigger] is_sample(
                    l,
                    left,
                    sampled_names(Some(key), d.removed),
                    SAMPLE_ROWS as nat,
                )
                &&& #[trigger] is_sample(
                    m,
                    right,
                    sampled_names(Some(key), d.added),
                    SAMPLE_ROWS as nat,
                )
                &&& found == with_renames(d, detected_renames(d, l, m, Some(key)))
            };
        law_renames_pair_close_columns(d, l, m, Some(key));
        assert(found.renamed =~= detected_renames(d, l, m, Some(key)));
    }
}

/// The compared columns, by their places in the rules: under which names they
/// are on the two sides, and under which name they are reported.
proof fn lemma_compared_columns(
    left: BatchIter,
    right: BatchIter,
    l: BatchIter,
    m: BatchIter,
    key: Seq<Seq<char>>,
    found: SchemaDiffView,
    comparator: Comparator,
)
    requires
        renames_found(left, right, schema_diff(left.schema@, right.schema@), Some(key), found),
        projects(l, left, found.left_names()),
        projects(m, right, found.right_names()),
        keyed_missing(key, l.schema@, m.schema@, found) is None,
    ensures
        ({
            let cols = keyed_setup(key, l.schema@, m.schema@, found, comparator, None).rules.cols;
            let sides = side_names(value_names(found, key));
            let columns = compared(left.schema@, right.schema@, key, found.renamed);
            &&& cols.len() == sides.len()
            &&& forall|i: int|
                0 <= i < sides.len() ==> {
                    &&& columns.contains(#[trigger] sides[i])
                    &&& cols[i].name == reported_name(sides[i])
                    &&& 0 <= cols[i].left < found.left_names().len()
                    &&& 0 <= cols[i].right < found.right_names().len()
                    &&& found.left_names()[cols[i].left] == sides[i].0
                    &&& found.right_names()[cols[i].right] == sides[i].1
                }
            &&& forall|p: (Seq<char>, Seq<char>)| #[trigger] columns.contains(p) ==> sides.contains(p)
        }),
{
    let wanted = found.mutual;
    let cols = keyed_setup(key, l.schema@, m.schema@, found, comparator, None).rules.cols;
    let columns = compared(left.schema@, right.schema@, key, found.renamed);
    let kept = wanted.filter(not_in(key));
    let pairs = renamed_pairs(found.renamed);
    let all = value_names(found, key);
    let sides = side_names(all);
    let n = kept.len() as int;
    lemma_found(left, right, Some(key), found);
    lemma_mutual_shared(left.schema@, right.schema@);
    lemma_scanned_there(left, right, key, found);
    lemma_renamed_distinct(left, right, key, found);
    lemma_filter_keeps(wanted, not_in(key));
    assert(left.schema.fields.len() <= usize::MAX);
    assert(right.schema.fields.len() <= usize::MAX);
    reveal_strlit("→");
    assert("→"@ =~= seq!['→']);
    assert forall|i: int| 0 <= i < sides.len() implies {
        &&& columns.contains(#[trigger] sides[i])
        &&& cols[i].name == reported_name(sides[i])
        &&& 0 <= cols[i].left < found.left_names().len()
        &&& 0 <= cols[i].right < found.right_names().len()
        &&& found.left_names()[cols[i].left] == sides[i].0
        &&& found.right_names()[cols[i].right] == sides[i].1
    } by {
        let (ln, rn) = sides[i];
        lemma_all_shared(l.schema@, m.schema@, sides, i);
        lemma_projected_column(left.schema@, found.left_names(), ln);
        lemma_projected_column(right.schema@, found.right_names(), rn);
        if i < n {
            assert(all[i].left == kept[i] && all[i].right == kept[i] && all[i].shown == kept[i]);
            assert(not_in(key)(kept[i]));
            let j = choose|j: int| 0 <= j < wanted.len() && wanted[j] == kept[i];
            assert(has_column(right.schema@, kept[i]));
        } else {
            let r = found.renamed[i - n];
            assert(all[i] == renamed_names(found.renamed)[i - n]);
            assert(pairs[i - n] == (r.left, r.right));
            assert(pairs.contains(pairs[i - n]));
            assert(r.left != r.right);
        }
    }
    assert forall|p: (Seq<char>, Seq<char>)| #[trigger] columns.contains(p) implies sides.contains(p) by {
        if pairs.contains(p) {
            let i = choose|i: int| 0 <= i < pairs.len() && pairs[i] == p;
            assert(all[n + i] == renamed_names(found.renamed)[i]);
            assert(sides[n + i] == p);
        } else {
            law_schema_columns_are_classified(left.schema@, right.schema@, p.0);
            assert(wanted.contains(p.0));
            assert(not_in(key)(p.0));
            lemma_filter_contains(wanted, not_in(key), p.0);
            let i = choose|i: int| 0 <= i < kept.len() && kept[i] == p.0;
            assert(all[i].left == kept[i] && all[i].right == kept[i]);
            assert(sides[i] == p);
        }
    }
}

/// A compared column is listed once where the left table's names are distinct.
proof fn lemma_listed_once(
    left: BatchIter,
    right: BatchIter,
    key: Seq<Seq<char>>,
    found: SchemaDiffView,
    i: int,
    j: int,
)
    requires
        renames_found(left, right, schema_diff(left.schema@, right.schema@), Some(key), found),
        distinct_names(left.schema@),
        0 <= i < side_names(value_names(found, key)).len(),
        0 <= j < side_names(value_names(found, key)).len(),
        side_names(value_names(found, key))[i] == side_names(value_names(found, key))[j],
    ensures
        i == j,
{
    let wanted = found.mutual;
    let kept = wanted.filter(not_in(key));
    let all = value_names(found, key);
    let sides = side_names(all);
    let n = kept.len() as int;
    lemma_found(left, right, Some(key), found);
    lemma_renamed_distinct(left, right, key, found);
    assert forall|k: int| 0 <= k < sides.len() implies (k < n ==> sides[k] == (kept[k], kept[k])) && (k >= n
        ==> sides[k].0 == left_sides(found.renamed)[k - n] && sides[k].0 != sides[k].1) by {
        if k < n {
            assert(all[k].left == kept[k] && all[k].right == kept[k]);
        } else {
            assert(all[k] == renamed_names(found.renamed)[k - n]);
            assert(found.renamed[k - n].left != found.renamed[k - n].right);
        }
    }
    if i != j && i < n && j < n {
        let both = left.schema@.filter(present_in(right.schema@));
        lemma_filter_distinct(left.schema@, present_in(right.schema@));
        assert(wanted == names(both));
        assert(wanted.no_duplicates());
        lemma_filter_no_duplicates(wanted, not_in(key));
        assert(kept[i] == kept[j]);
    }
}

proof fn lemma_filter_distinct(fields: Seq<FieldShape>, p: spec_fn(FieldShape) -> bool)
    requires
        distinct_names(fields),
    ensures
        names(fields.filter(p)).no_duplicates(),
    decreases fields.len(),
{
    reveal(Seq::filter);
    if fields.len() > 0 {
        let less = fields.drop_last();
        assert(distinct_names(less)) by {
            assert forall|i: int, j: int| 0 <= i < j < less.len() implies (#[trigger] less[i]).name != (
            #[trigger] less[j]).name by {
                assert(fields[i].name != fields[j].name);
            }
        }
        lemma_filter_distinct(less, p);
        lemma_filter_keeps(less, p);
        let f = less.filter(p);
        if p(fields.last()) {
            let now = fields.filter(p);
            assert(names(now) =~= names(f).push(fields.last().name));
            assert forall|i: int| 0 <= i < f.len() implies names(f)[i] != fields.last().name by {
                assert(less.contains(f[i]));
                let j = choose|j: int| 0 <= j < less.len() && less[j] == f[i];
                assert(fields[j].name != fields[fields.len() - 1].name);
            }
        }
    }
}

/// What a diff by a given key without a limit counts for a compared column: as
/// many rows as differ in it from the row of the other table with their key. It
/// is listed under its name, or under both of its names where it was renamed, and
/// not at all where no row differs in it. Left out are tables in which a column
/// cannot be told by the name that it is reported under.
pub proof fn law_changed_columns_are_counted(
    cfg: DiffConfig,
    left: BatchIter,
    right: BatchIter,
    key: Vec<String>,
    report: ReportView,
    p: (Seq<char>, Seq<char>),
)
    requires
        cfg.key == Some(key),
        cfg.fail_fast is None,
        diff_result(cfg, left, right, Ok(report)),
        compared(left.schema@, right.schema@, views(key@), report.schema.renamed).contains(p),
        distinct_names(left.schema@),
        forall|q: (Seq<char>, Seq<char>)| #[trigger]
            compared(left.schema@, right.schema@, views(key@), report.schema.renamed).contains(q) && q != p
                ==> reported_name(q) != reported_name(p),
    ensures
        ({
            let k = views(key@);
            let types = key_types(k, left.schema@, right.schema@);
            let comparator = Comparator { tol_abs: cfg.tol_abs, tol_rel: cfg.tol_rel };
            let n = table_rows(left).filter(
                altered(set![p], comparator, k, types, table_rows(right)),
            ).len();
            let listed = report.columns_changed;
            &&& n > 0 <==> exists|i: int|
                0 <= i < listed.len() && (#[trigger] listed[i]).column == reported_name(p)
            &&& forall|i: int|
                0 <= i < listed.len() && (#[trigger] listed[i]).column == reported_name(p) ==> listed[i].count
                    == n
        }),
{
    let k = views(key@);
    let schema = schema_diff(left.schema@, right.schema@);
    let comparator = Comparator { tol_abs: cfg.tol_abs, tol_rel: cfg.tol_rel };
    let found = report.schema;
    assert(requested_mode(cfg, schema.mutual) == Some(
        Ok::<ModeView, ErrorView>(ModeView::Keyed { key: k, inferred: false }),
    ));
    let (l, m) = lemma_scanned(cfg, left, right, k, report);
    let (x, y) = lemma_scan_of_report(l, m, k, false, found, cfg, comparator, report);
    let setup = keyed_setup(k, l.schema@, m.schema@, found, comparator, None);
    let sides = side_names(value_names(found, k));
    lemma_compared_columns(left, right, l, m, k, found, comparator);
    assert(sides.contains(p));
    let i = choose|i: int| 0 <= i < sides.len() && sides[i] == p;
    let c = setup.rules.cols[i];
    assert(c.name == reported_name(sides[i]));
    assert forall|j: int| 0 <= j < sides.len() && j != i implies (#[trigger] setup.rules.cols[j]).name != c.name by {
        assert(setup.rules.cols[j].name == reported_name(sides[j]));
        if sides[j] == p {
            lemma_listed_once(left, right, k, found, i, j);
        }
    }
    let matched = classified(x, y).matched;
    let rules = for_one(setup.rules, c);
    law_every_changed_cell_is_tallied(setup.rules, matched, c.name);
    lemma_one_column(setup.rules, matched, i);
    lemma_modified_rows(rules, x, y);
    let (lrows, rrows) = (stream_rows(setup.left, l.batches@), stream_rows(setup.right, m.batches@));
    assert forall|n: int| 0 <= n < x.len() implies is_changed(rules, y)(#[trigger] x[n]) == is_changed(
        rules,
        rrows,
    )(x[n]) by {
        lemma_match_same_rows(y, rrows, x[n]);
    }
    lemma_filter_agree(x, is_changed(rules, y), is_changed(rules, rrows));
    lemma_filter_same(x, lrows, is_changed(rules, rrows));
    lemma_altered_in_one(left, right, l, m, k, found, comparator, i);
}

/// As many scanned rows are changed in one column as rows of the table differ in
/// it.
proof fn lemma_altered_in_one(
    left: BatchIter,
    right: BatchIter,
    l: BatchIter,
    m: BatchIter,
    key: Seq<Seq<char>>,
    found: SchemaDiffView,
    comparator: Comparator,
    i: int,
)
    requires
        renames_found(left, right, schema_diff(left.schema@, right.schema@), Some(key), found),
        projects(l, left, found.left_names()),
        projects(m, right, found.right_names()),
        keyed_missing(key, l.schema@, m.schema@, found) is None,
        0 <= i < side_names(value_names(found, key)).len(),
        ({
            let setup = keyed_setup(key, l.schema@, m.schema@, found, comparator, None);
            row_keys(stream_rows(setup.right, m.batches@)).no_duplicates()
        }),
    ensures
        ({
            let setup = keyed_setup(key, l.schema@, m.schema@, found, comparator, None);
            let types = key_types(key, left.schema@, right.schema@);
            let p = side_names(value_names(found, key))[i];
            stream_rows(setup.left, l.batches@).filter(
                is_changed(
                    for_one(setup.rules, setup.rules.cols[i]),
                    stream_rows(setup.right, m.batches@),
                ),
            ).len() == table_rows(left).filter(
                altered(set![p], comparator, key, types, table_rows(right)),
            ).len()
        }),
{
    let setup = keyed_setup(key, l.schema@, m.schema@, found, comparator, None);
    let (ln, rn) = (found.left_names(), found.right_names());
    let (a, b) = (table_rows(left), table_rows(right));
    let p = side_names(value_names(found, key))[i];
    let c = setup.rules.cols[i];
    let rules = for_one(setup.rules, c);
    lemma_compared_columns(left, right, l, m, key, found, comparator);
    lemma_scanned_there(left, right, key, found);
    lemma_key_there(l, m, key, found);
    lemma_key_types(l, m, left, right, found, key);
    let types = key_types(key, left.schema@, right.schema@);
    let f = scanned_row(ln, key, types);
    let g = scanned_row(rn, key, types);
    lemma_scanned_rows(l, left, ln, key, types);
    lemma_scanned_rows(m, right, rn, key, types);
    let y = b.map_values(g);
    assert(compared(left.schema@, right.schema@, key, found.renamed).contains(
        side_names(value_names(found, key))[i],
    ));
    assert forall|n: int| 0 <= n < a.len() implies is_changed(rules, y)(f(#[trigger] a[n])) == altered(
        set![p],
        comparator,
        key,
        types,
        b,
    )(a[n]) by {
        let h = a[n];
        lemma_unmatched(b, rn, ln, key, types, h);
        lemma_place(row_keys(y), f(h).key);
        if has_match(y)(f(h)) {
            let j = place(row_keys(y), f(h).key);
            assert(row_keys(y)[j] == f(h).key);
            assert(y[j] == g(b[j]));
            lemma_one_change(setup.rules, c, (f(h), g(b[j])));
            assert(f(h).cells[c.left] == h[p.0].cell);
            assert(g(b[j]).cells[c.right] == b[j][p.1].cell);
            assert(set![p].contains(p));
            assert(rows_differ(set![p], comparator, h, b[j]) <==> !cells_match(
                comparator,
                h[p.0].cell,
                b[j][p.1].cell,
            ));
            assert forall|q: int| 0 <= q < b.len() && key_of(key, types, #[trigger] b[q]) == key_of(key, types, h)
                implies q == j by {
                assert(row_keys(y)[q] == row_keys(y)[j]);
            }
        }
    }
    lemma_filter_mapped(a, f, is_changed(rules, y), altered(set![p], comparator, key, types, b));
}

/// The key of a row as it is shown: the key columns with the texts of the cells.
pub open spec fn shown_key_of(key: Seq<Seq<char>>, h: Map<Seq<char>, Held>) -> Seq<KeyValView> {
    Seq::new(key.len(), |c: int| KeyValView { column: key[c], value: shown(h[key[c]].cell) })
}

/// Where in a table rows come from that were scanned of it.
proof fn lemma_rows_of(
    all: Seq<Map<Seq<char>, Held>>,
    f: spec_fn(Map<Seq<char>, Held>) -> RowView,
    rows: Seq<RowView>,
) -> (at: Seq<int>)
    requires
        forall|i: int| 0 <= i < rows.len() ==> all.map_values(f).contains(#[trigger] rows[i]),
        rows.no_duplicates(),
    ensures
        at.len() == rows.len(),
        at.no_duplicates(),
        forall|i: int| 0 <= i < at.len() ==> 0 <= #[trigger] at[i] < all.len() && f(all[at[i]]) == rows[i],
{
    let at = Seq::new(
        rows.len(),
        |i: int| choose|n: int| 0 <= n < all.len() && f(#[trigger] all[n]) == rows[i],
    );
    assert forall|i: int| 0 <= i < at.len() implies 0 <= #[trigger] at[i] < all.len() && f(all[at[i]])
        == rows[i] by {
        assert(all.map_values(f).contains(rows[i]));
        let n = choose|n: int| 0 <= n < all.map_values(f).len() && all.map_values(f)[n] == rows[i];
        assert(f(all[n]) == rows[i]);
    }
    at
}

/// The shown key of a scanned row is that of the row it was scanned of.
pub proof fn lemma_shown_key(
    side: BatchIter,
    t: BatchIter,
    wanted: Seq<Seq<char>>,
    key: Seq<Seq<char>>,
    types: Seq<TypeShape>,
    h: Map<Seq<char>, Held>,
)
    requires
        projects(side, t, wanted),
        forall|i: int| 0 <= i < wanted.len() ==> has_column(t.schema@, #[trigger] wanted[i]),
        forall|i: int| 0 <= i < key.len() ==> has_column(side.schema@, #[trigger] key[i]),
    ensures
        shown_key(side_codec(key, side.schema@, types), scanned_row(wanted, key, types)(h)) == shown_key_of(
            key,
            h,
        ),
{
    let codec = side_codec(key, side.schema@, types);
    let row = scanned_row(wanted, key, types)(h);
    assert(t.schema.fields.len() <= usize::MAX);
    assert(side.schema.fields.len() <= usize::MAX);
    assert forall|c: int| 0 <= c < key.len() implies row.cells[codec.idx[c] as int] == h[key[c]].cell by {
        assert(has_column(side.schema@, key[c]));
        lemma_projected_column(t.schema@, wanted, key[c]);
    }
    assert(shown_key(codec, row) =~= shown_key_of(key, h));
}

/// Rows in ascending order are distinct.
proof fn lemma_ascending_distinct(rows: Seq<RowView>)
    requires
        ascending(rows),
    ensures
        rows.no_duplicates(),
{
    assert forall|i: int, j: int| 0 <= i < rows.len() && 0 <= j < rows.len() && i != j implies rows[i] != rows[j] by {
        law_byte_order_total(rows[i].key, rows[j].key);
        law_byte_order_total(rows[j].key, rows[i].key);
        if i < j {
            assert(row_order(rows[i], rows[j]) < 0);
        } else {
            assert(row_order(rows[j], rows[i]) < 0);
        }
    }
}

proof fn lemma_first_of<A>(s: Seq<A>, max: nat)
    ensures
        first(s, max).len() == if s.len() < max {
            s.len()
        } else {
            max
        },
        forall|i: int| 0 <= i < first(s, max).len() ==> #[trigger] first(s, max)[i] == s[i],
        s.no_duplicates() ==> first(s, max).no_duplicates(),
{
}

/// The rows at the given places are, of those that a predicate accepts, the first
/// in the order of their keys.
pub open spec fn are_first_by_key(
    rows: Seq<Map<Seq<char>, Held>>,
    p: spec_fn(Map<Seq<char>, Held>) -> bool,
    key: Seq<Seq<char>>,
    types: Seq<TypeShape>,
    at: Seq<int>,
) -> bool {
    &&& forall|i: int, j: int|
        0 <= i < j < at.len() ==> byte_order(
            key_of(key, types, rows[#[trigger] at[i]]),
            key_of(key, types, rows[#[trigger] at[j]]),
        ) < 0
    &&& forall|n: int, i: int|
        0 <= n < rows.len() && 0 <= i < at.len() && p(#[trigger] rows[n]) && byte_order(
            key_of(key, types, rows[n]),
            key_of(key, types, rows[#[trigger] at[i]]),
        ) < 0 ==> at.contains(n)
}

/// A part of rows in ascending order is in ascending order.
proof fn lemma_filter_ascending(x: Seq<RowView>, p: spec_fn(RowView) -> bool)
    requires
        ascending(x),
    ensures
        ascending(x.filter(p)),
    decreases x.len(),
{
    reveal(Seq::filter);
    if x.len() > 0 {
        let less = x.drop_last();
        assert forall|i: int, j: int| 0 <= i < j < less.len() implies row_order(
            #[trigger] less[i],
            #[trigger] less[j],
        ) < 0 by {
            assert(row_order(x[i], x[j]) < 0);
        }
        lemma_filter_ascending(less, p);
        lemma_filter_keeps(less, p);
        let kept = less.filter(p);
        assert forall|i: int| 0 <= i < kept.len() implies row_order(#[trigger] kept[i], x.last()) < 0 by {
            assert(less.contains(kept[i]));
            let n = choose|n: int| 0 <= n < less.len() && less[n] == kept[i];
            assert(row_order(x[n], x[x.len() - 1]) < 0);
        }
    }
}

proof fn lemma_first_by_key(
    all: Seq<Map<Seq<char>, Held>>,
    wanted: Seq<Seq<char>>,
    key: Seq<Seq<char>>,
    types: Seq<TypeShape>,
    x: Seq<RowView>,
    accepts: spec_fn(RowView) -> bool,
    p: spec_fn(Map<Seq<char>, Held>) -> bool,
    max: nat,
    at: Seq<int>,
)
    requires
        ascending(x),
        same_rows(x, all.map_values(scanned_row(wanted, key, types))),
        row_keys(all.map_values(scanned_row(wanted, key, types))).no_duplicates(),
        at.len() == first(x.filter(accepts), max).len(),
        forall|i: int|
            0 <= i < at.len() ==> 0 <= #[trigger] at[i] < all.len() && scanned_row(wanted, key, types)(all[at[i]])
                == first(x.filter(accepts), max)[i],
        forall|n: int|
            0 <= n < all.len() && p(#[trigger] all[n]) ==> accepts(scanned_row(wanted, key, types)(all[n])),
    ensures
        are_first_by_key(all, p, key, types, at),
{
    let f = scanned_row(wanted, key, types);
    let rows = all.map_values(f);
    let kept = x.filter(accepts);
    lemma_filter_ascending(x, accepts);
    lemma_first_of(kept, max);
    assert forall|i: int| 0 <= i < at.len() implies kept[i].key == key_of(key, types, all[#[trigger] at[i]]) by {
        assert(f(all[at[i]]) == kept[i]);
    }
    assert forall|i: int, j: int| 0 <= i < j < at.len() implies byte_order(
        key_of(key, types, all[#[trigger] at[i]]),
        key_of(key, types, all[#[trigger] at[j]]),
    ) < 0 by {
        assert(row_order(kept[i], kept[j]) < 0);
    }
    assert forall|n: int, i: int|
        0 <= n < all.len() && 0 <= i < at.len() && p(#[trigger] all[n]) && byte_order(
            key_of(key, types, all[n]),
            key_of(key, types, all[#[trigger] at[i]]),
        ) < 0 implies at.contains(n) by {
        let row = f(all[n]);
        assert(rows[n] == row);
        lemma_same_rows_contains(rows, x, row);
        lemma_filter_contains(x, accepts, row);
        let q = choose|q: int| 0 <= q < kept.len() && kept[q] == row;
        if q >= i {
            law_byte_order_total(kept[i].key, kept[q].key);
            law_byte_order_total(kept[q].key, kept[i].key);
            if q > i {
                assert(row_order(kept[i], kept[q]) < 0);
            }
        }
        assert(q < i);
        assert(f(all[at[q]]) == row);
        assert(row_keys(rows)[n] == row_keys(rows)[at[q]]);
        assert(at[q] == n);
    }
}

/// The removed rows that a diff by a given key without a limit shows are
/// different rows of the left table whose key no right row has, each by the texts
/// of its key cells; there are as many as were removed, up to the number asked
/// for, and they are the first by key.
pub proof fn law_removed_rows_are_shown(
    cfg: DiffConfig,
    left: BatchIter,
    right: BatchIter,
    key: Vec<String>,
    report: ReportView,
) -> (at: Seq<int>)
    requires
        cfg.key == Some(key),
        cfg.fail_fast is None,
        diff_result(cfg, left, right, Ok(report)),
    ensures
        ({
            let k = views(key@);
            let (l, r) = (table_rows(left), table_rows(right));
            let types = key_types(k, left.schema@, right.schema@);
            let shown_rows = report.samples.removed;
            &&& shown_rows.len() == if report.removed < cfg.max_samples {
                report.removed
            } else {
                cfg.max_samples as nat
            }
            &&& at.len() == shown_rows.len()
            &&& at.no_duplicates()
            &&& forall|i: int|
                0 <= i < at.len() ==> {
                    &&& 0 <= #[trigger] at[i] < l.len()
                    &&& unmatched(k, types, r)(l[at[i]])
                    &&& shown_rows[i] == (SampleView { row: shown_key_of(k, l[at[i]]), count: 1 })
                }
            &&& are_first_by_key(l, unmatched(k, types, r), k, types, at)
        }),
{
    let k = views(key@);
    let comparator = Comparator { tol_abs: cfg.tol_abs, tol_rel: cfg.tol_rel };
    let found = report.schema;
    assert(requested_mode(cfg, schema_diff(left.schema@, right.schema@).mutual) == Some(
        Ok::<ModeView, ErrorView>(ModeView::Keyed { key: k, inferred: false }),
    ));
    let (l, m) = lemma_scanned(cfg, left, right, k, report);
    let (x, y) = lemma_scan_of_report(l, m, k, false, found, cfg, comparator, report);
    let setup = keyed_setup(k, l.schema@, m.schema@, found, comparator, None);
    let (a, b) = (table_rows(left), table_rows(right));
    let (ln, rn) = (found.left_names(), found.right_names());
    lemma_scanned_there(left, right, k, found);
    lemma_key_there(l, m, k, found);
    lemma_key_types(l, m, left, right, found, k);
    let types = key_types(k, left.schema@, right.schema@);
    let f = scanned_row(ln, k, types);
    lemma_scanned_rows(l, left, ln, k, types);
    lemma_scanned_rows(m, right, rn, k, types);
    let rows = a.map_values(f);
    let others = b.map_values(scanned_row(rn, k, types));
    let gone = classified(x, y).removed;
    let shown_rows = first(gone, cfg.max_samples as nat);
    lemma_filter_keeps(x, has_no_match(y));
    lemma_ascending_distinct(x);
    lemma_filter_no_duplicates(x, has_no_match(y));
    lemma_first_of(gone, cfg.max_samples as nat);
    assert forall|i: int| 0 <= i < shown_rows.len() implies rows.contains(#[trigger] shown_rows[i]) by {
        assert(x.contains(gone[i]));
        lemma_same_rows_contains(x, rows, gone[i]);
    }
    let at = lemma_rows_of(a, f, shown_rows);
    assert forall|i: int| 0 <= i < at.len() implies {
        &&& 0 <= #[trigger] at[i] < a.len()
        &&& unmatched(k, types, b)(a[at[i]])
        &&& report.samples.removed[i] == (SampleView { row: shown_key_of(k, a[at[i]]), count: 1 })
    } by {
        let h = a[at[i]];
        assert(shown_rows[i] == gone[i]);
        assert(has_no_match(y)(gone[i]));
        lemma_match_same_rows(y, others, gone[i]);
        lemma_unmatched(b, rn, ln, k, types, h);
        lemma_shown_key(l, left, ln, k, types, h);
    }
    let p = unmatched(k, types, b);
    assert forall|n: int| 0 <= n < a.len() && p(#[trigger] a[n]) implies has_no_match(y)(f(a[n])) by {
        lemma_unmatched(b, rn, ln, k, types, a[n]);
        lemma_match_same_rows(y, others, f(a[n]));
    }
    lemma_first_by_key(a, ln, k, types, x, has_no_match(y), p, cfg.max_samples as nat, at);
    at
}

/// The added rows that a diff by a given key without a limit shows are different
/// rows of the right table whose key no left row has, each by the texts of its
/// key cells; there are as many as were added, up to the number asked for, and
/// they are the first by key.
pub proof fn law_added_rows_are_shown(
    cfg: DiffConfig,
    left: BatchIter,
    right: BatchIter,
    key: Vec<String>,
    report: ReportView,
) -> (at: Seq<int>)
    requires
        cfg.key == Some(key),
        cfg.fail_fast is None,
        diff_result(cfg, left, right, Ok(report)),
    ensures
        ({
            let k = views(key@);
            let (l, r) = (table_rows(left), table_rows(right));
            let types = key_types(k, left.schema@, right.schema@);
            let shown_rows = report.samples.added;
            &&& shown_rows.len() == if report.added < cfg.max_samples {
                report.added
            } else {
                cfg.max_samples as nat
            }
            &&& at.len() == shown_rows.len()
            &&& at.no_duplicates()
            &&& forall|i: int|
                0 <= i < at.len() ==> {
                    &&& 0 <= #[trigger] at[i] < r.len()
                    &&& unmatched(k, types, l)(r[at[i]])
                    &&& shown_rows[i] == (SampleView { row: shown_key_of(k, r[at[i]]), count: 1 })
                }
            &&& are_first_by_key(r, unmatched(k, types, l), k, types, at)
        }),
{
    let k = views(key@);
    let comparator = Comparator { tol_abs: cfg.tol_abs, tol_rel: cfg.tol_rel };
    let found = report.schema;
    assert(requested_mode(cfg, schema_diff(left.schema@, right.schema@).mutual) == Some(
        Ok::<ModeView, ErrorView>(ModeView::Keyed { key: k, inferred: false }),
    ));
    let (l, m) = lemma_scanned(cfg, left, right, k, report);
    let (x, y) = lemma_scan_of_report(l, m, k, false, found, cfg, comparator, report);
    let setup = keyed_setup(k, l.schema@, m.schema@, found, comparator, None);
    let (a, b) = (table_rows(left), table_rows(right));
    let (ln, rn) = (found.left_names(), found.right_names());
    lemma_scanned_there(left, right, k, found);
    lemma_key_there(l, m, k, found);
    lemma_key_types(l, m, left, right, found, k);
    let types = key_types(k, left.schema@, right.schema@);
    let g = scanned_row(rn, k, types);
    lemma_scanned_rows(l, left, ln, k, types);
    lemma_scanned_rows(m, right, rn, k, types);
    let rows = b.map_values(g);
    let others = a.map_values(scanned_row(ln, k, types));
    let new = classified(x, y).added;
    let shown_rows = first(new, cfg.max_samples as nat);
    lemma_filter_keeps(y, has_no_match(x));
    lemma_ascending_distinct(y);
    lemma_filter_no_duplicates(y, has_no_match(x));
    lemma_first_of(new, cfg.max_samples as nat);
    assert forall|i: int| 0 <= i < shown_rows.len() implies rows.contains(#[trigger] shown_rows[i]) by {
        assert(y.contains(new[i]));
        lemma_same_rows_contains(y, rows, new[i]);
    }
    let at = lemma_rows_of(b, g, shown_rows);
    assert forall|i: int| 0 <= i < at.len() implies {
        &&& 0 <= #[trigger] at[i] < b.len()
        &&& unmatched(k, types, a)(b[at[i]])
        &&& report.samples.added[i] == (SampleView { row: shown_key_of(k, b[at[i]]), count: 1 })
    } by {
        let h = b[at[i]];
        assert(shown_rows[i] == new[i]);
        assert(has_no_match(x)(new[i]));
        lemma_match_same_rows(x, others, new[i]);
        lemma_unmatched(a, ln, rn, k, types, h);
        lemma_shown_key(m, right, rn, k, types, h);
    }
    let p = unmatched(k, types, a);
    assert forall|n: int| 0 <= n < b.len() && p(#[trigger] b[n]) implies has_no_match(x)(g(b[n])) by {
        lemma_unmatched(a, ln, rn, k, types, b[n]);
        lemma_match_same_rows(x, others, g(b[n]));
    }
    lemma_first_by_key(b, rn, k, types, y, has_no_match(x), p, cfg.max_samples as nat, at);
    at
}

/// A change as it is shown: the column's name, and the texts of both cells, with
/// strings in quotes.
pub open spec fn shown_change(
    p: (Seq<char>, Seq<char>),
    h: Map<Seq<char>, Held>,
    g: Map<Seq<char>, Held>,
) -> CellChangeView {
    CellChangeView {
        column: reported_name(p),
        left: shown_typed(h[p.0].cell),
        right: shown_typed(g[p.1].cell),
    }
}

/// A shown change is one of a compared column in which two rows differ.
pub open spec fn is_change(
    c: CellChangeView,
    columns: Set<(Seq<char>, Seq<char>)>,
    comparator: Comparator,
    h: Map<Seq<char>, Held>,
    g: Map<Seq<char>, Held>,
) -> bool {
    exists|p: (Seq<char>, Seq<char>)| #[trigger]
        columns.contains(p) && !cells_match(comparator, h[p.0].cell, g[p.1].cell) && c == shown_change(
            p,
            h,
            g,
        )
}

/// Shown changes are exactly those of the compared columns in which two rows
/// differ.
pub open spec fn are_changes(
    found: Seq<CellChangeView>,
    columns: Set<(Seq<char>, Seq<char>)>,
    comparator: Comparator,
    h: Map<Seq<char>, Held>,
    g: Map<Seq<char>, Held>,
) -> bool {
    &&& forall|p: (Seq<char>, Seq<char>)| #[trigger]
        columns.contains(p) && !cells_match(comparator, h[p.0].cell, g[p.1].cell) ==> found.contains(
            shown_change(p, h, g),
        )
    &&& forall|j: int| 0 <= j < found.len() ==> is_change(#[trigger] found[j], columns, comparator, h, g)
}

/// The compared columns of a report in order, under their names on the two sides:
/// the shared ones that are no key columns, and then the renamed ones.
pub open spec fn compared_in_order(s: SchemaDiffView, key: Seq<Seq<char>>) -> Seq<(Seq<char>, Seq<char>)> {
    s.mutual.filter(|c: Seq<char>| !key.contains(c)).map_values(|c: Seq<char>| (c, c)) + s.renamed.map_values(
        |r: RenameView| (r.left, r.right),
    )
}

/// The changes between two rows as they are shown, in the order of the columns.
pub open spec fn changes_in_order(
    columns: Seq<(Seq<char>, Seq<char>)>,
    comparator: Comparator,
    h: Map<Seq<char>, Held>,
    g: Map<Seq<char>, Held>,
) -> Seq<CellChangeView> {
    columns.filter(
        |p: (Seq<char>, Seq<char>)| !cells_match(comparator, h[p.0].cell, g[p.1].cell),
    ).map_values(|p: (Seq<char>, Seq<char>)| shown_change(p, h, g))
}

/// Filters and maps that agree give the same.
proof fn lemma_alike<A, B, C>(
    a: Seq<A>,
    b: Seq<B>,
    p: spec_fn(A) -> bool,
    q: spec_fn(B) -> bool,
    f: spec_fn(A) -> C,
    g: spec_fn(B) -> C,
)
    requires
        a.len() == b.len(),
        forall|i: int| 0 <= i < a.len() ==> p(#[trigger] a[i]) == q(b[i]) && f(a[i]) == g(b[i]),
    ensures
        a.filter(p).map_values(f) == b.filter(q).map_values(g),
    decreases a.len(),
{
    reveal(Seq::filter);
    if a.len() > 0 {
        let (x, y) = (a.drop_last(), b.drop_last());
        assert forall|i: int| 0 <= i < x.len() implies p(#[trigger] x[i]) == q(y[i]) && f(x[i]) == g(y[i]) by {
            assert(x[i] == a[i] && y[i] == b[i]);
        }
        lemma_alike(x, y, p, q, f, g);
        assert(p(a[a.len() - 1]) == q(b[b.len() - 1]));
        assert(x.filter(p).push(a.last()).map_values(f) =~= x.filter(p).map_values(f).push(f(a.last())));
        assert(y.filter(q).push(b.last()).map_values(g) =~= y.filter(q).map_values(g).push(g(b.last())));
    } else {
        assert(a.filter(p).map_values(f) =~= b.filter(q).map_values(g));
    }
}

/// A modified row as it is shown: the key of two rows that have the same one, and
/// exactly the compared columns in which they differ.
pub open spec fn shows_modified(
    s: ModifiedView,
    columns: Set<(Seq<char>, Seq<char>)>,
    comparator: Comparator,
    key: Seq<Seq<char>>,
    types: Seq<TypeShape>,
    h: Map<Seq<char>, Held>,
    g: Map<Seq<char>, Held>,
) -> bool {
    &&& key_of(key, types, h) == key_of(key, types, g)
    &&& s.key == shown_key_of(key, h)
    &&& s.changes.len() > 0
    &&& are_changes(s.changes, columns, comparator, h, g)
}

/// The modified rows that a diff by a given key without a limit shows are
/// different rows of the left table, each with the columns in which it differs
/// from the right row with its key, in their order; there are as many as were modified, up to the
/// number asked for, and they are the first by key.
#[verifier::rlimit(40)]
pub proof fn law_modified_rows_are_shown(
    cfg: DiffConfig,
    left: BatchIter,
    right: BatchIter,
    key: Vec<String>,
    report: ReportView,
) -> (at: (Seq<int>, Seq<int>))
    requires
        cfg.key == Some(key),
        cfg.fail_fast is None,
        diff_result(cfg, left, right, Ok(report)),
    ensures
        ({
            let k = views(key@);
            let (l, r) = (table_rows(left), table_rows(right));
            let types = key_types(k, left.schema@, right.schema@);
            let columns = compared(left.schema@, right.schema@, k, report.schema.renamed);
            let comparator = Comparator { tol_abs: cfg.tol_abs, tol_rel: cfg.tol_rel };
            let shown_rows = report.samples.modified;
            &&& shown_rows.len() == if report.modified < cfg.max_samples {
                report.modified
            } else {
                cfg.max_samples as nat
            }
            &&& at.0.len() == shown_rows.len()
            &&& at.1.len() == shown_rows.len()
            &&& at.0.no_duplicates()
            &&& forall|i: int|
                0 <= i < shown_rows.len() ==> {
                    &&& 0 <= #[trigger] at.0[i] < l.len()
                    &&& 0 <= at.1[i] < r.len()
                    &&& shows_modified(
                        shown_rows[i],
                        columns,
                        comparator,
                        k,
                        types,
                        l[at.0[i]],
                        r[at.1[i]],
                    )
                }
            &&& forall|i: int|
                0 <= i < shown_rows.len() ==> (#[trigger] shown_rows[i]).changes == changes_in_order(
                    compared_in_order(report.schema, k),
                    comparator,
                    l[at.0[i]],
                    r[at.1[i]],
                )
            &&& are_first_by_key(l, altered(columns, comparator, k, types, r), k, types, at.0)
        }),
{
    let k = views(key@);
    let comparator = Comparator { tol_abs: cfg.tol_abs, tol_rel: cfg.tol_rel };
    let found = report.schema;
    assert(requested_mode(cfg, schema_diff(left.schema@, right.schema@).mutual) == Some(
        Ok::<ModeView, ErrorView>(ModeView::Keyed { key: k, inferred: false }),
    ));
    let (l, m) = lemma_scanned(cfg, left, right, k, report);
    let (x, y) = lemma_scan_of_report(l, m, k, false, found, cfg, comparator, report);
    let setup = keyed_setup(k, l.schema@, m.schema@, found, comparator, None);
    let (a, b) = (table_rows(left), table_rows(right));
    let (ln, rn) = (found.left_names(), found.right_names());
    lemma_scanned_there(left, right, k, found);
    lemma_key_there(l, m, k, found);
    lemma_key_types(l, m, left, right, found, k);
    let types = key_types(k, left.schema@, right.schema@);
    let f = scanned_row(ln, k, types);
    let g = scanned_row(rn, k, types);
    lemma_scanned_rows(l, left, ln, k, types);
    lemma_scanned_rows(m, right, rn, k, types);
    let max = cfg.max_samples as nat;
    let pairs = modified(setup.rules, classified(x, y));
    let kept = first(pairs, max);
    lemma_first_of(pairs, max);
    lemma_modified_pairs(setup.rules, x, y);
    let lefts = kept.map_values(|p: (RowView, RowView)| p.0);
    let rights = kept.map_values(|p: (RowView, RowView)| p.1);
    assert forall|i: int| 0 <= i < lefts.len() implies a.map_values(f).contains(#[trigger] lefts[i]) by {
        assert(kept[i] == pairs[i]);
        assert(x.contains(pairs[i].0));
        lemma_same_rows_contains(x, a.map_values(f), lefts[i]);
    }
    assert forall|i: int| 0 <= i < rights.len() implies b.map_values(g).contains(#[trigger] rights[i]) by {
        assert(kept[i] == pairs[i]);
        assert(y.contains(pairs[i].1));
        lemma_same_rows_contains(y, b.map_values(g), rights[i]);
    }
    assert forall|i: int, j: int| 0 <= i < lefts.len() && 0 <= j < lefts.len() && i != j implies lefts[i]
        != lefts[j] by {
        assert(kept[i] == pairs[i] && kept[j] == pairs[j]);
        assert(pairs[i].0 != pairs[j].0);
    }
    let from = lemma_rows_of(a, f, lefts);
    let to = Seq::new(
        rights.len(),
        |i: int| choose|n: int| 0 <= n < b.len() && g(#[trigger] b[n]) == rights[i],
    );
    assert forall|i: int| 0 <= i < kept.len() implies 0 <= to[i] < b.len() && g(b[to[i]]) == rights[i] by {
        assert(b.map_values(g).contains(rights[i]));
        let n = choose|n: int| 0 <= n < b.map_values(g).len() && b.map_values(g)[n] == rights[i];
        assert(g(b[n]) == rights[i]);
    }
    let columns = compared(left.schema@, right.schema@, k, found.renamed);
    assert forall|i: int| 0 <= i < kept.len() implies {
        &&& 0 <= #[trigger] from[i] < a.len()
        &&& 0 <= to[i] < b.len()
        &&& shows_modified(
            report.samples.modified[i],
            columns,
            comparator,
            k,
            types,
            a[from[i]],
            b[to[i]],
        )
    } by {
        let (h, e) = (a[from[i]], b[to[i]]);
        assert(f(h) == lefts[i] && g(e) == rights[i]);
        assert(kept[i] == pairs[i]);
        lemma_shown_key(l, left, ln, k, types, h);
        lemma_shown_changes(left, right, l, m, k, types, found, comparator, h, e);
        assert(report.samples.modified[i] == modified_sample(setup.rules, setup.left)(kept[i]));
    }
    let shown_rows = report.samples.modified;
    assert forall|i: int| 0 <= i < shown_rows.len() implies (#[trigger] shown_rows[i]).changes
        == changes_in_order(compared_in_order(found, k), comparator, a[from[i]], b[to[i]]) by {
        let (h, e) = (a[from[i]], b[to[i]]);
        assert(f(h) == lefts[i] && g(e) == rights[i]);
        lemma_shown_changes(left, right, l, m, k, types, found, comparator, h, e);
        assert(shown_rows[i] == modified_sample(setup.rules, setup.left)(kept[i]));
    }
    let accepts = is_changed(setup.rules, y);
    let p = altered(columns, comparator, k, types, b);
    assert forall|n: int| 0 <= n < a.len() && p(#[trigger] a[n]) implies accepts(f(a[n])) by {
        lemma_altered(l, m, left, right, k, types, found, comparator, a[n]);
        lemma_match_same_rows(y, b.map_values(g), f(a[n]));
    }
    lemma_modified_rows(setup.rules, x, y);
    lemma_first_of(x.filter(accepts), max);
    assert forall|i: int| 0 <= i < from.len() implies f(a[#[trigger] from[i]]) == first(
        x.filter(accepts),
        max,
    )[i] by {
        assert(kept[i] == pairs[i]);
        assert(pairs[i] == paired(y)(x.filter(accepts)[i]));
    }
    lemma_first_by_key(a, ln, k, types, x, accepts, p, max, from);
    (from, to)
}

/// The modified pairs are of different left rows and the right rows with their
/// keys.
proof fn lemma_modified_pairs(rules: KeyedRules, x: Seq<RowView>, y: Seq<RowView>)
    requires
        ascending(x),
    ensures
        ({
            let pairs = modified(rules, classified(x, y));
            &&& forall|i: int|
                0 <= i < pairs.len() ==> {
                    &&& x.contains((#[trigger] pairs[i]).0)
                    &&& y.contains(pairs[i].1)
                    &&& pairs[i].0.key == pairs[i].1.key
                    &&& changes(rules, pairs[i].0, pairs[i].1).len() > 0
                }
            &&& forall|i: int, j: int|
                0 <= i < pairs.len() && 0 <= j < pairs.len() && i != j ==> (#[trigger] pairs[i]).0 != (
                #[trigger] pairs[j]).0
        }),
{
    let rows = x.filter(has_match(y));
    let matched = rows.map_values(paired(y));
    let pairs = modified(rules, classified(x, y));
    lemma_ascending_distinct(x);
    lemma_filter_no_duplicates(x, has_match(y));
    lemma_filter_keeps(x, has_match(y));
    lemma_filter_keeps(matched, is_modified(rules));
    assert(matched.no_duplicates()) by {
        assert forall|i: int, j: int| 0 <= i < matched.len() && 0 <= j < matched.len() && i != j implies matched[i]
            != matched[j] by {
            assert(rows[i] != rows[j]);
        }
    }
    lemma_filter_no_duplicates(matched, is_modified(rules));
    assert forall|i: int| 0 <= i < pairs.len() implies {
        &&& x.contains((#[trigger] pairs[i]).0)
        &&& y.contains(pairs[i].1)
        &&& pairs[i].0.key == pairs[i].1.key
        &&& changes(rules, pairs[i].0, pairs[i].1).len() > 0
        &&& pairs[i] == paired(y)(pairs[i].0)
    } by {
        assert(matched.contains(pairs[i]) && is_modified(rules)(pairs[i]));
        let j = choose|j: int| 0 <= j < matched.len() && matched[j] == pairs[i];
        assert(x.contains(rows[j]) && has_match(y)(rows[j]));
        lemma_place(row_keys(y), rows[j].key);
        let n = place(row_keys(y), rows[j].key);
        assert(row_keys(y)[n] == y[n].key);
        assert(y.contains(y[n]));
    }
    assert forall|i: int, j: int| 0 <= i < pairs.len() && 0 <= j < pairs.len() && i != j implies (
    #[trigger] pairs[i]).0 != (#[trigger] pairs[j]).0 by {
        assert(pairs[i] == paired(y)(pairs[i].0));
        assert(pairs[j] == paired(y)(pairs[j].0));
    }
}

/// The changes of two scanned rows are those of the rows that they were scanned
/// of.
proof fn lemma_shown_changes(
    left: BatchIter,
    right: BatchIter,
    l: BatchIter,
    m: BatchIter,
    key: Seq<Seq<char>>,
    types: Seq<TypeShape>,
    found: SchemaDiffView,
    comparator: Comparator,
    h: Map<Seq<char>, Held>,
    e: Map<Seq<char>, Held>,
)
    requires
        renames_found(left, right, schema_diff(left.schema@, right.schema@), Some(key), found),
        projects(l, left, found.left_names()),
        projects(m, right, found.right_names()),
        keyed_missing(key, l.schema@, m.schema@, found) is None,
    ensures
        ({
            let rules = keyed_setup(key, l.schema@, m.schema@, found, comparator, None).rules;
            let columns = compared(left.schema@, right.schema@, key, found.renamed);
            are_changes(
                changes(
                    rules,
                    scanned_row(found.left_names(), key, types)(h),
                    scanned_row(found.right_names(), key, types)(e),
                ),
                columns,
                comparator,
                h,
                e,
            )
        }),
        changes(
            keyed_setup(key, l.schema@, m.schema@, found, comparator, None).rules,
            scanned_row(found.left_names(), key, types)(h),
            scanned_row(found.right_names(), key, types)(e),
        ) == changes_in_order(compared_in_order(found, key), comparator, h, e),
{
    let rules = keyed_setup(key, l.schema@, m.schema@, found, comparator, None).rules;
    let columns = compared(left.schema@, right.schema@, key, found.renamed);
    let x = scanned_row(found.left_names(), key, types)(h);
    let y = scanned_row(found.right_names(), key, types)(e);
    let d = differs(comparator, x, y);
    let kept = rules.cols.filter(d);
    let made = changes(rules, x, y);
    let sides = side_names(value_names(found, key));
    lemma_compared_columns(left, right, l, m, key, found, comparator);
    lemma_filter_keeps(rules.cols, d);
    assert forall|i: int| 0 <= i < sides.len() implies {
        &&& columns.contains(#[trigger] sides[i])
        &&& d(rules.cols[i]) == !cells_match(comparator, h[sides[i].0].cell, e[sides[i].1].cell)
        &&& change(x, y)(rules.cols[i]) == shown_change(sides[i], h, e)
    } by {
        let c = rules.cols[i];
        assert(x.cells[c.left] == h[sides[i].0].cell);
        assert(y.cells[c.right] == e[sides[i].1].cell);
    }
    let q = |p: (Seq<char>, Seq<char>)| !cells_match(comparator, h[p.0].cell, e[p.1].cell);
    let made_of = |p: (Seq<char>, Seq<char>)| shown_change(p, h, e);
    assert forall|i: int| 0 <= i < rules.cols.len() implies d(#[trigger] rules.cols[i]) == q(sides[i]) && change(
        x,
        y,
    )(rules.cols[i]) == made_of(sides[i]) by {
        assert(columns.contains(sides[i]));
    }
    lemma_alike(rules.cols, sides, d, q, change(x, y), made_of);
    let shared = |c: Seq<char>| !key.contains(c);
    lemma_filter_agree(found.mutual, not_in(key), shared);
    assert(sides =~= compared_in_order(found, key));
    assert forall|p: (Seq<char>, Seq<char>)| #[trigger]
        columns.contains(p) && !cells_match(comparator, h[p.0].cell, e[p.1].cell) implies made.contains(
        shown_change(p, h, e),
    ) by {
        assert(sides.contains(p));
        let i = choose|i: int| 0 <= i < sides.len() && sides[i] == p;
        assert(columns.contains(sides[i]));
        assert(kept.contains(rules.cols[i]));
        let j = choose|j: int| 0 <= j < kept.len() && kept[j] == rules.cols[i];
        assert(made[j] == shown_change(p, h, e));
    }
    assert forall|j: int| 0 <= j < made.len() implies is_change(
        #[trigger] made[j],
        columns,
        comparator,
        h,
        e,
    ) by {
        assert(d(kept[j]) && rules.cols.contains(kept[j]));
        let i = choose|i: int| 0 <= i < rules.cols.len() && rules.cols[i] == kept[j];
        assert(columns.contains(sides[i]));
        assert(made[j] == shown_change(sides[i], h, e));
    }
}

} // verus!
