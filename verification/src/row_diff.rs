//! Row differences: matching the rows of two sorted streams.

use crate::error::{Error, ErrorView};
use crate::input::{row_count, BatchIter};
use crate::merge::{advance_error, advanced, arranged, begin, lemma_current, open_side, row_total, SortedSource, SourceView};
use crate::report::{bumped, count_of, key_vals, law_bumping_counts_one_column, modified_views, sample_views, well_counted, CellChangeView, Change, ColumnCounts, CountView, DiffCounts, DiffReport, KeyInfo, KeyVal, KeyValView, ModifiedRow, ModifiedView, ReportView, RowCounts, RowSample, SampleView, Samples, SamplesView};
use crate::schema::{column, first_missing, first_unshared, has_column, lemma_all_shared, lemma_first_missing, lemma_first_unshared, FieldShape, Schema};
use crate::schema_diff::{lemma_filter_next, RenameView, SchemaDiff, SchemaDiffView};
use crate::sort::{key_types, law_runs_are_cut_by_the_budget, row_order, side_codec, stream_follows_values, stream_rows, twice, CodecView, KeyCodec, KeySpec, Row, RowView, SpillDir};
use crate::text::{compare_bytes, contains, copy_all, law_byte_order_total, views};
use crate::value::{cells_match, shown, shown_typed, Comparator};
use crate::DiffConfig;
use vstd::prelude::*;
use vstd::string::StringExecFns;

verus! {

/// A column whose values are compared, under the name it is reported by.
#[derive(Debug)]
pub struct ValueCol {
    pub name: String,
    pub left: usize,
    pub right: usize,
}

/// A compared column: its name, and where it is on either side.
pub struct ValueColView {
    pub name: Seq<char>,
    pub left: int,
    pub right: int,
}

impl View for ValueCol {
    type V = ValueColView;

    open spec fn view(&self) -> ValueColView {
        ValueColView { name: self.name@, left: self.left as int, right: self.right as int }
    }
}

pub open spec fn value_col_views(cols: Seq<ValueCol>) -> Seq<ValueColView> {
    cols.map_values(|c: ValueCol| c@)
}

/// How rows are compared, and when the scan stops.
pub struct KeyedRules {
    pub cols: Seq<ValueColView>,
    pub comparator: Comparator,
    pub limit: Option<nat>,
}

/// What a scan has found so far, in the order of the keys.
pub struct Found {
    pub removed: Seq<RowView>,
    pub added: Seq<RowView>,
    /// Rows with a key on both sides.
    pub matched: Seq<(RowView, RowView)>,
}

/// True for a column in which two rows differ.
pub open spec fn differs(comparator: Comparator, l: RowView, r: RowView) -> spec_fn(ValueColView) -> bool {
    |c: ValueColView| !cells_match(comparator, l.cells[c.left], r.cells[c.right])
}

/// A change as it is reported.
pub open spec fn change(l: RowView, r: RowView) -> spec_fn(ValueColView) -> CellChangeView {
    |c: ValueColView|
        CellChangeView {
            column: c.name,
            left: shown_typed(l.cells[c.left]),
            right: shown_typed(r.cells[c.right]),
        }
}

/// The changes between two rows with the same key.
pub open spec fn changes(rules: KeyedRules, l: RowView, r: RowView) -> Seq<CellChangeView> {
    rules.cols.filter(differs(rules.comparator, l, r)).map_values(change(l, r))
}

/// True for a pair of rows that differ in some column.
pub open spec fn is_modified(rules: KeyedRules) -> spec_fn((RowView, RowView)) -> bool {
    |p: (RowView, RowView)| changes(rules, p.0, p.1).len() > 0
}

/// The matched rows that differ.
pub open spec fn modified(rules: KeyedRules, found: Found) -> Seq<(RowView, RowView)> {
    found.matched.filter(is_modified(rules))
}

/// The number of row differences.
pub open spec fn differences(rules: KeyedRules, found: Found) -> nat {
    found.removed.len() + found.added.len() + modified(rules, found).len()
}

/// True where the scan is to stop.
pub open spec fn limit_reached(limit: Option<nat>, n: nat) -> bool {
    limit matches Some(l) && n >= l
}

/// Counts the columns of changes.
pub open spec fn count_changes(counts: Seq<CountView>, changes: Seq<CellChangeView>) -> Seq<CountView>
    decreases changes.len(),
{
    if changes.len() == 0 {
        counts
    } else {
        bumped(count_changes(counts, changes.drop_last()), changes.last().column)
    }
}

/// How often each column changed among matched rows.
pub open spec fn column_tally(rules: KeyedRules, matched: Seq<(RowView, RowView)>) -> Seq<CountView>
    decreases matched.len(),
{
    if matched.len() == 0 {
        seq![]
    } else {
        count_changes(
            column_tally(rules, matched.drop_last()),
            changes(rules, matched.last().0, matched.last().1),
        )
    }
}

/// The key cells of a row, as they are reported.
pub open spec fn shown_key(codec: CodecView, row: RowView) -> Seq<KeyValView> {
    Seq::new(
        codec.cols.len(),
        |i: int| KeyValView { column: codec.cols[i], value: shown(row.cells[codec.idx[i] as int]) },
    )
}

/// A row of which only the key is reported.
pub open spec fn key_sample(codec: CodecView) -> spec_fn(RowView) -> SampleView {
    |row: RowView| SampleView { row: shown_key(codec, row), count: 1 }
}

/// A modified row as it is reported.
pub open spec fn modified_sample(
    rules: KeyedRules,
    codec: CodecView,
) -> spec_fn((RowView, RowView)) -> ModifiedView {
    |p: (RowView, RowView)|
        ModifiedView { key: shown_key(codec, p.0), changes: changes(rules, p.0, p.1) }
}

/// The first `max` elements.
pub open spec fn first<A>(s: Seq<A>, max: nat) -> Seq<A> {
    if s.len() <= max {
        s
    } else {
        s.take(max as int)
    }
}

/// One more element, kept where there is room.
pub proof fn lemma_first_push<A, B>(s: Seq<A>, x: A, max: nat, f: spec_fn(A) -> B)
    ensures
        first(s.push(x), max).map_values(f) == (if s.len() < max {
            first(s, max).map_values(f).push(f(x))
        } else {
            first(s, max).map_values(f)
        }),
        first(s, max).map_values(f).len() < max <==> s.len() < max,
{
    if s.len() < max {
        assert(first(s.push(x), max).map_values(f) =~= first(s, max).map_values(f).push(f(x)));
    } else {
        assert(first(s.push(x), max).map_values(f) =~= first(s, max).map_values(f));
    }
}

/// What one step of a scan leads to.
pub enum KeyedStep {
    More { left: SourceView, right: SourceView, found: Found },
    Done { truncated: bool },
    Failed(ErrorView),
}

/// Moves on along the streams that have the key that comes first.
pub open spec fn move_streams(
    left: SourceView,
    right: SourceView,
    go_left: bool,
    go_right: bool,
    found: Found,
) -> KeyedStep {
    if go_left && advance_error(left) is Some {
        KeyedStep::Failed(advance_error(left)->0)
    } else if go_right && advance_error(right) is Some {
        KeyedStep::Failed(advance_error(right)->0)
    } else {
        KeyedStep::More {
            left: if go_left {
                advanced(left)
            } else {
                left
            },
            right: if go_right {
                advanced(right)
            } else {
                right
            },
            found,
        }
    }
}

/// One step of a scan: the row with the smaller key is only on its side, and
/// rows with the same key are matched.
pub open spec fn keyed_step(
    rules: KeyedRules,
    left: SourceView,
    right: SourceView,
    found: Found,
) -> KeyedStep {
    if limit_reached(rules.limit, differences(rules, found)) {
        KeyedStep::Done { truncated: true }
    } else if left.rest.len() == 0 && right.rest.len() == 0 {
        KeyedStep::Done { truncated: false }
    } else if right.rest.len() == 0 || (left.rest.len() > 0 && row_order(left.rest[0], right.rest[0])
        < 0) {
        move_streams(
            left,
            right,
            true,
            false,
            Found { removed: found.removed.push(left.rest[0]), ..found },
        )
    } else if left.rest.len() == 0 || row_order(left.rest[0], right.rest[0]) > 0 {
        move_streams(
            left,
            right,
            false,
            true,
            Found { added: found.added.push(right.rest[0]), ..found },
        )
    } else {
        move_streams(
            left,
            right,
            true,
            true,
            Found { matched: found.matched.push((left.rest[0], right.rest[0])), ..found },
        )
    }
}

/// How a scan ends.
pub enum KeyedEnd {
    Done { left: SourceView, right: SourceView, found: Found, truncated: bool },
    Failed(ErrorView),
}

/// A scan to its end.
pub open spec fn keyed_walk(
    rules: KeyedRules,
    left: SourceView,
    right: SourceView,
    found: Found,
) -> KeyedEnd
    decreases left.rest.len() + right.rest.len(),
{
    match keyed_step(rules, left, right, found) {
        KeyedStep::Done { truncated } => KeyedEnd::Done { left, right, found, truncated },
        KeyedStep::Failed(e) => KeyedEnd::Failed(e),
        KeyedStep::More { left: l, right: r, found: f } => {
            proof {
                lemma_step_shrinks(rules, left, right, found);
            }
            keyed_walk(rules, l, r, f)
        },
    }
}

/// Every step that goes on leaves fewer rows.
pub proof fn lemma_step_shrinks(rules: KeyedRules, left: SourceView, right: SourceView, found: Found)
    ensures
        keyed_step(rules, left, right, found) matches KeyedStep::More { left: l, right: r, found: f }
            ==> l.rest.len() + r.rest.len() < left.rest.len() + right.rest.len(),
{
}

/// Nothing found yet.
pub open spec fn nothing_found() -> Found {
    Found { removed: seq![], added: seq![], matched: seq![] }
}

/// The report of a scan that was not refused.
pub open spec fn keyed_report(
    schema: SchemaDiffView,
    rules: KeyedRules,
    inferred: bool,
    max_samples: nat,
    left: SourceView,
    right: SourceView,
    found: Found,
    truncated: bool,
) -> ReportView {
    ReportView {
        schema,
        key_columns: left.codec.cols,
        inferred,
        keyless: false,
        left_rows: row_total(left),
        right_rows: row_total(right),
        added: found.added.len(),
        removed: found.removed.len(),
        modified: modified(rules, found).len(),
        columns_changed: column_tally(rules, found.matched),
        samples: SamplesView {
            added: first(found.added, max_samples).map_values(key_sample(right.codec)),
            removed: first(found.removed, max_samples).map_values(key_sample(left.codec)),
            modified: first(modified(rules, found), max_samples).map_values(
                modified_sample(rules, left.codec),
            ),
        },
        truncated,
    }
}

/// Keeps a sample where there is room.
pub fn push_sample(dst: &mut Vec<RowSample>, row: Vec<KeyVal>, count: usize, max: usize)
    ensures
        if old(dst)@.len() < max {
            final(dst)@ == old(dst)@.push(RowSample { row, count })
        } else {
            final(dst)@ == old(dst)@
        },
{
    if dst.len() < max {
        dst.push(RowSample { row, count });
    }
}

/// Renders the key cells of a row.
pub fn render_key(cols: &Vec<String>, idx: &Vec<usize>, row: &Row) -> (r: Vec<KeyVal>)
    requires
        idx@.len() == cols@.len(),
        forall|i: int| 0 <= i < idx@.len() ==> #[trigger] idx@[i] < row.cells@.len(),
    ensures
        key_vals(r@) == Seq::new(
            cols@.len(),
            |i: int| KeyValView { column: cols@[i]@, value: shown(row@.cells[idx@[i] as int]) },
        ),
{
    let mut r: Vec<KeyVal> = Vec::new();
    for i in 0..cols.len()
        invariant
            idx@.len() == cols@.len(),
            forall|j: int| 0 <= j < idx@.len() ==> #[trigger] idx@[j] < row.cells@.len(),
            r.len() == i,
            forall|j: int|
                0 <= j < i ==> (#[trigger] r@[j])@ == (KeyValView {
                    column: cols@[j]@,
                    value: shown(row@.cells[idx@[j] as int]),
                }),
    {
        assert(idx@[i as int] < row.cells@.len());
        r.push(KeyVal { column: cols[i].clone(), value: row.cells[idx[i]].render() });
    }
    assert(key_vals(r@) =~= Seq::new(
        cols@.len(),
        |i: int| KeyValView { column: cols@[i]@, value: shown(row@.cells[idx@[i] as int]) },
    ));
    r
}

/// Renders the key of a stream's row.
fn source_key(source: &SortedSource, row: &Row) -> (r: Vec<KeyVal>)
    requires
        source.codec@.fits(row.cells@.len() as int),
    ensures
        key_vals(r@) == shown_key(source.codec@, row@),
{
    assert forall|i: int| 0 <= i < source.codec.key_idx@.len() implies #[trigger] source.codec.key_idx@[i]
        < row.cells@.len() by {
        assert(source.codec@.idx[i] < row.cells@.len());
    }
    let r = render_key(&source.codec.key_cols, &source.codec.key_idx, row);
    assert(key_vals(r@) =~= shown_key(source.codec@, row@));
    r
}

/// Counts a row that is only on the left.
fn record_removed(key: Vec<KeyVal>, max: usize, counts: &mut DiffCounts, samples: &mut Samples)
    requires
        old(counts).removed < usize::MAX,
    ensures
        final(counts).removed == old(counts).removed + 1,
        final(counts).added == old(counts).added,
        final(counts).modified == old(counts).modified,
        final(samples).added == old(samples).added,
        final(samples).modified == old(samples).modified,
        sample_views(final(samples).removed@) == (if old(samples).removed@.len() < max {
            sample_views(old(samples).removed@).push(SampleView { row: key_vals(key@), count: 1 })
        } else {
            sample_views(old(samples).removed@)
        }),
{
    counts.removed = counts.removed + 1;
    let ghost before = samples.removed@;
    push_sample(&mut samples.removed, key, 1, max);
    assert(before.len() < max ==> sample_views(samples.removed@) =~= sample_views(before).push(
        SampleView { row: key_vals(key@), count: 1 },
    ));
}

/// Counts a row that is only on the right.
fn record_added(key: Vec<KeyVal>, max: usize, counts: &mut DiffCounts, samples: &mut Samples)
    requires
        old(counts).added < usize::MAX,
    ensures
        final(counts).added == old(counts).added + 1,
        final(counts).removed == old(counts).removed,
        final(counts).modified == old(counts).modified,
        final(samples).removed == old(samples).removed,
        final(samples).modified == old(samples).modified,
        sample_views(final(samples).added@) == (if old(samples).added@.len() < max {
            sample_views(old(samples).added@).push(SampleView { row: key_vals(key@), count: 1 })
        } else {
            sample_views(old(samples).added@)
        }),
{
    counts.added = counts.added + 1;
    let ghost before = samples.added@;
    push_sample(&mut samples.added, key, 1, max);
    assert(before.len() < max ==> sample_views(samples.added@) =~= sample_views(before).push(
        SampleView { row: key_vals(key@), count: 1 },
    ));
}

/// The compared columns are there in a row of either side.
pub open spec fn cols_fit(cols: Seq<ValueColView>, left: Seq<RowView>, right: Seq<RowView>) -> bool {
    &&& forall|i: int, j: int|
        0 <= i < left.len() && 0 <= j < cols.len() ==> 0 <= (#[trigger] cols[j]).left < (
        #[trigger] left[i]).cells.len()
    &&& forall|i: int, j: int|
        0 <= i < right.len() && 0 <= j < cols.len() ==> 0 <= (#[trigger] cols[j]).right < (
        #[trigger] right[i]).cells.len()
}

/// Finds the changes between two rows with the same key.
fn row_changes(cols: &Vec<ValueCol>, comparator: &Comparator, l: &Row, r: &Row) -> (v: Vec<Change>)
    requires
        forall|j: int|
            0 <= j < cols@.len() ==> (#[trigger] cols@[j]).left < l.cells@.len() && cols@[j].right
                < r.cells@.len(),
    ensures
        v@.map_values(|c: Change| c@) == value_col_views(cols@).filter(differs(*comparator, l@, r@)).map_values(
            change(l@, r@),
        ),
{
    let ghost all = value_col_views(cols@);
    let ghost p = differs(*comparator, l@, r@);
    let ghost f = change(l@, r@);
    let mut v: Vec<Change> = Vec::new();
    assert(all.take(0).filter(p) =~= seq![]) by {
        reveal(Seq::filter);
    }
    assert(v@.map_values(|c: Change| c@) =~= all.take(0).filter(p).map_values(f));
    for j in 0..cols.len()
        invariant
            all == value_col_views(cols@),
            p == differs(*comparator, l@, r@),
            f == change(l@, r@),
            forall|j: int|
                0 <= j < cols@.len() ==> (#[trigger] cols@[j]).left < l.cells@.len() && cols@[j].right
                    < r.cells@.len(),
            v@.map_values(|c: Change| c@) == all.take(j as int).filter(p).map_values(f),
    {
        let c = &cols[j];
        let ghost before = v@.map_values(|c: Change| c@);
        proof {
            lemma_filter_next(all, p, j as int);
            assert(all[j as int] == c@);
        }
        let lv = &l.cells[c.left];
        let rv = &r.cells[c.right];
        if !comparator.eq(lv, rv) {
            v.push(
                Change { column: c.name.clone(), left: lv.render_typed(), right: rv.render_typed() },
            );
            assert(v@.map_values(|c: Change| c@) =~= before.push(f(c@)));
            assert(all.take(j + 1).filter(p).map_values(f) =~= before.push(f(c@)));
        }
    }
    assert(all.take(all.len() as int) =~= all);
    v
}

/// A filter keeps no more than there is.
pub proof fn lemma_filter_shorter<A>(s: Seq<A>, p: spec_fn(A) -> bool)
    ensures
        s.filter(p).len() <= s.len(),
    decreases s.len(),
{
    reveal(Seq::filter);
    if s.len() > 0 {
        lemma_filter_shorter(s.drop_last(), p);
    }
}

/// Counting changes keeps the entries in order, and adds to a column's count
/// at most the number of changes.
proof fn lemma_count_changes(counts: Seq<CountView>, changes: Seq<CellChangeView>, column: Seq<char>)
    requires
        well_counted(counts),
    ensures
        well_counted(count_changes(counts, changes)),
        count_of(count_changes(counts, changes), column) <= count_of(counts, column) + changes.len(),
    decreases changes.len(),
{
    if changes.len() > 0 {
        lemma_count_changes(counts, changes.drop_last(), column);
        law_bumping_counts_one_column(
            count_changes(counts, changes.drop_last()),
            changes.last().column,
            column,
        );
    }
}

/// A column's count is at most the number of compared values.
proof fn lemma_tally_bounded(rules: KeyedRules, matched: Seq<(RowView, RowView)>, column: Seq<char>)
    ensures
        well_counted(column_tally(rules, matched)),
        count_of(column_tally(rules, matched), column) <= matched.len() * rules.cols.len(),
    decreases matched.len(),
{
    if matched.len() > 0 {
        let rest = matched.drop_last();
        let (l, r) = matched.last();
        lemma_tally_bounded(rules, rest, column);
        lemma_count_changes(column_tally(rules, rest), changes(rules, l, r), column);
        lemma_filter_shorter(rules.cols, differs(rules.comparator, l, r));
        assert(matched.len() * rules.cols.len() == rest.len() * rules.cols.len() + rules.cols.len())
            by (nonlinear_arith)
            requires
                matched.len() == rest.len() + 1,
        ;
    } else {
        assert(matched.len() * rules.cols.len() == 0) by (nonlinear_arith)
            requires
                matched.len() == 0,
        ;
    }
}

/// A keyed scan under way.
pub struct KeyedDiff {
    pub left: SortedSource,
    pub right: SortedSource,
    pub cols: Vec<ValueCol>,
    pub comparator: Comparator,
    pub fail_fast: Option<usize>,
    pub max_samples: usize,
    pub counts: DiffCounts,
    pub samples: Samples,
    pub columns_changed: ColumnCounts,
    pub found: Ghost<Found>,
}

/// Whether a scan goes on.
pub enum Progress {
    More,
    Done { truncated: bool },
}

pub open spec fn as_limit(fail_fast: Option<usize>) -> Option<nat> {
    match fail_fast {
        Some(n) => Some(n as nat),
        None => None,
    }
}

impl KeyedDiff {
    pub open spec fn rules(&self) -> KeyedRules {
        KeyedRules {
            cols: value_col_views(self.cols@),
            comparator: self.comparator,
            limit: as_limit(self.fail_fast),
        }
    }

    /// The counts and samples are those of what was found.
    pub open spec fn tallied(&self) -> bool {
        let found = self.found@;
        &&& self.counts.removed == found.removed.len()
        &&& self.counts.added == found.added.len()
        &&& self.counts.modified == modified(self.rules(), found).len()
        &&& self.columns_changed@ == column_tally(self.rules(), found.matched)
        &&& sample_views(self.samples.removed@) == first(
            found.removed,
            self.max_samples as nat,
        ).map_values(key_sample(self.left.codec@))
        &&& sample_views(self.samples.added@) == first(found.added, self.max_samples as nat).map_values(
            key_sample(self.right.codec@),
        )
        &&& modified_views(self.samples.modified@) == first(
            modified(self.rules(), found),
            self.max_samples as nat,
        ).map_values(modified_sample(self.rules(), self.left.codec@))
    }

    /// What was found on a side was consumed there.
    pub open spec fn consumed_all(&self) -> bool {
        &&& self.found@.removed.len() + self.found@.matched.len() + (if self.left.current is Some {
            1int
        } else {
            0int
        }) <= self.left.consumed
        &&& self.found@.added.len() + self.found@.matched.len() + (if self.right.current is Some {
            1int
        } else {
            0int
        }) <= self.right.consumed
    }

    pub open spec fn wf(&self) -> bool {
        &&& self.left.wf()
        &&& self.right.wf()
        &&& cols_fit(value_col_views(self.cols@), self.left@.rest, self.right@.rest)
        &&& self.tallied()
        &&& self.consumed_all()
    }

    /// Rows and changes can still be counted.
    pub open spec fn countable(&self) -> bool {
        &&& self.left.consumed < usize::MAX || self.left@.rest.len() <= 1
        &&& self.right.consumed < usize::MAX || self.right@.rest.len() <= 1
        &&& self.left.consumed * self.cols@.len() <= usize::MAX
    }

    pub fn new(
        left: SortedSource,
        right: SortedSource,
        cols: Vec<ValueCol>,
        comparator: Comparator,
        fail_fast: Option<usize>,
        max_samples: usize,
    ) -> (r: Self)
        requires
            left.wf(),
            right.wf(),
            cols_fit(value_col_views(cols@), left@.rest, right@.rest),
        ensures
            r.wf(),
            r.left == left,
            r.right == right,
            r.cols == cols,
            r.max_samples == max_samples,
            r.rules() == (KeyedRules {
                cols: value_col_views(cols@),
                comparator,
                limit: as_limit(fail_fast),
            }),
            r.found@ == nothing_found(),
    {
        let r = KeyedDiff {
            left,
            right,
            cols,
            comparator,
            fail_fast,
            max_samples,
            counts: DiffCounts { added: 0, removed: 0, modified: 0 },
            samples: Samples { added: Vec::new(), removed: Vec::new(), modified: Vec::new() },
            columns_changed: ColumnCounts::new(),
            found: Ghost(nothing_found()),
        };
        proof {
            reveal(Seq::filter);
            let found = r.found@;
            assert(modified(r.rules(), found) =~= seq![]);
            assert(sample_views(r.samples.removed@) =~= first(
                found.removed,
                r.max_samples as nat,
            ).map_values(key_sample(r.left.codec@)));
            assert(sample_views(r.samples.added@) =~= first(found.added, r.max_samples as nat).map_values(
                key_sample(r.right.codec@),
            ));
            assert(modified_views(r.samples.modified@) =~= first(
                modified(r.rules(), found),
                r.max_samples as nat,
            ).map_values(modified_sample(r.rules(), r.left.codec@)));
        }
        r
    }

    /// True where the scan is to stop.
    fn stops(&self) -> (r: bool)
        requires
            self.tallied(),
        ensures
            r == limit_reached(self.rules().limit, differences(self.rules(), self.found@)),
    {
        match self.fail_fast {
            Some(n) => self.counts.added as u128 + self.counts.removed as u128
                + self.counts.modified as u128 >= n as u128,
            None => false,
        }
    }

    /// Takes one step of the scan.
    pub fn step(&mut self) -> (r: Result<Progress, Error>)
        requires
            old(self).wf(),
            old(self).countable(),
        ensures
            match r {
                Ok(Progress::More) => {
                    &&& keyed_step(
                        old(self).rules(),
                        old(self).left@,
                        old(self).right@,
                        old(self).found@,
                    ) == (KeyedStep::More {
                        left: final(self).left@,
                        right: final(self).right@,
                        found: final(self).found@,
                    })
                    &&& final(self).wf()
                    &&& final(self).rules() == old(self).rules()
                    &&& final(self).cols == old(self).cols
                    &&& final(self).max_samples == old(self).max_samples
                },
                Ok(Progress::Done { truncated }) => {
                    &&& keyed_step(
                        old(self).rules(),
                        old(self).left@,
                        old(self).right@,
                        old(self).found@,
                    ) == (KeyedStep::Done { truncated })
                    &&& *final(self) == *old(self)
                },
                Err(e) => keyed_step(
                    old(self).rules(),
                    old(self).left@,
                    old(self).right@,
                    old(self).found@,
                ) == KeyedStep::Failed(e@),
            },
    {
        if self.stops() {
            return Ok(Progress::Done { truncated: true });
        }
        let order: i8 = match (self.left.peek(), self.right.peek()) {
            (None, None) => {
                return Ok(Progress::Done { truncated: false });
            },
            (Some(_), None) => -1,
            (None, Some(_)) => 1,
            (Some(l), Some(r)) => {
                proof {
                    law_byte_order_total(l.key@, r.key@);
                }
                compare_bytes(l.key.as_slice(), r.key.as_slice())
            },
        };
        if order < 0 {
            self.record_left();
        } else if order > 0 {
            self.record_right();
        } else {
            self.record_both();
        }
        let ghost l = self.left@;
        let ghost r = self.right@;
        if order <= 0 {
            match self.left.advance() {
                Ok(()) => {},
                Err(e) => {
                    return Err(e);
                },
            }
        }
        if order >= 0 {
            match self.right.advance() {
                Ok(()) => {},
                Err(e) => {
                    return Err(e);
                },
            }
        }
        proof {
            let cols = value_col_views(self.cols@);
            assert forall|i: int, j: int|
                0 <= i < self.left@.rest.len() && 0 <= j < cols.len() implies 0 <= (
            #[trigger] cols[j]).left < (#[trigger] self.left@.rest[i]).cells.len() by {
                if order <= 0 {
                    assert(self.left@.rest[i] == l.rest[i + 1]);
                }
            }
            assert forall|i: int, j: int|
                0 <= i < self.right@.rest.len() && 0 <= j < cols.len() implies 0 <= (
            #[trigger] cols[j]).right < (#[trigger] self.right@.rest[i]).cells.len() by {
                if order >= 0 {
                    assert(self.right@.rest[i] == r.rest[i + 1]);
                }
            }
            lemma_current(self.left);
            lemma_current(self.right);
            assert(self.left@.consumed >= l.consumed && self.right@.consumed >= r.consumed);
            if order <= 0 {
                assert(self.left@ == advanced(l));
                assert(self.left@.rest.len() == l.rest.len() - 1);
            }
            if order >= 0 {
                assert(self.right@ == advanced(r));
                assert(self.right@.rest.len() == r.rest.len() - 1);
            }
            assert(self.consumed_all());
            assert(self.tallied());
            assert(self.wf());
        }
        Ok(Progress::More)
    }

    /// What recording a row leaves as it was.
    spec fn same_scan(&self, other: &Self) -> bool {
        &&& self.left == other.left
        &&& self.right == other.right
        &&& self.cols == other.cols
        &&& self.comparator == other.comparator
        &&& self.fail_fast == other.fail_fast
        &&& self.max_samples == other.max_samples
    }

    fn record_left(&mut self)
        requires
            old(self).wf(),
            old(self).left@.rest.len() > 0,
        ensures
            final(self).same_scan(old(self)),
            final(self).tallied(),
            final(self).found@ == (Found {
                removed: old(self).found@.removed.push(old(self).left@.rest[0]),
                ..old(self).found@
            }),
    {
        let ghost before = self.found@;
        let ghost row = self.left@.rest[0];
        assert(self.left.codec@.fits(row.cells.len() as int));
        let key = match self.left.peek() {
            Some(row) => source_key(&self.left, row),
            None => Vec::new(),
        };
        record_removed(key, self.max_samples, &mut self.counts, &mut self.samples);
        self.found = Ghost(Found { removed: before.removed.push(row), ..before });
        proof {
            lemma_first_push(
                before.removed,
                row,
                self.max_samples as nat,
                key_sample(self.left.codec@),
            );
        }
    }

    fn record_right(&mut self)
        requires
            old(self).wf(),
            old(self).right@.rest.len() > 0,
        ensures
            final(self).same_scan(old(self)),
            final(self).tallied(),
            final(self).found@ == (Found {
                added: old(self).found@.added.push(old(self).right@.rest[0]),
                ..old(self).found@
            }),
    {
        let ghost before = self.found@;
        let ghost row = self.right@.rest[0];
        assert(self.right.codec@.fits(row.cells.len() as int));
        let key = match self.right.peek() {
            Some(row) => source_key(&self.right, row),
            None => Vec::new(),
        };
        record_added(key, self.max_samples, &mut self.counts, &mut self.samples);
        self.found = Ghost(Found { added: before.added.push(row), ..before });
        proof {
            lemma_first_push(
                before.added,
                row,
                self.max_samples as nat,
                key_sample(self.right.codec@),
            );
        }
    }

    fn record_both(&mut self)
        requires
            old(self).wf(),
            old(self).countable(),
            old(self).left@.rest.len() > 0,
            old(self).right@.rest.len() > 0,
        ensures
            final(self).same_scan(old(self)),
            final(self).tallied(),
            final(self).found@ == (Found {
                matched: old(self).found@.matched.push(
                    (old(self).left@.rest[0], old(self).right@.rest[0]),
                ),
                ..old(self).found@
            }),
    {
        let ghost before = self.found@;
        let ghost rules = self.rules();
        let ghost lrow = self.left@.rest[0];
        let ghost rrow = self.right@.rest[0];
        let ghost pair = (lrow, rrow);
        proof {
            assert(self.left.codec@.fits(lrow.cells.len() as int));
            assert forall|j: int| 0 <= j < self.cols@.len() implies (#[trigger] self.cols@[j]).left
                < lrow.cells.len() && self.cols@[j].right < rrow.cells.len() by {
                let c = value_col_views(self.cols@)[j];
                assert(c.left < self.left@.rest[0].cells.len());
                assert(c.right < self.right@.rest[0].cells.len());
            }
        }
        let (key, found): (Vec<KeyVal>, Vec<Change>) = match (self.left.peek(), self.right.peek()) {
            (Some(l), Some(r)) => (
                source_key(&self.left, l),
                row_changes(&self.cols, &self.comparator, l, r),
            ),
            _ => (Vec::new(), Vec::new()),
        };
        let ghost change_views = found@.map_values(|c: Change| c@);
        proof {
            assert(change_views == changes(rules, lrow, rrow));
            lemma_filter_shorter(rules.cols, differs(rules.comparator, lrow, rrow));
            assert forall|name: Seq<char>|
                #[trigger] count_of(self.columns_changed@, name) + change_views.len()
                    <= usize::MAX by {
                lemma_tally_bounded(rules, before.matched, name);
                assert((before.matched.len() + 1) * self.cols@.len() <= self.left.consumed
                    * self.cols@.len()) by (nonlinear_arith)
                    requires
                        before.matched.len() + 1 <= self.left.consumed,
                ;
                assert((before.matched.len() + 1) * self.cols@.len() == before.matched.len()
                    * self.cols@.len() + self.cols@.len()) by (nonlinear_arith);
            }
            lemma_tally_bounded(rules, before.matched, seq![]);
        }
        tally_changes(&mut self.columns_changed, &found);
        let ghost now = Found { matched: before.matched.push(pair), ..before };
        proof {
            assert(now.matched.drop_last() =~= before.matched);
            lemma_filter_next(now.matched, is_modified(rules), before.matched.len() as int);
            assert(now.matched.take(before.matched.len() as int) =~= before.matched);
            assert(now.matched.take(before.matched.len() as int + 1) =~= now.matched);
            lemma_filter_shorter(before.matched, is_modified(rules));
        }
        if found.len() > 0 {
            self.counts.modified = self.counts.modified + 1;
            let ghost kept = self.samples.modified@;
            if self.samples.modified.len() < self.max_samples {
                self.samples.modified.push(ModifiedRow { key, changes: found });
                assert(modified_views(self.samples.modified@) =~= modified_views(kept).push(
                    modified_sample(rules, self.left.codec@)(pair),
                ));
            }
            proof {
                lemma_first_push(
                    modified(rules, before),
                    pair,
                    self.max_samples as nat,
                    modified_sample(rules, self.left.codec@),
                );
            }
        }
        self.found = Ghost(now);
    }
}

/// Counts the columns of changes.
fn tally_changes(counts: &mut ColumnCounts, found: &Vec<Change>)
    requires
        well_counted(old(counts)@),
        forall|name: Seq<char>| #[trigger]
            count_of(old(counts)@, name) + found@.len() <= usize::MAX,
    ensures
        final(counts)@ == count_changes(old(counts)@, found@.map_values(|c: Change| c@)),
{
    let ghost before = counts@;
    let ghost all = found@.map_values(|c: Change| c@);
    assert(all.take(0) =~= seq![]);
    for i in 0..found.len()
        invariant
            all == found@.map_values(|c: Change| c@),
            before == old(counts)@,
            well_counted(before),
            forall|name: Seq<char>| #[trigger] count_of(before, name) + found@.len() <= usize::MAX,
            counts@ == count_changes(before, all.take(i as int)),
    {
        proof {
            lemma_count_changes(before, all.take(i as int), found@[i as int].column@);
            assert(count_of(before, found@[i as int].column@) + found@.len() <= usize::MAX);
            assert(all.take(i + 1).drop_last() =~= all.take(i as int));
            assert(all.take(i + 1).last() == found@[i as int]@);
        }
        counts.bump(&found[i].column);
    }
    assert(all.take(all.len() as int) =~= all);
}

impl KeyedDiff {
    /// Makes the report of a finished scan.
    pub fn finish(self, schema: SchemaDiff, inferred: bool, truncated: bool) -> (r: DiffReport)
        requires
            self.wf(),
        ensures
            r@ == keyed_report(
                schema@,
                self.rules(),
                inferred,
                self.max_samples as nat,
                self.left@,
                self.right@,
                self.found@,
                truncated,
            ),
    {
        DiffReport {
            schema,
            key: KeyInfo { columns: copy_all(&self.left.codec.key_cols), inferred },
            keyless: false,
            rows: RowCounts { left: self.left.total_rows(), right: self.right.total_rows() },
            diff: self.counts,
            columns_changed: self.columns_changed,
            samples: self.samples,
            truncated,
        }
    }

    /// Scans to the end, and makes the report.
    pub fn run(self, schema: SchemaDiff, inferred: bool) -> (r: Result<DiffReport, Error>)
        requires
            self.wf(),
            self.left.consumed + self.left@.rest.len() <= usize::MAX,
            self.right.consumed + self.right@.rest.len() <= usize::MAX,
            (self.left.consumed + self.left@.rest.len()) * self.cols@.len() <= usize::MAX,
        ensures
            report_view(r) == keyed_outcome(
                schema@,
                self.rules(),
                inferred,
                self.max_samples as nat,
                keyed_walk(self.rules(), self.left@, self.right@, self.found@),
            ),
    {
        let ghost rules = self.rules();
        let ghost max = self.max_samples as nat;
        let ghost end = keyed_walk(rules, self.left@, self.right@, self.found@);
        let ghost n = self.left.consumed + self.left@.rest.len();
        let ghost width = self.cols@.len();
        let mut scan = self;
        loop
            invariant
                scan.wf(),
                scan.rules() == rules,
                scan.max_samples == max,
                scan.cols@.len() == width,
                keyed_walk(rules, scan.left@, scan.right@, scan.found@) == end,
                scan.left.consumed + scan.left@.rest.len() <= n <= usize::MAX,
                n * width <= usize::MAX,
                scan.right.consumed + scan.right@.rest.len() <= usize::MAX,
                self.rules() == rules,
                self.max_samples == max,
                end == keyed_walk(rules, self.left@, self.right@, self.found@),
            decreases scan.left@.rest.len() + scan.right@.rest.len(),
        {
            proof {
                lemma_step_shrinks(rules, scan.left@, scan.right@, scan.found@);
                assert(scan.left.consumed * width <= n * width) by (nonlinear_arith)
                    requires
                        scan.left.consumed <= n,
                ;
            }
            match scan.step() {
                Ok(Progress::More) => {},
                Ok(Progress::Done { truncated }) => {
                    return Ok(scan.finish(schema, inferred, truncated));
                },
                Err(e) => {
                    return Err(e);
                },
            }
        }
    }
}

/// A report or an error, as plain data.
pub open spec fn report_view(r: Result<DiffReport, Error>) -> Result<ReportView, ErrorView> {
    match r {
        Ok(report) => Ok(report@),
        Err(e) => Err(e@),
    }
}

/// What comes of a scan.
pub open spec fn keyed_outcome(
    schema: SchemaDiffView,
    rules: KeyedRules,
    inferred: bool,
    max_samples: nat,
    end: KeyedEnd,
) -> Result<ReportView, ErrorView> {
    match end {
        KeyedEnd::Done { left, right, found, truncated } => Ok(
            keyed_report(schema, rules, inferred, max_samples, left, right, found, truncated),
        ),
        KeyedEnd::Failed(e) => Err(e),
    }
}

/// A compared column: the name it is reported by, and its name on either side.
pub struct ValueName {
    pub shown: Seq<char>,
    pub left: Seq<char>,
    pub right: Seq<char>,
}

/// True for a column that is no key column.
pub open spec fn not_in(keys: Seq<Seq<char>>) -> spec_fn(Seq<char>) -> bool {
    |c: Seq<char>| !keys.contains(c)
}

/// The columns that are compared: the shared ones that are no key columns, and
/// the renamed ones under both of their names.
pub open spec fn value_names(schema: SchemaDiffView, keys: Seq<Seq<char>>) -> Seq<ValueName> {
    schema.mutual.filter(not_in(keys)).map_values(
        |c: Seq<char>| ValueName { shown: c, left: c, right: c },
    ) + renamed_names(schema.renamed)
}

/// The renamed columns, reported under both of their names.
pub open spec fn renamed_names(renamed: Seq<RenameView>) -> Seq<ValueName> {
    renamed.map_values(
        |r: RenameView| ValueName { shown: r.left + "→"@ + r.right, left: r.left, right: r.right },
    )
}

/// The names that columns have on the two sides.
pub open spec fn side_names(names: Seq<ValueName>) -> Seq<(Seq<char>, Seq<char>)> {
    names.map_values(|n: ValueName| (n.left, n.right))
}

/// Where the compared columns are.
pub open spec fn value_cols(
    names: Seq<ValueName>,
    left: Seq<FieldShape>,
    right: Seq<FieldShape>,
) -> Seq<ValueColView> {
    names.map_values(
        |n: ValueName|
            ValueColView { name: n.shown, left: column(left, n.left), right: column(right, n.right) },
    )
}

/// Finds one compared column.
fn find_column(shown: String, l: &str, r: &str, left: &Schema, right: &Schema) -> (c: Result<
    ValueCol,
    Error,
>)
    ensures
        match c {
            Ok(c) => {
                &&& has_column(left@, l@)
                &&& has_column(right@, r@)
                &&& c@ == (ValueColView {
                    name: shown@,
                    left: column(left@, l@),
                    right: column(right@, r@),
                })
                &&& c.left < left@.len()
                &&& c.right < right@.len()
            },
            Err(e) => if !has_column(left@, l@) {
                e@ == (ErrorView::MissingColumn { column: l@ })
            } else {
                !has_column(right@, r@) && e@ == (ErrorView::MissingColumn { column: r@ })
            },
        },
{
    match left.index_of(l) {
        None => Err(Error::MissingColumn { column: l.to_owned() }),
        Some(i) => match right.index_of(r) {
            None => Err(Error::MissingColumn { column: r.to_owned() }),
            Some(j) => Ok(ValueCol { name: shown, left: i, right: j }),
        },
    }
}

/// Finds the columns that are compared.
pub fn value_columns(schema: &SchemaDiff, keys: &Vec<String>, left: &Schema, right: &Schema) -> (r: Result<
    Vec<ValueCol>,
    Error,
>)
    ensures
        ({
            let names = value_names(schema@, views(keys@));
            let missing = first_unshared(left@, right@, side_names(names));
            match r {
                Ok(cols) => {
                    &&& missing is None
                    &&& value_col_views(cols@) == value_cols(names, left@, right@)
                    &&& forall|i: int|
                        0 <= i < cols@.len() ==> (#[trigger] cols@[i]).left < left@.len()
                            && cols@[i].right < right@.len()
                },
                Err(e) => missing matches Some(name) && e@ == (ErrorView::MissingColumn { column: name }),
            }
        }),
{
    let ghost names = value_names(schema@, views(keys@));
    let ghost pairs = side_names(names);
    let ghost mutual = views(schema.mutual@);
    let ghost p = not_in(views(keys@));
    let ghost kept = mutual.filter(p);
    let mut cols: Vec<ValueCol> = Vec::new();
    assert(mutual.take(0).filter(p).len() == 0) by {
        reveal(Seq::filter);
    }
    for i in 0..schema.mutual.len()
        invariant
            names == value_names(schema@, views(keys@)),
            pairs == side_names(names),
            mutual == views(schema.mutual@),
            p == not_in(views(keys@)),
            kept == mutual.filter(p),
            cols@.len() == mutual.take(i as int).filter(p).len(),
            forall|j: int|
                0 <= j < cols@.len() ==> (#[trigger] cols@[j])@ == value_cols(names, left@, right@)[j]
                    && cols@[j].left < left@.len() && cols@[j].right < right@.len(),
            forall|j: int|
                0 <= j < cols@.len() ==> has_column(left@, (#[trigger] pairs[j]).0) && has_column(
                    right@,
                    pairs[j].1,
                ),
    {
        let c = &schema.mutual[i];
        let ghost at = mutual.take(i as int).filter(p).len();
        proof {
            lemma_filter_next(mutual, p, i as int);
            lemma_filter_prefix(mutual, p, i + 1);
            assert(mutual[i as int] == c@);
        }
        if !contains(keys, c.as_str()) {
            proof {
                assert(kept[at as int] == c@);
                assert(names[at as int] == (ValueName { shown: c@, left: c@, right: c@ }));
                assert(pairs[at as int] == (c@, c@));
                lemma_first_unshared(left@, right@, pairs, at as int);
            }
            match find_column(c.clone(), c.as_str(), c.as_str(), left, right) {
                Ok(col) => {
                    cols.push(col);
                    assert(value_cols(names, left@, right@)[at as int] == col@);
                },
                Err(e) => {
                    return Err(e);
                },
            }
        }
    }
    assert(mutual.take(mutual.len() as int) =~= mutual);
    for i in 0..schema.renamed.len()
        invariant
            names == value_names(schema@, views(keys@)),
            pairs == side_names(names),
            kept == views(schema.mutual@).filter(not_in(views(keys@))),
            cols@.len() == kept.len() + i,
            forall|j: int|
                0 <= j < cols@.len() ==> (#[trigger] cols@[j])@ == value_cols(names, left@, right@)[j]
                    && cols@[j].left < left@.len() && cols@[j].right < right@.len(),
            forall|j: int|
                0 <= j < cols@.len() ==> has_column(left@, (#[trigger] pairs[j]).0) && has_column(
                    right@,
                    pairs[j].1,
                ),
    {
        let r = &schema.renamed[i];
        let ghost at = (kept.len() + i) as int;
        let mut shown = r.left.clone();
        shown.append("→");
        shown.append(r.right.as_str());
        proof {
            assert(schema@.renamed[i as int] == r@);
            assert(names[at] == renamed_names(schema@.renamed)[i as int]);
            assert(pairs[at] == (r.left@, r.right@));
            lemma_first_unshared(left@, right@, pairs, at);
        }
        match find_column(shown, r.left.as_str(), r.right.as_str(), left, right) {
            Ok(col) => {
                cols.push(col);
                assert(value_cols(names, left@, right@)[at] == col@);
            },
            Err(e) => {
                return Err(e);
            },
        }
    }
    proof {
        lemma_first_unshared(left@, right@, pairs, pairs.len() as int);
        assert(value_col_views(cols@) =~= value_cols(names, left@, right@));
    }
    Ok(cols)
}

/// The filter of a prefix is a prefix of the filter.
proof fn lemma_filter_prefix<A>(s: Seq<A>, p: spec_fn(A) -> bool, n: int)
    requires
        0 <= n <= s.len(),
    ensures
        s.take(n).filter(p).len() <= s.filter(p).len(),
        forall|i: int| 0 <= i < s.take(n).filter(p).len() ==> s.take(n).filter(p)[i] == s.filter(p)[i],
    decreases s.len() - n,
{
    if n < s.len() {
        lemma_filter_prefix(s, p, n + 1);
        lemma_filter_next(s, p, n);
    } else {
        assert(s.take(n) =~= s);
    }
}

/// How two sides are matched by key.
pub struct KeyedSetup {
    pub left: CodecView,
    pub right: CodecView,
    pub rules: KeyedRules,
}

/// The codecs, compared columns and limit of a keyed diff.
pub open spec fn keyed_setup(
    key: Seq<Seq<char>>,
    left: Seq<FieldShape>,
    right: Seq<FieldShape>,
    schema: SchemaDiffView,
    comparator: Comparator,
    fail_fast: Option<usize>,
) -> KeyedSetup {
    let types = key_types(key, left, right);
    KeyedSetup {
        left: side_codec(key, left, types),
        right: side_codec(key, right, types),
        rules: KeyedRules {
            cols: value_cols(value_names(schema, key), left, right),
            comparator,
            limit: as_limit(fail_fast),
        },
    }
}

/// The first column that a keyed diff does not find.
pub open spec fn keyed_missing(
    key: Seq<Seq<char>>,
    left: Seq<FieldShape>,
    right: Seq<FieldShape>,
    schema: SchemaDiffView,
) -> Option<Seq<char>> {
    match first_unshared(left, right, twice(key)) {
        Some(name) => Some(name),
        None => first_unshared(left, right, side_names(value_names(schema, key))),
    }
}

/// What a keyed scan works with: how either side encodes its keys, and the
/// columns that are compared.
#[derive(Debug)]
pub struct KeyedParts {
    pub left: KeyCodec,
    pub right: KeyCodec,
    pub cols: Vec<ValueCol>,
}

impl KeyedParts {
    /// Finds the key columns and the compared ones in both schemas.
    pub fn new(key_cols: &Vec<String>, left: &Schema, right: &Schema, schema: &SchemaDiff) -> (r: Result<
        Self,
        Error,
    >)
        ensures
            match r {
                Ok(parts) => {
                    let key = views(key_cols@);
                    let types = key_types(key, left@, right@);
                    &&& keyed_missing(key, left@, right@, schema@) is None
                    &&& parts.left@ == side_codec(key, left@, types)
                    &&& parts.right@ == side_codec(key, right@, types)
                    &&& value_col_views(parts.cols@) == value_cols(value_names(schema@, key), left@, right@)
                    &&& forall|i: int|
                        0 <= i < parts.left@.idx.len() ==> #[trigger] parts.left@.idx[i] < left@.len()
                    &&& forall|i: int|
                        0 <= i < parts.right@.idx.len() ==> #[trigger] parts.right@.idx[i] < right@.len()
                    &&& forall|i: int|
                        0 <= i < parts.cols@.len() ==> (#[trigger] parts.cols@[i]).left < left@.len()
                            && parts.cols@[i].right < right@.len()
                },
                Err(e) => keyed_missing(views(key_cols@), left@, right@, schema@) matches Some(name) && e@
                    == (ErrorView::MissingColumn { column: name }),
            },
    {
        let spec = match KeySpec::new(key_cols, left, right) {
            Ok(spec) => spec,
            Err(e) => {
                return Err(e);
            },
        };
        proof {
            lemma_shared_not_missing(views(key_cols@), left@, right@);
        }
        let lcodec = match spec.codec(left) {
            Ok(codec) => codec,
            Err(e) => {
                return Err(e);
            },
        };
        let rcodec = match spec.codec(right) {
            Ok(codec) => codec,
            Err(e) => {
                return Err(e);
            },
        };
        let cols = match value_columns(schema, key_cols, left, right) {
            Ok(cols) => cols,
            Err(e) => {
                return Err(e);
            },
        };
        Ok(KeyedParts { left: lcodec, right: rcodec, cols })
    }
}

/// What comes of a keyed diff whose sides are scanned in the given order.
pub open spec fn keyed_diff(
    setup: KeyedSetup,
    schema: SchemaDiffView,
    inferred: bool,
    cfg: DiffConfig,
    left: Seq<RowView>,
    right: Seq<RowView>,
) -> Result<ReportView, ErrorView> {
    keyed_outcome(
        schema,
        setup.rules,
        inferred,
        cfg.max_samples as nat,
        keyed_walk(
            setup.rules,
            begin(setup.left, cfg.left@, left, cfg.assume_sorted),
            begin(setup.right, cfg.right@, right, cfg.assume_sorted),
            nothing_found(),
        ),
    )
}

/// True of what a keyed diff of two streams may come to: the keys compare as
/// their values do, and the rows are scanned in the order of their keys.
/// Sorting leaves open in which order rows with equal keys come.
pub open spec fn keyed_result(
    left: BatchIter,
    right: BatchIter,
    key: Seq<Seq<char>>,
    inferred: bool,
    schema: SchemaDiffView,
    cfg: DiffConfig,
    comparator: Comparator,
    r: Result<ReportView, ErrorView>,
) -> bool {
    match keyed_missing(key, left.schema@, right.schema@, schema) {
        Some(name) => r == Err::<ReportView, ErrorView>(ErrorView::MissingColumn { column: name }),
        None => {
            let setup = keyed_setup(
                key,
                left.schema@,
                right.schema@,
                schema,
                comparator,
                cfg.fail_fast,
            );
            &&& stream_follows_values(setup.left, left.batches@)
            &&& stream_follows_values(setup.right, right.batches@)
            &&& exists|l: Seq<RowView>, m: Seq<RowView>|
                {
                    &&& #[trigger] arranged(cfg.assume_sorted, l, stream_rows(setup.left, left.batches@))
                    &&& #[trigger] arranged(cfg.assume_sorted, m, stream_rows(setup.right, right.batches@))
                    &&& r == keyed_diff(setup, schema, inferred, cfg, l, m)
                }
        },
    }
}

/// Keyed diff of two streams: rows are matched by the values in the key
/// columns, and the other shared columns are compared, renamed ones too.
pub fn diff_streams(
    left: &BatchIter,
    right: &BatchIter,
    key_cols: &Vec<String>,
    inferred: bool,
    schema: SchemaDiff,
    cfg: &DiffConfig,
    comparator: &Comparator,
) -> (r: Result<DiffReport, Error>)
    requires
        left.wf(),
        right.wf(),
        key_cols@.len() > 0,
        (row_count(left.batches@) + 1) * value_names(schema@, views(key_cols@)).len() <= usize::MAX,
    ensures
        keyed_result(
            *left,
            *right,
            views(key_cols@),
            inferred,
            schema@,
            *cfg,
            *comparator,
            report_view(r),
        ),
{
    let ghost key = views(key_cols@);
    let parts = match KeyedParts::new(key_cols, &left.schema, &right.schema, &schema) {
        Ok(parts) => parts,
        Err(e) => {
            return Err(e);
        },
    };
    let lcodec = parts.left;
    let rcodec = parts.right;
    let cols = parts.cols;
    let ghost setup = keyed_setup(
        key,
        left.schema@,
        right.schema@,
        schema@,
        *comparator,
        cfg.fail_fast,
    );
    assert(lcodec@ == setup.left);
    assert(rcodec@ == setup.right);
    let budget = cfg.budget();
    let mut spill = SpillDir::new(None);
    assert(left.batches.len() + right.batches.len() < u128::MAX);
    let ls = open_side(left, lcodec, cfg.left.clone(), cfg.assume_sorted, budget, &mut spill);
    proof {
        law_runs_are_cut_by_the_budget(left.batches@, budget as nat);
    }
    let rs = open_side(right, rcodec, cfg.right.clone(), cfg.assume_sorted, budget, &mut spill);
    let ghost lrows = ls@.rest;
    let ghost rrows = rs@.rest;
    proof {
        let c = value_col_views(cols@);
        assert forall|i: int, j: int| 0 <= i < lrows.len() && 0 <= j < c.len() implies 0 <= (
        #[trigger] c[j]).left < (#[trigger] lrows[i]).cells.len() by {
            assert(cols@[j].left < left.schema@.len());
        }
        assert forall|i: int, j: int| 0 <= i < rrows.len() && 0 <= j < c.len() implies 0 <= (
        #[trigger] c[j]).right < (#[trigger] rrows[i]).cells.len() by {
            assert(cols@[j].right < right.schema@.len());
        }
    }
    let scan = KeyedDiff::new(ls, rs, cols, *comparator, cfg.fail_fast, cfg.max_samples);
    proof {
        let n = scan.left.consumed + lrows.len();
        let w = scan.cols@.len();
        assert(w == value_col_views(scan.cols@).len());
        assert(w == value_names(schema@, key).len());
        assert(n * w <= (row_count(left.batches@) + 1) * w) by (nonlinear_arith)
            requires
                n <= row_count(left.batches@) + 1,
        ;
    }
    let ghost changed = schema@;
    let r = scan.run(schema, inferred);
    proof {
        assert(arranged(cfg.assume_sorted, lrows, stream_rows(setup.left, left.batches@)));
        assert(arranged(cfg.assume_sorted, rrows, stream_rows(setup.right, right.batches@)));
        assert(report_view(r) == keyed_diff(setup, changed, inferred, *cfg, lrows, rrows));
    }
    r
}

/// Names that both sides have are missing on neither.
proof fn lemma_shared_not_missing(names: Seq<Seq<char>>, left: Seq<FieldShape>, right: Seq<FieldShape>)
    requires
        first_unshared(left, right, twice(names)) is None,
    ensures
        first_missing(left, names) is None,
        first_missing(right, names) is None,
{
    assert forall|i: int| 0 <= i < names.len() implies has_column(left, #[trigger] names[i])
        && has_column(right, names[i]) by {
        lemma_all_shared(left, right, twice(names), i);
    }
    lemma_first_missing(left, names, names.len() as int);
    lemma_first_missing(right, names, names.len() as int);
}

} // verus!
