//! Keyless row differences: rows are matched by whole-row content hash and
//! compared as multisets.

use crate::error::{Error, ErrorView};
use crate::hash::{hash_field, picked, row_bytes, with_row_hash, xxh3, RowHasher, HASH_COL};
use crate::input::{row_count, Batch, BatchIter};
use crate::key::{big_endian, key_part, key_parts, row_key, KeyPart};
use crate::merge::{begin, group_size, leading, lemma_current, open_side, past_group, row_total, SortedSource, SourceView};
use crate::report::{key_vals, sample_views, ColumnCounts, DiffCounts, DiffReport, KeyInfo, KeyVal, KeyValView, ReportView, RowCounts, SampleView, Samples, SamplesView};
use crate::row_diff::{as_limit, first, lemma_first_push, limit_reached, push_sample, report_view, Progress};
use crate::schema::{column, first_missing, has_column, lemma_column, lemma_first_missing, lemma_first_unshared, names, places, FieldShape, Schema};
use crate::schema_diff::{SchemaDiff, SchemaDiffView};
use crate::sort::{batch_follows_values, follows_values, keyed_rows, law_runs_are_cut_by_the_budget, row_order, sorts, stream_follows_values, stream_rows, twice, CodecView, KeyCodec, KeySpec, Row, RowView, SpillDir};
use crate::text::{compare_bytes, hexadecimal, law_byte_order_total, lemma_place_is, views};
use crate::value::{shown, Array, CellView};
use crate::DiffConfig;
use vstd::prelude::*;

verus! {

/// A column of which the values are reported.
#[derive(Debug)]
pub struct SampleCol {
    pub name: String,
    pub at: usize,
}

/// A reported column: its name, and where it is.
pub struct SampleColView {
    pub name: Seq<char>,
    pub at: int,
}

impl View for SampleCol {
    type V = SampleColView;

    open spec fn view(&self) -> SampleColView {
        SampleColView { name: self.name@, at: self.at as int }
    }
}

pub open spec fn sample_col_views(cols: Seq<SampleCol>) -> Seq<SampleColView> {
    cols.map_values(|c: SampleCol| c@)
}

/// The reported columns of a schema.
pub open spec fn sample_cols(names: Seq<Seq<char>>, fields: Seq<FieldShape>) -> Seq<SampleColView> {
    names.map_values(|c: Seq<char>| SampleColView { name: c, at: column(fields, c) })
}

/// Finds the columns that are reported.
pub fn sample_columns(names: &Vec<String>, schema: &Schema) -> (r: Result<Vec<SampleCol>, Error>)
    ensures
        match r {
            Ok(cols) => {
                &&& first_missing(schema@, views(names@)) is None
                &&& sample_col_views(cols@) == sample_cols(views(names@), schema@)
                &&& forall|i: int| 0 <= i < cols@.len() ==> (#[trigger] cols@[i]).at < schema@.len()
            },
            Err(e) => first_missing(schema@, views(names@)) matches Some(name) && e@
                == (ErrorView::MissingColumn { column: name }),
        },
{
    let idx = match schema.indices_of(names) {
        Ok(idx) => idx,
        Err(e) => {
            return Err(e);
        },
    };
    let mut cols: Vec<SampleCol> = Vec::new();
    for i in 0..names.len()
        invariant
            idx@.len() == names@.len(),
            forall|j: int|
                0 <= j < idx@.len() ==> #[trigger] idx@[j] == column(schema@, names@[j]@) && idx@[j]
                    < schema@.len(),
            cols.len() == i,
            forall|j: int|
                0 <= j < i ==> (#[trigger] cols@[j])@ == (SampleColView {
                    name: names@[j]@,
                    at: column(schema@, names@[j]@),
                }) && cols@[j].at < schema@.len(),
    {
        assert(idx@[i as int] == column(schema@, names@[i as int]@));
        cols.push(SampleCol { name: names[i].clone(), at: idx[i] });
    }
    assert(sample_col_views(cols@) =~= sample_cols(views(names@), schema@));
    Ok(cols)
}

/// A row as it is reported without a key.
pub open spec fn shown_row(cols: Seq<SampleColView>, row: RowView) -> Seq<KeyValView> {
    cols.map_values(|c: SampleColView| KeyValView { column: c.name, value: shown(row.cells[c.at]) })
}

/// Renders the reported columns of a row.
pub fn render_row(row: &Row, cols: &Vec<SampleCol>) -> (r: Vec<KeyVal>)
    requires
        forall|i: int| 0 <= i < cols@.len() ==> (#[trigger] cols@[i]).at < row.cells@.len(),
    ensures
        key_vals(r@) == shown_row(sample_col_views(cols@), row@),
{
    let mut r: Vec<KeyVal> = Vec::new();
    for i in 0..cols.len()
        invariant
            forall|j: int| 0 <= j < cols@.len() ==> (#[trigger] cols@[j]).at < row.cells@.len(),
            r.len() == i,
            forall|j: int|
                0 <= j < i ==> (#[trigger] r@[j])@ == (KeyValView {
                    column: cols@[j].name@,
                    value: shown(row@.cells[cols@[j].at as int]),
                }),
    {
        let c = &cols[i];
        assert(cols@[i as int].at < row.cells@.len());
        r.push(KeyVal { column: c.name.clone(), value: row.cells[c.at].render() });
    }
    assert(key_vals(r@) =~= shown_row(sample_col_views(cols@), row@));
    r
}

/// Rows that one side has more often than the other, each with by how much.
pub struct Surplus {
    pub removed: Seq<(RowView, nat)>,
    pub added: Seq<(RowView, nat)>,
}

/// How many rows a surplus stands for.
pub open spec fn surplus_rows(s: Seq<(RowView, nat)>) -> nat
    decreases s.len(),
{
    if s.len() == 0 {
        0
    } else {
        surplus_rows(s.drop_last()) + s.last().1
    }
}

proof fn lemma_surplus_push(s: Seq<(RowView, nat)>, row: RowView, n: nat)
    ensures
        surplus_rows(s.push((row, n))) == surplus_rows(s) + n,
{
    assert(s.push((row, n)).drop_last() =~= s);
}

/// A surplus as it is reported.
pub open spec fn surplus_sample(cols: Seq<SampleColView>) -> spec_fn((RowView, nat)) -> SampleView {
    |p: (RowView, nat)| SampleView { row: shown_row(cols, p.0), count: p.1 }
}

/// What one step of a keyless scan leads to.
pub enum KeylessStep {
    More { left: SourceView, right: SourceView, found: Surplus },
    Done { truncated: bool },
}

/// One step of a keyless scan: the group of the smaller key is only on its
/// side, and of groups with the same key the larger one has a surplus.
pub open spec fn keyless_step(
    limit: Option<nat>,
    left: SourceView,
    right: SourceView,
    found: Surplus,
) -> KeylessStep {
    let nl = group_size(left);
    let nr = group_size(right);
    if limit_reached(limit, surplus_rows(found.added) + surplus_rows(found.removed)) {
        KeylessStep::Done { truncated: true }
    } else if left.rest.len() == 0 && right.rest.len() == 0 {
        KeylessStep::Done { truncated: false }
    } else if right.rest.len() == 0 || (left.rest.len() > 0 && row_order(left.rest[0], right.rest[0])
        < 0) {
        KeylessStep::More {
            left: past_group(left),
            right,
            found: Surplus { removed: found.removed.push((left.rest[0], nl)), ..found },
        }
    } else if left.rest.len() == 0 || row_order(left.rest[0], right.rest[0]) > 0 {
        KeylessStep::More {
            left,
            right: past_group(right),
            found: Surplus { added: found.added.push((right.rest[0], nr)), ..found },
        }
    } else {
        KeylessStep::More {
            left: past_group(left),
            right: past_group(right),
            found: if nl > nr {
                Surplus {
                    removed: found.removed.push((left.rest[0], (nl - nr) as nat)),
                    ..found
                }
            } else if nr > nl {
                Surplus { added: found.added.push((right.rest[0], (nr - nl) as nat)), ..found }
            } else {
                found
            },
        }
    }
}

/// The current row belongs to its own group.
pub proof fn lemma_group_nonempty(s: SourceView)
    ensures
        s.rest.len() > 0 ==> 0 < group_size(s) <= s.rest.len(),
{
    if s.rest.len() > 0 {
        lemma_leading_bounded(s.rest, s.rest[0].key);
    }
}

proof fn lemma_leading_bounded(rows: Seq<RowView>, key: Seq<u8>)
    ensures
        leading(rows, key) <= rows.len(),
    decreases rows.len(),
{
    if rows.len() > 0 {
        lemma_leading_bounded(rows.drop_first(), key);
    }
}

/// Every step that goes on leaves fewer rows.
pub proof fn lemma_keyless_step_shrinks(
    limit: Option<nat>,
    left: SourceView,
    right: SourceView,
    found: Surplus,
)
    ensures
        keyless_step(limit, left, right, found) matches KeylessStep::More { left: l, right: r, found: f }
            ==> l.rest.len() + r.rest.len() < left.rest.len() + right.rest.len(),
{
    lemma_group_nonempty(left);
    lemma_group_nonempty(right);
}

/// How a keyless scan ends.
pub struct KeylessEnd {
    pub left: SourceView,
    pub right: SourceView,
    pub found: Surplus,
    pub truncated: bool,
}

/// A keyless scan to its end.
pub open spec fn keyless_walk(
    limit: Option<nat>,
    left: SourceView,
    right: SourceView,
    found: Surplus,
) -> KeylessEnd
    decreases left.rest.len() + right.rest.len(),
{
    match keyless_step(limit, left, right, found) {
        KeylessStep::Done { truncated } => KeylessEnd { left, right, found, truncated },
        KeylessStep::More { left: l, right: r, found: f } => {
            proof {
                lemma_keyless_step_shrinks(limit, left, right, found);
            }
            keyless_walk(limit, l, r, f)
        },
    }
}

/// No surplus yet.
pub open spec fn no_surplus() -> Surplus {
    Surplus { removed: seq![], added: seq![] }
}

/// The report of a keyless scan.
pub open spec fn keyless_report(
    schema: SchemaDiffView,
    auto: bool,
    max_samples: nat,
    lcols: Seq<SampleColView>,
    rcols: Seq<SampleColView>,
    end: KeylessEnd,
) -> ReportView {
    ReportView {
        schema,
        key_columns: seq![],
        inferred: auto,
        keyless: true,
        left_rows: row_total(end.left),
        right_rows: row_total(end.right),
        added: surplus_rows(end.found.added),
        removed: surplus_rows(end.found.removed),
        modified: 0,
        columns_changed: seq![],
        samples: SamplesView {
            added: first(end.found.added, max_samples).map_values(surplus_sample(rcols)),
            removed: first(end.found.removed, max_samples).map_values(surplus_sample(lcols)),
            modified: seq![],
        },
        truncated: end.truncated,
    }
}

/// A keyless scan under way.
pub struct KeylessDiff {
    pub left: SortedSource,
    pub right: SortedSource,
    pub lcols: Vec<SampleCol>,
    pub rcols: Vec<SampleCol>,
    pub fail_fast: Option<usize>,
    pub max_samples: usize,
    pub counts: DiffCounts,
    pub samples: Samples,
    pub found: Ghost<Surplus>,
}

/// The reported columns are there in every row.
pub open spec fn sample_cols_fit(cols: Seq<SampleCol>, rows: Seq<RowView>) -> bool {
    forall|i: int, j: int|
        0 <= i < rows.len() && 0 <= j < cols.len() ==> (#[trigger] cols[j]).at < (
        #[trigger] rows[i]).cells.len()
}

impl KeylessDiff {
    /// The counts and samples are those of what was found.
    pub open spec fn tallied(&self) -> bool {
        let found = self.found@;
        let max = self.max_samples as nat;
        &&& self.counts.removed == surplus_rows(found.removed)
        &&& self.counts.added == surplus_rows(found.added)
        &&& self.counts.modified == 0
        &&& sample_views(self.samples.removed@) == first(found.removed, max).map_values(
            surplus_sample(sample_col_views(self.lcols@)),
        )
        &&& sample_views(self.samples.added@) == first(found.added, max).map_values(
            surplus_sample(sample_col_views(self.rcols@)),
        )
        &&& self.samples.modified@.len() == 0
    }

    /// What was found on a side was consumed there.
    pub open spec fn consumed_all(&self) -> bool {
        &&& surplus_rows(self.found@.removed) + (if self.left.current is Some {
            1int
        } else {
            0int
        }) <= self.left.consumed
        &&& surplus_rows(self.found@.added) + (if self.right.current is Some {
            1int
        } else {
            0int
        }) <= self.right.consumed
    }

    pub open spec fn wf(&self) -> bool {
        &&& self.left.wf()
        &&& self.right.wf()
        &&& !self.left.validate_order
        &&& !self.right.validate_order
        &&& sample_cols_fit(self.lcols@, self.left@.rest)
        &&& sample_cols_fit(self.rcols@, self.right@.rest)
        &&& self.tallied()
        &&& self.consumed_all()
    }

    /// Rows can still be counted.
    pub open spec fn countable(&self) -> bool {
        &&& self.left.consumed + self.left@.rest.len() <= usize::MAX + 1
        &&& self.right.consumed + self.right@.rest.len() <= usize::MAX + 1
    }

    pub fn new(
        left: SortedSource,
        right: SortedSource,
        lcols: Vec<SampleCol>,
        rcols: Vec<SampleCol>,
        fail_fast: Option<usize>,
        max_samples: usize,
    ) -> (r: Self)
        requires
            left.wf(),
            right.wf(),
            !left.validate_order,
            !right.validate_order,
            sample_cols_fit(lcols@, left@.rest),
            sample_cols_fit(rcols@, right@.rest),
        ensures
            r.wf(),
            r.left == left,
            r.right == right,
            r.lcols == lcols,
            r.rcols == rcols,
            r.fail_fast == fail_fast,
            r.max_samples == max_samples,
            r.found@ == no_surplus(),
    {
        let r = KeylessDiff {
            left,
            right,
            lcols,
            rcols,
            fail_fast,
            max_samples,
            counts: DiffCounts { added: 0, removed: 0, modified: 0 },
            samples: Samples { added: Vec::new(), removed: Vec::new(), modified: Vec::new() },
            found: Ghost(no_surplus()),
        };
        proof {
            let max = max_samples as nat;
            assert(sample_views(r.samples.removed@) =~= first(r.found@.removed, max).map_values(
                surplus_sample(sample_col_views(r.lcols@)),
            ));
            assert(sample_views(r.samples.added@) =~= first(r.found@.added, max).map_values(
                surplus_sample(sample_col_views(r.rcols@)),
            ));
        }
        r
    }

    /// True where the scan is to stop.
    fn stops(&self) -> (r: bool)
        requires
            self.tallied(),
        ensures
            r == limit_reached(
                as_limit(self.fail_fast),
                surplus_rows(self.found@.added) + surplus_rows(self.found@.removed),
            ),
    {
        match self.fail_fast {
            Some(n) => self.counts.added as u128 + self.counts.removed as u128 >= n as u128,
            None => false,
        }
    }

    /// Takes one step of the scan.
    pub fn step(&mut self) -> (r: Progress)
        requires
            old(self).wf(),
            old(self).countable(),
        ensures
            match r {
                Progress::More => {
                    &&& keyless_step(
                        as_limit(old(self).fail_fast),
                        old(self).left@,
                        old(self).right@,
                        old(self).found@,
                    ) == (KeylessStep::More {
                        left: final(self).left@,
                        right: final(self).right@,
                        found: final(self).found@,
                    })
                    &&& final(self).wf()
                    &&& final(self).same_scan(old(self))
                },
                Progress::Done { truncated } => {
                    &&& keyless_step(
                        as_limit(old(self).fail_fast),
                        old(self).left@,
                        old(self).right@,
                        old(self).found@,
                    ) == (KeylessStep::Done { truncated })
                    &&& *final(self) == *old(self)
                },
            },
    {
        if self.stops() {
            return Progress::Done { truncated: true };
        }
        let order: i8 = match (self.left.peek(), self.right.peek()) {
            (None, None) => {
                return Progress::Done { truncated: false };
            },
            (Some(_), None) => -1,
            (None, Some(_)) => 1,
            (Some(l), Some(r)) => {
                proof {
                    law_byte_order_total(l.key@, r.key@);
                }
                compare_bytes(l.key.as_slice(), r.key.as_slice())
            },
        };
        let ghost l = self.left@;
        let ghost r = self.right@;
        let ghost found = self.found@;
        proof {
            lemma_current(self.left);
            lemma_current(self.right);
            lemma_group_nonempty(l);
            lemma_group_nonempty(r);
        }
        let lrow = if order <= 0 {
            self.left_sample()
        } else {
            Vec::new()
        };
        let rrow = if order >= 0 {
            self.right_sample()
        } else {
            Vec::new()
        };
        let nl = if order <= 0 {
            match self.left.advance_group() {
                Ok(n) => n,
                Err(_) => 0,
            }
        } else {
            0
        };
        let nr = if order >= 0 {
            match self.right.advance_group() {
                Ok(n) => n,
                Err(_) => 0,
            }
        } else {
            0
        };
        proof {
            lemma_current(self.left);
            lemma_current(self.right);
            assert(l.rest.skip(0) =~= l.rest);
            assert(r.rest.skip(0) =~= r.rest);
            lemma_samples_still_fit(self.lcols@, l.rest, self.left@.rest);
            lemma_samples_still_fit(self.rcols@, r.rest, self.right@.rest);
        }
        let max = self.max_samples;
        if nl > nr {
            self.counts.removed = self.counts.removed + (nl - nr);
            let ghost before = self.samples.removed@;
            let ghost entry = (l.rest[0], (nl - nr) as nat);
            push_sample(&mut self.samples.removed, lrow, nl - nr, max);
            self.found = Ghost(Surplus { removed: found.removed.push(entry), ..found });
            proof {
                lemma_surplus_push(found.removed, entry.0, entry.1);
                lemma_first_push(
                    found.removed,
                    entry,
                    max as nat,
                    surplus_sample(sample_col_views(self.lcols@)),
                );
                assert(before.len() < max ==> sample_views(self.samples.removed@) =~= sample_views(
                    before,
                ).push(surplus_sample(sample_col_views(self.lcols@))(entry)));
            }
        } else if nr > nl {
            self.counts.added = self.counts.added + (nr - nl);
            let ghost before = self.samples.added@;
            let ghost entry = (r.rest[0], (nr - nl) as nat);
            push_sample(&mut self.samples.added, rrow, nr - nl, max);
            self.found = Ghost(Surplus { added: found.added.push(entry), ..found });
            proof {
                lemma_surplus_push(found.added, entry.0, entry.1);
                lemma_first_push(
                    found.added,
                    entry,
                    max as nat,
                    surplus_sample(sample_col_views(self.rcols@)),
                );
                assert(before.len() < max ==> sample_views(self.samples.added@) =~= sample_views(
                    before,
                ).push(surplus_sample(sample_col_views(self.rcols@))(entry)));
            }
        }
        Progress::More
    }

    /// What a step leaves as it was.
    pub open spec fn same_scan(&self, other: &Self) -> bool {
        &&& self.lcols == other.lcols
        &&& self.rcols == other.rcols
        &&& self.fail_fast == other.fail_fast
        &&& self.max_samples == other.max_samples
    }

    fn left_sample(&self) -> (r: Vec<KeyVal>)
        requires
            self.wf(),
            self.left@.rest.len() > 0,
        ensures
            key_vals(r@) == shown_row(sample_col_views(self.lcols@), self.left@.rest[0]),
    {
        match self.left.peek() {
            Some(row) => {
                assert forall|j: int| 0 <= j < self.lcols@.len() implies (#[trigger] self.lcols@[j]).at
                    < row.cells@.len() by {
                    assert(self.lcols@[j].at < self.left@.rest[0].cells.len());
                }
                render_row(row, &self.lcols)
            },
            None => Vec::new(),
        }
    }

    fn right_sample(&self) -> (r: Vec<KeyVal>)
        requires
            self.wf(),
            self.right@.rest.len() > 0,
        ensures
            key_vals(r@) == shown_row(sample_col_views(self.rcols@), self.right@.rest[0]),
    {
        match self.right.peek() {
            Some(row) => {
                assert forall|j: int| 0 <= j < self.rcols@.len() implies (#[trigger] self.rcols@[j]).at
                    < row.cells@.len() by {
                    assert(self.rcols@[j].at < self.right@.rest[0].cells.len());
                }
                render_row(row, &self.rcols)
            },
            None => Vec::new(),
        }
    }
}

proof fn lemma_samples_still_fit(cols: Seq<SampleCol>, rows: Seq<RowView>, later: Seq<RowView>)
    requires
        sample_cols_fit(cols, rows),
        later.len() <= rows.len(),
        later == rows.skip(rows.len() - later.len()),
    ensures
        sample_cols_fit(cols, later),
{
    let n = rows.len() - later.len();
    assert forall|i: int, j: int| 0 <= i < later.len() && 0 <= j < cols.len() implies (
    #[trigger] cols[j]).at < (#[trigger] later[i]).cells.len() by {
        assert(later[i] == rows[i + n]);
    }
}

impl KeylessDiff {
    /// Makes the report of a finished scan.
    pub fn finish(self, schema: SchemaDiff, auto: bool, truncated: bool) -> (r: DiffReport)
        requires
            self.wf(),
        ensures
            r@ == keyless_report(
                schema@,
                auto,
                self.max_samples as nat,
                sample_col_views(self.lcols@),
                sample_col_views(self.rcols@),
                KeylessEnd { left: self.left@, right: self.right@, found: self.found@, truncated },
            ),
    {
        let r = DiffReport {
            schema,
            key: KeyInfo { columns: Vec::new(), inferred: auto },
            keyless: true,
            rows: RowCounts { left: self.left.total_rows(), right: self.right.total_rows() },
            diff: self.counts,
            columns_changed: ColumnCounts::new(),
            samples: self.samples,
            truncated,
        };
        assert(r@.key_columns =~= seq![]);
        assert(r@.samples.modified =~= seq![]);
        r
    }

    /// Scans to the end, and makes the report.
    pub fn run(self, schema: SchemaDiff, auto: bool) -> (r: DiffReport)
        requires
            self.wf(),
            self.countable(),
        ensures
            r@ == keyless_report(
                schema@,
                auto,
                self.max_samples as nat,
                sample_col_views(self.lcols@),
                sample_col_views(self.rcols@),
                keyless_walk(as_limit(self.fail_fast), self.left@, self.right@, self.found@),
            ),
    {
        let ghost limit = as_limit(self.fail_fast);
        let ghost end = keyless_walk(limit, self.left@, self.right@, self.found@);
        let mut scan = self;
        loop
            invariant
                scan.wf(),
                scan.countable(),
                scan.same_scan(&self),
                limit == as_limit(self.fail_fast),
                keyless_walk(limit, scan.left@, scan.right@, scan.found@) == end,
                end == keyless_walk(limit, self.left@, self.right@, self.found@),
            decreases scan.left@.rest.len() + scan.right@.rest.len(),
        {
            proof {
                lemma_keyless_step_shrinks(limit, scan.left@, scan.right@, scan.found@);
                lemma_group_nonempty(scan.left@);
                lemma_group_nonempty(scan.right@);
            }
            match scan.step() {
                Progress::More => {},
                Progress::Done { truncated } => {
                    return scan.finish(schema, auto, truncated);
                },
            }
        }
    }
}

/// A hash as a key value.
pub open spec fn hash_parts(h: u128) -> Seq<KeyPart> {
    seq![KeyPart::Bytes(Some(big_endian(h as nat, 16)))]
}

/// The key of a row that is matched by its content: its hash.
pub open spec fn hash_key(h: u128) -> Seq<u8> {
    row_key(hash_parts(h))
}

/// The content hash of a row: that of its cells at the given places.
pub open spec fn content(cells: Seq<CellView>, idx: Seq<usize>) -> u128 {
    xxh3(row_bytes(picked(cells, idx)))
}

/// The content hashes of the rows of batches.
pub open spec fn row_hashes(batches: Seq<Batch>, idx: Seq<usize>) -> Seq<u128>
    decreases batches.len(),
{
    if batches.len() == 0 {
        seq![]
    } else {
        row_hashes(batches.drop_last(), idx) + Seq::new(
            batches.last().rows as nat,
            |i: int| content(batches.last().row(i), idx),
        )
    }
}

/// The keys of hashes compare as the hashes do.
pub open spec fn hashes_follow(hashes: Seq<u128>) -> bool {
    forall|i: int| 0 <= i < hashes.len() ==> follows_values(hash_parts(#[trigger] hashes[i]))
}

/// A row with its content hash for a key, and the hash as one more cell.
pub open spec fn hashed_row(cells: Seq<CellView>, idx: Seq<usize>) -> RowView {
    let h = content(cells, idx);
    RowView {
        key: hash_key(h),
        cells: cells.push(CellView::Str(hexadecimal(h as nat, 32))),
    }
}

/// The rows of batches with their hashes.
pub open spec fn hashed_rows(batches: Seq<Batch>, idx: Seq<usize>) -> Seq<RowView>
    decreases batches.len(),
{
    if batches.len() == 0 {
        seq![]
    } else {
        hashed_rows(batches.drop_last(), idx) + Seq::new(
            batches.last().rows as nat,
            |i: int| hashed_row(batches.last().row(i), idx),
        )
    }
}

/// A batch with the hash column appended.
spec fn is_hashed(batch: Batch, from: Batch, idx: Seq<usize>) -> bool {
    &&& batch.wf()
    &&& batch.rows == from.rows
    &&& batch.sizes@.drop_last() == from.sizes@
    &&& batch.sizes@.last() >= 16 * from.rows
    &&& batch.columns@.len() == from.columns@.len() + 1
    &&& batch.columns@.drop_last() == from.columns@
    &&& batch.columns@.last() matches Array::RowHash(hashes) && hashes@ =~= Seq::new(
        from.rows as nat,
        |row: int| xxh3(row_bytes(picked(from.row(row), idx))),
    )
}

/// The codec that reads keys from the hash column behind `width` others.
pub open spec fn hash_codec(width: nat) -> CodecView {
    CodecView {
        idx: seq![width as usize],
        cols: seq![HASH_COL@],
        types: seq![hash_field().data_type],
    }
}

/// Hashed batches have hashed rows.
proof fn lemma_hashed_rows(hashed: Seq<Batch>, from: Seq<Batch>, idx: Seq<usize>, width: nat)
    requires
        width <= usize::MAX,
        hashed.len() == from.len(),
        forall|i: int|
            0 <= i < from.len() ==> is_hashed(#[trigger] hashed[i], from[i], idx)
                && from[i].columns@.len() == width,
    ensures
        stream_rows(hash_codec(width), hashed) == hashed_rows(from, idx),
        stream_follows_values(hash_codec(width), hashed) ==> hashes_follow(row_hashes(from, idx)),
        row_count(hashed) == row_count(from),
    decreases from.len(),
{
    if from.len() > 0 {
        let h = hashed.drop_last();
        let f = from.drop_last();
        assert forall|i: int| 0 <= i < f.len() implies is_hashed(#[trigger] h[i], f[i], idx)
            && f[i].columns@.len() == width by {
            assert(is_hashed(hashed[i], from[i], idx));
        }
        lemma_hashed_rows(h, f, idx, width);
        let b = hashed.last();
        let a = from.last();
        assert(is_hashed(hashed[from.len() - 1], from[from.len() - 1], idx));
        let codec = hash_codec(width);
        let want = Seq::new(a.rows as nat, |i: int| hashed_row(a.row(i), idx));
        let got = keyed_rows(codec, b);
        assert forall|i: int| 0 <= i < a.rows implies got[i] == want[i] by {
            let col = b.columns@.last();
            assert(b.columns@[width as int] == col);
            let hash = xxh3(row_bytes(picked(a.row(i), idx)));
            assert(key_part(col, codec.types[0], i) == KeyPart::Bytes(
                Some(big_endian(hash as nat, 16)),
            ));
            assert(key_parts(b.columns@, codec.idx, codec.types, i) =~= hash_parts(hash));
            assert(b.row(i) =~= a.row(i).push(CellView::Str(hexadecimal(hash as nat, 32)))) by {
                assert forall|c: int| 0 <= c < a.columns@.len() implies b.columns@[c] == a.columns@[c] by {
                    assert(b.columns@.drop_last()[c] == a.columns@[c]);
                }
            }
        }
        assert(got =~= want);
        if stream_follows_values(codec, hashed) {
            let n = row_hashes(f, idx).len();
            assert(stream_follows_values(codec, h)) by {
                assert forall|i: int| 0 <= i < h.len() implies #[trigger] batch_follows_values(codec, h[i]) by {
                    assert(batch_follows_values(codec, hashed[i]));
                }
            }
            assert(batch_follows_values(codec, hashed[from.len() - 1]));
            let all = row_hashes(from, idx);
            assert forall|i: int| 0 <= i < all.len() implies follows_values(hash_parts(#[trigger] all[i])) by {
                if i < n {
                    assert(all[i] == row_hashes(f, idx)[i]);
                } else {
                    let row = i - n;
                    let hash = content(a.row(row), idx);
                    assert(all[i] == hash);
                    assert(b.columns@[width as int] == b.columns@.last());
                    assert(key_parts(b.columns@, codec.idx, codec.types, row) =~= hash_parts(hash));
                }
            }
        }
    }
}

/// Hashes the rows of a stream.
fn hash_stream(src: BatchIter, hasher: RowHasher) -> (r: BatchIter)
    requires
        src.wf(),
        forall|i: int| 0 <= i < hasher.idx@.len() ==> #[trigger] hasher.idx@[i] < src.schema@.len(),
        hasher.schema@ == src.schema@.push(hash_field()),
    ensures
        r.wf(),
        r.schema@ == hasher.schema@,
        stream_rows(hash_codec(src.schema@.len()), r.batches@) == hashed_rows(
            src.batches@,
            hasher.idx@,
        ),
        stream_follows_values(hash_codec(src.schema@.len()), r.batches@) ==> hashes_follow(
            row_hashes(src.batches@, hasher.idx@),
        ),
{
    let ghost from = src;
    let ghost all = src.batches@;
    let ghost width = src.schema@.len();
    let mut left = crate::sort::reversed(src.batches);
    let n = left.len();
    let mut batches: Vec<Batch> = Vec::new();
    for i in 0..n
        invariant
            n == all.len(),
            left@ == all.skip(i as int).reverse(),
            forall|j: int|
                0 <= j < all.len() ==> (#[trigger] all[j]).wf() && all[j].columns@.len() == width,
            forall|j: int| 0 <= j < hasher.idx@.len() ==> #[trigger] hasher.idx@[j] < width,
            batches.len() == i,
            forall|j: int| 0 <= j < i ==> is_hashed(#[trigger] batches@[j], all[j], hasher.idx@),
    {
        let ghost here = left@;
        match left.pop() {
            Some(batch) => {
                assert(here.last() == all[i as int]);
                assert(all[i as int].wf());
                batches.push(hasher.append_hash(batch));
            },
            None => {},
        }
        assert(left@ =~= all.skip(i + 1).reverse());
    }
    proof {
        assert(src.schema.fields.len() == width);
        assert forall|i: int| 0 <= i < all.len() implies is_hashed(
            #[trigger] batches@[i],
            all[i],
            hasher.idx@,
        ) && all[i].columns@.len() == width by {
            assert(all[i].wf());
        }
        lemma_hashed_rows(batches@, all, hasher.idx@, width);
    }
    let r = BatchIter { schema: hasher.schema, batches };
    proof {
        assert forall|i: int| 0 <= i < r.batches@.len() implies (#[trigger] r.batches@[i]).wf()
            && r.batches@[i].columns@.len() == r.schema@.len() by {
            assert(is_hashed(batches@[i], all[i], hasher.idx@));
        }
        assert forall|i: int, c: int|
            0 <= i < r.batches@.len() && 0 <= c < r.schema@.len() implies (
        #[trigger] r.batches@[i].columns@[c]).type_shape() == r.schema@[c].data_type by {
            assert(is_hashed(batches@[i], all[i], hasher.idx@));
            if c < width {
                assert(batches@[i].columns@.drop_last()[c] == all[i].columns@[c]);
                assert(from.batches@[i].columns@[c].type_shape() == from.schema@[c].data_type);
            }
        }
    }
    r
}

/// Why a side cannot be hashed, if it cannot.
pub open spec fn hash_refusal(fields: Seq<FieldShape>, cols: Seq<Seq<char>>) -> Option<ErrorView> {
    if has_column(fields, HASH_COL@) {
        Some(ErrorView::HashColumnTaken)
    } else {
        match first_missing(fields, cols) {
            Some(name) => Some(ErrorView::MissingColumn { column: name }),
            None => None,
        }
    }
}

/// Why a keyless diff is refused, if it is.
pub open spec fn keyless_refusal(
    left: Seq<FieldShape>,
    right: Seq<FieldShape>,
    schema: SchemaDiffView,
) -> Option<ErrorView> {
    match hash_refusal(left, schema.left_names()) {
        Some(e) => Some(e),
        None => hash_refusal(right, schema.right_names()),
    }
}

/// What a keyless diff reports whose sides are scanned in the given order.
pub open spec fn keyless_diff(
    left: Seq<FieldShape>,
    right: Seq<FieldShape>,
    schema: SchemaDiffView,
    auto: bool,
    cfg: DiffConfig,
    lrows: Seq<RowView>,
    rrows: Seq<RowView>,
) -> ReportView {
    keyless_report(
        schema,
        auto,
        cfg.max_samples as nat,
        sample_cols(schema.left_names(), left),
        sample_cols(schema.right_names(), right),
        keyless_walk(
            as_limit(cfg.fail_fast),
            begin(hash_codec(left.len()), cfg.left@, lrows, false),
            begin(hash_codec(right.len()), cfg.right@, rrows, false),
            no_surplus(),
        ),
    )
}

/// The hash column is behind the others.
proof fn lemma_hash_column(fields: Seq<FieldShape>)
    requires
        !has_column(fields, HASH_COL@),
    ensures
        column(fields.push(hash_field()), HASH_COL@) == fields.len(),
{
    let all = fields.push(hash_field());
    lemma_column(fields, HASH_COL@);
    assert forall|j: int| 0 <= j < fields.len() implies names(all)[j] != HASH_COL@ by {
        assert(names(all)[j] == names(fields)[j]);
    }
    lemma_place_is(names(all), HASH_COL@, fields.len() as int);
}

/// What a keyless scan works with: how either side's rows are hashed, the
/// columns that are reported of them, and how the hashes are encoded as keys.
#[derive(Debug)]
pub struct KeylessParts {
    pub lhash: RowHasher,
    pub rhash: RowHasher,
    pub lcols: Vec<SampleCol>,
    pub rcols: Vec<SampleCol>,
    pub lcodec: KeyCodec,
    pub rcodec: KeyCodec,
}

impl KeylessParts {
    /// Finds the scanned columns in both schemas.
    pub fn new(left: &Schema, right: &Schema, schema: &SchemaDiff) -> (r: Result<Self, Error>)
        ensures
            match r {
                Ok(parts) => {
                    let lnames = schema@.left_names();
                    let rnames = schema@.right_names();
                    &&& keyless_refusal(left@, right@, schema@) is None
                    &&& parts.lhash.idx@ == places(left@, lnames)
                    &&& parts.rhash.idx@ == places(right@, rnames)
                    &&& parts.lhash.schema@ == left@.push(hash_field())
                    &&& parts.rhash.schema@ == right@.push(hash_field())
                    &&& forall|i: int|
                        0 <= i < parts.lhash.idx@.len() ==> #[trigger] parts.lhash.idx@[i] < left@.len()
                    &&& forall|i: int|
                        0 <= i < parts.rhash.idx@.len() ==> #[trigger] parts.rhash.idx@[i] < right@.len()
                    &&& sample_col_views(parts.lcols@) == sample_cols(lnames, left@)
                    &&& sample_col_views(parts.rcols@) == sample_cols(rnames, right@)
                    &&& forall|i: int|
                        0 <= i < parts.lcols@.len() ==> (#[trigger] parts.lcols@[i]).at < left@.len()
                    &&& forall|i: int|
                        0 <= i < parts.rcols@.len() ==> (#[trigger] parts.rcols@[i]).at < right@.len()
                    &&& parts.lcodec@ == hash_codec(left@.len())
                    &&& parts.rcodec@ == hash_codec(right@.len())
                    &&& parts.lcodec@.fits(left@.len() as int + 1)
                    &&& parts.rcodec@.fits(right@.len() as int + 1)
                },
                Err(e) => keyless_refusal(left@, right@, schema@) == Some(e@),
            },
    {
        let lnames = schema.left_columns();
        let rnames = schema.right_columns();
        let lhash = match with_row_hash(left, &lnames) {
            Ok(h) => h,
            Err(e) => {
                return Err(e);
            },
        };
        let rhash = match with_row_hash(right, &rnames) {
            Ok(h) => h,
            Err(e) => {
                return Err(e);
            },
        };
        let lcols = match sample_columns(&lnames, left) {
            Ok(cols) => cols,
            Err(e) => {
                return Err(e);
            },
        };
        let rcols = match sample_columns(&rnames, right) {
            Ok(cols) => cols,
            Err(e) => {
                return Err(e);
            },
        };
        let mut key_cols: Vec<String> = Vec::new();
        key_cols.push(HASH_COL.to_owned());
        proof {
            lemma_hash_column(left@);
            lemma_hash_column(right@);
            let key = views(key_cols@);
            assert(key =~= seq![HASH_COL@]);
            lemma_first_unshared(lhash.schema@, rhash.schema@, twice(key), 1);
            lemma_first_missing(lhash.schema@, key, 1);
            lemma_first_missing(rhash.schema@, key, 1);
        }
        let spec = match KeySpec::new(&key_cols, &lhash.schema, &rhash.schema) {
            Ok(spec) => spec,
            Err(e) => {
                return Err(e);
            },
        };
        let lcodec = match spec.codec(&lhash.schema) {
            Ok(codec) => codec,
            Err(e) => {
                return Err(e);
            },
        };
        let rcodec = match spec.codec(&rhash.schema) {
            Ok(codec) => codec,
            Err(e) => {
                return Err(e);
            },
        };
        proof {
            assert(lcodec@.idx =~= seq![left@.len() as usize]);
            assert(rcodec@.idx =~= seq![right@.len() as usize]);
            assert(lcodec@.types =~= seq![hash_field().data_type]);
            assert(rcodec@.types =~= seq![hash_field().data_type]);
            assert(lcodec@ == hash_codec(left@.len()));
            assert(rcodec@ == hash_codec(right@.len()));
        }
        Ok(KeylessParts { lhash, rhash, lcols, rcols, lcodec, rcodec })
    }
}

/// True of what a keyless diff of two streams may come to: the keys compare as
/// the hashes do, and the rows are scanned in the order of their hashes.
/// Sorting leaves open in which order rows with equal hashes come.
pub open spec fn keyless_result(
    left: BatchIter,
    right: BatchIter,
    auto: bool,
    schema: SchemaDiffView,
    cfg: DiffConfig,
    r: Result<ReportView, ErrorView>,
) -> bool {
    match keyless_refusal(left.schema@, right.schema@, schema) {
        Some(e) => r == Err::<ReportView, ErrorView>(e),
        None => {
            let lidx = places(left.schema@, schema.left_names());
            let ridx = places(right.schema@, schema.right_names());
            &&& hashes_follow(row_hashes(left.batches@, lidx))
            &&& hashes_follow(row_hashes(right.batches@, ridx))
            &&& exists|l: Seq<RowView>, m: Seq<RowView>|
                {
                    &&& #[trigger] sorts(l, hashed_rows(left.batches@, lidx))
                    &&& #[trigger] sorts(m, hashed_rows(right.batches@, ridx))
                    &&& r == Ok::<ReportView, ErrorView>(
                        keyless_diff(left.schema@, right.schema@, schema, auto, cfg, l, m),
                    )
                }
        },
    }
}

/// Keyless diff: rows are matched by whole-row content hash and compared as
/// multisets, so duplicate rows are legal and edits appear as remove + add.
/// Renamed columns are hashed at aligned positions. `auto` marks that this
/// mode was a fallback after key inference failed.
pub fn diff_streams_keyless(
    left: BatchIter,
    right: BatchIter,
    auto: bool,
    schema: SchemaDiff,
    cfg: &DiffConfig,
) -> (r: Result<DiffReport, Error>)
    requires
        left.wf(),
        right.wf(),
    ensures
        keyless_result(left, right, auto, schema@, *cfg, report_view(r)),
{
    let ghost lfields = left.schema@;
    let ghost rfields = right.schema@;
    let parts = match KeylessParts::new(&left.schema, &right.schema, &schema) {
        Ok(parts) => parts,
        Err(e) => {
            return Err(e);
        },
    };
    let lhash = parts.lhash;
    let rhash = parts.rhash;
    let lcols = parts.lcols;
    let rcols = parts.rcols;
    let lcodec = parts.lcodec;
    let rcodec = parts.rcodec;
    let ghost lwant = hashed_rows(left.batches@, lhash.idx@);
    let ghost rwant = hashed_rows(right.batches@, rhash.idx@);
    let left = hash_stream(left, lhash);
    let right = hash_stream(right, rhash);
    let budget = cfg.budget();
    let mut spill = SpillDir::new(None);
    assert(left.batches.len() + right.batches.len() < u128::MAX);
    let ls = open_side(&left, lcodec, cfg.left.clone(), false, budget, &mut spill);
    proof {
        law_runs_are_cut_by_the_budget(left.batches@, budget as nat);
    }
    let rs = open_side(&right, rcodec, cfg.right.clone(), false, budget, &mut spill);
    let ghost l = ls@.rest;
    let ghost m = rs@.rest;
    let scan = KeylessDiff::new(ls, rs, lcols, rcols, cfg.fail_fast, cfg.max_samples);
    let ghost changed = schema@;
    let report = scan.run(schema, auto);
    proof {
        assert(sorts(l, lwant));
        assert(sorts(m, rwant));
        assert(report@ == keyless_diff(lfields, rfields, changed, auto, *cfg, l, m));
    }
    Ok(report)
}

} // verus!
