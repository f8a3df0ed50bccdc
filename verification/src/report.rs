//! The report of a diff.

use crate::float::{percent, whole_percent, ONE};
use crate::schema_diff::{no_schema_change, ChangeView, ColumnDesc, DescView, RenameView, SchemaDiff, SchemaDiffView};
use crate::text::{compare_text, decimal, glue, glued, join, joined, law_byte_order_total, law_byte_order_transitive, number, text_order, views};
use vstd::prelude::*;
use vstd::string::StringExecFns;
use vstd::utf8::encode_utf8;

verus! {

#[derive(Debug)]
pub struct KeyVal {
    pub column: String,
    pub value: String,
}

#[derive(Debug)]
pub struct KeyInfo {
    pub columns: Vec<String>,
    pub inferred: bool,
}

#[derive(Debug)]
pub struct Change {
    pub column: String,
    pub left: String,
    pub right: String,
}

#[derive(Debug)]
pub struct ModifiedRow {
    pub key: Vec<KeyVal>,
    pub changes: Vec<Change>,
}

#[derive(Debug)]
pub struct RowSample {
    pub row: Vec<KeyVal>,
    /// How many row instances this sample stands for (>1 only in keyless mode).
    pub count: usize,
}

#[derive(Debug)]
pub struct RowCounts {
    pub left: usize,
    pub right: usize,
}

#[derive(Debug)]
pub struct DiffCounts {
    pub added: usize,
    pub removed: usize,
    pub modified: usize,
}

#[derive(Debug)]
pub struct Samples {
    pub added: Vec<RowSample>,
    pub removed: Vec<RowSample>,
    pub modified: Vec<ModifiedRow>,
}

/// How often each column changed, in the order of the columns' names.
#[derive(Debug)]
pub struct ColumnCounts {
    pub entries: Vec<ColumnCount>,
}

#[derive(Debug)]
pub struct ColumnCount {
    pub column: String,
    pub count: usize,
}

#[derive(Debug)]
pub struct DiffReport {
    pub schema: SchemaDiff,
    pub key: KeyInfo,
    /// True when rows were matched by whole-row content hash instead of a key.
    pub keyless: bool,
    pub rows: RowCounts,
    pub diff: DiffCounts,
    pub columns_changed: ColumnCounts,
    pub samples: Samples,
    /// True when fail-fast stopped the scan early; counts are lower bounds.
    pub truncated: bool,
}

/// A column with its shown value, as plain data.
pub struct KeyValView {
    pub column: Seq<char>,
    pub value: Seq<char>,
}

/// A changed cell, as plain data.
pub struct CellChangeView {
    pub column: Seq<char>,
    pub left: Seq<char>,
    pub right: Seq<char>,
}

/// A modified row, as plain data.
pub struct ModifiedView {
    pub key: Seq<KeyValView>,
    pub changes: Seq<CellChangeView>,
}

/// An example row, as plain data.
pub struct SampleView {
    pub row: Seq<KeyValView>,
    pub count: nat,
}

/// A column with a count, as plain data.
pub struct CountView {
    pub column: Seq<char>,
    pub count: nat,
}

/// Example rows, as plain data.
pub struct SamplesView {
    pub added: Seq<SampleView>,
    pub removed: Seq<SampleView>,
    pub modified: Seq<ModifiedView>,
}

/// A report as plain data.
pub struct ReportView {
    pub schema: SchemaDiffView,
    pub key_columns: Seq<Seq<char>>,
    pub inferred: bool,
    pub keyless: bool,
    pub left_rows: nat,
    pub right_rows: nat,
    pub added: nat,
    pub removed: nat,
    pub modified: nat,
    pub columns_changed: Seq<CountView>,
    pub samples: SamplesView,
    pub truncated: bool,
}

impl View for KeyVal {
    type V = KeyValView;

    open spec fn view(&self) -> KeyValView {
        KeyValView { column: self.column@, value: self.value@ }
    }
}

impl View for Change {
    type V = CellChangeView;

    open spec fn view(&self) -> CellChangeView {
        CellChangeView { column: self.column@, left: self.left@, right: self.right@ }
    }
}

pub open spec fn key_vals(v: Seq<KeyVal>) -> Seq<KeyValView> {
    v.map_values(|k: KeyVal| k@)
}

impl View for ModifiedRow {
    type V = ModifiedView;

    open spec fn view(&self) -> ModifiedView {
        ModifiedView {
            key: key_vals(self.key@),
            changes: self.changes@.map_values(|c: Change| c@),
        }
    }
}

impl View for RowSample {
    type V = SampleView;

    open spec fn view(&self) -> SampleView {
        SampleView { row: key_vals(self.row@), count: self.count as nat }
    }
}

pub open spec fn sample_views(v: Seq<RowSample>) -> Seq<SampleView> {
    v.map_values(|s: RowSample| s@)
}

pub open spec fn modified_views(v: Seq<ModifiedRow>) -> Seq<ModifiedView> {
    v.map_values(|m: ModifiedRow| m@)
}

impl View for Samples {
    type V = SamplesView;

    open spec fn view(&self) -> SamplesView {
        SamplesView {
            added: sample_views(self.added@),
            removed: sample_views(self.removed@),
            modified: modified_views(self.modified@),
        }
    }
}

impl View for ColumnCount {
    type V = CountView;

    open spec fn view(&self) -> CountView {
        CountView { column: self.column@, count: self.count as nat }
    }
}

impl View for ColumnCounts {
    type V = Seq<CountView>;

    open spec fn view(&self) -> Seq<CountView> {
        self.entries@.map_values(|c: ColumnCount| c@)
    }
}

impl View for DiffReport {
    type V = ReportView;

    open spec fn view(&self) -> ReportView {
        ReportView {
            schema: self.schema@,
            key_columns: views(self.key.columns@),
            inferred: self.key.inferred,
            keyless: self.keyless,
            left_rows: self.rows.left as nat,
            right_rows: self.rows.right as nat,
            added: self.diff.added as nat,
            removed: self.diff.removed as nat,
            modified: self.diff.modified as nat,
            columns_changed: self.columns_changed@,
            samples: self.samples@,
            truncated: self.truncated,
        }
    }
}

/// One more change of a column: its entry counts one more, or it gets an entry
/// where its name belongs.
pub open spec fn bumped(counts: Seq<CountView>, column: Seq<char>) -> Seq<CountView>
    decreases counts.len(),
{
    if counts.len() == 0 {
        seq![CountView { column, count: 1 }]
    } else if counts[0].column == column {
        seq![CountView { column, count: counts[0].count + 1 }] + counts.drop_first()
    } else if text_order(column, counts[0].column) < 0 {
        seq![CountView { column, count: 1 }] + counts
    } else {
        seq![counts[0]] + bumped(counts.drop_first(), column)
    }
}

/// The entry for a column, or zero.
pub open spec fn count_of(counts: Seq<CountView>, column: Seq<char>) -> nat
    decreases counts.len(),
{
    if counts.len() == 0 {
        0
    } else if counts[0].column == column {
        counts[0].count
    } else {
        count_of(counts.drop_first(), column)
    }
}

/// Entries in the order of their names, no name twice, and none at zero.
pub open spec fn well_counted(counts: Seq<CountView>) -> bool {
    &&& forall|i: int, j: int|
        0 <= i < j < counts.len() ==> text_order(
            (#[trigger] counts[i]).column,
            (#[trigger] counts[j]).column,
        ) < 0
    &&& forall|i: int| 0 <= i < counts.len() ==> (#[trigger] counts[i]).count > 0
}

/// The order of strings is total.
pub proof fn lemma_text_order_total(a: Seq<char>, b: Seq<char>)
    ensures
        text_order(a, b) == -text_order(b, a),
        text_order(a, b) == 0 <==> a == b,
{
    law_byte_order_total(encode_utf8(a), encode_utf8(b));
    vstd::utf8::encode_utf8_decode_utf8(a);
    vstd::utf8::encode_utf8_decode_utf8(b);
}

/// Counting a change keeps the entries in order, raises one column's count by
/// one, and leaves the others.
pub proof fn law_bumping_counts_one_column(counts: Seq<CountView>, column: Seq<char>, other: Seq<char>)
    requires
        well_counted(counts),
    ensures
        well_counted(bumped(counts, column)),
        count_of(bumped(counts, column), other) == count_of(counts, other) + (if other == column {
            1nat
        } else {
            0nat
        }),
        forall|i: int|
            0 <= i < bumped(counts, column).len() ==> (#[trigger] bumped(counts, column)[i]).column
                == column || exists|j: int|
                0 <= j < counts.len() && counts[j].column == bumped(counts, column)[i].column,
    decreases counts.len(),
{
    let now = bumped(counts, column);
    if counts.len() > 0 {
        let first = counts[0];
        let rest = counts.drop_first();
        lemma_text_order_total(column, first.column);
        assert forall|i: int, j: int| 0 <= i < j < rest.len() implies text_order(
            (#[trigger] rest[i]).column,
            (#[trigger] rest[j]).column,
        ) < 0 by {
            assert(text_order(counts[i + 1].column, counts[j + 1].column) < 0);
        }
        assert forall|i: int| 0 <= i < rest.len() implies (#[trigger] rest[i]).count > 0 by {
            assert(counts[i + 1].count > 0);
        }
        if first.column == column {
            assert(now.drop_first() =~= rest);
            assert forall|i: int, j: int| 0 <= i < j < now.len() implies text_order(
                (#[trigger] now[i]).column,
                (#[trigger] now[j]).column,
            ) < 0 by {
                assert(text_order(counts[i].column, counts[j].column) < 0);
            }
            assert forall|i: int| 0 <= i < now.len() implies (#[trigger] now[i]).count > 0 by {
                if i > 0 {
                    assert(counts[i].count > 0);
                }
            }
            assert forall|i: int| 0 <= i < now.len() && (#[trigger] now[i]).column != column implies exists|
                j: int,
            |
                0 <= j < counts.len() && counts[j].column == now[i].column by {
                assert(counts[i].column == now[i].column);
            }
        } else if text_order(column, first.column) < 0 {
            assert(now.drop_first() =~= counts);
            assert forall|i: int, j: int| 0 <= i < j < now.len() implies text_order(
                (#[trigger] now[i]).column,
                (#[trigger] now[j]).column,
            ) < 0 by {
                if i > 0 {
                    assert(text_order(counts[i - 1].column, counts[j - 1].column) < 0);
                } else if j > 1 {
                    assert(text_order(counts[0].column, counts[j - 1].column) < 0);
                    law_byte_order_transitive(
                        encode_utf8(column),
                        encode_utf8(first.column),
                        encode_utf8(now[j].column),
                    );
                }
            }
            assert forall|i: int| 0 <= i < now.len() implies (#[trigger] now[i]).count > 0 by {
                if i > 0 {
                    assert(counts[i - 1].count > 0);
                }
            }
            assert(count_of(now, other) == if other == column {
                1
            } else {
                count_of(counts, other)
            });
            lemma_count_absent(counts, column);
            assert forall|i: int| 0 <= i < now.len() && (#[trigger] now[i]).column != column implies exists|
                j: int,
            |
                0 <= j < counts.len() && counts[j].column == now[i].column by {
                assert(counts[i - 1].column == now[i].column);
            }
        } else {
            law_bumping_counts_one_column(rest, column, other);
            let tail = bumped(rest, column);
            assert(now.drop_first() =~= tail);
            assert forall|i: int, j: int| 0 <= i < j < now.len() implies text_order(
                (#[trigger] now[i]).column,
                (#[trigger] now[j]).column,
            ) < 0 by {
                if i > 0 {
                    assert(text_order(tail[i - 1].column, tail[j - 1].column) < 0);
                } else {
                    assert(now[j] == tail[j - 1]);
                    if tail[j - 1].column != column {
                        let k = choose|k: int|
                            0 <= k < rest.len() && rest[k].column == tail[j - 1].column;
                        assert(text_order(counts[0].column, counts[k + 1].column) < 0);
                    }
                }
            }
            assert forall|i: int| 0 <= i < now.len() implies (#[trigger] now[i]).count > 0 by {
                if i > 0 {
                    assert(tail[i - 1].count > 0);
                } else {
                    assert(counts[0].count > 0);
                }
            }
            assert forall|i: int| 0 <= i < now.len() && (#[trigger] now[i]).column != column implies exists|
                j: int,
            |
                0 <= j < counts.len() && counts[j].column == now[i].column by {
                if i > 0 {
                    assert(tail[i - 1] == now[i]);
                    let k = choose|k: int| 0 <= k < rest.len() && rest[k].column == tail[i - 1].column;
                    assert(counts[k + 1].column == now[i].column);
                } else {
                    assert(counts[0].column == now[i].column);
                }
            }
        }
    } else {
        assert(count_of(now.drop_first(), other) == 0);
    }
}

/// A name before all of the entries has none.
proof fn lemma_count_absent(counts: Seq<CountView>, column: Seq<char>)
    requires
        well_counted(counts),
        counts.len() > 0 ==> text_order(column, counts[0].column) < 0,
    ensures
        count_of(counts, column) == 0,
    decreases counts.len(),
{
    if counts.len() > 0 {
        let rest = counts.drop_first();
        lemma_text_order_total(column, counts[0].column);
        assert forall|i: int, j: int| 0 <= i < j < rest.len() implies text_order(
            (#[trigger] rest[i]).column,
            (#[trigger] rest[j]).column,
        ) < 0 by {
            assert(text_order(counts[i + 1].column, counts[j + 1].column) < 0);
        }
        assert forall|i: int| 0 <= i < rest.len() implies (#[trigger] rest[i]).count > 0 by {
            assert(counts[i + 1].count > 0);
        }
        if rest.len() > 0 {
            assert(text_order(counts[0].column, counts[1].column) < 0);
            law_byte_order_transitive(
                encode_utf8(column),
                encode_utf8(counts[0].column),
                encode_utf8(rest[0].column),
            );
        }
        lemma_count_absent(rest, column);
    }
}

impl ColumnCounts {
    pub fn new() -> (r: Self)
        ensures
            r@ == Seq::<CountView>::empty(),
    {
        let r = ColumnCounts { entries: Vec::new() };
        assert(r@ =~= Seq::<CountView>::empty());
        r
    }

    /// How often a column changed, if it did.
    pub fn get(&self, column: &str) -> (r: Option<usize>)
        ensures
            match r {
                Some(n) => n as nat == count_of(self@, column@) && exists|i: int|
                    0 <= i < self@.len() && (#[trigger] self@[i]).column == column@,
                None => forall|i: int| 0 <= i < self@.len() ==> (#[trigger] self@[i]).column != column@,
            },
    {
        let wanted = column.to_owned();
        let ghost all = self@;
        assert(all.skip(0) =~= all);
        for i in 0..self.entries.len()
            invariant
                all == self@,
                wanted@ == column@,
                count_of(all, column@) == count_of(all.skip(i as int), column@),
                forall|j: int| 0 <= j < i ==> (#[trigger] all[j]).column != column@,
        {
            assert(all.skip(i as int)[0] == self.entries@[i as int]@);
            assert(all.skip(i as int).drop_first() =~= all.skip(i + 1));
            if self.entries[i].column == wanted {
                assert(all[i as int].column == column@);
                return Some(self.entries[i].count);
            }
        }
        None
    }

    /// Counts a change of a column.
    pub fn bump(&mut self, column: &String)
        requires
            count_of(old(self)@, column@) < usize::MAX,
        ensures
            final(self)@ == bumped(old(self)@, column@),
    {
        let ghost all = self@;
        let ghost name = column@;
        let mut i: usize = 0;
        assert(all.skip(0) =~= all);
        assert(all.take(0) + bumped(all, name) =~= bumped(all, name));
        while i < self.entries.len()
            invariant
                i <= self.entries@.len(),
                all == self@,
                *self == *old(self),
                name == column@,
                count_of(all, name) < usize::MAX,
                count_of(all, name) == count_of(all.skip(i as int), name),
                bumped(all, name) == all.take(i as int) + bumped(all.skip(i as int), name),
            decreases self.entries@.len() - i,
        {
            let ghost here = all.skip(i as int);
            assert(here[0] == self.entries@[i as int]@);
            assert(here.drop_first() =~= all.skip(i + 1));
            if self.entries[i].column == *column {
                let count = self.entries[i].count + 1;
                let entry = ColumnCount { column: column.clone(), count };
                self.entries.set(i, entry);
                assert(self@ =~= all.take(i as int) + bumped(here, name));
                return;
            }
            if compare_text(column.as_str(), self.entries[i].column.as_str()) < 0 {
                self.entries.insert(i, ColumnCount { column: column.clone(), count: 1 });
                assert(self@ =~= all.take(i as int) + bumped(here, name));
                return;
            }
            assert(all.take(i as int) + bumped(here, name) =~= all.take(i + 1) + bumped(
                all.skip(i + 1),
                name,
            ));
            i = i + 1;
        }
        assert(all.skip(i as int) =~= seq![]);
        self.entries.push(ColumnCount { column: column.clone(), count: 1 });
        assert(self@ =~= all.take(i as int) + bumped(all.skip(i as int), name));
    }
}

/// The number of row differences.
pub open spec fn row_differences(r: ReportView) -> nat {
    r.added + r.removed + r.modified
}

/// True for a report that shows a difference.
pub open spec fn differs(r: ReportView) -> bool {
    !no_schema_change(r.schema) || row_differences(r) > 0
}

/// The rows that samples stand for.
pub open spec fn sampled_rows(samples: Seq<SampleView>) -> nat
    decreases samples.len(),
{
    if samples.len() == 0 {
        0
    } else {
        sampled_rows(samples.drop_last()) + samples.last().count
    }
}

/// The row differences that the samples show.
pub open spec fn shown_rows(s: SamplesView) -> nat {
    s.modified.len() + sampled_rows(s.added) + sampled_rows(s.removed)
}

/// The shown rows can be counted, and similarities are at most one.
pub open spec fn is_printable(r: ReportView) -> bool {
    &&& shown_rows(r.samples) <= u64::MAX
    &&& forall|i: int|
        0 <= i < r.schema.renamed.len() ==> (#[trigger] r.schema.renamed[i]).similarity <= ONE
}

/// How many rows a sample stands for, where it is more than one.
pub open spec fn count_text(count: nat) -> Seq<char> {
    if count > 1 {
        " ×"@ + decimal(count)
    } else {
        seq![]
    }
}

/// Formats how many rows a sample stands for.
pub fn fmt_count(count: usize) -> (r: String)
    ensures
        r@ == count_text(count as nat),
{
    if count > 1 {
        let mut s = " ×".to_owned();
        s.append(number(count as u128).as_str());
        s
    } else {
        let s = String::new();
        assert(s@ =~= seq![]);
        s
    }
}

/// One cell of a reported row.
pub open spec fn key_val_text() -> spec_fn(KeyValView) -> Seq<char> {
    |kv: KeyValView| kv.column + "="@ + kv.value
}

/// The cells of a reported row: `column=value`, with commas between.
pub open spec fn row_text(row: Seq<KeyValView>) -> Seq<char> {
    joined(row.map_values(key_val_text()), ", "@)
}

/// Formats a key as `column=value`, with commas between.
pub fn fmt_key(k: &Vec<KeyVal>) -> (r: String)
    ensures
        r@ == row_text(key_vals(k@)),
{
    let mut parts: Vec<String> = Vec::new();
    for i in 0..k.len()
        invariant
            parts.len() == i,
            forall|j: int| 0 <= j < i ==> (#[trigger] parts@[j])@ == key_val_text()(k@[j]@),
    {
        let mut s = k[i].column.clone();
        s.append("=");
        s.append(k[i].value.as_str());
        parts.push(s);
    }
    assert(views(parts@) =~= key_vals(k@).map_values(key_val_text()));
    join(&parts, ", ")
}

/// The codes that switch colors on and off, or nothing.
pub struct Paint {
    pub green: Seq<char>,
    pub red: Seq<char>,
    pub yellow: Seq<char>,
    pub bold: Seq<char>,
    pub reset: Seq<char>,
}

pub open spec fn paint(color: bool) -> Paint {
    if color {
        Paint {
            green: "\x1b[32m"@,
            red: "\x1b[31m"@,
            yellow: "\x1b[33m"@,
            bold: "\x1b[1m"@,
            reset: "\x1b[0m"@,
        }
    } else {
        Paint { green: ""@, red: ""@, yellow: ""@, bold: ""@, reset: ""@ }
    }
}

pub open spec fn added_line(p: Paint) -> spec_fn(DescView) -> Seq<char> {
    |c: DescView| "  "@ + p.green + "+ "@ + c.name + " ("@ + c.data_type + ")"@ + p.reset + "\n"@
}

pub open spec fn removed_line(p: Paint) -> spec_fn(DescView) -> Seq<char> {
    |c: DescView| "  "@ + p.red + "- "@ + c.name + " ("@ + c.data_type + ")"@ + p.reset + "\n"@
}

pub open spec fn retyped_line(p: Paint) -> spec_fn(ChangeView) -> Seq<char> {
    |c: ChangeView|
        "  "@ + p.yellow + "~ "@ + c.name + ": "@ + c.left + " → "@ + c.right + p.reset + "\n"@
}

pub open spec fn renamed_line(p: Paint) -> spec_fn(RenameView) -> Seq<char> {
    |c: RenameView|
        "  "@ + p.yellow + "~ "@ + c.left + " → "@ + c.right + " (renamed, "@ + decimal(
            whole_percent(c.similarity),
        ) + "% content match)"@ + p.reset + "\n"@
}

/// What is said of the schemas.
pub open spec fn schema_lines(s: SchemaDiffView, p: Paint) -> Seq<Seq<char>> {
    let head = seq![p.bold + "Schema"@ + p.reset + "\n"@];
    let same = if no_schema_change(s) {
        seq!["  identical\n"@]
    } else {
        seq![]
    };
    head + same + s.added.map_values(added_line(p)) + s.removed.map_values(removed_line(p))
        + s.type_changed.map_values(retyped_line(p)) + s.renamed.map_values(renamed_line(p))
}

/// What is said of the key.
pub open spec fn key_line(r: ReportView, p: Paint) -> Seq<char> {
    if r.keyless {
        p.bold + "Key"@ + p.reset + ": none — keyless mode"@ + (if r.inferred {
            " [auto: no unique key column found]"@
        } else {
            ""@
        }) + " (rows matched by content; edits appear as - old / + new)\n"@
    } else {
        p.bold + "Key"@ + p.reset + ": "@ + joined(r.key_columns, ", "@) + (if r.inferred {
            " (inferred)"@
        } else {
            ""@
        }) + "\n"@
    }
}

pub open spec fn column_count_text() -> spec_fn(CountView) -> Seq<char> {
    |c: CountView| c.column + ": "@ + decimal(c.count)
}

/// The columns that changed, in brackets, where any did.
pub open spec fn changed_columns_text(counts: Seq<CountView>) -> Seq<char> {
    if counts.len() == 0 {
        ""@
    } else {
        "  ("@ + joined(counts.map_values(column_count_text()), ", "@) + ")"@
    }
}

pub open spec fn change_text() -> spec_fn(CellChangeView) -> Seq<char> {
    |c: CellChangeView| c.column + ": "@ + c.left + " → "@ + c.right
}

pub open spec fn modified_line(p: Paint) -> spec_fn(ModifiedView) -> Seq<char> {
    |m: ModifiedView|
        p.yellow + "~ "@ + row_text(m.key) + p.reset + "  "@ + joined(
            m.changes.map_values(change_text()),
            ", "@,
        ) + "\n"@
}

pub open spec fn added_row_line(p: Paint) -> spec_fn(SampleView) -> Seq<char> {
    |s: SampleView| p.green + "+ "@ + row_text(s.row) + count_text(s.count) + p.reset + "\n"@
}

pub open spec fn removed_row_line(p: Paint) -> spec_fn(SampleView) -> Seq<char> {
    |s: SampleView| p.red + "- "@ + row_text(s.row) + count_text(s.count) + p.reset + "\n"@
}

/// What is said of the rows.
pub open spec fn row_lines(r: ReportView, p: Paint) -> Seq<Seq<char>> {
    let total = row_differences(r);
    let head = seq![
        p.bold + "Rows"@ + p.reset + ": "@ + decimal(r.left_rows) + " → "@ + decimal(r.right_rows)
            + "\n"@,
    ];
    if total == 0 {
        head + seq!["  no row differences\n"@]
    } else {
        let counts = seq![
            "  "@ + p.green + "+ "@ + decimal(r.added) + " added"@ + p.reset + "\n"@,
            "  "@ + p.red + "- "@ + decimal(r.removed) + " removed"@ + p.reset + "\n"@,
            "  "@ + p.yellow + "~ "@ + decimal(r.modified) + " modified"@ + p.reset
                + changed_columns_text(r.columns_changed) + "\n"@,
            "\n"@,
        ];
        let samples = r.samples.modified.map_values(modified_line(p)) + r.samples.added.map_values(
            added_row_line(p),
        ) + r.samples.removed.map_values(removed_row_line(p));
        let rest = if total > shown_rows(r.samples) {
            seq![
                "… "@ + decimal((total - shown_rows(r.samples)) as nat)
                    + " more row difference(s) not shown (use --samples N)\n"@,
            ]
        } else {
            seq![]
        };
        head + counts + samples + rest
    }
}

/// What is said in the end.
pub open spec fn closing_lines(r: ReportView) -> Seq<Seq<char>> {
    let stopped = if r.truncated {
        seq!["(scan stopped early by --fail-fast; counts are lower bounds)\n"@]
    } else {
        seq![]
    };
    let none = if !differs(r) {
        seq!["\nNo differences found.\n"@]
    } else {
        seq![]
    };
    stopped + none
}

/// The report for people, line by line.
pub open spec fn human_lines(r: ReportView, color: bool) -> Seq<Seq<char>> {
    let p = paint(color);
    schema_lines(r.schema, p) + seq![key_line(r, p)] + row_lines(r, p) + closing_lines(r)
}

/// The codes that switch colors on and off.
struct Codes {
    green: String,
    red: String,
    yellow: String,
    bold: String,
    reset: String,
}

impl Codes {
    spec fn paint(&self) -> Paint {
        Paint {
            green: self.green@,
            red: self.red@,
            yellow: self.yellow@,
            bold: self.bold@,
            reset: self.reset@,
        }
    }

    fn new(color: bool) -> (r: Self)
        ensures
            r.paint() == paint(color),
    {
        if color {
            Codes {
                green: "\x1b[32m".to_owned(),
                red: "\x1b[31m".to_owned(),
                yellow: "\x1b[33m".to_owned(),
                bold: "\x1b[1m".to_owned(),
                reset: "\x1b[0m".to_owned(),
            }
        } else {
            Codes {
                green: "".to_owned(),
                red: "".to_owned(),
                yellow: "".to_owned(),
                bold: "".to_owned(),
                reset: "".to_owned(),
            }
        }
    }
}

/// Adds a line to those there are.
fn add_line(lines: &mut Vec<String>, line: String)
    ensures
        views(final(lines)@) == views(old(lines)@).push(line@),
{
    let ghost before = lines@;
    lines.push(line);
    assert(views(lines@) =~= views(before).push(line@));
}

fn desc_line(code: &str, sign: &str, c: &ColumnDesc, reset: &str) -> (r: String)
    ensures
        r@ == "  "@ + code@ + sign@ + c@.name + " ("@ + c@.data_type + ")"@ + reset@ + "\n"@,
{
    let mut s = "  ".to_owned();
    s.append(code);
    s.append(sign);
    s.append(c.name.as_str());
    s.append(" (");
    s.append(c.data_type.as_str());
    s.append(")");
    s.append(reset);
    s.append("\n");
    s
}

fn write_schema(s: &SchemaDiff, codes: &Codes, lines: &mut Vec<String>)
    requires
        forall|i: int|
            0 <= i < s@.renamed.len() ==> (#[trigger] s@.renamed[i]).similarity <= ONE,
    ensures
        views(final(lines)@) == views(old(lines)@) + schema_lines(s@, codes.paint()),
{
    let ghost p = codes.paint();
    let ghost start = views(lines@);
    let mut head = codes.bold.clone();
    head.append("Schema");
    head.append(codes.reset.as_str());
    head.append("\n");
    add_line(lines, head);
    if s.is_empty() {
        add_line(lines, "  identical\n".to_owned());
    }
    let ghost same = views(lines@);
    assert(same =~= start + seq![p.bold + "Schema"@ + p.reset + "\n"@] + (if no_schema_change(s@) {
        seq!["  identical\n"@]
    } else {
        seq![]
    }));
    for i in 0..s.added.len()
        invariant
            p == codes.paint(),
            views(lines@) =~= same + s@.added.take(i as int).map_values(added_line(p)),
    {
        let ghost before = views(lines@);
        add_line(lines, desc_line(codes.green.as_str(), "+ ", &s.added[i], codes.reset.as_str()));
        assert(s@.added[i as int] == s.added@[i as int]@);
        assert(views(lines@) =~= before.push(added_line(p)(s@.added[i as int])));
    }
    assert(s@.added.take(s@.added.len() as int) =~= s@.added);
    let ghost added = views(lines@);
    for i in 0..s.removed.len()
        invariant
            p == codes.paint(),
            views(lines@) =~= added + s@.removed.take(i as int).map_values(removed_line(p)),
    {
        let ghost before = views(lines@);
        add_line(lines, desc_line(codes.red.as_str(), "- ", &s.removed[i], codes.reset.as_str()));
        assert(s@.removed[i as int] == s.removed@[i as int]@);
        assert(views(lines@) =~= before.push(removed_line(p)(s@.removed[i as int])));
    }
    assert(s@.removed.take(s@.removed.len() as int) =~= s@.removed);
    let ghost removed = views(lines@);
    for i in 0..s.type_changed.len()
        invariant
            p == codes.paint(),
            views(lines@) =~= removed + s@.type_changed.take(i as int).map_values(retyped_line(p)),
    {
        let ghost before = views(lines@);
        let c = &s.type_changed[i];
        let mut line = "  ".to_owned();
        line.append(codes.yellow.as_str());
        line.append("~ ");
        line.append(c.name.as_str());
        line.append(": ");
        line.append(c.left.as_str());
        line.append(" → ");
        line.append(c.right.as_str());
        line.append(codes.reset.as_str());
        line.append("\n");
        add_line(lines, line);
        assert(s@.type_changed[i as int] == s.type_changed@[i as int]@);
        assert(views(lines@) =~= before.push(retyped_line(p)(s@.type_changed[i as int])));
    }
    assert(s@.type_changed.take(s@.type_changed.len() as int) =~= s@.type_changed);
    let ghost retyped = views(lines@);
    for i in 0..s.renamed.len()
        invariant
            p == codes.paint(),
            forall|i: int|
                0 <= i < s@.renamed.len() ==> (#[trigger] s@.renamed[i]).similarity <= ONE,
            views(lines@) =~= retyped + s@.renamed.take(i as int).map_values(renamed_line(p)),
    {
        let ghost before = views(lines@);
        let c = &s.renamed[i];
        assert(s@.renamed[i as int] == c@);
        let mut line = "  ".to_owned();
        line.append(codes.yellow.as_str());
        line.append("~ ");
        line.append(c.left.as_str());
        line.append(" → ");
        line.append(c.right.as_str());
        line.append(" (renamed, ");
        line.append(number(percent(c.similarity)).as_str());
        line.append("% content match)");
        line.append(codes.reset.as_str());
        line.append("\n");
        add_line(lines, line);
        assert(views(lines@) =~= before.push(renamed_line(p)(s@.renamed[i as int])));
    }
    assert(s@.renamed.take(s@.renamed.len() as int) =~= s@.renamed);
    assert(views(lines@) =~= start + schema_lines(s@, p));
}

fn write_key(r: &DiffReport, codes: &Codes) -> (line: String)
    ensures
        line@ == key_line(r@, codes.paint()),
{
    let mut line = codes.bold.clone();
    line.append("Key");
    line.append(codes.reset.as_str());
    if r.keyless {
        line.append(": none — keyless mode");
        line.append(if r.key.inferred { " [auto: no unique key column found]" } else { "" });
        line.append(" (rows matched by content; edits appear as - old / + new)\n");
    } else {
        line.append(": ");
        line.append(join(&r.key.columns, ", ").as_str());
        line.append(if r.key.inferred { " (inferred)" } else { "" });
        line.append("\n");
    }
    line
}

fn write_changed_columns(counts: &ColumnCounts) -> (r: String)
    ensures
        r@ == changed_columns_text(counts@),
{
    let mut parts: Vec<String> = Vec::new();
    for i in 0..counts.entries.len()
        invariant
            parts.len() == i,
            forall|j: int| 0 <= j < i ==> (#[trigger] parts@[j])@ == column_count_text()(counts@[j]),
    {
        let mut s = counts.entries[i].column.clone();
        s.append(": ");
        s.append(number(counts.entries[i].count as u128).as_str());
        assert(counts@[i as int] == counts.entries@[i as int]@);
        parts.push(s);
    }
    assert(views(parts@) =~= counts@.map_values(column_count_text()));
    if counts.entries.len() == 0 {
        "".to_owned()
    } else {
        let mut s = "  (".to_owned();
        s.append(join(&parts, ", ").as_str());
        s.append(")");
        s
    }
}

fn write_modified(m: &ModifiedRow, codes: &Codes) -> (line: String)
    ensures
        line@ == modified_line(codes.paint())(m@),
{
    let mut parts: Vec<String> = Vec::new();
    for i in 0..m.changes.len()
        invariant
            parts.len() == i,
            forall|j: int| 0 <= j < i ==> (#[trigger] parts@[j])@ == change_text()(m.changes@[j]@),
    {
        let c = &m.changes[i];
        let mut s = c.column.clone();
        s.append(": ");
        s.append(c.left.as_str());
        s.append(" → ");
        s.append(c.right.as_str());
        parts.push(s);
    }
    assert(views(parts@) =~= m@.changes.map_values(change_text()));
    let mut line = codes.yellow.clone();
    line.append("~ ");
    line.append(fmt_key(&m.key).as_str());
    line.append(codes.reset.as_str());
    line.append("  ");
    line.append(join(&parts, ", ").as_str());
    line.append("\n");
    line
}

fn write_sample(s: &RowSample, code: &str, sign: &str, reset: &str) -> (line: String)
    ensures
        line@ == code@ + sign@ + row_text(s@.row) + count_text(s@.count) + reset@ + "\n"@,
{
    let mut line = code.to_owned();
    line.append(sign);
    line.append(fmt_key(&s.row).as_str());
    line.append(fmt_count(s.count).as_str());
    line.append(reset);
    line.append("\n");
    line
}

proof fn lemma_sampled_grows(samples: Seq<SampleView>, i: int)
    requires
        0 <= i <= samples.len(),
    ensures
        sampled_rows(samples.take(i)) <= sampled_rows(samples),
    decreases samples.len(),
{
    if i < samples.len() {
        lemma_sampled_grows(samples.drop_last(), i);
        assert(samples.drop_last().take(i) =~= samples.take(i));
    } else {
        assert(samples.take(i) =~= samples);
    }
}

/// Counts the rows that samples stand for.
fn count_sampled(samples: &Vec<RowSample>) -> (n: u64)
    requires
        sampled_rows(sample_views(samples@)) <= u64::MAX,
    ensures
        n == sampled_rows(sample_views(samples@)),
{
    let ghost all = sample_views(samples@);
    let mut n: u64 = 0;
    for i in 0..samples.len()
        invariant
            all == sample_views(samples@),
            sampled_rows(all) <= u64::MAX,
            n == sampled_rows(all.take(i as int)),
    {
        proof {
            assert(all.take(i + 1).drop_last() =~= all.take(i as int));
            assert(all.take(i + 1).last() == samples@[i as int]@);
            lemma_sampled_grows(all, i + 1);
        }
        n = n + samples[i].count as u64;
    }
    assert(all.take(all.len() as int) =~= all);
    n
}

fn count_line(code: &str, sign: &str, n: usize, what: &str, reset: &str) -> (r: String)
    ensures
        r@ == "  "@ + code@ + sign@ + decimal(n as nat) + what@ + reset@,
{
    let mut s = "  ".to_owned();
    s.append(code);
    s.append(sign);
    s.append(number(n as u128).as_str());
    s.append(what);
    s.append(reset);
    s
}

fn write_rows(r: &DiffReport, codes: &Codes, lines: &mut Vec<String>)
    requires
        shown_rows(r@.samples) <= u64::MAX,
    ensures
        views(final(lines)@) == views(old(lines)@) + row_lines(r@, codes.paint()),
{
    let ghost p = codes.paint();
    let ghost start = views(lines@);
    let mut head = codes.bold.clone();
    head.append("Rows");
    head.append(codes.reset.as_str());
    head.append(": ");
    head.append(number(r.rows.left as u128).as_str());
    head.append(" → ");
    head.append(number(r.rows.right as u128).as_str());
    head.append("\n");
    add_line(lines, head);
    let total: u128 = r.diff.added as u128 + r.diff.removed as u128 + r.diff.modified as u128;
    if total == 0 {
        add_line(lines, "  no row differences\n".to_owned());
        assert(views(lines@) =~= start + row_lines(r@, p));
        return;
    }
    let reset = codes.reset.as_str();
    let mut added = count_line(codes.green.as_str(), "+ ", r.diff.added, " added", reset);
    added.append("\n");
    add_line(lines, added);
    let mut removed = count_line(codes.red.as_str(), "- ", r.diff.removed, " removed", reset);
    removed.append("\n");
    add_line(lines, removed);
    let mut modified = count_line(codes.yellow.as_str(), "~ ", r.diff.modified, " modified", reset);
    modified.append(write_changed_columns(&r.columns_changed).as_str());
    modified.append("\n");
    add_line(lines, modified);
    add_line(lines, "\n".to_owned());
    let ghost counted = views(lines@);
    let ghost all = r@.samples;
    for i in 0..r.samples.modified.len()
        invariant
            p == codes.paint(),
            all == r@.samples,
            views(lines@) =~= counted + all.modified.take(i as int).map_values(modified_line(p)),
    {
        let ghost before = views(lines@);
        add_line(lines, write_modified(&r.samples.modified[i], codes));
        assert(all.modified[i as int] == r.samples.modified@[i as int]@);
        assert(views(lines@) =~= before.push(modified_line(p)(all.modified[i as int])));
    }
    assert(all.modified.take(all.modified.len() as int) =~= all.modified);
    let ghost first = views(lines@);
    for i in 0..r.samples.added.len()
        invariant
            p == codes.paint(),
            all == r@.samples,
            reset@ == p.reset,
            views(lines@) =~= first + all.added.take(i as int).map_values(added_row_line(p)),
    {
        let ghost before = views(lines@);
        add_line(lines, write_sample(&r.samples.added[i], codes.green.as_str(), "+ ", reset));
        assert(all.added[i as int] == r.samples.added@[i as int]@);
        assert(views(lines@) =~= before.push(added_row_line(p)(all.added[i as int])));
    }
    assert(all.added.take(all.added.len() as int) =~= all.added);
    let ghost second = views(lines@);
    for i in 0..r.samples.removed.len()
        invariant
            p == codes.paint(),
            all == r@.samples,
            reset@ == p.reset,
            views(lines@) =~= second + all.removed.take(i as int).map_values(removed_row_line(p)),
    {
        let ghost before = views(lines@);
        add_line(lines, write_sample(&r.samples.removed[i], codes.red.as_str(), "- ", reset));
        assert(all.removed[i as int] == r.samples.removed@[i as int]@);
        assert(views(lines@) =~= before.push(removed_row_line(p)(all.removed[i as int])));
    }
    assert(all.removed.take(all.removed.len() as int) =~= all.removed);
    let shown = r.samples.modified.len() as u64 + count_sampled(&r.samples.added) + count_sampled(
        &r.samples.removed,
    );
    if total > shown as u128 {
        let mut rest = "… ".to_owned();
        rest.append(number(total - shown as u128).as_str());
        rest.append(" more row difference(s) not shown (use --samples N)\n");
        add_line(lines, rest);
    }
    assert(views(lines@) =~= start + row_lines(r@, p));
}

impl DiffReport {
    /// True for a report that shows a difference.
    pub fn has_differences(&self) -> (r: bool)
        ensures
            r == differs(self@),
    {
        !self.schema.is_empty() || self.diff.added as u128 + self.diff.removed as u128
            + self.diff.modified as u128 > 0
    }

    /// Renders the report for people, in color where that is wanted.
    pub fn render_human(&self, color: bool) -> (r: String)
        requires
            is_printable(self@),
        ensures
            r@ == glued(human_lines(self@, color)),
    {
        let codes = Codes::new(color);
        let mut lines: Vec<String> = Vec::new();
        assert(views(lines@) =~= seq![]);
        assert forall|i: int| 0 <= i < self.schema@.renamed.len() implies (
        #[trigger] self.schema@.renamed[i]).similarity <= ONE by {
            assert(self@.schema.renamed[i].similarity <= ONE);
        }
        write_schema(&self.schema, &codes, &mut lines);
        let key = write_key(self, &codes);
        add_line(&mut lines, key);
        write_rows(self, &codes, &mut lines);
        if self.truncated {
            add_line(
                &mut lines,
                "(scan stopped early by --fail-fast; counts are lower bounds)\n".to_owned(),
            );
        }
        if !self.has_differences() {
            add_line(&mut lines, "\nNo differences found.\n".to_owned());
        }
        assert(views(lines@) =~= human_lines(self@, color));
        glue(&lines)
    }
}

/// Counts the rows that samples stand for, on top of others, as far as there
/// are numbers for them.
fn checked_sampled(samples: &Vec<RowSample>, start: u64) -> (r: Option<u64>)
    ensures
        match r {
            Some(n) => n == start + sampled_rows(sample_views(samples@)),
            None => start + sampled_rows(sample_views(samples@)) > u64::MAX,
        },
{
    let ghost all = sample_views(samples@);
    let mut n: u64 = start;
    for i in 0..samples.len()
        invariant
            all == sample_views(samples@),
            n == start + sampled_rows(all.take(i as int)),
    {
        proof {
            assert(all.take(i + 1).drop_last() =~= all.take(i as int));
            assert(all.take(i + 1).last() == samples@[i as int]@);
            lemma_sampled_grows(all, i + 1);
        }
        n = match n.checked_add(samples[i].count as u64) {
            Some(n) => n,
            None => {
                return None;
            },
        };
    }
    assert(all.take(all.len() as int) =~= all);
    Some(n)
}

impl DiffReport {
    /// True for a report that can be rendered.
    pub fn printable(&self) -> (r: bool)
        ensures
            r == is_printable(self@),
    {
        let modified = self.samples.modified.len() as u64;
        let shown = match checked_sampled(&self.samples.added, modified) {
            Some(n) => checked_sampled(&self.samples.removed, n),
            None => None,
        };
        if shown.is_none() {
            return false;
        }
        for i in 0..self.schema.renamed.len()
            invariant
                forall|j: int| 0 <= j < i ==> (#[trigger] self@.schema.renamed[j]).similarity <= ONE,
        {
            assert(self@.schema.renamed[i as int] == self.schema.renamed@[i as int]@);
            if self.schema.renamed[i].similarity > ONE {
                return false;
            }
        }
        true
    }
}

} // verus!
