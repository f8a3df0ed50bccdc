//! What a printed report says, line by line.

use crate::float::{lemma_whole_percent_bounds, units, whole_percent};
use crate::report::{added_row_line, change_text, changed_columns_text, closing_lines, column_count_text, human_lines, key_line, key_val_text, modified_line, paint, removed_row_line, row_lines, row_text, sampled_rows, schema_lines, shown_rows, CellChangeView, CountView, KeyValView, ModifiedView, ReportView, SampleView, SamplesView};
use crate::text::{decimal, joined};
use vstd::arithmetic::power2::pow2;
use vstd::prelude::*;

verus! {

/// The parts of a report in the order in which they are printed.
proof fn lemma_parts(r: ReportView)
    ensures
        ({
            let p = paint(false);
            let all = human_lines(r, false);
            let (s, w, c) = (schema_lines(r.schema, p), row_lines(r, p), closing_lines(r));
            &&& all.len() == s.len() + 1 + w.len() + c.len()
            &&& forall|i: int| 0 <= i < s.len() ==> #[trigger] s[i] == all[i]
            &&& all[s.len() as int] == key_line(r, p)
            &&& forall|i: int| 0 <= i < w.len() ==> #[trigger] w[i] == all[s.len() + 1 + i]
            &&& forall|i: int| 0 <= i < c.len() ==> #[trigger] c[i] == all[s.len() + 1 + w.len() + i]
        }),
{
}

/// Without color there is nothing around the words.
proof fn lemma_no_color()
    ensures
        ({
            let p = paint(false);
            let none = Seq::<char>::empty();
            &&& p.green == none
            &&& p.red == none
            &&& p.yellow == none
            &&& p.bold == none
            &&& p.reset == none
            &&& ""@ == none
        }),
        "  "@ + "+ "@ == "  + "@,
        "  "@ + "- "@ == "  - "@,
        "  "@ + "~ "@ == "  ~ "@,
        ")"@ + "\n"@ == ")\n"@,
        "% content match)"@ + "\n"@ == "% content match)\n"@,
        " added"@ + "\n"@ == " added\n"@,
        " removed"@ + "\n"@ == " removed\n"@,
        "Rows"@ + ": "@ == "Rows: "@,
        "Key"@ + ": "@ == "Key: "@,
{
    reveal_strlit("");
    reveal_strlit("  ");
    reveal_strlit("+ ");
    reveal_strlit("- ");
    reveal_strlit("~ ");
    reveal_strlit("  + ");
    reveal_strlit("  - ");
    reveal_strlit("  ~ ");
    reveal_strlit(")");
    reveal_strlit("\n");
    reveal_strlit(")\n");
    reveal_strlit("% content match)");
    reveal_strlit("% content match)\n");
    reveal_strlit(" added");
    reveal_strlit(" added\n");
    reveal_strlit(" removed");
    reveal_strlit(" removed\n");
    reveal_strlit("Rows");
    reveal_strlit(": ");
    reveal_strlit("Rows: ");
    reveal_strlit("Key");
    reveal_strlit("Key: ");
    assert(""@ =~= Seq::<char>::empty());
    assert("  "@ + "+ "@ =~= "  + "@);
    assert("  "@ + "- "@ =~= "  - "@);
    assert("  "@ + "~ "@ =~= "  ~ "@);
    assert(")"@ + "\n"@ =~= ")\n"@);
    assert("% content match)"@ + "\n"@ =~= "% content match)\n"@);
    assert(" added"@ + "\n"@ =~= " added\n"@);
    assert(" removed"@ + "\n"@ =~= " removed\n"@);
    assert("Rows"@ + ": "@ =~= "Rows: "@);
    assert("Key"@ + ": "@ =~= "Key: "@);
}

/// A report says of the schemas that they are identical exactly where it lists no
/// column, and otherwise lists each added column behind a plus, each removed one
/// behind a minus, each with its type, and each changed or renamed one behind a
/// tilde, with what it was and what it is.
pub proof fn law_columns_are_printed(r: ReportView, i: int)
    ensures
        ({
            let all = human_lines(r, false);
            let s = r.schema;
            let listed = s.added.len() + s.removed.len() + s.type_changed.len() + s.renamed.len();
            &&& all.len() > 1
            &&& all[0] == "Schema"@ + "\n"@
            &&& listed == 0 ==> all[1] == "  identical\n"@
            &&& schema_lines(s, paint(false)).len() == 1 + if listed == 0 {
                1
            } else {
                listed
            }
            &&& 0 <= i < s.added.len() ==> all.contains(
                "  + "@ + s.added[i].name + " ("@ + s.added[i].data_type + ")\n"@,
            )
            &&& 0 <= i < s.removed.len() ==> all.contains(
                "  - "@ + s.removed[i].name + " ("@ + s.removed[i].data_type + ")\n"@,
            )
            &&& 0 <= i < s.type_changed.len() ==> all.contains(
                "  ~ "@ + s.type_changed[i].name + ": "@ + s.type_changed[i].left + " → "@
                    + s.type_changed[i].right + "\n"@,
            )
            &&& 0 <= i < s.renamed.len() ==> all.contains(
                "  ~ "@ + s.renamed[i].left + " → "@ + s.renamed[i].right + " (renamed, "@ + decimal(
                    whole_percent(s.renamed[i].similarity),
                ) + "% content match)\n"@,
            )
        }),
{
    let p = paint(false);
    let all = human_lines(r, false);
    let s = r.schema;
    let lines = schema_lines(s, p);
    let listed = s.added.len() + s.removed.len() + s.type_changed.len() + s.renamed.len();
    let head: int = if listed == 0 {
        2
    } else {
        1
    };
    lemma_parts(r);
    lemma_no_color();
    assert(lines[0] == p.bold + "Schema"@ + p.reset + "\n"@);
    assert(p.bold + "Schema"@ + p.reset + "\n"@ =~= "Schema"@ + "\n"@);
    if listed == 0 {
        assert(lines[1] == "  identical\n"@);
    }
    let (a, b, c) = (s.added.len(), s.removed.len(), s.type_changed.len());
    if 0 <= i < a {
        let d = s.added[i];
        let line = "  + "@ + d.name + " ("@ + d.data_type + ")\n"@;
        assert(lines[head + i] == "  "@ + p.green + "+ "@ + d.name + " ("@ + d.data_type + ")"@ + p.reset + "\n"@);
        assert("  "@ + p.green + "+ "@ + d.name + " ("@ + d.data_type + ")"@ + p.reset + "\n"@ =~= ("  "@ + "+ "@)
            + d.name + " ("@ + d.data_type + (")"@ + "\n"@));
        assert(all[head + i] == line);
    }
    if 0 <= i < b {
        let d = s.removed[i];
        let line = "  - "@ + d.name + " ("@ + d.data_type + ")\n"@;
        assert(lines[head + a + i] == "  "@ + p.red + "- "@ + d.name + " ("@ + d.data_type + ")"@ + p.reset
            + "\n"@);
        assert("  "@ + p.red + "- "@ + d.name + " ("@ + d.data_type + ")"@ + p.reset + "\n"@ =~= ("  "@ + "- "@)
            + d.name + " ("@ + d.data_type + (")"@ + "\n"@));
        assert(all[head + a + i] == line);
    }
    if 0 <= i < c {
        let d = s.type_changed[i];
        let line = "  ~ "@ + d.name + ": "@ + d.left + " → "@ + d.right + "\n"@;
        assert(lines[head + a + b + i] == "  "@ + p.yellow + "~ "@ + d.name + ": "@ + d.left + " → "@ + d.right
            + p.reset + "\n"@);
        assert("  "@ + p.yellow + "~ "@ + d.name + ": "@ + d.left + " → "@ + d.right + p.reset + "\n"@ =~= (
        "  "@ + "~ "@) + d.name + ": "@ + d.left + " → "@ + d.right + "\n"@);
        assert(all[head + a + b + i] == line);
    }
    if 0 <= i < s.renamed.len() {
        let d = s.renamed[i];
        let n = decimal(whole_percent(d.similarity));
        let line = "  ~ "@ + d.left + " → "@ + d.right + " (renamed, "@ + n + "% content match)\n"@;
        assert(lines[head + a + b + c + i] == "  "@ + p.yellow + "~ "@ + d.left + " → "@ + d.right
            + " (renamed, "@ + n + "% content match)"@ + p.reset + "\n"@);
        assert("  "@ + p.yellow + "~ "@ + d.left + " → "@ + d.right + " (renamed, "@ + n + "% content match)"@
            + p.reset + "\n"@ =~= ("  "@ + "~ "@) + d.left + " → "@ + d.right + " (renamed, "@ + n + (
        "% content match)"@ + "\n"@));
        assert(all[head + a + b + c + i] == line);
    }
}

/// A report names the key that rows were matched by, or says that there is none,
/// and says where it was chosen for want of an option.
pub proof fn law_key_is_printed(r: ReportView)
    ensures
        ({
            let all = human_lines(r, false);
            let chosen = if r.inferred {
                " (inferred)"@
            } else {
                Seq::empty()
            };
            let auto = if r.inferred {
                " [auto: no unique key column found]"@
            } else {
                Seq::empty()
            };
            &&& !r.keyless ==> all.contains("Key: "@ + joined(r.key_columns, ", "@) + chosen + "\n"@)
            &&& r.keyless ==> all.contains(
                "Key"@ + ": none — keyless mode"@ + auto
                    + " (rows matched by content; edits appear as - old / + new)\n"@,
            )
        }),
{
    let p = paint(false);
    let all = human_lines(r, false);
    lemma_parts(r);
    lemma_no_color();
    let line = key_line(r, p);
    assert(all[schema_lines(r.schema, p).len() as int] == line);
    assert(all.contains(line));
    let chosen = if r.inferred {
        " (inferred)"@
    } else {
        Seq::empty()
    };
    let auto = if r.inferred {
        " [auto: no unique key column found]"@
    } else {
        Seq::empty()
    };
    if r.keyless {
        assert(line =~= "Key"@ + ": none — keyless mode"@ + auto
            + " (rows matched by content; edits appear as - old / + new)\n"@);
    } else {
        assert(line =~= ("Key"@ + ": "@) + joined(r.key_columns, ", "@) + chosen + "\n"@);
    }
}

/// A report says how many rows either side has, and how many were added, removed
/// and modified, with how often each column changed; or that no row differs.
pub proof fn law_row_counts_are_printed(r: ReportView)
    ensures
        ({
            let all = human_lines(r, false);
            let total = r.added + r.removed + r.modified;
            let columns = r.columns_changed.map_values(
                |c: CountView| c.column + ": "@ + decimal(c.count),
            );
            let changed = if r.columns_changed.len() == 0 {
                Seq::empty()
            } else {
                "  ("@ + joined(columns, ", "@) + ")"@
            };
            &&& all.contains("Rows: "@ + decimal(r.left_rows) + " → "@ + decimal(r.right_rows) + "\n"@)
            &&& total == 0 ==> all.contains("  no row differences\n"@)
            &&& total > 0 ==> {
                &&& all.contains("  + "@ + decimal(r.added) + " added\n"@)
                &&& all.contains("  - "@ + decimal(r.removed) + " removed\n"@)
                &&& all.contains("  ~ "@ + decimal(r.modified) + " modified"@ + changed + "\n"@)
            }
        }),
{
    let p = paint(false);
    let all = human_lines(r, false);
    let lines = row_lines(r, p);
    let at = schema_lines(r.schema, p).len() as int + 1;
    let total = r.added + r.removed + r.modified;
    let columns = r.columns_changed.map_values(|c: CountView| c.column + ": "@ + decimal(c.count));
    lemma_parts(r);
    lemma_no_color();
    let head = "Rows: "@ + decimal(r.left_rows) + " → "@ + decimal(r.right_rows) + "\n"@;
    assert(lines[0] =~= ("Rows"@ + ": "@) + decimal(r.left_rows) + " → "@ + decimal(r.right_rows) + "\n"@);
    assert(all[at + 0] == head);
    if total == 0 {
        assert(lines[1] == "  no row differences\n"@);
        assert(all[at + 1] == "  no row differences\n"@);
    } else {
        let added = decimal(r.added);
        let removed = decimal(r.removed);
        let modified = decimal(r.modified);
        let changed = if r.columns_changed.len() == 0 {
            Seq::empty()
        } else {
            "  ("@ + joined(columns, ", "@) + ")"@
        };
        assert(columns =~= r.columns_changed.map_values(column_count_text()));
        assert(changed_columns_text(r.columns_changed) == changed);
        assert(lines[1] =~= ("  "@ + "+ "@) + added + (" added"@ + "\n"@));
        assert(lines[2] =~= ("  "@ + "- "@) + removed + (" removed"@ + "\n"@));
        assert(lines[3] =~= ("  "@ + "~ "@) + modified + " modified"@ + changed + "\n"@);
        assert(all[at + 1] == "  + "@ + added + " added\n"@);
        assert(all[at + 2] == "  - "@ + removed + " removed\n"@);
        assert(all[at + 3] == "  ~ "@ + modified + " modified"@ + changed + "\n"@);
    }
}

/// The rows that a report shows are printed where any row differs: an added one
/// behind a plus and a removed one behind a minus, with how many rows it stands
/// for where it is more than one, and a modified one behind a tilde, with each
/// change from the left text to the right one. A last line says how many
/// differences are not shown.
pub proof fn law_shown_rows_are_printed(r: ReportView, i: int)
    requires
        r.added + r.removed + r.modified > 0,
    ensures
        ({
            let all = human_lines(r, false);
            let s = r.samples;
            let total = r.added + r.removed + r.modified;
            &&& 0 <= i < s.added.len() ==> all.contains(
                "+ "@ + row_text(s.added[i].row) + times(s.added[i].count) + "\n"@,
            )
            &&& 0 <= i < s.removed.len() ==> all.contains(
                "- "@ + row_text(s.removed[i].row) + times(s.removed[i].count) + "\n"@,
            )
            &&& 0 <= i < s.modified.len() ==> all.contains(
                "~ "@ + row_text(s.modified[i].key) + "  "@ + joined(
                    s.modified[i].changes.map_values(
                        |c: CellChangeView| c.column + ": "@ + c.left + " → "@ + c.right,
                    ),
                    ", "@,
                ) + "\n"@,
            )
            &&& total > shown_rows(s) ==> all.contains(
                "… "@ + decimal((total - shown_rows(s)) as nat)
                    + " more row difference(s) not shown (use --samples N)\n"@,
            )
        }),
{
    let p = paint(false);
    let all = human_lines(r, false);
    let lines = row_lines(r, p);
    let at = schema_lines(r.schema, p).len() as int + 1;
    let s = r.samples;
    let total = r.added + r.removed + r.modified;
    let (a, m, d) = (s.added.len() as int, s.modified.len() as int, s.removed.len() as int);
    lemma_parts(r);
    lemma_no_color();
    if 0 <= i < m {
        let k = s.modified[i];
        let texts = k.changes.map_values(
            |c: CellChangeView| c.column + ": "@ + c.left + " → "@ + c.right,
        );
        assert(texts =~= k.changes.map_values(change_text()));
        assert(lines[5 + i] == modified_line(p)(k));
        assert(lines[5 + i] =~= "~ "@ + row_text(k.key) + "  "@ + joined(texts, ", "@) + "\n"@);
        assert(all[at + 5 + i] == lines[5 + i]);
    }
    if 0 <= i < a {
        let k = s.added[i];
        assert(lines[5 + m + i] == added_row_line(p)(k));
        assert(lines[5 + m + i] =~= "+ "@ + row_text(k.row) + times(k.count) + "\n"@);
        assert(all[at + 5 + m + i] == lines[5 + m + i]);
    }
    if 0 <= i < d {
        let k = s.removed[i];
        assert(lines[5 + m + a + i] == removed_row_line(p)(k));
        assert(lines[5 + m + a + i] =~= "- "@ + row_text(k.row) + times(k.count) + "\n"@);
        assert(all[at + 5 + m + a + i] == lines[5 + m + a + i]);
    }
    if total > shown_rows(s) {
        assert(all[at + 5 + m + a + d] == lines[5 + m + a + d]);
    }
}

/// How often a row is there, where it is more than once.
pub open spec fn times(n: nat) -> Seq<char> {
    if n > 1 {
        " ×"@ + decimal(n)
    } else {
        Seq::empty()
    }
}

/// The rows that are shown add up: one for each modified row, and for each added
/// or removed one as many as it stands for.
pub proof fn law_shown_rows_add_up(s: SamplesView, row: SampleView, change: ModifiedView)
    ensures
        shown_rows(SamplesView { added: seq![], removed: seq![], modified: seq![] }) == 0,
        shown_rows(SamplesView { added: s.added.push(row), ..s }) == shown_rows(s) + row.count,
        shown_rows(SamplesView { removed: s.removed.push(row), ..s }) == shown_rows(s) + row.count,
        shown_rows(SamplesView { modified: s.modified.push(change), ..s }) == shown_rows(s) + 1,
        sampled_rows(s.added.push(row)) == sampled_rows(s.added) + row.count,
{
    assert(s.added.push(row).drop_last() =~= s.added);
    assert(s.removed.push(row).drop_last() =~= s.removed);
}

/// A row is shown by its columns, each with its value, and commas between them.
pub proof fn law_row_texts_name_each_column(row: Seq<KeyValView>, kv: KeyValView)
    ensures
        row_text(seq![kv]) == kv.column + "="@ + kv.value,
        row.len() > 0 ==> row_text(row.push(kv)) == row_text(row) + ", "@ + (kv.column + "="@ + kv.value),
{
    let f = key_val_text();
    let one = seq![kv].map_values(f);
    assert(one.len() == 1 && one[0] == kv.column + "="@ + kv.value);
    let more = row.push(kv).map_values(f);
    assert(more.drop_last() =~= row.map_values(f));
}

/// Texts are joined with what goes between them, in order.
pub proof fn law_texts_are_joined_in_order(parts: Seq<Seq<char>>, last: Seq<char>, sep: Seq<char>)
    ensures
        joined(seq![last], sep) == last,
        parts.len() > 0 ==> joined(parts.push(last), sep) == joined(parts, sep) + sep + last,
{
    assert(parts.push(last).drop_last() =~= parts);
}

/// A report ends with a line that there are no differences exactly where it lists
/// no column and counts no row, and says where the scan was stopped early. It
/// has no other lines than those for its columns, its key, its rows and these.
pub proof fn law_verdict_is_printed(r: ReportView)
    ensures
        ({
            let all = human_lines(r, false);
            let s = r.schema;
            let listed = s.added.len() + s.removed.len() + s.type_changed.len() + s.renamed.len();
            let total = r.added + r.removed + r.modified;
            let samples = r.samples.added.len() + r.samples.removed.len() + r.samples.modified.len();
            let none = listed == 0 && total == 0;
            let columns = if listed == 0 {
                1
            } else {
                listed
            };
            let rows = if total == 0 {
                1
            } else if total > shown_rows(r.samples) {
                5 + samples
            } else {
                4 + samples
            };
            let early: nat = if r.truncated {
                1
            } else {
                0
            };
            let verdict: nat = if none {
                1
            } else {
                0
            };
            &&& all.len() == 1 + columns + 1 + 1 + rows + early + verdict
            &&& none ==> all.last() == "\nNo differences found.\n"@
            &&& r.truncated ==> all[all.len() - 1 - verdict]
                == "(scan stopped early by --fail-fast; counts are lower bounds)\n"@
        }),
{
    lemma_parts(r);
    law_columns_are_printed(r, 0);
}

/// A similarity is shown as a percentage no further than the next whole number
/// from what it is.
pub proof fn law_percentages_are_near(similarity: u64, n: nat)
    requires
        similarity <= 0x3ff0_0000_0000_0000,
        n <= 100,
    ensures
        n * pow2(1074) <= 100 * units(similarity) ==> n <= whole_percent(similarity),
        100 * units(similarity) <= n * pow2(1074) ==> whole_percent(similarity) <= n,
{
    lemma_whole_percent_bounds(similarity, n);
}

} // verus!
