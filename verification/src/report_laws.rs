//! What holds of printed reports as a whole.

use crate::report::{added_row_line, change_text, changed_columns_text, closing_lines, column_count_text, count_text, human_lines, key_line, key_val_text, modified_line, paint, removed_row_line, row_lines, row_text, schema_lines, CellChangeView, CountView, KeyValView, ReportView};
use crate::schema_diff::SchemaDiffView;
use crate::text::{decimal, glued, joined};
use vstd::prelude::*;

verus! {

/// True for a text without the character that starts a color code.
#[verifier::opaque]
pub open spec fn plain(s: Seq<char>) -> bool {
    forall|i: int| 0 <= i < s.len() ==> #[trigger] s[i] != '\x1b'
}

/// How long a color code is that a text starts with; zero where it starts with
/// none.
pub open spec fn code_length(s: Seq<char>) -> nat {
    let p = paint(true);
    if p.green.is_prefix_of(s) || p.red.is_prefix_of(s) || p.yellow.is_prefix_of(s) {
        5
    } else if p.bold.is_prefix_of(s) || p.reset.is_prefix_of(s) {
        4
    } else {
        0
    }
}

/// A text with the color codes taken out.
pub open spec fn uncolored(s: Seq<char>) -> Seq<char>
    decreases s.len(),
{
    if s.len() == 0 {
        seq![]
    } else if code_length(s) > 0 && code_length(s) <= s.len() {
        uncolored(s.skip(code_length(s) as int))
    } else {
        seq![s[0]] + uncolored(s.drop_first())
    }
}

/// A text that is another one, a plain one, but for the color codes in it.
#[verifier::opaque]
spec fn shows(a: Seq<char>, b: Seq<char>) -> bool {
    plain(b) && forall|rest: Seq<char>| #[trigger] uncolored(a + rest) == b + uncolored(rest)
}

/// What the color codes are.
proof fn lemma_codes()
    ensures
        ({
            let p = paint(true);
            &&& p.green == seq!['\x1b', '[', '3', '2', 'm']
            &&& p.red == seq!['\x1b', '[', '3', '1', 'm']
            &&& p.yellow == seq!['\x1b', '[', '3', '3', 'm']
            &&& p.bold == seq!['\x1b', '[', '1', 'm']
            &&& p.reset == seq!['\x1b', '[', '0', 'm']
        }),
        ""@ == Seq::<char>::empty(),
{
    reveal_strlit("\x1b[32m");
    reveal_strlit("\x1b[31m");
    reveal_strlit("\x1b[33m");
    reveal_strlit("\x1b[1m");
    reveal_strlit("\x1b[0m");
    reveal_strlit("");
    let p = paint(true);
    assert(p.green =~= seq!['\x1b', '[', '3', '2', 'm']);
    assert(p.red =~= seq!['\x1b', '[', '3', '1', 'm']);
    assert(p.yellow =~= seq!['\x1b', '[', '3', '3', 'm']);
    assert(p.bold =~= seq!['\x1b', '[', '1', 'm']);
    assert(p.reset =~= seq!['\x1b', '[', '0', 'm']);
    assert(""@ =~= Seq::<char>::empty());
}

/// A color code shows nothing.
proof fn lemma_code_shows(code: Seq<char>)
    requires
        ({
            let p = paint(true);
            code == p.green || code == p.red || code == p.yellow || code == p.bold || code == p.reset
        }),
    ensures
        shows(code, ""@),
{
    reveal(shows);
    reveal(plain);
    lemma_codes();
    assert forall|rest: Seq<char>| #[trigger] uncolored(code + rest) == ""@ + uncolored(rest) by {
        let all = code + rest;
        assert(code.is_prefix_of(all));
        assert(all[2] == code[2] && all[3] == code[3]);
        assert(code_length(all) == code.len());
        assert(all.skip(code.len() as int) =~= rest);
        assert(""@ + uncolored(rest) =~= uncolored(rest));
    }
}

/// What is plain shows itself.
proof fn lemma_plain_stays(a: Seq<char>, rest: Seq<char>)
    requires
        plain(a),
    ensures
        uncolored(a + rest) == a + uncolored(rest),
    decreases a.len(),
{
    reveal(plain);
    lemma_codes();
    if a.len() == 0 {
        assert(a + rest =~= rest);
        assert(a + uncolored(rest) =~= uncolored(rest));
    } else {
        let tail = a.drop_first();
        let all = a + rest;
        assert(all[0] != '\x1b');
        lemma_plain_stays(tail, rest);
        assert(all.drop_first() =~= tail + rest);
        assert(seq![all[0]] + (tail + uncolored(rest)) =~= a + uncolored(rest));
    }
}

broadcast proof fn lemma_plain_shows(a: Seq<char>)
    requires
        plain(a),
    ensures
        #[trigger] shows(a, a),
{
    reveal(shows);
    assert forall|rest: Seq<char>| #[trigger] uncolored(a + rest) == a + uncolored(rest) by {
        lemma_plain_stays(a, rest);
    }
}

broadcast proof fn lemma_plain_joins(a: Seq<char>, b: Seq<char>)
    requires
        plain(a),
        plain(b),
    ensures
        #[trigger] plain(a + b),
{
    reveal(plain);
}

/// Texts show together what they show one by one.
broadcast proof fn lemma_shows_joins(a: Seq<char>, b: Seq<char>, c: Seq<char>, d: Seq<char>)
    requires
        shows(a, b),
        shows(c, d),
    ensures
        #[trigger] shows(a + c, b + d),
{
    reveal(shows);
    lemma_plain_joins(b, d);
    assert forall|rest: Seq<char>| #[trigger] uncolored(a + c + rest) == b + d + uncolored(rest) by {
        assert(a + c + rest =~= a + (c + rest));
        assert(uncolored(a + (c + rest)) == b + uncolored(c + rest));
        assert(b + (d + uncolored(rest)) =~= b + d + uncolored(rest));
    }
}

/// Lines of which each shows the other one at its place.
spec fn lines_show(a: Seq<Seq<char>>, b: Seq<Seq<char>>) -> bool {
    &&& a.len() == b.len()
    &&& forall|i: int| 0 <= i < a.len() ==> shows(#[trigger] a[i], b[i])
}

proof fn lemma_lines_join(a: Seq<Seq<char>>, b: Seq<Seq<char>>, c: Seq<Seq<char>>, d: Seq<Seq<char>>)
    requires
        lines_show(a, b),
        lines_show(c, d),
    ensures
        lines_show(a + c, b + d),
{
}

proof fn lemma_glued_shows(a: Seq<Seq<char>>, b: Seq<Seq<char>>)
    requires
        lines_show(a, b),
    ensures
        shows(glued(a), glued(b)),
    decreases a.len(),
{
    broadcast use {lemma_plain_shows, lemma_shows_joins};

    if a.len() == 0 {
        reveal(plain);
        assert(glued(a) =~= glued(b));
        assert(plain(glued(a)));
    } else {
        lemma_glued_shows(a.drop_last(), b.drop_last());
        assert(shows(a[a.len() - 1], b[a.len() - 1]));
    }
}

proof fn lemma_joined_plain(parts: Seq<Seq<char>>, sep: Seq<char>)
    requires
        forall|i: int| 0 <= i < parts.len() ==> plain(#[trigger] parts[i]),
        plain(sep),
    ensures
        plain(joined(parts, sep)),
    decreases parts.len(),
{
    broadcast use lemma_plain_joins;

    if parts.len() == 0 {
        reveal(plain);
    } else {
        lemma_joined_plain(parts.drop_last(), sep);
        assert(plain(parts[parts.len() - 1]));
    }
}

broadcast proof fn lemma_decimal_plain(n: nat)
    ensures
        #[trigger] plain(decimal(n)),
    decreases n,
{
    reveal(plain);
    if n >= 10 {
        lemma_decimal_plain(n / 10);
    }
}

/// The words of a report are plain.
proof fn lemma_words_plain()
    ensures
        plain("="@),
        plain(", "@),
        plain("  "@),
        plain("+ "@),
        plain("- "@),
        plain("~ "@),
        plain(" ("@),
        plain(")"@),
        plain("\n"@),
        plain(": "@),
        plain(" → "@),
        plain(" (renamed, "@),
        plain("% content match)"@),
        plain("Schema"@),
        plain("  identical\n"@),
        plain("Key"@),
        plain(": none — keyless mode"@),
        plain(" [auto: no unique key column found]"@),
        plain(""@),
        plain(" (rows matched by content; edits appear as - old / + new)\n"@),
        plain(" (inferred)"@),
        plain("  ("@),
        plain("Rows"@),
        plain("  no row differences\n"@),
        plain(" added"@),
        plain(" removed"@),
        plain(" modified"@),
        plain("… "@),
        plain(" more row difference(s) not shown (use --samples N)\n"@),
        plain("(scan stopped early by --fail-fast; counts are lower bounds)\n"@),
        plain("\nNo differences found.\n"@),
        plain(" ×"@),
{
    reveal(plain);
    reveal_strlit("=");
    reveal_strlit(", ");
    reveal_strlit("  ");
    reveal_strlit("+ ");
    reveal_strlit("- ");
    reveal_strlit("~ ");
    reveal_strlit(" (");
    reveal_strlit(")");
    reveal_strlit("\n");
    reveal_strlit(": ");
    reveal_strlit(" → ");
    reveal_strlit(" (renamed, ");
    reveal_strlit("% content match)");
    reveal_strlit("Schema");
    reveal_strlit("  identical\n");
    reveal_strlit("Key");
    reveal_strlit(": none — keyless mode");
    reveal_strlit(" [auto: no unique key column found]");
    reveal_strlit("");
    reveal_strlit(" (rows matched by content; edits appear as - old / + new)\n");
    reveal_strlit(" (inferred)");
    reveal_strlit("  (");
    reveal_strlit("Rows");
    reveal_strlit("  no row differences\n");
    reveal_strlit(" added");
    reveal_strlit(" removed");
    reveal_strlit(" modified");
    reveal_strlit("… ");
    reveal_strlit(" more row difference(s) not shown (use --samples N)\n");
    reveal_strlit("(scan stopped early by --fail-fast; counts are lower bounds)\n");
    reveal_strlit("\nNo differences found.\n");
    reveal_strlit(" ×");
}

/// What color is switched on and off by, and what there is without color.
proof fn lemma_paint_shows()
    ensures
        ({
            let p = paint(true);
            let q = paint(false);
            &&& shows(p.green, q.green)
            &&& shows(p.red, q.red)
            &&& shows(p.yellow, q.yellow)
            &&& shows(p.bold, q.bold)
            &&& shows(p.reset, q.reset)
        }),
{
    let p = paint(true);
    lemma_code_shows(p.green);
    lemma_code_shows(p.red);
    lemma_code_shows(p.yellow);
    lemma_code_shows(p.bold);
    lemma_code_shows(p.reset);
}

/// True for a schema difference whose names are plain.
pub open spec fn plain_schema(s: SchemaDiffView) -> bool {
    &&& forall|i: int| 0 <= i < s.added.len() ==> plain((#[trigger] s.added[i]).name) && plain(s.added[i].data_type)
    &&& forall|i: int|
        0 <= i < s.removed.len() ==> plain((#[trigger] s.removed[i]).name) && plain(s.removed[i].data_type)
    &&& forall|i: int|
        0 <= i < s.type_changed.len() ==> plain((#[trigger] s.type_changed[i]).name) && plain(
            s.type_changed[i].left,
        ) && plain(s.type_changed[i].right)
    &&& forall|i: int|
        0 <= i < s.renamed.len() ==> plain((#[trigger] s.renamed[i]).left) && plain(s.renamed[i].right)
}

/// True for a reported row whose names and values are plain.
pub open spec fn plain_row(row: Seq<KeyValView>) -> bool {
    forall|i: int| 0 <= i < row.len() ==> plain((#[trigger] row[i]).column) && plain(row[i].value)
}

/// True for changes whose names and values are plain.
pub open spec fn plain_changes(changes: Seq<CellChangeView>) -> bool {
    forall|i: int|
        0 <= i < changes.len() ==> plain((#[trigger] changes[i]).column) && plain(changes[i].left) && plain(
            changes[i].right,
        )
}

/// True for a report in which no text holds the character that starts a color
/// code.
pub open spec fn plain_report(r: ReportView) -> bool {
    &&& plain_schema(r.schema)
    &&& forall|i: int| 0 <= i < r.key_columns.len() ==> plain(#[trigger] r.key_columns[i])
    &&& forall|i: int| 0 <= i < r.columns_changed.len() ==> plain((#[trigger] r.columns_changed[i]).column)
    &&& forall|i: int| 0 <= i < r.samples.added.len() ==> plain_row((#[trigger] r.samples.added[i]).row)
    &&& forall|i: int| 0 <= i < r.samples.removed.len() ==> plain_row((#[trigger] r.samples.removed[i]).row)
    &&& forall|i: int|
        0 <= i < r.samples.modified.len() ==> plain_row((#[trigger] r.samples.modified[i]).key) && plain_changes(
            r.samples.modified[i].changes,
        )
}

proof fn lemma_schema_shows(s: SchemaDiffView)
    requires
        plain_schema(s),
    ensures
        lines_show(schema_lines(s, paint(true)), schema_lines(s, paint(false))),
{
    broadcast use {lemma_plain_shows, lemma_shows_joins, lemma_decimal_plain};

    lemma_words_plain();
    lemma_paint_shows();
}

proof fn lemma_row_plain(row: Seq<KeyValView>)
    requires
        plain_row(row),
    ensures
        plain(row_text(row)),
{
    broadcast use lemma_plain_joins;

    lemma_words_plain();
    lemma_joined_plain(row.map_values(key_val_text()), ", "@);
}

proof fn lemma_changes_plain(changes: Seq<CellChangeView>)
    requires
        plain_changes(changes),
    ensures
        plain(joined(changes.map_values(change_text()), ", "@)),
{
    broadcast use lemma_plain_joins;

    lemma_words_plain();
    lemma_joined_plain(changes.map_values(change_text()), ", "@);
}

proof fn lemma_counts_plain(counts: Seq<CountView>)
    requires
        forall|i: int| 0 <= i < counts.len() ==> plain((#[trigger] counts[i]).column),
    ensures
        plain(changed_columns_text(counts)),
{
    broadcast use {lemma_plain_joins, lemma_decimal_plain};

    lemma_words_plain();
    lemma_joined_plain(counts.map_values(column_count_text()), ", "@);
}

proof fn lemma_count_plain(count: nat)
    ensures
        plain(count_text(count)),
{
    broadcast use {lemma_plain_joins, lemma_decimal_plain};

    lemma_words_plain();
    reveal(plain);
}

proof fn lemma_key_shows(r: ReportView)
    requires
        plain_report(r),
    ensures
        shows(key_line(r, paint(true)), key_line(r, paint(false))),
{
    broadcast use {lemma_plain_shows, lemma_shows_joins};

    lemma_words_plain();
    lemma_paint_shows();
    lemma_joined_plain(r.key_columns, ", "@);
}

proof fn lemma_samples_show(r: ReportView)
    requires
        plain_report(r),
    ensures
        ({
            let (p, q) = (paint(true), paint(false));
            &&& lines_show(
                r.samples.modified.map_values(modified_line(p)),
                r.samples.modified.map_values(modified_line(q)),
            )
            &&& lines_show(
                r.samples.added.map_values(added_row_line(p)),
                r.samples.added.map_values(added_row_line(q)),
            )
            &&& lines_show(
                r.samples.removed.map_values(removed_row_line(p)),
                r.samples.removed.map_values(removed_row_line(q)),
            )
        }),
{
    broadcast use {lemma_plain_shows, lemma_shows_joins};

    let (p, q) = (paint(true), paint(false));
    lemma_words_plain();
    lemma_paint_shows();
    let m = r.samples.modified;
    assert forall|i: int| 0 <= i < m.len() implies shows(
        #[trigger] m.map_values(modified_line(p))[i],
        m.map_values(modified_line(q))[i],
    ) by {
        lemma_row_plain(m[i].key);
        lemma_changes_plain(m[i].changes);
    }
    let a = r.samples.added;
    assert forall|i: int| 0 <= i < a.len() implies shows(
        #[trigger] a.map_values(added_row_line(p))[i],
        a.map_values(added_row_line(q))[i],
    ) by {
        lemma_row_plain(a[i].row);
        lemma_count_plain(a[i].count);
    }
    let d = r.samples.removed;
    assert forall|i: int| 0 <= i < d.len() implies shows(
        #[trigger] d.map_values(removed_row_line(p))[i],
        d.map_values(removed_row_line(q))[i],
    ) by {
        lemma_row_plain(d[i].row);
        lemma_count_plain(d[i].count);
    }
}

proof fn lemma_rows_show(r: ReportView)
    requires
        plain_report(r),
    ensures
        lines_show(row_lines(r, paint(true)), row_lines(r, paint(false))),
{
    broadcast use {lemma_plain_shows, lemma_shows_joins, lemma_decimal_plain, lemma_plain_joins};

    lemma_words_plain();
    lemma_paint_shows();
    lemma_counts_plain(r.columns_changed);
    lemma_samples_show(r);
}

/// Color adds its codes to a printed report and nothing else: without color
/// there is no code, and with the codes taken out a report in color is the same
/// as one without.
pub proof fn law_color_only_adds_codes(r: ReportView)
    requires
        plain_report(r),
    ensures
        plain(glued(human_lines(r, false))),
        uncolored(glued(human_lines(r, true))) == glued(human_lines(r, false)),
{
    broadcast use lemma_plain_shows;

    let (p, q) = (paint(true), paint(false));
    lemma_words_plain();
    lemma_schema_shows(r.schema);
    lemma_key_shows(r);
    lemma_rows_show(r);
    assert(lines_show(closing_lines(r), closing_lines(r)));
    let a = schema_lines(r.schema, p) + seq![key_line(r, p)];
    let b = schema_lines(r.schema, q) + seq![key_line(r, q)];
    lemma_lines_join(schema_lines(r.schema, p), schema_lines(r.schema, q), seq![key_line(r, p)], seq![key_line(r, q)]);
    lemma_lines_join(a, b, row_lines(r, p), row_lines(r, q));
    lemma_lines_join(a + row_lines(r, p), b + row_lines(r, q), closing_lines(r), closing_lines(r));
    let x = glued(human_lines(r, true));
    let y = glued(human_lines(r, false));
    lemma_glued_shows(human_lines(r, true), human_lines(r, false));
    reveal(shows);
    assert(x + seq![] =~= x);
    assert(y + uncolored(seq![]) =~= y);
    assert(uncolored(x + seq![]) == y + uncolored(seq![]));
}

} // verus!
