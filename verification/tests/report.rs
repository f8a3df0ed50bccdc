use tabdiff::report::{
    fmt_count, fmt_key, Change, ColumnCounts, DiffCounts, DiffReport, KeyInfo, KeyVal, ModifiedRow,
    RowCounts, RowSample, Samples,
};
use tabdiff::row_diff::push_sample;
use tabdiff::schema_diff::{ColumnDesc, RenamedColumn, SchemaDiff, TypeChange};

fn key(column: &str, value: &str) -> Vec<KeyVal> {
    vec![KeyVal { column: column.to_owned(), value: value.to_owned() }]
}

fn no_schema_change() -> SchemaDiff {
    SchemaDiff {
        added: vec![],
        removed: vec![],
        type_changed: vec![],
        renamed: vec![],
        mutual: vec!["id".to_owned()],
    }
}

fn report(schema: SchemaDiff) -> DiffReport {
    DiffReport {
        schema,
        key: KeyInfo { columns: vec!["id".to_owned()], inferred: false },
        keyless: false,
        rows: RowCounts { left: 3, right: 3 },
        diff: DiffCounts { added: 0, removed: 0, modified: 0 },
        columns_changed: ColumnCounts::new(),
        samples: Samples { added: vec![], removed: vec![], modified: vec![] },
        truncated: false,
    }
}

#[test]
fn counts_and_keys_are_formatted() {
    assert_eq!(fmt_count(1), "");
    assert_eq!(fmt_count(0), "");
    assert_eq!(fmt_count(12), " ×12");
    let mut k = key("a", "1");
    assert_eq!(fmt_key(&k), "a=1");
    k.extend(key("b", "x"));
    assert_eq!(fmt_key(&k), "a=1, b=x");
    assert_eq!(fmt_key(&vec![]), "");
}

#[test]
fn samples_are_capped() {
    let mut samples = vec![];
    for i in 0..5 {
        push_sample(&mut samples, key("id", &format!("{i}")), 1, 3);
    }
    assert_eq!(samples.len(), 3);
    assert_eq!(samples[2].row[0].value, "2");
    push_sample(&mut samples, key("id", "9"), 1, 0);
    assert_eq!(samples.len(), 3);
}

#[test]
fn columns_are_counted() {
    let mut counts = ColumnCounts::new();
    counts.bump(&"b".to_owned());
    counts.bump(&"a".to_owned());
    counts.bump(&"b".to_owned());
    assert_eq!(counts.get("b"), Some(2));
    assert_eq!(counts.get("a"), Some(1));
    assert_eq!(counts.get("c"), None);
}

#[test]
fn no_differences_are_said_so() {
    let r = report(no_schema_change());
    assert!(!r.has_differences());
    assert_eq!(
        r.render_human(false),
        "Schema\n  identical\nKey: id\nRows: 3 → 3\n  no row differences\n\n\
         No differences found.\n"
    );
}

#[test]
fn every_kind_of_schema_change_is_listed() {
    let mut schema = no_schema_change();
    schema.added.push(ColumnDesc { name: "new".to_owned(), data_type: "Utf8".to_owned() });
    schema.removed.push(ColumnDesc { name: "old".to_owned(), data_type: "Int64".to_owned() });
    schema.type_changed.push(TypeChange {
        name: "id".to_owned(),
        left: "Int64".to_owned(),
        right: "Float64".to_owned(),
    });
    schema.renamed.push(RenamedColumn {
        left: "a".to_owned(),
        right: "b".to_owned(),
        similarity: 0.875f64.to_bits(),
    });
    assert!(!schema.is_empty());
    let r = report(schema);
    assert!(r.has_differences());
    let text = r.render_human(false);
    assert!(text.contains("  + new (Utf8)\n"));
    assert!(text.contains("  - old (Int64)\n"));
    assert!(text.contains("  ~ id: Int64 → Float64\n"));
    assert!(text.contains("  ~ a → b (renamed, 88% content match)\n"));
    assert!(r.render_human(true).contains("\x1b["));
    assert!(!text.contains("\x1b["));
}

#[test]
fn rows_beyond_the_samples_are_counted() {
    let mut r = report(no_schema_change());
    r.diff = DiffCounts { added: 5, removed: 0, modified: 1 };
    r.samples.added.push(RowSample { row: key("id", "7"), count: 2 });
    r.samples.modified.push(ModifiedRow {
        key: key("id", "1"),
        changes: vec![Change {
            column: "v".to_owned(),
            left: "1".to_owned(),
            right: "2".to_owned(),
        }],
    });
    r.columns_changed.bump(&"v".to_owned());
    r.truncated = true;
    let text = r.render_human(false);
    assert!(text.contains("~ id=1  v: 1 → 2\n"));
    assert!(text.contains("+ id=7 ×2\n"));
    assert!(text.contains("  ~ 1 modified  (v: 1)\n"));
    assert!(text.contains("3 more"), "{text}");
    assert!(text.contains("(scan stopped early by --fail-fast; counts are lower bounds)\n"));
}

#[test]
fn unprintable_reports_are_recognized() {
    let mut r = report(no_schema_change());
    assert!(r.printable());
    r.samples.added.push(RowSample { row: vec![], count: usize::MAX });
    r.samples.removed.push(RowSample { row: vec![], count: usize::MAX });
    assert!(!r.printable());
    let mut schema = no_schema_change();
    schema.renamed.push(RenamedColumn {
        left: "a".to_owned(),
        right: "b".to_owned(),
        similarity: 1.5f64.to_bits(),
    });
    assert!(!report(schema).printable());
}
