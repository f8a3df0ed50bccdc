use std::io::Cursor;
use std::sync::Arc;

use arrow::array::{Array as _, ArrayRef, AsArray, RecordBatch};
use arrow::csv::reader::Format;
use arrow::csv::ReaderBuilder;
use arrow::datatypes::{Float64Type, Int64Type};
use tabdiff::input::{Batch, BatchIter};
use tabdiff::report::DiffReport;
use tabdiff::schema::{DataType, Field, Schema};
use tabdiff::value::{Array, Float};
use tabdiff::{run_diff, DiffConfig};

const LEFT: &str = "id,name,amount,status,legacy\n\
1,alice,10.0,open,a\n\
2,bob,20.5,open,b\n\
3,carol,30.25,closed,c\n\
4,dave,40.0,open,d\n\
5,eve,50.75,closed,e\n";

const RIGHT: &str = "id,name,amount,status,email\n\
1,alice,10.0,open,alice@x.org\n\
2,bob,20.50001,open,bob@x.org\n\
3,carol,30.25,open,carol@x.org\n\
4,dave,40.0,open,dave@x.org\n\
6,frank,60.0,open,frank@x.org\n";

const EVENTS_LEFT: &str = "ts,sensor,temp\n\
10:00,A,21.5\n\
10:00,A,21.5\n\
10:00,B,19.0\n\
10:05,A,21.6\n";

const EVENTS_RIGHT: &str = "ts,sensor,temp\n\
10:00,A,21.5\n\
10:00,B,19.0\n\
10:05,A,21.7\n\
10:10,C,18.0\n";

fn float(x: f64) -> Float {
    Float { bits: x.to_bits(), text: format!("{x}") }
}

fn column(a: &ArrayRef) -> (DataType, Array) {
    let n = a.len();
    match a.data_type() {
        arrow::datatypes::DataType::Int64 => {
            let v = a.as_primitive::<Int64Type>();
            let cells = (0..n).map(|i| if v.is_null(i) { None } else { Some(v.value(i)) }).collect();
            (DataType::Int64, Array::Int64(cells))
        }
        arrow::datatypes::DataType::Float64 => {
            let v = a.as_primitive::<Float64Type>();
            let cells =
                (0..n).map(|i| if v.is_null(i) { None } else { Some(float(v.value(i))) }).collect();
            (DataType::Float64, Array::Float64(cells))
        }
        arrow::datatypes::DataType::Boolean => {
            let v = a.as_boolean();
            let cells = (0..n).map(|i| if v.is_null(i) { None } else { Some(v.value(i)) }).collect();
            (DataType::Boolean, Array::Boolean(cells))
        }
        arrow::datatypes::DataType::Utf8 => {
            let v = a.as_string::<i32>();
            let cells = (0..n)
                .map(|i| if v.is_null(i) { None } else { Some(v.value(i).to_owned()) })
                .collect();
            (DataType::Utf8, Array::Utf8(cells))
        }
        other => panic!("no test data of type {other}"),
    }
}

fn convert(batches: &[RecordBatch]) -> BatchIter {
    let mut fields = Vec::new();
    let mut out = Vec::new();
    for batch in batches {
        fields.clear();
        let mut columns = Vec::new();
        for (i, f) in batch.schema().fields().iter().enumerate() {
            let (data_type, values) = column(batch.column(i));
            fields.push(Field { name: f.name().clone(), data_type });
            columns.push(values);
        }
        out.push(Batch {
            columns,
            rows: batch.num_rows(),
            sizes: batch.columns().iter().map(|c| c.get_array_memory_size()).collect(),
        });
    }
    BatchIter { schema: Schema { fields }, batches: out }
}

fn read(csv: &str) -> Vec<RecordBatch> {
    let format = Format::default().with_header(true);
    let (schema, _) = format.infer_schema(Cursor::new(csv), Some(10_000)).unwrap();
    let reader = ReaderBuilder::new(Arc::new(schema))
        .with_format(format)
        .build(Cursor::new(csv))
        .unwrap();
    reader.map(|b| b.unwrap()).collect()
}

fn table(csv: &str) -> BatchIter {
    convert(&read(csv))
}

fn cfg(left: &str, right: &str) -> DiffConfig {
    DiffConfig {
        left: left.to_owned(),
        right: right.to_owned(),
        key: None,
        tol_abs: None,
        tol_rel: None,
        fail_fast: None,
        max_samples: 10,
        memory_mb: 256,
        keyless: false,
        assume_sorted: false,
        spill_dir: None,
        input_format: None,
    }
}

fn diff(c: &DiffConfig, left: &str, right: &str) -> Result<DiffReport, String> {
    run_diff(c, &table(left), &table(right)).map_err(|e| e.message())
}

fn rename_tables() -> (String, String) {
    let mut l = String::from("id,amount\n");
    let mut r = String::from("id,amt\n");
    for id in 1..=30 {
        l.push_str(&format!("{id},{}.5\n", id * 3));
        r.push_str(&format!("{id},{}.5\n", if id == 7 { 999 } else { id * 3 }));
    }
    (l, r)
}

#[test]
fn csv_basic_diff() {
    let report = diff(&cfg("left.csv", "right.csv"), LEFT, RIGHT).unwrap();
    assert_eq!(report.key.columns, vec!["id"]);
    assert!(report.key.inferred);
    assert_eq!(report.diff.added, 1);
    assert_eq!(report.diff.removed, 1);
    assert_eq!(report.diff.modified, 2);
    assert_eq!(report.schema.added.len(), 1); // email
    assert_eq!(report.schema.removed.len(), 1); // legacy
    assert_eq!(report.columns_changed.get("amount"), Some(1));
    assert_eq!(report.columns_changed.get("status"), Some(1));
    assert!(report.has_differences());
}

#[test]
fn float_tolerance_suppresses_noise() {
    let mut c = cfg("left.csv", "right.csv");
    c.tol_abs = Some(0.001f64.to_bits());
    let report = diff(&c, LEFT, RIGHT).unwrap();
    assert_eq!(report.diff.modified, 1); // only the status change remains
    assert_eq!(report.columns_changed.get("amount"), None);
}

#[test]
fn duplicate_key_is_an_error() {
    let dup = "id,v\n1,a\n1,b\n2,c\n";
    let mut c = cfg("dup.csv", "dup.csv");
    c.key = Some(vec!["id".into()]);
    let err = diff(&c, dup, dup).unwrap_err();
    assert!(err.contains("not unique"), "unexpected error: {err}");
    assert_eq!(
        err,
        "key (id) is not unique in dup.csv: e.g. id=1; pick a different --key or use --keyless"
    );
}

#[test]
fn identical_tables_have_no_differences() {
    let report = diff(&cfg("left.csv", "left.csv"), LEFT, LEFT).unwrap();
    assert!(!report.has_differences());
}

#[test]
fn fail_fast_truncates_scan() {
    let mut c = cfg("left.csv", "right.csv");
    c.fail_fast = Some(1);
    let report = diff(&c, LEFT, RIGHT).unwrap();
    assert!(report.truncated);
    assert_eq!(report.diff.added + report.diff.removed + report.diff.modified, 1);
}

/// Diffs ~60k-row tables with a zero memory budget, so every batch becomes a
/// run of its own and the runs are merged.
#[test]
fn spilling_produces_same_results_as_in_memory() {
    let mut l = String::from("id,val,tag\n");
    let mut r = String::from("id,val,tag\n");
    for id in 0..60_000u64 {
        l.push_str(&format!("{id},{},a\n", id * 2));
        if (100..110).contains(&id) {
            continue; // 10 rows removed on the right
        }
        let val = if id % 1000 == 0 { id * 2 + 1 } else { id * 2 }; // 60 modified
        r.push_str(&format!("{id},{val},a\n"));
    }
    for id in 60_000..60_005u64 {
        r.push_str(&format!("{id},{},a\n", id * 2)); // 5 rows added
    }
    let left = table(&l);
    let right = table(&r);
    assert!(left.batches.len() > 1);

    let mut expected = None;
    for memory_mb in [0, 256] {
        let mut c = cfg("big_left.csv", "big_right.csv");
        c.key = Some(vec!["id".into()]);
        c.max_samples = 3;
        c.memory_mb = memory_mb;
        let report = run_diff(&c, &left, &right).unwrap();
        assert_eq!(report.diff.added, 5, "memory_mb={memory_mb}");
        assert_eq!(report.diff.removed, 10, "memory_mb={memory_mb}");
        assert_eq!(report.diff.modified, 60, "memory_mb={memory_mb}");
        assert_eq!(report.rows.left, 60_000);
        assert_eq!(report.rows.right, 59_995);
        let text = report.render_human(false);
        assert_eq!(*expected.get_or_insert(text.clone()), text);
    }
}

// The event tables have no unique column: `10:00,A,21.5` appears twice on the
// left. Right side: one duplicate dropped, 21.6 edited to 21.7, one row added.
#[test]
fn keyless_multiset_diff() {
    let mut c = cfg("events_left.csv", "events_right.csv");
    c.keyless = true;
    let report = diff(&c, EVENTS_LEFT, EVENTS_RIGHT).unwrap();
    assert!(report.keyless);
    assert!(!report.key.inferred);
    assert_eq!(report.diff.added, 2); // edited row's new version + the new row
    assert_eq!(report.diff.removed, 2); // dropped duplicate + edited row's old version
    assert_eq!(report.diff.modified, 0);
}

#[test]
fn keyless_fallback_when_no_unique_key() {
    let report = diff(&cfg("events_left.csv", "events_right.csv"), EVENTS_LEFT, EVENTS_RIGHT).unwrap();
    assert!(report.keyless, "should fall back to keyless automatically");
    assert!(report.key.inferred, "fallback should be marked as automatic");
    assert_eq!(report.diff.added, 2);
    assert_eq!(report.diff.removed, 2);
}

#[test]
fn keyless_identical_files_with_duplicates() {
    let mut c = cfg("events_left.csv", "events_left.csv");
    c.keyless = true;
    let report = diff(&c, EVENTS_LEFT, EVENTS_LEFT).unwrap();
    assert!(!report.has_differences());
}

#[test]
fn keyless_rejects_tolerances() {
    let mut c = cfg("events_left.csv", "events_right.csv");
    c.keyless = true;
    c.tol_abs = Some(0.1f64.to_bits());
    let err = diff(&c, EVENTS_LEFT, EVENTS_RIGHT).unwrap_err();
    assert!(err.contains("not supported"), "unexpected error: {err}");
}

#[test]
fn assume_sorted_matches_normal_path() {
    // Both tables are written sorted by id.
    let mut c = cfg("left.csv", "right.csv");
    c.key = Some(vec!["id".into()]);
    c.assume_sorted = true;
    let report = diff(&c, LEFT, RIGHT).unwrap();
    assert_eq!(report.diff.added, 1);
    assert_eq!(report.diff.removed, 1);
    assert_eq!(report.diff.modified, 2);
    assert_eq!(report.rows.left, 5);
    assert_eq!(report.rows.right, 5);
    c.assume_sorted = false;
    let sorted = diff(&c, LEFT, RIGHT).unwrap();
    assert_eq!(report.render_human(true), sorted.render_human(true));
}

#[test]
fn assume_sorted_rejects_unsorted_input() {
    let unsorted = "id,v\n2,a\n1,b\n";
    let mut c = cfg("unsorted.csv", "unsorted.csv");
    c.key = Some(vec!["id".into()]);
    c.assume_sorted = true;
    let err = diff(&c, unsorted, unsorted).unwrap_err();
    assert!(err.contains("not sorted"), "unexpected error: {err}");
    assert_eq!(
        err,
        "unsorted.csv is not sorted by the key (row with id=1 arrived after id=2); drop --assume-sorted"
    );
}

/// An Int64 key on one side and a Float64 key on the other must still match
/// (unified encoding).
#[test]
fn cross_type_keys_unify() {
    let batches = read(RIGHT);
    let mut columns = batches[0].columns().to_vec();
    columns[0] = arrow::compute::cast(&columns[0], &arrow::datatypes::DataType::Float64).unwrap();
    let mut fields: Vec<arrow::datatypes::Field> =
        batches[0].schema().fields().iter().map(|f| f.as_ref().clone()).collect();
    fields[0] = fields[0].clone().with_data_type(arrow::datatypes::DataType::Float64);
    let schema = Arc::new(arrow::datatypes::Schema::new(fields));
    let right = convert(&[RecordBatch::try_new(schema, columns).unwrap()]);

    let mut c = cfg("left.csv", "right.parquet");
    c.key = Some(vec!["id".into()]);
    let report = run_diff(&c, &table(LEFT), &right).unwrap();
    // Same result as the plain diff: keys still line up.
    assert_eq!(report.diff.added, 1);
    assert_eq!(report.diff.removed, 1);
    assert_eq!(report.diff.modified, 2);
    assert_eq!(report.schema.type_changed.len(), 1); // id: Int64 -> Float64
}

/// `amount` is renamed to `amt` with identical values except one edited row
/// (id=7). Keyed detection must pair the columns and keep the column in the
/// row diff under the display name `amount→amt`.
#[test]
fn keyed_rename_detection() {
    let (l, r) = rename_tables();
    let report = diff(&cfg("rename_left.csv", "rename_right.csv"), &l, &r).unwrap();
    assert_eq!(report.schema.renamed.len(), 1);
    assert_eq!(report.schema.renamed[0].left, "amount");
    assert_eq!(report.schema.renamed[0].right, "amt");
    assert!(report.schema.added.is_empty());
    assert!(report.schema.removed.is_empty());
    assert_eq!(report.diff.modified, 1); // the id=7 edit
    assert_eq!(report.columns_changed.get("amount→amt"), Some(1));
    assert_eq!(f64::from_bits(report.schema.renamed[0].similarity), 29.0 / 30.0);
    assert!(report.render_human(false).contains("  ~ amount → amt (renamed, 97% content match)\n"));
}

#[test]
fn keyless_rename_detection_with_high_cardinality() {
    // `code` renamed to `token`, 30 distinct values, no unique key (dup rows).
    let mut l = String::from("code,grp\n");
    let mut r = String::from("token,grp\n");
    for i in 0..30 {
        for _ in 0..2 {
            l.push_str(&format!("c{i},g\n"));
            r.push_str(&format!("c{i},g\n"));
        }
    }
    let mut c = cfg("left.csv", "right.csv");
    c.keyless = true;
    let report = diff(&c, &l, &r).unwrap();
    assert_eq!(report.schema.renamed.len(), 1);
    assert_eq!(report.schema.renamed[0].left, "code");
    assert_eq!(report.schema.renamed[0].right, "token");
    // Renamed column hashes at an aligned position: rows still match.
    assert_eq!(report.diff.added, 0);
    assert_eq!(report.diff.removed, 0);
}

/// Low-cardinality columns must never be claimed as renames in keyless mode.
#[test]
fn keyless_rename_guard_low_cardinality() {
    let mut l = String::from("flag,v\n");
    let mut r = String::from("active,v\n");
    for i in 0..40 {
        l.push_str(&format!("{},x{}\n", i % 2 == 0, i));
        r.push_str(&format!("{},x{}\n", i % 2 == 0, i));
    }
    let mut c = cfg("left.csv", "right.csv");
    c.keyless = true;
    let report = diff(&c, &l, &r).unwrap();
    assert!(report.schema.renamed.is_empty(), "boolean columns must not pair");
    assert_eq!(report.schema.added.len(), 1);
    assert_eq!(report.schema.removed.len(), 1);
}

#[test]
fn explicit_composite_key() {
    let mut c = cfg("left.csv", "right.csv");
    c.key = Some(vec!["id".into(), "name".into()]);
    let report = diff(&c, LEFT, RIGHT).unwrap();
    assert!(!report.key.inferred);
    assert_eq!(report.diff.modified, 2);
}

#[test]
fn keyed_report_reads_as_documented() {
    let report = diff(&cfg("old.csv", "new.parquet"), LEFT, RIGHT).unwrap();
    assert!(report.printable());
    assert_eq!(
        report.render_human(false),
        "Schema\n  + email (Utf8)\n  - legacy (Utf8)\nKey: id (inferred)\nRows: 5 → 5\n  \
         + 1 added\n  - 1 removed\n  ~ 2 modified  (amount: 1, status: 1)\n\n\
         ~ id=2  amount: 20.5 → 20.50001\n~ id=3  status: \"closed\" → \"open\"\n+ id=6\n- id=5\n"
    );
}

#[test]
fn keyless_report_reads_as_documented() {
    let report = diff(&cfg("old_events.csv", "new_events.csv"), EVENTS_LEFT, EVENTS_RIGHT).unwrap();
    assert_eq!(
        report.render_human(false),
        "Schema\n  identical\nKey: none — keyless mode [auto: no unique key column found] \
         (rows matched by content; edits appear as - old / + new)\nRows: 4 → 4\n  + 2 added\n  \
         - 2 removed\n  ~ 0 modified\n\n\
         + ts=10:10, sensor=C, temp=18\n+ ts=10:05, sensor=A, temp=21.7\n\
         - ts=10:00, sensor=A, temp=21.5\n- ts=10:05, sensor=A, temp=21.6\n"
    );
}
