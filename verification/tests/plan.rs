use tabdiff::error::Error;
use tabdiff::input::{detect_format, input_format, named_format, Batch, BatchIter, FileFormat};
use tabdiff::plan::{exit_code, git_note};
use tabdiff::schema::{DataType, Field, Schema};
use tabdiff::value::{Array, Float};
use tabdiff::{run_diff, DiffConfig};

fn cfg() -> DiffConfig {
    DiffConfig {
        left: "l".to_owned(),
        right: "r".to_owned(),
        key: None,
        tol_abs: None,
        tol_rel: None,
        fail_fast: None,
        max_samples: 10,
        memory_mb: 256,
        keyless: false,
        assume_sorted: false,
        spill_dir: None,
        input_format: None,
    }
}

fn table(columns: Vec<(&str, Array)>) -> BatchIter {
    let rows = columns[0].1.len();
    let fields = columns
        .iter()
        .map(|(name, a)| Field { name: (*name).to_owned(), data_type: a.data_type() })
        .collect();
    let sizes = vec![64; columns.len()];
    let columns = columns.into_iter().map(|(_, a)| a).collect();
    BatchIter { schema: Schema { fields }, batches: vec![Batch { columns, rows, sizes }] }
}

fn ints(v: &[i64]) -> Array {
    Array::Int64(v.iter().map(|x| Some(*x)).collect())
}

fn floats(v: &[f64]) -> Array {
    Array::Float64(
        v.iter().map(|x| Some(Float { bits: x.to_bits(), text: format!("{x}") })).collect(),
    )
}

fn error(c: &DiffConfig, left: &BatchIter, right: &BatchIter) -> Error {
    run_diff(c, left, right).unwrap_err()
}

#[test]
fn refusals_come_with_their_reasons() {
    let t = table(vec![("id", ints(&[1, 2])), ("v", ints(&[3, 3]))]);
    let other = table(vec![("x", ints(&[1, 2]))]);
    let mut c = cfg();
    assert!(matches!(error(&c, &t, &other), Error::NoSharedColumns));
    assert_eq!(
        error(&c, &t, &other).message(),
        "tables share no columns; nothing to compare"
    );

    c.keyless = true;
    c.key = Some(vec!["id".to_owned()]);
    assert!(matches!(error(&c, &t, &t), Error::KeylessWithKey));
    assert_eq!(error(&c, &t, &t).message(), "--keyless and --key are mutually exclusive");
    c.key = None;
    c.tol_rel = Some(0.5f64.to_bits());
    assert!(matches!(error(&c, &t, &t), Error::KeylessWithTolerances));
    c.tol_rel = None;
    c.assume_sorted = true;
    assert!(matches!(error(&c, &t, &t), Error::KeylessAssumeSorted));
    c.keyless = false;
    assert!(matches!(error(&c, &t, &t), Error::AssumeSortedWithoutKey));
    assert_eq!(error(&c, &t, &t).message(), "--assume-sorted requires an explicit --key");

    let mut c = cfg();
    c.key = Some(vec!["id".to_owned(), "w".to_owned()]);
    assert_eq!(
        error(&c, &t, &t).message(),
        "key column `w` is not present in both tables (shared columns: id, v)"
    );
}

#[test]
fn no_key_and_tolerances_do_not_go_together() {
    let t = table(vec![("v", ints(&[3, 3]))]);
    let mut c = cfg();
    c.tol_abs = Some(0.5f64.to_bits());
    let err = error(&c, &t, &t);
    assert!(matches!(err, Error::NoKeyForTolerances));
    assert_eq!(
        err.full_message(),
        "key inference failed and keyless mode cannot honor float tolerances; pass --key or drop \
         --tol-abs/--tol-rel: could not infer a key column that is unique and non-null on both \
         sides; pass --key <column[,column]>"
    );
    c.tol_abs = None;
    assert!(run_diff(&c, &t, &t).unwrap().keyless);
}

#[test]
fn keys_are_inferred_by_name_first() {
    let t = table(vec![
        ("n", ints(&[1, 2])),
        ("order_id", ints(&[5, 6])),
        ("ID", ints(&[8, 9])),
    ]);
    assert_eq!(run_diff(&cfg(), &t, &t).unwrap().key.columns, vec!["ID"]);
    let t = table(vec![
        ("n", ints(&[1, 2])),
        ("order_id", ints(&[5, 6])),
        ("id", ints(&[8, 8])),
    ]);
    assert_eq!(run_diff(&cfg(), &t, &t).unwrap().key.columns, vec!["order_id"]);
    let t = table(vec![("a", Array::Int64(vec![Some(1), None])), ("b", ints(&[1, 2]))]);
    assert_eq!(run_diff(&cfg(), &t, &t).unwrap().key.columns, vec!["b"]);
}

#[test]
fn exit_codes_follow_convention() {
    let t = table(vec![("id", ints(&[1, 2]))]);
    let other = table(vec![("id", ints(&[1, 3]))]);
    assert_eq!(exit_code(&run_diff(&cfg(), &t, &t)), 0);
    assert_eq!(exit_code(&run_diff(&cfg(), &t, &other)), 1);
    assert_eq!(exit_code(&Err(Error::NoSharedColumns)), 2);
}

#[test]
fn git_files_that_are_not_there_are_noted() {
    assert_eq!(git_note("/dev/null", "b").unwrap(), "(new file)");
    assert_eq!(git_note("a", "nul").unwrap(), "(deleted file)");
    assert_eq!(git_note("nul", "/dev/null").unwrap(), "(new file)");
    assert!(git_note("a", "b").is_none());
}

#[test]
fn formats_follow_extensions() {
    assert_eq!(detect_format("csv").unwrap(), FileFormat::Csv);
    assert_eq!(detect_format("CSV").unwrap(), FileFormat::Csv);
    assert_eq!(detect_format("Parquet").unwrap(), FileFormat::Parquet);
    assert_eq!(detect_format("pq").unwrap(), FileFormat::Parquet);
    assert_eq!(
        detect_format("TXT").unwrap_err().message(),
        "unsupported file extension `txt` (expected .csv or .parquet)"
    );
    assert_eq!(named_format("csv").unwrap(), FileFormat::Csv);
    assert_eq!(named_format("parquet").unwrap(), FileFormat::Parquet);
    assert_eq!(
        named_format("x\"y").unwrap_err().message(),
        "input_format must be 'csv' or 'parquet', got \"x\\\"y\""
    );
    assert_eq!(input_format(Some(FileFormat::Csv), "parquet").unwrap(), FileFormat::Csv);
    assert_eq!(input_format(None, "parquet").unwrap(), FileFormat::Parquet);
    assert!(input_format(None, "").is_err());
}

#[test]
fn budgets_are_in_megabytes() {
    let mut c = cfg();
    assert_eq!(c.budget(), 256 << 20);
    c.memory_mb = usize::MAX;
    assert_eq!(c.budget(), usize::MAX);
}

#[test]
fn streams_are_projected_and_sampled_by_name() {
    let t = table(vec![("a", ints(&[1, 2, 3])), ("b", floats(&[0.5, 1.5, 2.5]))]);
    let p = t.project(&vec!["b".to_owned()]).unwrap();
    assert_eq!(p.schema.fields[0].name, "b");
    assert_eq!(p.batches[0].cells(1)[0].render(), "1.5");
    let s = t.sample(&vec!["b".to_owned(), "a".to_owned()], 2).unwrap();
    assert_eq!(s.rows.len(), 2);
    assert_eq!(s.rows[1][1].render(), "2");
    assert!(t.sample(&vec!["z".to_owned()], 2).is_err());
}
