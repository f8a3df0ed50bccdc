use tabdiff::input::{Batch, BatchIter};
use tabdiff::rename::{apply, Candidate};
use tabdiff::report::DiffReport;
use tabdiff::schema::{DataType, Field, Schema};
use tabdiff::schema_diff::{diff_schemas, ColumnDesc, SchemaDiff};
use tabdiff::value::Array;
use tabdiff::{run_diff, DiffConfig};

fn cfg() -> DiffConfig {
    DiffConfig {
        left: "l".to_owned(),
        right: "r".to_owned(),
        key: None,
        tol_abs: None,
        tol_rel: None,
        fail_fast: None,
        max_samples: 10,
        memory_mb: 256,
        keyless: false,
        assume_sorted: false,
        spill_dir: None,
        input_format: None,
    }
}

fn ints(v: &[i64]) -> Array {
    Array::Int64(v.iter().map(|x| Some(*x)).collect())
}

fn table(columns: &[(&str, &[i64])]) -> BatchIter {
    let fields = columns
        .iter()
        .map(|(name, _)| Field { name: (*name).to_owned(), data_type: DataType::Int64 })
        .collect();
    let rows = columns[0].1.len();
    let sizes = vec![8 * rows; columns.len()];
    let columns = columns.iter().map(|(_, v)| ints(v)).collect();
    BatchIter { schema: Schema { fields }, batches: vec![Batch { columns, rows, sizes }] }
}

fn counts(r: &DiffReport) -> (usize, usize, usize) {
    (r.diff.added, r.diff.removed, r.diff.modified)
}

fn run(c: &DiffConfig, l: &BatchIter, r: &BatchIter) -> DiffReport {
    run_diff(c, l, r).unwrap()
}

#[test]
fn swapping_sides_swaps_added_and_removed() {
    let a = table(&[("id", &[1, 2, 3, 4]), ("v", &[1, 1, 1, 1])]);
    let b = table(&[("id", &[9, 3, 2]), ("v", &[1, 1, 7])]);
    assert_eq!(counts(&run(&cfg(), &a, &b)), (1, 2, 1));
    assert_eq!(counts(&run(&cfg(), &b, &a)), (2, 1, 1));
    let mut c = cfg();
    c.keyless = true;
    assert_eq!(counts(&run(&c, &a, &b)), (2, 3, 0));
    assert_eq!(counts(&run(&c, &b, &a)), (3, 2, 0));
}

#[test]
fn row_and_column_order_do_not_matter() {
    let left = table(&[("id", &[1, 2, 3]), ("v", &[10, 20, 30])]);
    let right = table(&[("id", &[1, 2, 4]), ("v", &[10, 21, 40])]);
    let shuffled = table(&[("id", &[4, 1, 2]), ("v", &[40, 10, 21])]);
    let reordered = table(&[("v", &[10, 21, 40]), ("id", &[1, 2, 4])]);
    for keyless in [false, true] {
        let mut c = cfg();
        c.keyless = keyless;
        let expected = run(&c, &left, &right).render_human(false);
        assert_eq!(run(&c, &left, &shuffled).render_human(false), expected);
        assert_eq!(run(&c, &left, &reordered).render_human(false), expected);
    }
}

#[test]
fn a_table_does_not_differ_from_itself() {
    let t = table(&[("id", &[3, 1, 2]), ("v", &[1, 1, 1])]);
    let dup = table(&[("v", &[1, 1, 2])]);
    for fail_fast in [None, Some(0), Some(1)] {
        for memory_mb in [0, 256] {
            let mut c = cfg();
            c.fail_fast = fail_fast;
            c.memory_mb = memory_mb;
            assert!(!run(&c, &t, &t).has_differences());
            assert!(!run(&c, &dup, &dup).has_differences());
        }
    }
}

#[test]
fn limits_give_lower_bounds() {
    let left = table(&[("id", &[1, 2, 3, 4]), ("v", &[0, 0, 0, 0])]);
    let right = table(&[("id", &[2, 3, 5, 6]), ("v", &[1, 0, 0, 0])]);
    let all = run(&cfg(), &left, &right);
    assert_eq!(counts(&all), (2, 2, 1));
    assert!(!all.truncated);
    for limit in 0..8 {
        let mut c = cfg();
        c.fail_fast = Some(limit);
        let r = run(&c, &left, &right);
        let (a, d, m) = counts(&r);
        assert_eq!(a + d + m, limit.min(5));
        assert_eq!(r.truncated, limit <= 5);
        assert!(a <= 2 && d <= 2 && m <= 1);
    }
}

#[test]
fn surplus_is_the_multiset_difference() {
    let left = table(&[("v", &[1, 1, 1, 2, 3])]);
    let right = table(&[("v", &[1, 2, 2, 2, 4])]);
    let r = run(&cfg(), &left, &right);
    assert!(r.keyless && r.key.inferred);
    assert_eq!(counts(&r), (3, 3, 0));
    let mut shown: Vec<(String, usize)> =
        r.samples.removed.iter().map(|s| (s.row[0].value.clone(), s.count)).collect();
    shown.sort();
    assert_eq!(shown, vec![("1".to_owned(), 2), ("3".to_owned(), 1)]);
    assert_eq!(r.rows.left + r.diff.added, r.rows.right + r.diff.removed);
    let mut c = cfg();
    c.fail_fast = Some(1);
    assert!(run(&c, &left, &right).truncated);
}

#[test]
fn schema_differences_swap_and_vanish() {
    let a = table(&[("x", &[1]), ("y", &[1])]).schema;
    let b = table(&[("y", &[1]), ("z", &[1])]).schema;
    let d = diff_schemas(&a, &b);
    let e = diff_schemas(&b, &a);
    assert_eq!(d.added[0].name, "z");
    assert_eq!(d.removed[0].name, "x");
    assert_eq!(e.added[0].name, "x");
    assert_eq!(e.removed[0].name, "z");
    assert_eq!(d.mutual, vec!["y"]);
    assert!(diff_schemas(&a, &a).is_empty());
}

fn candidate(left: &str, right: &str, similarity: f64) -> Candidate {
    Candidate {
        left: left.to_owned(),
        right: right.to_owned(),
        similarity: similarity.to_bits(),
    }
}

fn described(names: &[&str]) -> Vec<ColumnDesc> {
    names
        .iter()
        .map(|n| ColumnDesc { name: (*n).to_owned(), data_type: "Utf8".to_owned() })
        .collect()
}

#[test]
fn each_column_takes_part_in_one_rename() {
    let schema = SchemaDiff {
        added: described(&["p", "q"]),
        removed: described(&["a", "b", "c"]),
        type_changed: vec![],
        renamed: vec![],
        mutual: vec!["id".to_owned()],
    };
    let d = apply(
        schema,
        vec![
            candidate("a", "p", 0.95),
            candidate("a", "q", 0.99),
            candidate("b", "p", 0.96),
            candidate("b", "q", 0.97),
        ],
    );
    let pairs: Vec<(&str, &str)> =
        d.renamed.iter().map(|r| (r.left.as_str(), r.right.as_str())).collect();
    assert_eq!(pairs, vec![("a", "q"), ("b", "p")]);
    assert!(d.added.is_empty());
    assert_eq!(d.removed.len(), 1);
    assert_eq!(d.removed[0].name, "c");
    assert_eq!(d.left_columns(), vec!["id", "a", "b"]);
    assert_eq!(d.right_columns(), vec!["id", "q", "p"]);
}

#[test]
fn samples_are_shown_up_to_the_number_asked_for() {
    let left = table(&[("id", &[1, 2, 3, 4])]);
    let right = table(&[("id", &[5])]);
    let mut c = cfg();
    c.key = Some(vec!["id".to_owned()]);
    c.max_samples = 2;
    let r = run(&c, &left, &right);
    assert_eq!((r.samples.removed.len(), r.samples.added.len()), (2, 1));
    assert_eq!(counts(&r), (1, 4, 0));
}

#[test]
fn counts_are_bounded_and_reports_printable() {
    let ids: Vec<i64> = (0..30).collect();
    let mut values: Vec<i64> = (100..130).collect();
    let a = table(&[("id", &ids), ("old", &values)]);
    values[7] = 1;
    let b = table(&[("id", &ids), ("new", &values)]);
    let r = run(&cfg(), &a, &b);
    assert_eq!(counts(&r), (0, 0, 1));
    assert_eq!(f64::from_bits(r.schema.renamed[0].similarity), 29.0 / 30.0);
    assert!(r.printable());

    let mut c = cfg();
    c.keyless = true;
    let r = run(&c, &table(&[("v", &[5, 5, 5, 6])]), &table(&[("v", &[5, 7])]));
    assert_eq!(counts(&r), (1, 3, 0));
    assert_eq!(r.samples.removed.iter().map(|s| s.count).sum::<usize>(), 3);
    assert!(r.printable());
}

#[test]
fn order_does_not_matter_beside_the_same_renames() {
    let ids: Vec<i64> = (0..30).collect();
    let values: Vec<i64> = (100..130).collect();
    let mut edited = values.clone();
    edited[7] = 1;
    let one = vec![1; 30];
    let left = table(&[("id", &ids), ("old", &values), ("gone", &one)]);
    let right = table(&[("id", &ids), ("x", &one), ("new", &edited), ("y", &ids)]);
    let back = |v: &[i64]| v.iter().rev().copied().collect::<Vec<i64>>();
    let (ids, edited) = (back(&ids), back(&edited));
    let other = table(&[("y", &ids), ("new", &edited), ("x", &one), ("id", &ids)]);
    let mut c = cfg();
    c.key = Some(vec!["id".to_owned()]);
    let (a, b) = (run(&c, &left, &right), run(&c, &left, &other));
    let pairs = |r: &DiffReport| {
        r.schema.renamed.iter().map(|r| (r.left.clone(), r.right.clone())).collect::<Vec<_>>()
    };
    let found = [("gone", "x"), ("old", "new")].map(|(l, r)| (l.to_owned(), r.to_owned()));
    assert_eq!(pairs(&a), found);
    assert_eq!(pairs(&b), found);
    assert_eq!(counts(&a), (0, 0, 1));
    assert_eq!(counts(&b), (0, 0, 1));
    assert_eq!(a.samples.modified[0].changes[0].column, "old→new");
    assert_eq!(b.samples.modified[0].changes[0].column, "old→new");
}

#[test]
fn similarities_are_ranked_in_the_order_of_numbers() {
    let schema = SchemaDiff {
        added: described(&["p"]),
        removed: described(&["a", "b", "c"]),
        type_changed: vec![],
        renamed: vec![],
        mutual: vec!["id".to_owned()],
    };
    let d = apply(
        schema,
        vec![candidate("a", "p", -0.5), candidate("b", "p", 0.9), candidate("c", "p", 0.9)],
    );
    assert_eq!(d.renamed.len(), 1);
    assert_eq!(d.renamed[0].left, "b");
    assert_eq!(d.removed.iter().map(|c| c.name.as_str()).collect::<Vec<_>>(), vec!["a", "c"]);
}

#[test]
fn keyless_goes_with_no_key_at_all() {
    let t = table(&[("id", &[1])]);
    for key in [vec![], vec!["id".to_owned()]] {
        let mut c = cfg();
        c.keyless = true;
        c.key = Some(key);
        c.tol_abs = Some(0);
        assert_eq!(run_diff(&c, &t, &t).unwrap_err().message(), "--keyless and --key are mutually exclusive");
    }
}

#[test]
fn nothing_is_reported_of_a_table_and_itself() {
    let t = table(&[("id", &[3, 1, 2]), ("v", &[1, 1, 1]), ("v", &[5, 6, 7])]);
    let dup = table(&[("v", &[1, 1, 2])]);
    for (t, assume_sorted) in [(&t, false), (&dup, false), (&table(&[("id", &[1, 2])]), true)] {
        for fail_fast in [None, Some(0)] {
            let mut c = cfg();
            c.fail_fast = fail_fast;
            c.assume_sorted = assume_sorted;
            if assume_sorted {
                c.key = Some(vec!["id".to_owned()]);
            }
            let r = run(&c, t, t);
            assert_eq!(counts(&r), (0, 0, 0));
            assert!(r.schema.is_empty() && r.columns_changed.entries.is_empty());
            assert!(r.samples.added.is_empty() && r.samples.removed.is_empty());
            assert!(r.samples.modified.is_empty());
            assert_eq!(r.rows.left, r.rows.right);
        }
    }
}

#[test]
fn order_shows_only_in_the_added_columns() {
    let mut c = cfg();
    c.key = Some(vec!["id".to_owned()]);
    let left = table(&[("id", &[1, 2, 3]), ("v", &[10, 20, 30])]);
    let moved = table(&[("id", &[3, 1, 2]), ("v", &[30, 10, 20])]);
    let right = table(&[("id", &[1, 2, 4]), ("v", &[10, 21, 40]), ("x", &[0, 0, 0]), ("y", &[1, 1, 1])]);
    let other = table(&[("y", &[1, 1, 1]), ("v", &[40, 10, 21]), ("x", &[0, 0, 0]), ("id", &[4, 1, 2])]);
    let (a, b) = (run(&c, &left, &right), run(&c, &moved, &other));
    let names = |r: &DiffReport| r.schema.added.iter().map(|d| d.name.clone()).collect::<Vec<_>>();
    assert_eq!((names(&a), names(&b)), (vec!["x".into(), "y".into()], vec!["y".into(), "x".into()]));
    let lines = |r: &DiffReport| {
        let text = r.render_human(false);
        text.lines().filter(|l| !l.starts_with("  + ")).map(str::to_owned).collect::<Vec<_>>()
    };
    assert_eq!(lines(&a), lines(&b));
    assert_eq!(counts(&a), (1, 1, 1));
    assert_eq!(counts(&b), (1, 1, 1));
}

#[test]
fn color_only_adds_codes() {
    let left = table(&[("id", &[1, 2, 3]), ("v", &[10, 20, 30]), ("old", &[1, 1, 1])]);
    let right = table(&[("id", &[1, 2, 4]), ("v", &[10, 21, 40]), ("new", &[0, 0, 0])]);
    let mut c = cfg();
    c.fail_fast = Some(3);
    let r = run(&c, &left, &right);
    let mut text = r.render_human(true);
    assert!(text.contains("\x1b[32m"));
    for code in ["\x1b[32m", "\x1b[31m", "\x1b[33m", "\x1b[1m", "\x1b[0m"] {
        text = text.replace(code, "");
    }
    assert_eq!(text, r.render_human(false));
    assert!(!text.contains('\x1b'));
}

#[test]
fn column_order_of_either_side_does_not_change_counts() {
    let mut c = cfg();
    c.key = Some(vec!["id".to_owned()]);
    let left = table(&[("id", &[1, 2, 3]), ("v", &[10, 20, 30]), ("w", &[7, 7, 7])]);
    let moved = table(&[("w", &[7, 7, 7]), ("v", &[30, 10, 20]), ("id", &[3, 1, 2])]);
    let right = table(&[("v", &[10, 21, 40]), ("id", &[1, 2, 4]), ("w", &[8, 7, 7])]);
    for r in [run(&c, &left, &right), run(&c, &moved, &right)] {
        assert_eq!(counts(&r), (1, 1, 2));
        assert_eq!((r.rows.left, r.rows.right), (3, 3));
    }
}
