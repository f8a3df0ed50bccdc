use tabdiff::error::Error;
use tabdiff::infer::{extract_keys, infer_key, key_is_unique, validate_key};
use tabdiff::input::Table;
use tabdiff::rename::detect_renames;
use tabdiff::schema::{DataType, Field, Schema};
use tabdiff::schema_diff::{diff_schemas, SchemaDiff};
use tabdiff::value::Cell;

fn table(names: &[&str], rows: Vec<Vec<Cell>>) -> Table {
    let fields = names
        .iter()
        .map(|n| Field { name: (*n).to_owned(), data_type: DataType::Int64 })
        .collect();
    Table { schema: Schema { fields }, rows }
}

fn names(v: &[&str]) -> Vec<String> {
    v.iter().map(|s| (*s).to_owned()).collect()
}

#[test]
fn keys_must_be_unique_and_not_null() {
    let int = Cell::Int;
    let t = table(
        &["a", "b", "c"],
        vec![
            vec![int(1), int(1), int(1)],
            vec![int(2), int(1), Cell::Null],
            vec![int(3), int(2), int(3)],
        ],
    );
    assert!(key_is_unique(&t, &names(&["a"])).unwrap());
    assert!(!key_is_unique(&t, &names(&["b"])).unwrap());
    assert!(!key_is_unique(&t, &names(&["c"])).unwrap());
    assert!(key_is_unique(&t, &names(&["b", "a"])).unwrap());
    assert_eq!(
        key_is_unique(&t, &names(&["z"])).unwrap_err().message(),
        "column `z` missing"
    );
    let keys = extract_keys(&t, &names(&["b", "a"])).unwrap();
    assert_eq!(keys[1], vec![int(1), int(2)]);
}

#[test]
fn inference_needs_one_unique_column_on_both_sides() {
    let l = table(&["a", "b"], vec![vec![Cell::Int(1), Cell::Int(1)], vec![Cell::Int(2), Cell::Int(1)]]);
    let r = table(&["a", "b"], vec![vec![Cell::Int(1), Cell::Int(1)], vec![Cell::Int(1), Cell::Int(2)]]);
    assert_eq!(infer_key(&l, &l, &names(&["a", "b"])).unwrap(), vec!["a"]);
    let err = infer_key(&l, &r, &names(&["a", "b"])).unwrap_err();
    assert!(matches!(err, Error::NoKeyFound));
    assert_eq!(
        err.message(),
        "could not infer a key column that is unique and non-null on both sides; \
         pass --key <column[,column]>"
    );
}

#[test]
fn given_keys_must_be_shared() {
    let l = table(&["a", "b"], vec![]);
    let r = table(&["b", "c"], vec![]);
    let schema = diff_schemas(&l.schema, &r.schema);
    assert!(validate_key(&names(&["b"]), &schema).is_ok());
    assert_eq!(
        validate_key(&names(&["b", "c"]), &schema).unwrap_err().message(),
        "key column `c` is not present in both tables (shared columns: b)"
    );
}

/// A key and one other column, which differs in the first `edits` rows.
fn keyed(name: &str, rows: i64, edits: i64) -> Table {
    table(
        &["id", name],
        (0..rows)
            .map(|i| vec![Cell::Int(i), Cell::Int(if i < edits { -1 } else { i * 10 })])
            .collect(),
    )
}

fn renamed(l: &Table, r: &Table, key: Option<&Vec<String>>) -> SchemaDiff {
    detect_renames(diff_schemas(&l.schema, &r.schema), l, r, key)
}

#[test]
fn keyed_renames_need_enough_agreeing_rows() {
    let key = names(&["id"]);
    let d = renamed(&keyed("x", 20, 0), &keyed("y", 20, 1), Some(&key));
    assert_eq!(d.renamed.len(), 1);
    assert_eq!(f64::from_bits(d.renamed[0].similarity), 0.95);
    assert!(d.added.is_empty() && d.removed.is_empty());
    let d = renamed(&keyed("x", 20, 0), &keyed("y", 20, 2), Some(&key));
    assert!(d.renamed.is_empty());
    assert_eq!((d.added.len(), d.removed.len()), (1, 1));
    let d = renamed(&keyed("x", 19, 0), &keyed("y", 19, 0), Some(&key));
    assert!(d.renamed.is_empty());
}

/// One column with the values from `from` to `to`.
fn range(name: &str, from: i64, to: i64) -> Table {
    table(&[name], (from..to).map(|i| vec![Cell::Int(i)]).collect())
}

#[test]
fn keyless_renames_need_enough_shared_values() {
    let d = renamed(&range("x", 0, 8), &range("y", 0, 8), None);
    assert_eq!(d.renamed.len(), 1);
    assert_eq!(f64::from_bits(d.renamed[0].similarity), 1.0);
    assert!(renamed(&range("x", 0, 7), &range("y", 0, 7), None).renamed.is_empty());
    // 17 of 20 values are shared: just enough.
    let d = renamed(&range("x", 0, 20), &range("y", 0, 17), None);
    assert_eq!(f64::from_bits(d.renamed[0].similarity), 0.85);
    assert!(renamed(&range("x", 0, 20), &range("y", 0, 16), None).renamed.is_empty());
}
