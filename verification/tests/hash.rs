use arrow::array::{Array as ArrowArray, FixedSizeBinaryArray};
use tabdiff::hash::{add_hashes, row_hash, with_row_hash, write_cell, HASH_COL};
use tabdiff::input::Batch;
use tabdiff::schema::{DataType, Field, Schema};
use tabdiff::value::{Array, Cell, Float};
use twox_hash::XxHash3_128;

fn float(x: f64) -> Cell {
    Cell::Float(Float { bits: x.to_bits(), text: format!("{x}") })
}

fn str(s: &str) -> Cell {
    Cell::Str(s.to_owned())
}

fn bytes_of(cells: &[Cell]) -> Vec<u8> {
    let mut buf = vec![];
    for c in cells {
        write_cell(&mut buf, c);
    }
    buf
}

fn hash_of(cells: &[Cell]) -> u128 {
    let hash = row_hash(cells);
    assert_eq!(hash, XxHash3_128::oneshot(&bytes_of(cells)));
    hash
}

#[test]
fn integral_float_hashes_like_int() {
    assert_eq!(hash_of(&[Cell::Int(1)]), hash_of(&[float(1.0)]));
    assert_ne!(hash_of(&[Cell::Int(1)]), hash_of(&[float(1.5)]));
}

#[test]
fn negative_zero_folds_into_zero() {
    assert_eq!(hash_of(&[float(-0.0)]), hash_of(&[Cell::Int(0)]));
}

#[test]
fn int_and_string_hash_differently() {
    assert_ne!(hash_of(&[Cell::Int(1)]), hash_of(&[str("1")]));
}

#[test]
fn cell_boundaries_matter() {
    // ("ab", "c") must not collide with ("a", "bc")
    assert_ne!(hash_of(&[str("ab"), str("c")]), hash_of(&[str("a"), str("bc")]));
}

#[test]
fn hashing_follows_matching() {
    let exact = tabdiff::value::Comparator::default();
    let cells = [
        Cell::Null,
        Cell::Bool(false),
        Cell::Bool(true),
        Cell::Int(0),
        Cell::Int(1),
        Cell::Int(-7),
        float(0.0),
        float(-0.0),
        float(1.0),
        float(-7.0),
        float(0.5),
        float(f64::NAN),
        float(-f64::NAN),
        float(f64::INFINITY),
        float(1e300),
        str(""),
        str("1"),
    ];
    for a in &cells {
        for b in &cells {
            assert_eq!(exact.eq(a, b), bytes_of(&[copy(a)]) == bytes_of(&[copy(b)]), "{a:?} {b:?}");
        }
    }
}

fn copy(c: &Cell) -> Cell {
    match c {
        Cell::Null => Cell::Null,
        Cell::Bool(b) => Cell::Bool(*b),
        Cell::Int(i) => Cell::Int(*i),
        Cell::Float(f) => Cell::Float(f.clone()),
        Cell::Str(s) => Cell::Str(s.clone()),
    }
}

fn schema(names: &[&str]) -> Schema {
    let fields = names
        .iter()
        .map(|n| Field { name: (*n).to_owned(), data_type: DataType::Int64 })
        .collect();
    Schema { fields }
}

#[test]
fn appends_the_hash_of_the_named_columns() {
    let hasher = with_row_hash(&schema(&["a", "b"]), &vec!["b".to_owned()]).unwrap();
    let batch = Batch {
        columns: vec![Array::Int64(vec![Some(1), Some(2)]), Array::Int64(vec![Some(3), None])],
        rows: 2,
        sizes: vec![16, 16],
    };
    let hashed = hasher.append_hash(batch);
    assert_eq!(hashed.columns.len(), 3);
    assert_eq!(hashed.sizes[..2], [16, 16]);
    let column = FixedSizeBinaryArray::try_new(16, vec![0u8; 32].into(), None).unwrap();
    assert_eq!(hashed.sizes[2], column.get_array_memory_size());
    assert_eq!(hashed.memory(), 32 + column.get_array_memory_size() as u128);
    match &hashed.columns[2] {
        Array::RowHash(h) => {
            assert_eq!(*h, vec![hash_of(&[Cell::Int(3)]), hash_of(&[Cell::Null])])
        }
        other => panic!("{other:?}"),
    }
}

#[test]
fn hashes_come_behind_the_other_columns() {
    let batch =
        Batch { columns: vec![Array::Int64(vec![Some(1), Some(2)])], rows: 2, sizes: vec![16] };
    let hashed = add_hashes(batch, vec![7, 8], 48);
    assert_eq!(hashed.sizes, vec![16, 48]);
    assert_eq!(hashed.memory(), 64);
    assert_eq!(hashed.columns[1].len(), 2);
}

#[test]
fn refuses_a_taken_hash_column() {
    let err = with_row_hash(&schema(&["a", HASH_COL]), &vec!["a".to_owned()]).unwrap_err();
    assert_eq!(err.message(), "input already contains a `__tabdiff_row_hash` column");
    let err = with_row_hash(&schema(&["a"]), &vec!["z".to_owned()]).unwrap_err();
    assert_eq!(err.message(), "column `z` missing");
}
