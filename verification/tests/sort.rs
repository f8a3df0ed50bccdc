use tabdiff::input::{Batch, BatchIter};
use tabdiff::key::KeyColumn;
use tabdiff::merge::{open_side, KWayMerge, RunCursor, SortedSource};
use tabdiff::schema::{DataType, Field, Schema};
use tabdiff::sort::{sort_into_runs, unify, KeyCodec, KeySpec, Row, RunBuilder, RunSource, SpillDir};
use tabdiff::value::{Array, Cell, Float, OtherArray, Single};

fn assert_unified(l: DataType, r: DataType, expected: DataType) {
    assert!(unify(&l, &r).same(&expected), "{l:?} {r:?}");
    assert!(unify(&r, &l).same(&expected), "{r:?} {l:?}");
}

#[test]
fn unify_keeps_identical_types() {
    assert_unified(DataType::Int64, DataType::Int64, DataType::Int64);
    assert_unified(DataType::Utf8, DataType::Utf8, DataType::Utf8);
}

#[test]
fn unify_widens_numeric_pairs() {
    assert_unified(DataType::Int64, DataType::Float64, DataType::Float64);
    assert_unified(DataType::UInt32, DataType::Int16, DataType::Float64);
}

#[test]
fn unify_falls_back_to_utf8() {
    assert_unified(DataType::Int64, DataType::Utf8, DataType::Utf8);
    assert_unified(DataType::Date32, DataType::Utf8, DataType::Utf8);
}

#[test]
fn unify_looks_through_dictionaries() {
    let dict = DataType::Dictionary(Box::new(DataType::Int32), Box::new(DataType::Utf8));
    assert_unified(dict, DataType::Utf8, DataType::Utf8);
    let dict = DataType::Dictionary(Box::new(DataType::Int32), Box::new(DataType::Int64));
    assert_unified(dict, DataType::Float32, DataType::Float64);
}

fn schema(fields: Vec<(&str, DataType)>) -> Schema {
    let fields = fields
        .into_iter()
        .map(|(name, data_type)| Field { name: name.to_owned(), data_type })
        .collect();
    Schema { fields }
}

fn one_column(values: Array) -> Batch {
    let rows = values.len();
    Batch { columns: vec![values], rows, sizes: vec![rows * 8] }
}

fn codecs(left: &Array, right: &Array) -> (KeyCodec, KeyCodec) {
    let l = schema(vec![("k", left.data_type())]);
    let r = schema(vec![("k", right.data_type())]);
    let spec = KeySpec::new(&vec!["k".to_owned()], &l, &r).unwrap();
    (spec.codec(&l).unwrap(), spec.codec(&r).unwrap())
}

/// Encodes two columns under their unified type.
fn encoded(left: Array, right: Array) -> (Vec<Vec<u8>>, Vec<Vec<u8>>) {
    let (l, r) = codecs(&left, &right);
    (l.encode(&one_column(left)), r.encode(&one_column(right)))
}

fn doubles(values: &[f64]) -> Array {
    Array::Float64(
        values.iter().map(|x| Some(Float { bits: x.to_bits(), text: format!("{x}") })).collect(),
    )
}

fn texts(values: &[&str]) -> Array {
    Array::Utf8(values.iter().map(|s| Some((*s).to_owned())).collect())
}

#[test]
fn keys_compare_as_their_values() {
    let ints = Array::Int64(vec![None, Some(i64::MIN), Some(-1), Some(0), Some(1), Some(i64::MAX)]);
    let (a, b) = encoded(ints.clone(), ints);
    let unsigned = Array::UInt64(vec![None, Some(0), Some(1), Some(u64::MAX)]);
    let (c, d) = encoded(unsigned.clone(), unsigned);
    let floats = doubles(&[f64::NEG_INFINITY, -1.5, -0.0, 0.0, 5e-324, 1.0, f64::INFINITY, f64::NAN]);
    let (e, f) = encoded(floats.clone(), floats);
    let strings = texts(&["", "a", "a\u{0}", "ab", "b", "é"]);
    let (g, h) = encoded(strings.clone(), strings);
    for (l, r) in [(a, b), (c, d), (e, f), (g, h)] {
        for i in 0..l.len() {
            for j in 0..r.len() {
                assert_eq!(l[i].cmp(&r[j]), i.cmp(&j), "{i} {j}");
            }
        }
    }
}

#[test]
fn integer_keys_match_floats() {
    let (l, r) = encoded(
        Array::Int64(vec![Some(1), Some(-7), Some(1 << 53), None]),
        doubles(&[1.0, -7.0, 9007199254740992.0, 1.5]),
    );
    assert_eq!(l[0], r[0]);
    assert_eq!(l[1], r[1]);
    assert_eq!(l[2], r[2]);
    assert_ne!(l[0], r[3]);
    assert!(l[3] < r[1]);
}

#[test]
fn integer_keys_match_text() {
    let (l, r) = encoded(Array::Int32(vec![Some(10), Some(-3), Some(0)]), texts(&["10", "-3", "00"]));
    assert_eq!(l[0], r[0]);
    assert_eq!(l[1], r[1]);
    assert_ne!(l[2], r[2]);
}

#[test]
fn float_keys_meet_text_as_they_are_cast() {
    let (l, r) = encoded(doubles(&[1.5, 2.0, 1e21]), texts(&["1.5", "2.0", "1e21"]));
    assert_eq!(l, r);
    let singles = Array::Float32(vec![
        Some(Single { bits: 0.1f32.to_bits(), text: "0.1".to_owned() }),
        Some(Single { bits: 3.0f32.to_bits(), text: "3".to_owned() }),
    ]);
    let (l, r) = encoded(singles, texts(&["0.1", "3.0"]));
    assert_eq!(l, r);
}

#[test]
fn other_types_meet_text_at_their_text() {
    let uuid = Array::Other(OtherArray {
        data_type: DataType::Binary,
        shown: vec![Some("6162".to_owned())],
        text: vec![Some("ab".to_owned())],
        wide: vec![None],
        native: KeyColumn::Bytes(vec![Some(b"ab".to_vec())]),
    });
    let (l, r) = encoded(uuid, texts(&["ab", "6162"]));
    assert_eq!(l[0], r[0]);
    assert_ne!(l[0], r[1]);
}

#[test]
fn missing_key_columns_are_named() {
    let l = schema(vec![("a", DataType::Int64)]);
    let r = schema(vec![("b", DataType::Int64)]);
    let err = KeySpec::new(&vec!["a".to_owned()], &l, &r).unwrap_err();
    assert_eq!(err.message(), "column `a` missing");
}

fn stream(batches: &[&[i64]]) -> BatchIter {
    BatchIter {
        schema: schema(vec![("k", DataType::Int64)]),
        batches: batches
            .iter()
            .map(|v| one_column(Array::Int64(v.iter().map(|x| Some(*x)).collect())))
            .collect(),
    }
}

fn codec() -> KeyCodec {
    let s = schema(vec![("k", DataType::Int64)]);
    KeySpec::new(&vec!["k".to_owned()], &s, &s).unwrap().codec(&s).unwrap()
}

fn key(row: &Row) -> i64 {
    match &row.cells[0] {
        Cell::Int(i) => *i,
        other => panic!("{other:?}"),
    }
}

fn drain(source: &mut SortedSource) -> Vec<i64> {
    let mut keys = vec![];
    while let Some(row) = source.peek() {
        keys.push(key(row));
        source.advance_group().unwrap();
    }
    keys
}

/// The name and the keys of a run that goes to a file.
fn file(run: &RunSource) -> (&str, Vec<i64>) {
    match run {
        RunSource::File { name, chunks } => (name, chunks.iter().flatten().map(key).collect()),
        other => panic!("{other:?}"),
    }
}

#[test]
fn batches_without_rows_are_runs_too() {
    let src = stream(&[&[2, 1], &[]]);
    let mut spill = SpillDir::new(None);
    let (runs, _) = sort_into_runs(&src, &codec(), 1, &mut spill);
    let spilled: Vec<(&str, Vec<i64>)> = runs.iter().map(file).collect();
    assert_eq!(spilled, vec![("run-1.arrow", vec![1, 2]), ("run-2.arrow", vec![])]);
    let (runs, total) = sort_into_runs(&stream(&[]), &codec(), 0, &mut spill);
    assert!(matches!(&runs[..], [RunSource::Memory(chunks)] if chunks.is_empty()));
    assert_eq!((total, spill.counter), (0, 2));
}

#[test]
fn a_projection_takes_the_memory_of_its_columns() {
    let batch = Batch {
        columns: vec![Array::Int64(vec![Some(1)]), Array::Int64(vec![Some(2)])],
        rows: 1,
        sizes: vec![100, 7],
    };
    assert_eq!(batch.memory(), 107);
    let projected = batch.project(&vec![1]);
    assert_eq!(projected.sizes, vec![7]);
    assert_eq!(projected.memory(), 7);
}

#[test]
fn runs_are_cut_by_the_budget() {
    let src = stream(&[&[3, 1], &[2, 5], &[4]]);
    let mut spill = SpillDir::new(None);
    let (runs, total) = sort_into_runs(&src, &codec(), 0, &mut spill);
    assert_eq!((runs.len(), total, spill.counter), (3, 5, 3));
    let (runs, total) = sort_into_runs(&src, &codec(), 32, &mut spill);
    assert_eq!((runs.len(), total, spill.counter), (2, 5, 5));
    let spilled: Vec<(&str, Vec<i64>)> = runs.iter().map(file).collect();
    assert_eq!(spilled, vec![("run-4.arrow", vec![1, 2, 3, 5]), ("run-5.arrow", vec![4])]);
    let (runs, total) = sort_into_runs(&src, &codec(), 1000, &mut spill);
    assert_eq!((runs.len(), total, spill.counter), (1, 5, 5));
    match &runs[0] {
        RunSource::Memory(chunks) => {
            assert_eq!(chunks.iter().flatten().map(key).collect::<Vec<_>>(), vec![1, 2, 3, 4, 5])
        }
        other => panic!("{other:?}"),
    }
}

#[test]
fn sides_come_sorted_whatever_the_budget() {
    let src = stream(&[&[9, 4], &[], &[7, 1, 8], &[2]]);
    for budget in [0, 20, 1 << 20] {
        let mut side = open_side(&src, codec(), "t".to_owned(), false, budget, &mut SpillDir::new(None));
        assert_eq!(side.total_rows(), 6);
        assert_eq!(drain(&mut side), vec![1, 2, 4, 7, 8, 9]);
    }
}

#[test]
fn sorted_sides_are_streamed_and_verified() {
    let mut side = open_side(&stream(&[&[1, 2], &[5]]), codec(), "t".to_owned(), true, 0, &mut SpillDir::new(None));
    assert_eq!(drain(&mut side), vec![1, 2, 5]);
    assert_eq!(side.total_rows(), 3);
    let mut side = open_side(&stream(&[&[1, 5], &[2]]), codec(), "t".to_owned(), true, 0, &mut SpillDir::new(None));
    side.advance().unwrap();
    let err = side.advance().unwrap_err();
    assert_eq!(
        err.message(),
        "t is not sorted by the key (row with k=2 arrived after k=5); drop --assume-sorted"
    );
}

#[test]
fn groups_are_counted_and_repeated_keys_refused() {
    let mut side = open_side(&stream(&[&[3, 1, 3], &[3]]), codec(), "t".to_owned(), false, 0, &mut SpillDir::new(None));
    assert_eq!(side.advance_group().unwrap(), 1);
    let err = side.advance().unwrap_err();
    assert_eq!(
        err.message(),
        "key (k) is not unique in t: e.g. k=3; pick a different --key or use --keyless"
    );
    let mut side = open_side(&stream(&[&[3, 1, 3], &[3]]), codec(), "t".to_owned(), false, 0, &mut SpillDir::new(None));
    assert_eq!(side.advance_group().unwrap(), 1);
    assert_eq!(side.advance_group().unwrap(), 3);
    assert!(side.peek().is_none());
    assert_eq!(side.advance_group().unwrap(), 0);
}

/// Runs that are read chunk by chunk merge as if they were all in memory.
#[test]
fn fed_runs_merge_like_whole_ones() {
    let chunks = |parts: &[&[i64]]| -> Vec<Vec<Row>> {
        parts
            .iter()
            .rev()
            .map(|p| codec().rows(&stream(&[p]).batches[0]))
            .collect()
    };
    let mut files = vec![chunks(&[&[1, 4], &[4, 9]]), chunks(&[&[2], &[3, 4], &[4]]), chunks(&[&[7]])];
    let cursors = files
        .iter_mut()
        .map(|f| RunCursor::new(vec![f.pop().unwrap()], true))
        .collect();
    let mut side = SortedSource::start(KWayMerge::new(cursors), codec(), "t".to_owned(), false, Some(9));
    let mut groups = vec![];
    loop {
        while let Some(k) = side.starved() {
            side.feed(k, files[k].pop());
        }
        match side.peek() {
            None => break,
            Some(row) => {
                let k = key(row);
                groups.push((k, side.advance_group().unwrap()));
            }
        }
    }
    assert_eq!(groups, vec![(1, 1), (2, 1), (3, 1), (4, 4), (7, 1), (9, 1)]);
    assert_eq!(side.total_rows(), 9);
}

#[test]
fn the_builder_hands_out_full_runs() {
    let src = stream(&[&[3, 1], &[2, 5], &[4]]);
    let mut builder = RunBuilder::new();
    let mut spill = SpillDir::new(None);
    assert!(builder.push(&codec(), &src.batches[0], 30, &mut spill).is_none());
    let run = builder.push(&codec(), &src.batches[1], 30, &mut spill).unwrap();
    assert_eq!(file(&run), ("run-1.arrow", vec![1, 2, 3, 5]));
    assert!(builder.push(&codec(), &src.batches[2], 30, &mut spill).is_none());
    assert_eq!(builder.total_rows, 5);
    let last = builder.finish(&mut spill).unwrap();
    assert_eq!(file(&last), ("run-2.arrow", vec![4]));
    let mut builder = RunBuilder::new();
    assert!(builder.push(&codec(), &src.batches[0], 16, &mut spill).is_some());
    assert!(builder.finish(&mut spill).is_none());
}

#[test]
fn spill_files_are_numbered() {
    let mut dir = SpillDir::new(None);
    assert!(dir.path.is_none());
    assert_eq!(dir.next_name(), "run-1.arrow");
    assert_eq!(dir.next_name(), "run-2.arrow");
    assert_eq!(SpillDir::directory_name(42, 7), "tabdiff-spill-42-7");
}

#[test]
fn groups_add_up_to_the_rows() {
    let mut side = open_side(
        &stream(&[&[3, 1, 3], &[3, 2, 1]]),
        codec(),
        "t".to_owned(),
        false,
        0,
        &mut SpillDir::new(None),
    );
    let mut sizes = vec![];
    loop {
        match side.advance_group().unwrap() {
            0 => break,
            n => sizes.push(n),
        }
    }
    assert_eq!(sizes, vec![2, 1, 3]);
    assert!(side.peek().is_none());
}
