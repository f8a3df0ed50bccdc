use std::cmp::Ordering;

use tabdiff::key::KeyColumn;
use tabdiff::schema::DataType;
use tabdiff::value::{cmp_cells, cmp_keys, extract, Array, Cell, Comparator, Float, OtherArray, Single};

fn float(x: f64) -> Cell {
    Cell::Float(Float { bits: x.to_bits(), text: format!("{x}") })
}

fn str(s: &str) -> Cell {
    Cell::Str(s.to_owned())
}

fn tolerance(x: f64) -> Option<u64> {
    Some(x.to_bits())
}

#[test]
fn exact_by_default() {
    let c = Comparator::default();
    assert!(!c.eq(&float(1.0), &float(1.0000001)));
    assert!(c.eq(&float(1.5), &float(1.5)));
}

#[test]
fn int_float_compare_numerically() {
    let c = Comparator::default();
    assert!(c.eq(&Cell::Int(1), &float(1.0)));
    assert!(!c.eq(&Cell::Int(1), &float(1.1)));
}

#[test]
fn int_str_never_equal() {
    let c = Comparator::default();
    assert!(!c.eq(&Cell::Int(1), &str("1")));
}

#[test]
fn absolute_tolerance() {
    let c = Comparator::new(tolerance(0.01), None);
    assert!(c.eq(&float(1.0), &float(1.005)));
    assert!(!c.eq(&float(1.0), &float(1.02)));
}

#[test]
fn relative_tolerance() {
    let c = Comparator::new(None, tolerance(0.01));
    assert!(c.eq(&float(100.0), &float(100.5)));
    assert!(!c.eq(&float(100.0), &float(102.0)));
}

#[test]
fn nan_equals_nan() {
    let c = Comparator::default();
    assert!(c.eq(&float(f64::NAN), &float(f64::NAN)));
}

#[test]
fn key_ordering_is_lexicographic() {
    let a = vec![Cell::Int(1), str("b")];
    let b = vec![Cell::Int(1), str("c")];
    assert_eq!(cmp_keys(&a, &b), Ordering::Less);
    assert_eq!(cmp_keys(&a, &a), Ordering::Equal);
    assert_eq!(cmp_keys(&b, &a), Ordering::Greater);
    assert_eq!(cmp_keys(&a[..1], &a), Ordering::Less);
}

#[test]
fn matching_agrees_with_machine_arithmetic() {
    let values = [
        0.0f64, -0.0, 1.0, -1.0, 0.1, 0.2, 0.3, 1e-9, 1e9, 1.0e9 + 0.5, 5e-324, f64::MAX, f64::MIN,
        f64::INFINITY, f64::NEG_INFINITY, f64::NAN, 100.0, 100.5, 99.5,
    ];
    let tolerances = [
        None,
        Some(0.0f64),
        Some(-0.5),
        Some(0.005),
        Some(0.01),
        Some(1.0),
        Some(1e300),
        Some(f64::INFINITY),
        Some(f64::NAN),
    ];
    for a in values {
        for b in values {
            for abs in tolerances {
                for rel in tolerances {
                    let same = a == b || a.is_nan() && b.is_nan();
                    let limit = abs.unwrap_or(0.0).max(rel.unwrap_or(0.0) * a.abs().max(b.abs()));
                    let close = limit > 0.0 && (a - b).abs() <= limit;
                    let c = Comparator::new(abs.map(f64::to_bits), rel.map(f64::to_bits));
                    assert_eq!(c.eq(&float(a), &float(b)), same || close, "{a} {b} {abs:?} {rel:?}");
                    assert_eq!(c.eq(&float(b), &float(a)), same || close, "{b} {a} {abs:?} {rel:?}");
                    assert!(c.eq(&float(a), &float(a)));
                }
            }
        }
    }
}

#[test]
fn classes_of_cells_are_ordered() {
    let cells = [
        Cell::Null,
        Cell::Bool(false),
        Cell::Bool(true),
        float(-1.5),
        Cell::Int(-1),
        Cell::Int(2),
        float(2.5),
        str("a"),
        str("b"),
    ];
    for i in 0..cells.len() {
        for j in 0..cells.len() {
            assert_eq!(cmp_cells(&cells[i], &cells[j]), i.cmp(&j), "{i} {j}");
        }
    }
    assert_eq!(cmp_cells(&Cell::Int(2), &float(2.0)), Ordering::Equal);
}

#[test]
fn cells_render_plainly_and_with_their_type() {
    assert_eq!(Cell::Null.render(), "NULL");
    assert_eq!(Cell::Bool(true).render(), "true");
    assert_eq!(Cell::Int(-12).render(), "-12");
    assert_eq!(Cell::Int(i64::MIN).render(), "-9223372036854775808");
    assert_eq!(float(18.0).render(), "18");
    assert_eq!(str("a\"b").render(), "a\"b");
    assert_eq!(str("a\"b\n").render_typed(), "\"a\\\"b\\n\"");
    assert_eq!(Cell::Int(7).render_typed(), "7");
}

#[test]
fn extracts_every_kind_of_column() {
    let single = Single { bits: 1.5f32.to_bits(), text: "1.5".to_owned() };
    let double = Float { bits: 2.5f64.to_bits(), text: "2.5".to_owned() };
    assert_eq!(extract(&Array::Boolean(vec![Some(true), None]), 0), Cell::Bool(true));
    assert_eq!(extract(&Array::Boolean(vec![Some(true), None]), 1), Cell::Null);
    assert_eq!(extract(&Array::Int8(vec![Some(-8)]), 0), Cell::Int(-8));
    assert_eq!(extract(&Array::Int16(vec![Some(-16)]), 0), Cell::Int(-16));
    assert_eq!(extract(&Array::Int32(vec![Some(-32)]), 0), Cell::Int(-32));
    assert_eq!(extract(&Array::Int64(vec![Some(-64)]), 0), Cell::Int(-64));
    assert_eq!(extract(&Array::UInt8(vec![Some(8)]), 0), Cell::Int(8));
    assert_eq!(extract(&Array::UInt16(vec![Some(16)]), 0), Cell::Int(16));
    assert_eq!(extract(&Array::UInt32(vec![Some(32)]), 0), Cell::Int(32));
    assert_eq!(extract(&Array::UInt64(vec![Some(64)]), 0), Cell::Int(64));
    assert_eq!(extract(&Array::UInt64(vec![Some(u64::MAX)]), 0), str("18446744073709551615"));
    assert_eq!(extract(&Array::Float32(vec![Some(single)]), 0).render(), "1.5");
    assert_eq!(extract(&Array::Float64(vec![Some(double)]), 0), float(2.5));
    assert_eq!(extract(&Array::Utf8(vec![Some("x".into())]), 0), str("x"));
    assert_eq!(extract(&Array::LargeUtf8(vec![Some("x".into())]), 0), str("x"));
    assert_eq!(extract(&Array::Utf8View(vec![None]), 0), Cell::Null);
    let dates = Array::Other(OtherArray {
        data_type: DataType::Date32,
        shown: vec![Some("2024-01-02".into()), None],
        text: vec![Some("2024-01-02".into()), None],
        wide: vec![None, None],
        native: KeyColumn::Ints(vec![Some(19724), None]),
    });
    assert_eq!(extract(&dates, 0), str("2024-01-02"));
    assert_eq!(extract(&dates, 1), Cell::Null);
    assert_eq!(dates.data_type().name(), "Date32");
}

#[test]
fn singles_are_widened() {
    for x in [0.1f32, 1.5, -0.0, f32::MIN_POSITIVE, 1e-45, f32::MAX, f32::INFINITY] {
        let column = Array::Float32(vec![Some(Single { bits: x.to_bits(), text: String::new() })]);
        let c = Comparator::default();
        assert!(c.eq(&extract(&column, 0), &float(x as f64)), "{x}");
    }
}

#[test]
fn integers_and_floats_are_ordered_exactly() {
    let two53 = 9007199254740992i64;
    let cells = [
        float(-f64::NAN.abs()),
        float(f64::NEG_INFINITY),
        Cell::Int(i64::MIN),
        Cell::Int(-two53 - 1),
        float(-(two53 as f64)),
        Cell::Int(-1),
        float(-0.5),
        float(-0.0),
        Cell::Int(0),
        float(f64::from_bits(1)),
        Cell::Int(1),
        float(1.5),
        Cell::Int(two53),
        Cell::Int(two53 + 1),
        float((two53 + 2) as f64),
        Cell::Int(i64::MAX),
        float(9223372036854775808.0),
        float(f64::INFINITY),
        float(f64::NAN.abs()),
    ];
    for i in 0..cells.len() {
        for j in 0..cells.len() {
            assert_eq!(cmp_cells(&cells[i], &cells[j]), i.cmp(&j), "{i} {j}");
        }
    }
    assert_eq!(cmp_cells(&Cell::Int(two53), &float(two53 as f64)), Ordering::Equal);
    assert_eq!(cmp_cells(&Cell::Int(i64::MIN), &float(-9223372036854775808.0)), Ordering::Equal);
    assert_eq!(cmp_cells(&Cell::Int(0), &float(0.0)), Ordering::Equal);
    assert_eq!(
        cmp_keys(&[Cell::Int(two53 + 1), str("a")], &[float(two53 as f64), str("b")]),
        Ordering::Greater
    );
}

#[test]
fn larger_tolerances_match_more() {
    let pairs = [(1.0, 1.5), (100.0, 101.0), (0.0, 1e-9), (-1.0, 1.0), (f64::INFINITY, 1.0), (2.0, 2.0)];
    let tols = [None, tolerance(0.0), tolerance(1e-9), tolerance(0.01), tolerance(1.0), tolerance(f64::INFINITY)];
    for (x, y) in pairs {
        for i in 0..tols.len() {
            for j in i..tols.len() {
                for k in 0..tols.len() {
                    for l in k..tols.len() {
                        let narrow = Comparator::new(tols[i], tols[k]);
                        let wide = Comparator::new(tols[j], tols[l]);
                        if narrow.eq(&float(x), &float(y)) {
                            assert!(wide.eq(&float(x), &float(y)));
                        }
                    }
                }
            }
        }
    }
    assert!(!Comparator::new(tolerance(5.0), None).eq(&Cell::Int(1), &Cell::Int(2)));
}

#[test]
fn quotes_tell_strings_apart() {
    let texts = ["1", "\"1\"", "NULL", "true", "", "\\", "\\\\", "\n", "\\n", "\"", "'", "é", "1.5"];
    let others = [Cell::Null, Cell::Bool(true), Cell::Int(1), float(1.5), float(f64::NAN)];
    for a in texts {
        let quoted = str(a).render_typed();
        for b in texts {
            assert_eq!(quoted == str(b).render_typed(), a == b);
        }
        for c in &others {
            assert_ne!(quoted, c.render_typed());
            assert_eq!(c.render_typed(), c.render());
        }
    }
    assert_eq!(str("a\"b").render_typed(), "\"a\\\"b\"");
}
