use tabdiff::filter::{tokenize, Numeral, Op, ParseError, Predicate};
use tabdiff::input::{Batch, BatchIter};
use tabdiff::schema::{DataType, Field, Schema};
use tabdiff::value::{Array, Cell, Float};

fn float(x: f64) -> Cell {
    Cell::Float(Float { bits: x.to_bits(), text: format!("{x}") })
}

fn str(s: &str) -> Cell {
    Cell::Str(s.to_owned())
}

/// Parses an expression, reading the numerals that are not integers.
fn parse_knowing(expr: &str, known: &mut Vec<Numeral>) -> Result<Predicate, ParseError> {
    loop {
        match Predicate::parse(expr, known) {
            Err(ParseError::InvalidNumber(text)) if known.iter().all(|n| n.text != text) => {
                let number = text.parse::<f64>().ok();
                known.push(Numeral {
                    text,
                    value: number.map(|x| Float { bits: x.to_bits(), text: format!("{x}") }),
                    name: number.map(|x| format!("{x:?}")).unwrap_or_default(),
                });
            }
            done => return done,
        }
    }
}

fn parse(expr: &str) -> Result<Predicate, ParseError> {
    parse_knowing(expr, &mut vec![])
}

fn message(expr: &str) -> String {
    let mut known = vec![];
    parse_knowing(expr, &mut known).unwrap_err().message(expr, &known)
}

#[test]
fn parses_conjunction() {
    let p = parse("region = 'EU' AND amount >= 2.5 and n != 3").unwrap();
    assert_eq!(p.clauses.len(), 3);
    assert_eq!(p.clauses[0].column, "region");
    assert_eq!(p.clauses[0].op, Op::Eq);
    assert_eq!(p.clauses[0].value, str("EU"));
    assert_eq!(p.clauses[1].op, Op::Ge);
    assert_eq!(p.clauses[1].value, float(2.5));
    assert_eq!(p.clauses[2].value, Cell::Int(3));
    assert_eq!(p.columns(), vec!["region", "amount", "n"]);
}

#[test]
fn parses_escaped_quote_and_keywords() {
    let p = parse("name = 'O''Brien' AND active = true AND x = NULL").unwrap();
    assert_eq!(p.clauses[0].value, str("O'Brien"));
    assert_eq!(p.clauses[1].value, Cell::Bool(true));
    assert_eq!(p.clauses[2].value, Cell::Null);
}

#[test]
fn rejects_bad_input() {
    assert!(parse("a =").is_err());
    assert!(parse("a = 'x' OR b = 1").is_err());
    assert!(parse("a = unquoted").is_err());
    assert!(parse("= 5").is_err());
}

#[test]
fn clause_semantics() {
    let p = parse("x > 10").unwrap();
    assert!(p.clauses[0].matches(&Cell::Int(11)));
    assert!(p.clauses[0].matches(&float(10.5)));
    assert!(!p.clauses[0].matches(&Cell::Int(10)));
    // Type-incompatible ordering never matches, including NULL.
    assert!(!p.clauses[0].matches(&str("99")));
    assert!(!p.clauses[0].matches(&Cell::Null));
}

#[test]
fn every_operator_compares() {
    let holds = |expr: &str, cell: Cell| parse(expr).unwrap().clauses[0].matches(&cell);
    for (op, expected) in [
        ("=", [false, true, false]),
        ("!=", [true, false, true]),
        ("<", [true, false, false]),
        ("<=", [true, true, false]),
        (">", [false, false, true]),
        (">=", [false, true, true]),
    ] {
        for (x, want) in [1i64, 2, 3].into_iter().zip(expected) {
            assert_eq!(holds(&format!("x {op} 2"), Cell::Int(x)), want, "{x} {op} 2");
            assert_eq!(holds(&format!("x{op}2.0"), float(x as f64)), want, "{x} {op} 2.0");
        }
    }
    assert!(holds("x = NULL", Cell::Null));
    assert!(!holds("x = NULL", Cell::Int(0)));
    assert!(holds("x != NULL", Cell::Int(0)));
    assert!(!holds("x >= NULL", Cell::Null));
    assert!(holds("s < 'b'", str("a")));
}

#[test]
fn reads_numbers() {
    let value = |text: &str| parse(&format!("x = {text}")).map(|mut p| p.clauses.remove(0).value);
    assert_eq!(value("-12").unwrap(), Cell::Int(-12));
    assert_eq!(value("9223372036854775807").unwrap(), Cell::Int(i64::MAX));
    assert_eq!(value("-9223372036854775808").unwrap(), Cell::Int(i64::MIN));
    assert_eq!(value("9223372036854775808").unwrap(), float(9223372036854775808.0));
    assert_eq!(value(".5").unwrap(), float(0.5));
    assert_eq!(value("1e3").unwrap(), float(1000.0));
    assert!(value("1.2.3").is_err());
    assert!(value("-").is_err());
}

#[test]
fn other_scripts_are_read_too() {
    // An ideographic space between the tokens, and a name in Greek letters.
    let p = parse("\u{3000}\u{3b1}\u{3b2}\u{3000}=\u{3000}1").unwrap();
    assert_eq!(p.clauses[0].column, "\u{3b1}\u{3b2}");
    assert_eq!(p.clauses[0].value, Cell::Int(1));
    assert!(parse("\u{20ac} = 1").is_err());
}

#[test]
fn errors_say_what_is_wrong() {
    assert!(matches!(parse("a = 'x"), Err(ParseError::UnterminatedString)));
    assert!(matches!(parse("a ! 1"), Err(ParseError::ExpectedNotEqual)));
    assert!(matches!(parse("a = 1 ; b = 2"), Err(ParseError::UnexpectedCharacter(';'))));
    assert_eq!(message("a = 'x"), "cannot parse --where `a = 'x`: unterminated string literal");
    assert_eq!(message("a ! 1"), "cannot parse --where `a ! 1`: expected `!=`");
    assert_eq!(message("a = 1.2.3"), "cannot parse --where `a = 1.2.3`: invalid number `1.2.3`");
    assert_eq!(message("a;"), "cannot parse --where `a;`: unexpected character `;`");
    assert_eq!(
        message("2.0 = a"),
        "expected a column name, found Some(Value(Float(2.0))) in --where `2.0 = a`"
    );
    assert_eq!(message(""), "expected a column name, found None in --where ``");
    assert_eq!(message("a 'it''s'"), "expected an operator after `a`, found Some(Value(Str(\"it's\")))");
    assert_eq!(message("a = <="), "expected a value after the operator, found Some(Op(Le))");
    assert_eq!(message("a = b"), "unquoted value `b`; string literals need 'single quotes'");
    assert_eq!(
        message("a = 1 b"),
        "expected AND or end of expression, found Some(Ident(\"b\"))"
    );
    assert_eq!(message("a = 1 -3"), "expected AND or end of expression, found Some(Value(Int(-3)))");
    assert!(tokenize("a = 1", &vec![]).unwrap().len() == 3);
}

fn people() -> BatchIter {
    let text = |v: &[&str]| Array::Utf8(v.iter().map(|s| Some((*s).to_owned())).collect());
    BatchIter {
        schema: Schema {
            fields: vec![
                Field { name: "region".to_owned(), data_type: DataType::Utf8 },
                Field { name: "n".to_owned(), data_type: DataType::Int64 },
            ],
        },
        batches: vec![
            Batch {
                columns: vec![text(&["EU", "US", "EU"]), Array::Int64(vec![Some(1), Some(2), None])],
                rows: 3,
                sizes: vec![40, 24],
            },
            Batch {
                columns: vec![text(&["EU"]), Array::Int64(vec![Some(5)])],
                rows: 1,
                sizes: vec![24, 8],
            },
        ],
    }
}

#[test]
fn keeps_only_matching_rows() {
    let p = parse("region = 'EU' AND n >= 1").unwrap();
    let idx = p.bind(&people().schema).unwrap();
    assert_eq!(p.mask(&people().batches[0], &idx), vec![true, false, false]);
    let kept = p.apply(people(), vec![vec![16, 8], vec![24, 8]]).unwrap();
    assert_eq!(kept.batches.iter().map(|b| b.memory()).collect::<Vec<_>>(), vec![24, 32]);
    assert_eq!(kept.batches.iter().map(|b| b.rows).collect::<Vec<_>>(), vec![1, 1]);
    assert_eq!(kept.batches[0].cells(0), vec![str("EU"), Cell::Int(1)]);
    assert_eq!(kept.batches[1].cells(0), vec![str("EU"), Cell::Int(5)]);
}

#[test]
fn refuses_unknown_columns() {
    let err = parse("nope = 1").unwrap().apply(people(), vec![vec![16, 8], vec![24, 8]]).unwrap_err();
    assert_eq!(err.message(), "--where column `nope` not found");
}

#[test]
fn unicode_white_space_separates_tokens() {
    for space in ["\u{85}", "\u{a0}", "\u{1680}", "\u{2003}", "\u{2028}", "\u{202f}", "\u{205f}", "\u{3000}", "\t"] {
        let p = parse(&format!("a{space}={space}1")).unwrap();
        assert_eq!(p.columns(), vec!["a"]);
    }
    assert!(parse("a\u{200b}= 1").is_err());
}
