//! Table cells: what they hold, how they are shown, and when two are equal.

use crate::float::{compare_with_int, difference, equal, from_int, gap, int_float_order, int_to_float, is_nan, is_negative, is_positive, larger, lemma_int_float_transitive, lemma_product_increases, lemma_total_rank_injective, magnitude, max, multiply, nan, product, rank as float_rank, same_value, strip_sign, total_rank, widen, widened};
use crate::key::{copied, copy_texts, kind_of, same_values, KeyColumn};
use crate::schema::{base_shape, DataType, TypeShape};
use crate::text::{compare_text, decimal, decimal_int, hex, hexadecimal, int_order, integer, law_byte_order_total, law_byte_order_transitive, number, text_order};
use std::cmp::Ordering;
use vstd::prelude::*;
use vstd::utf8::encode_utf8;

verus! {

/// A double: its bit pattern, and the decimal text that it is shown as.
#[derive(Debug, PartialEq)]
pub struct Float {
    pub bits: u64,
    pub text: String,
}

impl Clone for Float {
    fn clone(&self) -> (r: Self)
        ensures
            r.bits == self.bits,
            r.text@ == self.text@,
    {
        Float { bits: self.bits, text: self.text.clone() }
    }
}

/// A single table cell normalized into the comparison domain.
#[derive(Debug, PartialEq)]
pub enum Cell {
    Null,
    Bool(bool),
    Int(i64),
    Float(Float),
    Str(String),
}

/// What a cell holds.
pub enum CellView {
    Null,
    Bool(bool),
    Int(i64),
    Float { bits: u64, text: Seq<char> },
    Str(Seq<char>),
}

impl View for Cell {
    type V = CellView;

    open spec fn view(&self) -> CellView {
        match self {
            Cell::Null => CellView::Null,
            Cell::Bool(b) => CellView::Bool(*b),
            Cell::Int(i) => CellView::Int(*i),
            Cell::Float(f) => CellView::Float { bits: f.bits, text: f.text@ },
            Cell::Str(s) => CellView::Str(s@),
        }
    }
}

impl Clone for Cell {
    fn clone(&self) -> (r: Self)
        ensures
            r@ == self@,
    {
        match self {
            Cell::Null => Cell::Null,
            Cell::Bool(b) => Cell::Bool(*b),
            Cell::Int(i) => Cell::Int(*i),
            Cell::Float(f) => Cell::Float(f.clone()),
            Cell::Str(s) => Cell::Str(s.clone()),
        }
    }
}

/// The contents of cells.
pub open spec fn cell_views(cells: Seq<Cell>) -> Seq<CellView> {
    cells.map_values(|c: Cell| c@)
}

/// The text of a cell.
pub open spec fn shown(c: CellView) -> Seq<char> {
    match c {
        CellView::Null => "NULL"@,
        CellView::Bool(b) => if b {
            "true"@
        } else {
            "false"@
        },
        CellView::Int(i) => decimal_int(i as int),
        CellView::Float { bits, text } => text,
        CellView::Str(s) => s,
    }
}

/// A string in quotes, with escapes, as `str`'s `Debug` writes it.
pub uninterp spec fn quoted(s: Seq<char>) -> Seq<char>;

/// Formats a string with `str`'s `Debug`: the result is a function of the
/// string, it starts and ends with a double quote, and no other string gives the
/// same one, since a backslash that stands for itself is escaped. Which other
/// characters are escaped is left unsaid.
#[verifier::external_body]
pub(crate) fn quote(s: &str) -> (r: String)
    ensures
        r@ == quoted(s@),
        r@.len() >= 2,
        r@[0] == '"',
        r@.last() == '"',
        forall|t: Seq<char>| #[trigger] quoted(t) == r@ ==> t == s@,
{
    format!("{s:?}")
}

/// The text of a cell, with strings in quotes.
pub open spec fn shown_typed(c: CellView) -> Seq<char> {
    match c {
        CellView::Str(s) => quoted(s),
        _ => shown(c),
    }
}

/// True for a cell whose text is not in quotes: any but a string, and a float
/// where its text is that of a number.
pub open spec fn is_unquoted(c: CellView) -> bool {
    match c {
        CellView::Str(_) => false,
        CellView::Float { bits: _, text } => text.len() == 0 || text[0] != '"',
        _ => true,
    }
}

impl Cell {
    /// The text of the cell.
    pub fn render(&self) -> (r: String)
        ensures
            r@ == shown(self@),
    {
        match self {
            Cell::Null => "NULL".to_owned(),
            Cell::Bool(b) => if *b {
                "true".to_owned()
            } else {
                "false".to_owned()
            },
            Cell::Int(i) => integer(*i),
            Cell::Float(f) => f.text.clone(),
            Cell::Str(s) => s.clone(),
        }
    }

    /// Like `render`, but quotes strings so `1` and `"1"` stay distinguishable.
    pub fn render_typed(&self) -> (r: String)
        ensures
            r@ == shown_typed(self@),
            self is Str ==> r@.len() >= 2 && r@[0] == '"' && r@.last() == '"',
            is_unquoted(self@) ==> r@ == shown(self@) && (r@.len() == 0 || r@[0] != '"'),
            self is Str ==> forall|d: CellView|
                d is Str || is_unquoted(d) ==> (#[trigger] shown_typed(d) == r@ <==> d == self@),
    {
        proof {
            assert(is_unquoted(self@) ==> shown_typed(self@) == shown(self@));
            assert forall|d: CellView| is_unquoted(d) implies (#[trigger] shown_typed(d)).len() == 0
                || shown_typed(d)[0] != '"' by {
                lemma_unquoted(d);
            }
        }
        match self {
            Cell::Str(s) => quote(s.as_str()),
            _ => self.render(),
        }
    }
}

/// A number in decimal starts with a digit.
proof fn lemma_decimal_starts(n: nat)
    ensures
        decimal(n).len() > 0,
        '0' <= decimal(n)[0] <= '9',
    decreases n,
{
    if n >= 10 {
        lemma_decimal_starts(n / 10);
    }
}

/// What is not in quotes does not start with one.
proof fn lemma_unquoted(c: CellView)
    requires
        is_unquoted(c),
    ensures
        shown(c).len() == 0 || shown(c)[0] != '"',
{
    reveal_strlit("NULL");
    reveal_strlit("true");
    reveal_strlit("false");
    match c {
        CellView::Int(i) => {
            lemma_decimal_starts((if i < 0 {
                -(i as int)
            } else {
                i as int
            }) as nat);
        },
        _ => {},
    }
}

/// A 32-bit float: its bit pattern, and the decimal text of its value.
#[derive(Debug)]
pub struct Single {
    pub bits: u32,
    pub text: String,
}

/// A column whose values the library does not hold: per row, the text it is
/// shown as, and what stands for it in a key. `text` is the value cast to a
/// string, `wide` the bits of the value cast to a double, and `native` the
/// value in its own type; for a dictionary, in the type of what it looks up.
#[derive(Debug)]
pub struct OtherArray {
    pub data_type: DataType,
    pub shown: Vec<Option<String>>,
    pub text: Vec<Option<String>>,
    pub wide: Vec<Option<u64>>,
    pub native: KeyColumn,
}

/// A column of values.
#[derive(Debug)]
pub enum Array {
    Boolean(Vec<Option<bool>>),
    Int8(Vec<Option<i8>>),
    Int16(Vec<Option<i16>>),
    Int32(Vec<Option<i32>>),
    Int64(Vec<Option<i64>>),
    UInt8(Vec<Option<u8>>),
    UInt16(Vec<Option<u16>>),
    UInt32(Vec<Option<u32>>),
    UInt64(Vec<Option<u64>>),
    Float32(Vec<Option<Single>>),
    Float64(Vec<Option<Float>>),
    Utf8(Vec<Option<String>>),
    LargeUtf8(Vec<Option<String>>),
    Utf8View(Vec<Option<String>>),
    /// 16-byte row hashes, most significant byte first.
    RowHash(Vec<u128>),
    Other(OtherArray),
}

/// An unsigned number as a cell: an integer where it fits, and its digits
/// where it does not.
pub open spec fn unsigned_cell(u: u64) -> CellView {
    if u <= i64::MAX {
        CellView::Int(u as i64)
    } else {
        CellView::Str(decimal(u as nat))
    }
}

impl Array {
    pub open spec fn spec_len(&self) -> nat {
        match self {
            Array::Boolean(v) => v@.len(),
            Array::Int8(v) => v@.len(),
            Array::Int16(v) => v@.len(),
            Array::Int32(v) => v@.len(),
            Array::Int64(v) => v@.len(),
            Array::UInt8(v) => v@.len(),
            Array::UInt16(v) => v@.len(),
            Array::UInt32(v) => v@.len(),
            Array::UInt64(v) => v@.len(),
            Array::Float32(v) => v@.len(),
            Array::Float64(v) => v@.len(),
            Array::Utf8(v) => v@.len(),
            Array::LargeUtf8(v) => v@.len(),
            Array::Utf8View(v) => v@.len(),
            Array::RowHash(v) => v@.len(),
            Array::Other(a) => a.shown@.len(),
        }
    }

    /// The parts of a column agree on the number of rows, and its key values
    /// have the form that its type calls for.
    pub open spec fn wf(&self) -> bool {
        match self {
            Array::Other(a) => {
                &&& a.text@.len() == a.shown@.len()
                &&& a.wide@.len() == a.shown@.len()
                &&& a.native.spec_len() == a.shown@.len()
                &&& a.native.kind() == kind_of(base_shape(a.data_type.shape()))
            },
            _ => true,
        }
    }

    pub fn len(&self) -> (n: usize)
        ensures
            n == self.spec_len(),
    {
        match self {
            Array::Boolean(v) => v.len(),
            Array::Int8(v) => v.len(),
            Array::Int16(v) => v.len(),
            Array::Int32(v) => v.len(),
            Array::Int64(v) => v.len(),
            Array::UInt8(v) => v.len(),
            Array::UInt16(v) => v.len(),
            Array::UInt32(v) => v.len(),
            Array::UInt64(v) => v.len(),
            Array::Float32(v) => v.len(),
            Array::Float64(v) => v.len(),
            Array::Utf8(v) => v.len(),
            Array::LargeUtf8(v) => v.len(),
            Array::Utf8View(v) => v.len(),
            Array::RowHash(v) => v.len(),
            Array::Other(a) => a.shown.len(),
        }
    }

    /// The type of the column.
    pub open spec fn type_shape(&self) -> TypeShape {
        match self {
            Array::Boolean(_) => TypeShape::Boolean,
            Array::Int8(_) => TypeShape::Int8,
            Array::Int16(_) => TypeShape::Int16,
            Array::Int32(_) => TypeShape::Int32,
            Array::Int64(_) => TypeShape::Int64,
            Array::UInt8(_) => TypeShape::UInt8,
            Array::UInt16(_) => TypeShape::UInt16,
            Array::UInt32(_) => TypeShape::UInt32,
            Array::UInt64(_) => TypeShape::UInt64,
            Array::Float32(_) => TypeShape::Float32,
            Array::Float64(_) => TypeShape::Float64,
            Array::Utf8(_) => TypeShape::Utf8,
            Array::LargeUtf8(_) => TypeShape::LargeUtf8,
            Array::Utf8View(_) => TypeShape::Utf8View,
            Array::RowHash(_) => TypeShape::Other { name: "FixedSizeBinary(16)"@, numeric: false },
            Array::Other(a) => a.data_type.shape(),
        }
    }

    /// The type of the column.
    pub fn data_type(&self) -> (t: DataType)
        ensures
            t.shape() == self.type_shape(),
    {
        match self {
            Array::Boolean(_) => DataType::Boolean,
            Array::Int8(_) => DataType::Int8,
            Array::Int16(_) => DataType::Int16,
            Array::Int32(_) => DataType::Int32,
            Array::Int64(_) => DataType::Int64,
            Array::UInt8(_) => DataType::UInt8,
            Array::UInt16(_) => DataType::UInt16,
            Array::UInt32(_) => DataType::UInt32,
            Array::UInt64(_) => DataType::UInt64,
            Array::Float32(_) => DataType::Float32,
            Array::Float64(_) => DataType::Float64,
            Array::Utf8(_) => DataType::Utf8,
            Array::LargeUtf8(_) => DataType::LargeUtf8,
            Array::Utf8View(_) => DataType::Utf8View,
            Array::RowHash(_) => DataType::Other {
                name: "FixedSizeBinary(16)".to_owned(),
                numeric: false,
            },
            Array::Other(a) => a.data_type.clone(),
        }
    }

    /// The cell in a row of the column.
    pub open spec fn cell(&self, row: int) -> CellView {
        match self {
            Array::Boolean(v) => match v@[row] {
                None => CellView::Null,
                Some(b) => CellView::Bool(b),
            },
            Array::Int8(v) => match v@[row] {
                None => CellView::Null,
                Some(i) => CellView::Int(i as i64),
            },
            Array::Int16(v) => match v@[row] {
                None => CellView::Null,
                Some(i) => CellView::Int(i as i64),
            },
            Array::Int32(v) => match v@[row] {
                None => CellView::Null,
                Some(i) => CellView::Int(i as i64),
            },
            Array::Int64(v) => match v@[row] {
                None => CellView::Null,
                Some(i) => CellView::Int(i),
            },
            Array::UInt8(v) => match v@[row] {
                None => CellView::Null,
                Some(u) => CellView::Int(u as i64),
            },
            Array::UInt16(v) => match v@[row] {
                None => CellView::Null,
                Some(u) => CellView::Int(u as i64),
            },
            Array::UInt32(v) => match v@[row] {
                None => CellView::Null,
                Some(u) => CellView::Int(u as i64),
            },
            Array::UInt64(v) => match v@[row] {
                None => CellView::Null,
                Some(u) => unsigned_cell(u),
            },
            Array::Float32(v) => match v@[row] {
                None => CellView::Null,
                Some(f) => CellView::Float { bits: widened(f.bits), text: f.text@ },
            },
            Array::Float64(v) => match v@[row] {
                None => CellView::Null,
                Some(f) => CellView::Float { bits: f.bits, text: f.text@ },
            },
            Array::Utf8(v) => match v@[row] {
                None => CellView::Null,
                Some(s) => CellView::Str(s@),
            },
            Array::LargeUtf8(v) => match v@[row] {
                None => CellView::Null,
                Some(s) => CellView::Str(s@),
            },
            Array::Utf8View(v) => match v@[row] {
                None => CellView::Null,
                Some(s) => CellView::Str(s@),
            },
            Array::RowHash(v) => CellView::Str(hexadecimal(v@[row] as nat, 32)),
            Array::Other(a) => match a.shown@[row] {
                None => CellView::Null,
                Some(s) => CellView::Str(s@),
            },
        }
    }
}

fn copy_singles(v: &Vec<Option<Single>>) -> (r: Vec<Option<Single>>)
    ensures
        r@.len() == v@.len(),
        forall|i: int|
            0 <= i < r@.len() ==> match (#[trigger] r@[i], v@[i]) {
                (Some(x), Some(y)) => x.bits == y.bits && x.text@ == y.text@,
                (None, None) => true,
                _ => false,
            },
{
    let mut r: Vec<Option<Single>> = Vec::new();
    for i in 0..v.len()
        invariant
            r.len() == i,
            forall|j: int|
                0 <= j < i ==> match (#[trigger] r@[j], v@[j]) {
                    (Some(x), Some(y)) => x.bits == y.bits && x.text@ == y.text@,
                    (None, None) => true,
                    _ => false,
                },
    {
        r.push(match &v[i] {
            Some(f) => Some(Single { bits: f.bits, text: f.text.clone() }),
            None => None,
        });
    }
    r
}

fn copy_floats(v: &Vec<Option<Float>>) -> (r: Vec<Option<Float>>)
    ensures
        r@.len() == v@.len(),
        forall|i: int|
            0 <= i < r@.len() ==> match (#[trigger] r@[i], v@[i]) {
                (Some(x), Some(y)) => x.bits == y.bits && x.text@ == y.text@,
                (None, None) => true,
                _ => false,
            },
{
    let mut r: Vec<Option<Float>> = Vec::new();
    for i in 0..v.len()
        invariant
            r.len() == i,
            forall|j: int|
                0 <= j < i ==> match (#[trigger] r@[j], v@[j]) {
                    (Some(x), Some(y)) => x.bits == y.bits && x.text@ == y.text@,
                    (None, None) => true,
                    _ => false,
                },
    {
        r.push(match &v[i] {
            Some(f) => Some(f.clone()),
            None => None,
        });
    }
    r
}

impl Clone for Array {
    fn clone(&self) -> (r: Self)
        ensures
            self.wf() ==> same_values(r, *self),
    {
        match self {
            Array::Boolean(v) => Array::Boolean(copied(v)),
            Array::Int8(v) => Array::Int8(copied(v)),
            Array::Int16(v) => Array::Int16(copied(v)),
            Array::Int32(v) => Array::Int32(copied(v)),
            Array::Int64(v) => Array::Int64(copied(v)),
            Array::UInt8(v) => Array::UInt8(copied(v)),
            Array::UInt16(v) => Array::UInt16(copied(v)),
            Array::UInt32(v) => Array::UInt32(copied(v)),
            Array::UInt64(v) => Array::UInt64(copied(v)),
            Array::Float32(v) => Array::Float32(copy_singles(v)),
            Array::Float64(v) => Array::Float64(copy_floats(v)),
            Array::Utf8(v) => Array::Utf8(copy_texts(v)),
            Array::LargeUtf8(v) => Array::LargeUtf8(copy_texts(v)),
            Array::Utf8View(v) => Array::Utf8View(copy_texts(v)),
            Array::RowHash(v) => Array::RowHash(copied(v)),
            Array::Other(a) => Array::Other(
                OtherArray {
                    data_type: a.data_type.clone(),
                    shown: copy_texts(&a.shown),
                    text: copy_texts(&a.text),
                    wide: copied(&a.wide),
                    native: a.native.clone(),
                },
            ),
        }
    }
}

fn string_cell(s: &Option<String>) -> (c: Cell)
    ensures
        c@ == match *s {
            None => CellView::Null,
            Some(s) => CellView::Str(s@),
        },
{
    match s {
        None => Cell::Null,
        Some(s) => Cell::Str(s.clone()),
    }
}

fn int_cell(i: Option<i64>) -> (c: Cell)
    ensures
        c@ == match i {
            None => CellView::Null,
            Some(i) => CellView::Int(i),
        },
{
    match i {
        None => Cell::Null,
        Some(i) => Cell::Int(i),
    }
}

/// Reads one row of a column.
pub fn extract(array: &Array, row: usize) -> (c: Cell)
    requires
        row < array.spec_len(),
    ensures
        c@ == array.cell(row as int),
{
    match array {
        Array::Boolean(v) => match v[row] {
            None => Cell::Null,
            Some(b) => Cell::Bool(b),
        },
        Array::Int8(v) => match v[row] {
            None => Cell::Null,
            Some(i) => Cell::Int(i as i64),
        },
        Array::Int16(v) => match v[row] {
            None => Cell::Null,
            Some(i) => Cell::Int(i as i64),
        },
        Array::Int32(v) => match v[row] {
            None => Cell::Null,
            Some(i) => Cell::Int(i as i64),
        },
        Array::Int64(v) => int_cell(v[row]),
        Array::UInt8(v) => match v[row] {
            None => Cell::Null,
            Some(u) => Cell::Int(u as i64),
        },
        Array::UInt16(v) => match v[row] {
            None => Cell::Null,
            Some(u) => Cell::Int(u as i64),
        },
        Array::UInt32(v) => match v[row] {
            None => Cell::Null,
            Some(u) => Cell::Int(u as i64),
        },
        Array::UInt64(v) => match v[row] {
            None => Cell::Null,
            Some(u) => if u <= i64::MAX as u64 {
                Cell::Int(u as i64)
            } else {
                Cell::Str(number(u as u128))
            },
        },
        Array::Float32(v) => match &v[row] {
            None => Cell::Null,
            Some(f) => Cell::Float(Float { bits: widen(f.bits), text: f.text.clone() }),
        },
        Array::Float64(v) => match &v[row] {
            None => Cell::Null,
            Some(f) => Cell::Float(f.clone()),
        },
        Array::Utf8(v) => string_cell(&v[row]),
        Array::LargeUtf8(v) => string_cell(&v[row]),
        Array::Utf8View(v) => string_cell(&v[row]),
        Array::RowHash(v) => Cell::Str(hex(v[row], 32)),
        // Dates, timestamps, decimals, etc. compare by their canonical
        // rendering, which normalizes formatting across file formats.
        Array::Other(a) => string_cell(&a.shown[row]),
    }
}

/// Tolerances for comparing floats, as bit patterns of doubles.
#[derive(Debug, Clone, Copy)]
pub struct Comparator {
    pub tol_abs: Option<u64>,
    pub tol_rel: Option<u64>,
}

/// A tolerance, or zero where there is none.
pub open spec fn or_zero(tol: Option<u64>) -> u64 {
    match tol {
        None => 0,
        Some(t) => t,
    }
}

/// How far apart two numbers may be: the absolute tolerance, or the relative
/// one times the larger of the two, whichever is more.
pub open spec fn tolerance(c: Comparator, a: u64, b: u64) -> u64 {
    larger(
        or_zero(c.tol_abs),
        product(or_zero(c.tol_rel), larger(magnitude(a), magnitude(b))),
    )
}

/// Two floats match where they are equal, where both are NaN, or where their
/// difference is within a positive tolerance.
pub open spec fn floats_match(c: Comparator, a: u64, b: u64) -> bool {
    ||| same_value(a, b)
    ||| is_nan(a) && is_nan(b)
    ||| {
        &&& !is_nan(a)
        &&& !is_nan(b)
        &&& is_positive(tolerance(c, a, b))
        &&& gap(a, b) <= tolerance(c, a, b)
    }
}

/// Two cells match where they hold the same value; an integer and a float
/// match as floats.
pub open spec fn cells_match(c: Comparator, a: CellView, b: CellView) -> bool {
    match (a, b) {
        (CellView::Null, CellView::Null) => true,
        (CellView::Bool(x), CellView::Bool(y)) => x == y,
        (CellView::Int(x), CellView::Int(y)) => x == y,
        (CellView::Float { bits: x, text: _ }, CellView::Float { bits: y, text: _ }) => floats_match(
            c,
            x,
            y,
        ),
        (CellView::Int(x), CellView::Float { bits: y, text: _ }) => floats_match(
            c,
            from_int(x as int),
            y,
        ),
        (CellView::Float { bits: x, text: _ }, CellView::Int(y)) => floats_match(
            c,
            from_int(y as int),
            x,
        ),
        (CellView::Str(x), CellView::Str(y)) => x == y,
        _ => false,
    }
}

impl Default for Comparator {
    fn default() -> (r: Self)
        ensures
            r == (Comparator { tol_abs: None, tol_rel: None }),
    {
        Comparator { tol_abs: None, tol_rel: None }
    }
}

impl Comparator {
    pub fn new(tol_abs: Option<u64>, tol_rel: Option<u64>) -> (r: Self)
        ensures
            r == (Comparator { tol_abs, tol_rel }),
    {
        Comparator { tol_abs, tol_rel }
    }

    /// True where two cells match.
    pub fn eq(&self, a: &Cell, b: &Cell) -> (r: bool)
        ensures
            r == cells_match(*self, a@, b@),
    {
        match (a, b) {
            (Cell::Null, Cell::Null) => true,
            (Cell::Bool(x), Cell::Bool(y)) => *x == *y,
            (Cell::Int(x), Cell::Int(y)) => *x == *y,
            (Cell::Float(x), Cell::Float(y)) => self.float_eq(x.bits, y.bits),
            (Cell::Int(x), Cell::Float(y)) => self.float_eq(int_to_float(*x), y.bits),
            (Cell::Float(x), Cell::Int(y)) => self.float_eq(int_to_float(*y), x.bits),
            (Cell::Str(x), Cell::Str(y)) => *x == *y,
            _ => false,
        }
    }

    fn float_eq(&self, a: u64, b: u64) -> (r: bool)
        ensures
            r == floats_match(*self, a, b),
    {
        if equal(a, b) || (nan(a) && nan(b)) {
            return true;
        }
        if nan(a) || nan(b) {
            return false;
        }
        let widest = max(strip_sign(a), strip_sign(b));
        let scaled = multiply(self.tol_rel.unwrap_or(0), widest);
        let tol = max(self.tol_abs.unwrap_or(0), scaled);
        0 < tol && tol <= crate::float::INFINITY && difference(a, b) <= tol
    }
}

/// The rank of a kind of cell; kinds of different rank order by it.
pub open spec fn kind_rank(c: CellView) -> int {
    match c {
        CellView::Null => 0,
        CellView::Bool(_) => 1,
        CellView::Int(_) => 2,
        CellView::Float { bits: _, text: _ } => 2,
        CellView::Str(_) => 3,
    }
}

/// The order of two cells: negative, zero or positive. An integer and a float
/// are ordered by their exact values.
pub open spec fn cell_order(a: CellView, b: CellView) -> int {
    match (a, b) {
        (CellView::Bool(x), CellView::Bool(y)) => int_order(
            if x {
                1
            } else {
                0
            },
            if y {
                1
            } else {
                0
            },
        ),
        (CellView::Int(x), CellView::Int(y)) => int_order(x as int, y as int),
        (CellView::Float { bits: x, text: _ }, CellView::Float { bits: y, text: _ }) => int_order(
            total_rank(x),
            total_rank(y),
        ),
        (CellView::Int(x), CellView::Float { bits: y, text: _ }) => int_float_order(x as int, y),
        (CellView::Float { bits: x, text: _ }, CellView::Int(y)) => -int_float_order(y as int, x),
        (CellView::Str(x), CellView::Str(y)) => text_order(x, y),
        _ => int_order(kind_rank(a), kind_rank(b)),
    }
}

/// The order of two keys: that of the first cells that differ, or the shorter
/// one first.
pub open spec fn key_order(a: Seq<CellView>, b: Seq<CellView>) -> int
    decreases a.len(),
{
    if a.len() == 0 || b.len() == 0 {
        int_order(a.len() as int, b.len() as int)
    } else if cell_order(a[0], b[0]) != 0 {
        cell_order(a[0], b[0])
    } else {
        key_order(a.drop_first(), b.drop_first())
    }
}

fn rank(c: &Cell) -> (r: i8)
    ensures
        r == kind_rank(c@),
{
    match c {
        Cell::Null => 0,
        Cell::Bool(_) => 1,
        Cell::Int(_) => 2,
        Cell::Float(_) => 2,
        Cell::Str(_) => 3,
    }
}

fn compare_ints(x: i64, y: i64) -> (r: i8)
    ensures
        r == int_order(x as int, y as int),
{
    if x < y {
        -1
    } else if x > y {
        1
    } else {
        0
    }
}

/// Compares two cells.
pub fn compare_cells(a: &Cell, b: &Cell) -> (r: i8)
    ensures
        r == cell_order(a@, b@),
{
    match (a, b) {
        (Cell::Bool(x), Cell::Bool(y)) => compare_ints(if *x { 1 } else { 0 }, if *y { 1 } else { 0 }),
        (Cell::Int(x), Cell::Int(y)) => compare_ints(*x, *y),
        (Cell::Float(x), Cell::Float(y)) => compare_ints(float_rank(x.bits), float_rank(y.bits)),
        (Cell::Int(x), Cell::Float(y)) => compare_with_int(*x, y.bits),
        (Cell::Float(x), Cell::Int(y)) => -compare_with_int(*y, x.bits),
        (Cell::Str(x), Cell::Str(y)) => compare_text(x.as_str(), y.as_str()),
        _ => compare_ints(rank(a) as i64, rank(b) as i64),
    }
}

/// The ordering that a sign stands for.
pub open spec fn ordering_of(sign: int) -> Ordering {
    if sign < 0 {
        Ordering::Less
    } else if sign > 0 {
        Ordering::Greater
    } else {
        Ordering::Equal
    }
}

fn to_ordering(sign: i8) -> (r: Ordering)
    ensures
        sign < 0 ==> r == Ordering::Less,
        sign == 0 ==> r == Ordering::Equal,
        sign > 0 ==> r == Ordering::Greater,
{
    if sign < 0 {
        Ordering::Less
    } else if sign > 0 {
        Ordering::Greater
    } else {
        Ordering::Equal
    }
}

/// Total order used for sorting keys; values of unrelated types order by rank.
pub fn cmp_cells(a: &Cell, b: &Cell) -> (r: Ordering)
    ensures
        r == ordering_of(cell_order(a@, b@)),
{
    to_ordering(compare_cells(a, b))
}

/// Compares two keys, cell by cell.
pub fn compare_keys(a: &[Cell], b: &[Cell]) -> (r: i8)
    ensures
        r == key_order(cell_views(a@), cell_views(b@)),
{
    let ghost x = cell_views(a@);
    let ghost y = cell_views(b@);
    let mut i: usize = 0;
    assert(x.skip(0) =~= x);
    assert(y.skip(0) =~= y);
    while i < a.len() && i < b.len()
        invariant
            i <= a.len(),
            i <= b.len(),
            x == cell_views(a@),
            y == cell_views(b@),
            key_order(x.skip(i as int), y.skip(i as int)) == key_order(x, y),
        decreases a.len() - i,
    {
        proof {
            assert(x.skip(i as int).drop_first() =~= x.skip(i + 1));
            assert(y.skip(i as int).drop_first() =~= y.skip(i + 1));
        }
        let o = compare_cells(&a[i], &b[i]);
        if o != 0 {
            return o;
        }
        i = i + 1;
    }
    if a.len() < b.len() {
        -1
    } else if a.len() > b.len() {
        1
    } else {
        0
    }
}

/// Total order of keys: cell by cell, and the shorter one first.
pub fn cmp_keys(a: &[Cell], b: &[Cell]) -> (r: Ordering)
    ensures
        r == ordering_of(key_order(cell_views(a@), cell_views(b@))),
{
    to_ordering(compare_keys(a, b))
}

/// Two doubles are as far apart one way as the other.
proof fn lemma_floats_match_symmetric(c: Comparator, a: u64, b: u64)
    ensures
        floats_match(c, a, b) == floats_match(c, b, a),
{
    if !is_nan(a) && !is_nan(b) {
        assert(larger(magnitude(a), magnitude(b)) == larger(magnitude(b), magnitude(a)));
        assert(gap(a, b) == gap(b, a));
    }
}

/// Whether two cells match does not depend on which is looked at first.
pub proof fn law_matching_is_symmetric(c: Comparator, a: CellView, b: CellView)
    ensures
        cells_match(c, a, b) == cells_match(c, b, a),
{
    match (a, b) {
        (CellView::Float { bits: x, text: _ }, CellView::Float { bits: y, text: _ }) => {
            lemma_floats_match_symmetric(c, x, y);
        },
        _ => {},
    }
}

/// Every cell matches itself, a NaN too.
pub proof fn law_matching_is_reflexive(c: Comparator, a: CellView)
    ensures
        cells_match(c, a, a),
{
}

/// Without tolerances only equal floats match, and a NaN matches a NaN.
pub proof fn law_exact_by_default(a: u64, b: u64)
    ensures
        floats_match(Comparator { tol_abs: None, tol_rel: None }, a, b) <==> same_value(a, b) || (is_nan(
            a,
        ) && is_nan(b)),
{
    let m = larger(magnitude(a), magnitude(b));
    if !is_nan(a) && !is_nan(b) && m != crate::float::INFINITY {
        crate::float::lemma_zero_product(m);
    }
}

/// Tolerances only let more cells match.
pub proof fn law_tolerances_only_widen(c: Comparator, a: CellView, b: CellView)
    requires
        cells_match(Comparator { tol_abs: None, tol_rel: None }, a, b),
    ensures
        cells_match(c, a, b),
{
    match (a, b) {
        (CellView::Float { bits: x, text: _ }, CellView::Float { bits: y, text: _ }) => {
            law_exact_by_default(x, y);
        },
        (CellView::Int(x), CellView::Float { bits: y, text: _ }) => {
            law_exact_by_default(from_int(x as int), y);
        },
        (CellView::Float { bits: x, text: _ }, CellView::Int(y)) => {
            law_exact_by_default(from_int(y as int), x);
        },
        _ => {},
    }
}

/// True for a tolerance that a number may be given: not negative and no NaN.
pub open spec fn is_tolerance(t: Option<u64>) -> bool {
    !is_nan(or_zero(t)) && (is_negative(or_zero(t)) ==> magnitude(or_zero(t)) == 0)
}

/// True where one tolerance is at most another; none counts as zero.
pub open spec fn at_most(t: Option<u64>, u: Option<u64>) -> bool {
    magnitude(or_zero(t)) <= magnitude(or_zero(u))
}

proof fn lemma_floats_match_wider(c: Comparator, wider: Comparator, a: u64, b: u64)
    requires
        is_tolerance(c.tol_abs) && is_tolerance(c.tol_rel),
        is_tolerance(wider.tol_abs) && is_tolerance(wider.tol_rel),
        at_most(c.tol_abs, wider.tol_abs),
        at_most(c.tol_rel, wider.tol_rel),
        floats_match(c, a, b),
    ensures
        floats_match(wider, a, b),
{
    if !same_value(a, b) && !is_nan(a) {
        let most = larger(magnitude(a), magnitude(b));
        let x = or_zero(c.tol_rel);
        let y = or_zero(wider.tol_rel);
        if is_positive(product(x, most)) {
            if magnitude(x) == 0 && most < crate::float::INFINITY {
                crate::float::lemma_zero_product(most);
                assert(magnitude(product(x, most)) == 0);
            }
            lemma_product_increases(x, y, most);
        }
    }
}

/// Larger tolerances let the same cells match, and perhaps more.
pub proof fn law_larger_tolerances_match_more(c: Comparator, wider: Comparator, a: CellView, b: CellView)
    requires
        is_tolerance(c.tol_abs) && is_tolerance(c.tol_rel),
        is_tolerance(wider.tol_abs) && is_tolerance(wider.tol_rel),
        at_most(c.tol_abs, wider.tol_abs),
        at_most(c.tol_rel, wider.tol_rel),
        cells_match(c, a, b),
    ensures
        cells_match(wider, a, b),
{
    match (a, b) {
        (CellView::Float { bits: x, text: _ }, CellView::Float { bits: y, text: _ }) => {
            lemma_floats_match_wider(c, wider, x, y);
        },
        (CellView::Int(x), CellView::Float { bits: y, text: _ }) => {
            lemma_floats_match_wider(c, wider, from_int(x as int), y);
        },
        (CellView::Float { bits: x, text: _ }, CellView::Int(y)) => {
            lemma_floats_match_wider(c, wider, from_int(y as int), x);
        },
        _ => {},
    }
}

/// Whatever the tolerances, cells that are no floats match only where they are
/// the same.
pub proof fn law_tolerances_are_for_floats(c: Comparator, a: CellView, b: CellView)
    requires
        !(a is Float),
        !(b is Float),
    ensures
        cells_match(c, a, b) == (a == b),
{
}

/// True unless an integer meets a float, as never happens in one column.
pub open spec fn comparable(a: CellView, b: CellView) -> bool {
    !(a is Int && b is Float) && !(a is Float && b is Int)
}

/// Swapping two cells turns their order round.
pub proof fn law_cell_order_antisymmetric(a: CellView, b: CellView)
    ensures
        cell_order(a, b) == -cell_order(b, a),
        -1 <= cell_order(a, b) <= 1,
{
    match (a, b) {
        (CellView::Str(x), CellView::Str(y)) => {
            law_byte_order_total(encode_utf8(x), encode_utf8(y));
        },
        _ => {},
    }
}

/// The order of cells is transitive, also where integers meet floats.
pub proof fn law_cell_order_transitive(a: CellView, b: CellView, c: CellView)
    requires
        cell_order(a, b) <= 0,
        cell_order(b, c) <= 0,
    ensures
        cell_order(a, c) <= 0,
        cell_order(a, b) < 0 || cell_order(b, c) < 0 ==> cell_order(a, c) < 0,
{
    match (a, b, c) {
        (CellView::Str(x), CellView::Str(y), CellView::Str(z)) => {
            law_byte_order_transitive(encode_utf8(x), encode_utf8(y), encode_utf8(z));
        },
        (CellView::Int(i), CellView::Int(j), CellView::Float { bits: x, text: _ }) => {
            lemma_int_float_transitive(i as int, j as int, x, x);
        },
        (CellView::Int(i), CellView::Float { bits: x, text: _ }, CellView::Int(j)) => {
            lemma_int_float_transitive(i as int, j as int, x, x);
        },
        (CellView::Float { bits: x, text: _ }, CellView::Int(i), CellView::Int(j)) => {
            lemma_int_float_transitive(j as int, i as int, x, x);
        },
        (CellView::Int(i), CellView::Float { bits: x, text: _ }, CellView::Float { bits: y, text: _ }) => {
            lemma_total_rank_injective(x, y);
            lemma_int_float_transitive(i as int, i as int, x, y);
        },
        (CellView::Float { bits: x, text: _ }, CellView::Int(i), CellView::Float { bits: y, text: _ }) => {
            lemma_int_float_transitive(i as int, i as int, x, y);
        },
        (CellView::Float { bits: x, text: _ }, CellView::Float { bits: y, text: _ }, CellView::Int(i)) => {
            lemma_total_rank_injective(x, y);
            lemma_int_float_transitive(i as int, i as int, x, y);
        },
        _ => {},
    }
}

/// Swapping two keys turns their order round.
pub proof fn law_key_order_antisymmetric(a: Seq<CellView>, b: Seq<CellView>)
    ensures
        key_order(a, b) == -key_order(b, a),
        -1 <= key_order(a, b) <= 1,
    decreases a.len(),
{
    if a.len() > 0 && b.len() > 0 {
        law_cell_order_antisymmetric(a[0], b[0]);
        law_key_order_antisymmetric(a.drop_first(), b.drop_first());
    }
}

/// The order of keys is transitive.
pub proof fn law_key_order_transitive(a: Seq<CellView>, b: Seq<CellView>, c: Seq<CellView>)
    requires
        key_order(a, b) <= 0,
        key_order(b, c) <= 0,
    ensures
        key_order(a, c) <= 0,
        key_order(a, b) < 0 || key_order(b, c) < 0 ==> key_order(a, c) < 0,
    decreases a.len(),
{
    if a.len() > 0 && b.len() > 0 && c.len() > 0 {
        law_cell_order_antisymmetric(a[0], b[0]);
        law_cell_order_antisymmetric(b[0], c[0]);
        law_cell_order_antisymmetric(a[0], c[0]);
        law_cell_order_transitive(a[0], b[0], c[0]);
        if cell_order(a[0], b[0]) == 0 && cell_order(b[0], c[0]) == 0 {
            law_cell_order_transitive(c[0], b[0], a[0]);
            law_key_order_transitive(a.drop_first(), b.drop_first(), c.drop_first());
        }
    }
}

} // verus!
