//! Key columns: what stands for a value in a key, and the byte-comparable
//! form of a key.

use crate::float::{from_int, int_to_float, rank, single_rank, single_total_rank, total_rank, uint_to_float, widen, widened};
use crate::schema::{base_shape, base_type, DataType, TypeShape};
use crate::text::{byte_order, decimal, decimal_int, hex, hexadecimal, int_order, integer, law_byte_order_total, number, text_order};
use crate::value::Array;
use arrow::array::{ArrayRef, Int64Array, LargeBinaryArray, LargeStringArray};
use arrow::row::{RowConverter, SortField};
use std::sync::Arc;
use vstd::arithmetic::power::{lemma_pow0, pow};
use vstd::prelude::*;
use vstd::utf8::encode_utf8;

verus! {

/// The values of one key column, in the form in which they are ordered.
#[derive(Debug)]
pub enum KeyColumn {
    Ints(Vec<Option<i64>>),
    Texts(Vec<Option<String>>),
    Bytes(Vec<Option<Vec<u8>>>),
}

/// The forms that a key value can have.
pub enum KeyKind {
    Int,
    Text,
    Bytes,
}

/// One value of a key; a missing one is null.
pub enum KeyPart {
    Int(Option<i64>),
    Text(Option<Seq<char>>),
    Bytes(Option<Seq<u8>>),
}

pub open spec fn part_kind(p: KeyPart) -> KeyKind {
    match p {
        KeyPart::Int(_) => KeyKind::Int,
        KeyPart::Text(_) => KeyKind::Text,
        KeyPart::Bytes(_) => KeyKind::Bytes,
    }
}

/// The form in which the values of a type are ordered: numbers and booleans by
/// an integer, and what the library does not hold by bytes.
pub open spec fn kind_of(t: TypeShape) -> KeyKind {
    match t {
        TypeShape::Boolean => KeyKind::Int,
        TypeShape::Int8 | TypeShape::Int16 | TypeShape::Int32 | TypeShape::Int64 => KeyKind::Int,
        TypeShape::UInt8 | TypeShape::UInt16 | TypeShape::UInt32 => KeyKind::Int,
        TypeShape::UInt64 => KeyKind::Int,
        TypeShape::Float32 | TypeShape::Float64 => KeyKind::Int,
        TypeShape::Utf8 | TypeShape::LargeUtf8 | TypeShape::Utf8View => KeyKind::Text,
        _ => KeyKind::Bytes,
    }
}

impl KeyColumn {
    pub open spec fn spec_len(&self) -> nat {
        match self {
            KeyColumn::Ints(v) => v@.len(),
            KeyColumn::Texts(v) => v@.len(),
            KeyColumn::Bytes(v) => v@.len(),
        }
    }

    pub open spec fn kind(&self) -> KeyKind {
        match self {
            KeyColumn::Ints(_) => KeyKind::Int,
            KeyColumn::Texts(_) => KeyKind::Text,
            KeyColumn::Bytes(_) => KeyKind::Bytes,
        }
    }

    /// The value in a row.
    pub open spec fn part(&self, row: int) -> KeyPart {
        match self {
            KeyColumn::Ints(v) => KeyPart::Int(v@[row]),
            KeyColumn::Texts(v) => KeyPart::Text(text_view(v@[row])),
            KeyColumn::Bytes(v) => KeyPart::Bytes(bytes_view(v@[row])),
        }
    }
}

pub open spec fn text_view(s: Option<String>) -> Option<Seq<char>> {
    match s {
        None => None,
        Some(s) => Some(s@),
    }
}

pub open spec fn bytes_view(s: Option<Vec<u8>>) -> Option<Seq<u8>> {
    match s {
        None => None,
        Some(s) => Some(s@),
    }
}

/// The order of two values of one kind: null first, integers by value, and
/// strings by their bytes.
pub open spec fn part_order(a: KeyPart, b: KeyPart) -> int {
    match (a, b) {
        (KeyPart::Int(Some(x)), KeyPart::Int(Some(y))) => int_order(x as int, y as int),
        (KeyPart::Text(Some(x)), KeyPart::Text(Some(y))) => text_order(x, y),
        (KeyPart::Bytes(Some(x)), KeyPart::Bytes(Some(y))) => byte_order(x, y),
        _ => int_order(
            if is_null(a) {
                0
            } else {
                1
            },
            if is_null(b) {
                0
            } else {
                1
            },
        ),
    }
}

pub open spec fn is_null(p: KeyPart) -> bool {
    match p {
        KeyPart::Int(v) => v is None,
        KeyPart::Text(v) => v is None,
        KeyPart::Bytes(v) => v is None,
    }
}

/// The order of two keys: that of the first values that differ.
pub open spec fn parts_order(a: Seq<KeyPart>, b: Seq<KeyPart>) -> int
    decreases a.len(),
{
    if a.len() == 0 || b.len() == 0 {
        0
    } else if part_order(a[0], b[0]) != 0 {
        part_order(a[0], b[0])
    } else {
        parts_order(a.drop_first(), b.drop_first())
    }
}

/// True where two keys have values of the same kinds.
pub open spec fn same_kinds(a: Seq<KeyPart>, b: Seq<KeyPart>) -> bool {
    &&& a.len() == b.len()
    &&& forall|i: int| 0 <= i < a.len() ==> part_kind(#[trigger] a[i]) == part_kind(b[i])
}

/// The key in a row of key columns.
pub open spec fn parts_at(cols: Seq<KeyColumn>, row: int) -> Seq<KeyPart> {
    cols.map_values(|c: KeyColumn| c.part(row))
}

/// A key in byte-comparable form.
pub uninterp spec fn row_key(parts: Seq<KeyPart>) -> Seq<u8>;

/// Calls `arrow::row::RowConverter::convert_columns`, with one ascending,
/// nulls-first `SortField` per column, on Arrow columns that hold the given
/// values, and takes each row's `data`. The bytes of a row are a function of
/// its values, and two rows with values of the same kinds compare, byte by
/// byte, as their values do in turn. Which bytes they are is left unsaid.
#[verifier::external_body]
fn encode_rows(cols: &Vec<KeyColumn>, rows: usize) -> (r: Vec<Vec<u8>>)
    requires
        cols@.len() > 0,
        forall|i: int| 0 <= i < cols@.len() ==> (#[trigger] cols@[i]).spec_len() == rows,
    ensures
        r@.len() == rows,
        forall|i: int| 0 <= i < rows ==> (#[trigger] r@[i])@ == row_key(parts_at(cols@, i)),
        forall|i: int, b: Seq<KeyPart>|
            0 <= i < rows && same_kinds(parts_at(cols@, i), b) ==> byte_order(
                #[trigger] r@[i]@,
                #[trigger] row_key(b),
            ) == parts_order(parts_at(cols@, i), b),
{
    let columns: Vec<ArrayRef> = cols.iter().map(|c| -> ArrayRef { match c {
        KeyColumn::Ints(v) => Arc::new(Int64Array::from(v.clone())),
        KeyColumn::Texts(v) => Arc::new(LargeStringArray::from(v.clone())),
        KeyColumn::Bytes(v) => Arc::new(v.iter().map(|b| b.as_ref()).collect::<LargeBinaryArray>()),
    } }).collect();
    let fields = columns.iter().map(|c| SortField::new(c.data_type().clone())).collect();
    let rows = RowConverter::new(fields).unwrap().convert_columns(&columns).unwrap();
    rows.iter().map(|row| row.data().to_vec()).collect()
}

/// A 64-bit float cast to a string.
pub uninterp spec fn float_text(bits: u64) -> Seq<char>;

/// Calls `arrow::compute::cast` on a `Float64` column of one value, to `Utf8`:
/// the text is a function of the value's bits.
#[verifier::external_body]
fn cast_float(bits: u64) -> (r: String)
    ensures
        r@ == float_text(bits),
{
    let column = arrow::array::Float64Array::new(arrow::buffer::Buffer::from_vec(vec![bits]).into(), None);
    let text = arrow::compute::cast(&column, &arrow::datatypes::DataType::Utf8).unwrap();
    arrow::array::AsArray::as_string::<i32>(&text).value(0).to_owned()
}

/// A 32-bit float cast to a string.
pub uninterp spec fn single_text(bits: u32) -> Seq<char>;

/// Calls `arrow::compute::cast` on a `Float32` column of one value, to `Utf8`:
/// the text is a function of the value's bits.
#[verifier::external_body]
fn cast_single(bits: u32) -> (r: String)
    ensures
        r@ == single_text(bits),
{
    let column = arrow::array::Float32Array::new(arrow::buffer::Buffer::from_vec(vec![bits]).into(), None);
    let text = arrow::compute::cast(&column, &arrow::datatypes::DataType::Utf8).unwrap();
    arrow::array::AsArray::as_string::<i32>(&text).value(0).to_owned()
}

/// A number in base 256, most significant byte first.
pub open spec fn big_endian(n: nat, width: nat) -> Seq<u8>
    decreases width,
{
    if width == 0 {
        seq![]
    } else {
        big_endian(n / 256, (width - 1) as nat).push((n % 256) as u8)
    }
}

/// Numbers of that width have different digits where they differ.
pub proof fn lemma_big_endian_injective(n: nat, m: nat, width: nat)
    requires
        n < pow(256, width),
        m < pow(256, width),
        big_endian(n, width) == big_endian(m, width),
    ensures
        n == m,
    decreases width,
{
    if width == 0 {
        lemma_pow0(256);
    } else {
        let less = (width - 1) as nat;
        let a = big_endian(n, width);
        let b = big_endian(m, width);
        assert(a.last() == (n % 256) as u8 && b.last() == (m % 256) as u8);
        assert(a.drop_last() =~= big_endian(n / 256, less));
        assert(b.drop_last() =~= big_endian(m / 256, less));
        assert(pow(256, width) == 256 * pow(256, less)) by {
            reveal(pow);
        }
        lemma_big_endian_injective(n / 256, m / 256, less);
    }
}

fn to_big_endian(n: u128, width: usize) -> (r: Vec<u8>)
    ensures
        r@ == big_endian(n as nat, width as nat),
    decreases width,
{
    if width == 0 {
        let r: Vec<u8> = Vec::new();
        assert(r@ =~= big_endian(n as nat, 0));
        r
    } else {
        let mut r = to_big_endian(n / 256, width - 1);
        r.push((n % 256) as u8);
        r
    }
}

/// The integer by which a value is ordered: 0 or 1, an integer's value (taken
/// down to the range of signed ones), or the rank of a float's bits.
pub open spec fn native_int(col: Array, row: int) -> Option<int> {
    match col {
        Array::Boolean(v) => match v@[row] {
            None => None,
            Some(b) => Some(
                if b {
                    1
                } else {
                    0
                },
            ),
        },
        Array::UInt64(v) => match v@[row] {
            None => None,
            Some(x) => Some(x - 0x8000_0000_0000_0000),
        },
        Array::Int8(v) => match v@[row] {
            None => None,
            Some(x) => Some(x as int),
        },
        Array::Int16(v) => match v@[row] {
            None => None,
            Some(x) => Some(x as int),
        },
        Array::Int32(v) => match v@[row] {
            None => None,
            Some(x) => Some(x as int),
        },
        Array::Int64(v) => match v@[row] {
            None => None,
            Some(x) => Some(x as int),
        },
        Array::UInt8(v) => match v@[row] {
            None => None,
            Some(x) => Some(x as int),
        },
        Array::UInt16(v) => match v@[row] {
            None => None,
            Some(x) => Some(x as int),
        },
        Array::UInt32(v) => match v@[row] {
            None => None,
            Some(x) => Some(x as int),
        },
        Array::Float32(v) => match v@[row] {
            None => None,
            Some(x) => Some(single_total_rank(x.bits)),
        },
        Array::Float64(v) => match v@[row] {
            None => None,
            Some(x) => Some(total_rank(x.bits)),
        },
        _ => None,
    }
}

pub open spec fn int_part(i: Option<int>) -> KeyPart {
    KeyPart::Int(
        match i {
            None => None,
            Some(i) => Some(i as i64),
        },
    )
}

/// A value of a column, in the column's own type.
pub open spec fn native_part(col: Array, row: int) -> KeyPart {
    match col {
        Array::Utf8(v) => KeyPart::Text(text_view(v@[row])),
        Array::LargeUtf8(v) => KeyPart::Text(text_view(v@[row])),
        Array::Utf8View(v) => KeyPart::Text(text_view(v@[row])),
        Array::RowHash(v) => KeyPart::Bytes(Some(big_endian(v@[row] as nat, 16))),
        Array::Other(a) => a.native.part(row),
        _ => int_part(native_int(col, row)),
    }
}

/// The bits of a value cast to a double. Only numbers are cast to one.
pub open spec fn wide_bits(col: Array, row: int) -> Option<u64> {
    match col {
        Array::UInt64(v) => match v@[row] {
            None => None,
            Some(x) => Some(from_int(x as int)),
        },
        Array::Float32(v) => match v@[row] {
            None => None,
            Some(x) => Some(widened(x.bits)),
        },
        Array::Float64(v) => match v@[row] {
            None => None,
            Some(x) => Some(x.bits),
        },
        Array::Other(a) => a.wide@[row],
        _ => match native_int(col, row) {
            None => None,
            Some(i) => Some(from_int(i)),
        },
    }
}

/// A value cast to a double, as a key value.
pub open spec fn wide_part(col: Array, row: int) -> KeyPart {
    match wide_bits(col, row) {
        None => KeyPart::Int(None),
        Some(bits) => KeyPart::Int(Some(total_rank(bits) as i64)),
    }
}

/// A value cast to a string.
pub open spec fn cast_text(col: Array, row: int) -> Option<Seq<char>> {
    match col {
        Array::Boolean(v) => match v@[row] {
            None => None,
            Some(b) => Some(
                if b {
                    "true"@
                } else {
                    "false"@
                },
            ),
        },
        Array::UInt64(v) => match v@[row] {
            None => None,
            Some(u) => Some(decimal(u as nat)),
        },
        Array::Float32(v) => match v@[row] {
            None => None,
            Some(f) => Some(single_text(f.bits)),
        },
        Array::Float64(v) => match v@[row] {
            None => None,
            Some(f) => Some(float_text(f.bits)),
        },
        Array::Utf8(v) => text_view(v@[row]),
        Array::LargeUtf8(v) => text_view(v@[row]),
        Array::Utf8View(v) => text_view(v@[row]),
        Array::RowHash(v) => Some(hexadecimal(v@[row] as nat, 32)),
        Array::Other(a) => text_view(a.text@[row]),
        _ => match native_int(col, row) {
            None => None,
            Some(i) => Some(decimal_int(i)),
        },
    }
}

/// What stands for a value of a column in a key of type `t`: the value itself
/// where the column has that type, and otherwise the value cast to a double or
/// to a string.
pub open spec fn key_part(col: Array, t: TypeShape, row: int) -> KeyPart {
    if base_shape(col.type_shape()) == t {
        native_part(col, row)
    } else if t == TypeShape::Float64 {
        wide_part(col, row)
    } else {
        KeyPart::Text(cast_text(col, row))
    }
}

fn read_int(col: &Array, row: usize) -> (r: Option<i64>)
    requires
        row < col.spec_len(),
    ensures
        match native_int(*col, row as int) {
            None => r is None,
            Some(i) => r is Some && r->0 == i,
        },
{
    match col {
        Array::Boolean(v) => match v[row] {
            None => None,
            Some(b) => Some(if b { 1 } else { 0 }),
        },
        Array::UInt64(v) => match v[row] {
            None => None,
            Some(x) => Some((x as i128 - 0x8000_0000_0000_0000) as i64),
        },
        Array::Int8(v) => match v[row] {
            None => None,
            Some(x) => Some(x as i64),
        },
        Array::Int16(v) => match v[row] {
            None => None,
            Some(x) => Some(x as i64),
        },
        Array::Int32(v) => match v[row] {
            None => None,
            Some(x) => Some(x as i64),
        },
        Array::Int64(v) => v[row],
        Array::UInt8(v) => match v[row] {
            None => None,
            Some(x) => Some(x as i64),
        },
        Array::UInt16(v) => match v[row] {
            None => None,
            Some(x) => Some(x as i64),
        },
        Array::UInt32(v) => match v[row] {
            None => None,
            Some(x) => Some(x as i64),
        },
        Array::Float32(v) => match &v[row] {
            None => None,
            Some(x) => Some(single_rank(x.bits)),
        },
        Array::Float64(v) => match &v[row] {
            None => None,
            Some(x) => Some(rank(x.bits)),
        },
        _ => None,
    }
}

fn read_wide(col: &Array, row: usize) -> (r: Option<u64>)
    requires
        col.wf(),
        row < col.spec_len(),
    ensures
        r == wide_bits(*col, row as int),
{
    match col {
        Array::UInt64(v) => match v[row] {
            None => None,
            Some(x) => Some(uint_to_float(x)),
        },
        Array::Float32(v) => match &v[row] {
            None => None,
            Some(x) => Some(widen(x.bits)),
        },
        Array::Float64(v) => match &v[row] {
            None => None,
            Some(x) => Some(x.bits),
        },
        Array::Other(a) => a.wide[row],
        _ => match read_int(col, row) {
            None => None,
            Some(i) => Some(int_to_float(i)),
        },
    }
}

fn copy_text(s: &Option<String>) -> (r: Option<String>)
    ensures
        text_view(r) == text_view(*s),
{
    match s {
        None => None,
        Some(s) => Some(s.clone()),
    }
}

fn read_text(col: &Array, row: usize) -> (r: Option<String>)
    requires
        col.wf(),
        row < col.spec_len(),
    ensures
        text_view(r) == cast_text(*col, row as int),
{
    match col {
        Array::Boolean(v) => match v[row] {
            None => None,
            Some(b) => Some(if b { "true".to_owned() } else { "false".to_owned() }),
        },
        Array::UInt64(v) => match v[row] {
            None => None,
            Some(u) => Some(number(u as u128)),
        },
        Array::Float32(v) => match &v[row] {
            None => None,
            Some(f) => Some(cast_single(f.bits)),
        },
        Array::Float64(v) => match &v[row] {
            None => None,
            Some(f) => Some(cast_float(f.bits)),
        },
        Array::Utf8(v) => copy_text(&v[row]),
        Array::LargeUtf8(v) => copy_text(&v[row]),
        Array::Utf8View(v) => copy_text(&v[row]),
        Array::RowHash(v) => Some(hex(v[row], 32)),
        Array::Other(a) => copy_text(&a.text[row]),
        _ => match read_int(col, row) {
            None => None,
            Some(i) => Some(integer(i)),
        },
    }
}

/// Copies strings, and gaps between them.
pub fn copy_texts(v: &Vec<Option<String>>) -> (r: Vec<Option<String>>)
    ensures
        r@.len() == v@.len(),
        forall|i: int| 0 <= i < v@.len() ==> text_view(#[trigger] r@[i]) == text_view(v@[i]),
{
    let mut r: Vec<Option<String>> = Vec::new();
    for i in 0..v.len()
        invariant
            r.len() == i,
            forall|j: int| 0 <= j < i ==> text_view(#[trigger] r@[j]) == text_view(v@[j]),
    {
        r.push(copy_text(&v[i]));
    }
    r
}

fn copy_byte_strings(v: &Vec<Option<Vec<u8>>>) -> (r: Vec<Option<Vec<u8>>>)
    ensures
        r@.len() == v@.len(),
        forall|i: int| 0 <= i < v@.len() ==> bytes_view(#[trigger] r@[i]) == bytes_view(v@[i]),
{
    let mut r: Vec<Option<Vec<u8>>> = Vec::new();
    for i in 0..v.len()
        invariant
            r.len() == i,
            forall|j: int| 0 <= j < i ==> bytes_view(#[trigger] r@[j]) == bytes_view(v@[j]),
    {
        r.push(match &v[i] {
            None => None,
            Some(b) => Some(copy_bytes(b)),
        });
    }
    r
}

/// Copies bytes.
pub fn copy_bytes(v: &Vec<u8>) -> (r: Vec<u8>)
    ensures
        r@ == v@,
{
    let mut r: Vec<u8> = Vec::new();
    r.extend_from_slice(v.as_slice());
    assert(r@ =~= v@);
    r
}

/// Copies values that can be copied.
pub fn copied<T: Copy>(v: &Vec<T>) -> (r: Vec<T>)
    ensures
        r@ == v@,
{
    let mut r: Vec<T> = Vec::new();
    for i in 0..v.len()
        invariant
            r.len() == i,
            forall|j: int| 0 <= j < i ==> r@[j] == v@[j],
    {
        r.push(v[i]);
    }
    assert(r@ =~= v@);
    r
}

impl Clone for KeyColumn {
    fn clone(&self) -> (r: Self)
        ensures
            r.spec_len() == self.spec_len(),
            r.kind() == self.kind(),
            forall|row: int| 0 <= row < self.spec_len() ==> #[trigger] r.part(row) == self.part(row),
    {
        match self {
            KeyColumn::Ints(v) => KeyColumn::Ints(copied(v)),
            KeyColumn::Texts(v) => KeyColumn::Texts(copy_texts(v)),
            KeyColumn::Bytes(v) => KeyColumn::Bytes(copy_byte_strings(v)),
        }
    }
}

fn native_ints(col: &Array) -> (r: Vec<Option<i64>>)
    ensures
        r@.len() == col.spec_len(),
        forall|row: int|
            0 <= row < r@.len() ==> KeyPart::Int(#[trigger] r@[row]) == int_part(native_int(*col, row)),
{
    let n = col.len();
    let mut r: Vec<Option<i64>> = Vec::new();
    for i in 0..n
        invariant
            n == col.spec_len(),
            r.len() == i,
            forall|row: int|
                0 <= row < i ==> KeyPart::Int(#[trigger] r@[row]) == int_part(native_int(*col, row)),
    {
        r.push(read_int(col, i));
    }
    r
}

/// The key values of a column in its own type.
pub fn native_column(col: &Array) -> (r: KeyColumn)
    requires
        col.wf(),
    ensures
        r.spec_len() == col.spec_len(),
        forall|row: int| 0 <= row < r.spec_len() ==> #[trigger] r.part(row) == native_part(*col, row),
{
    match col {
        Array::Utf8(v) => KeyColumn::Texts(copy_texts(v)),
        Array::LargeUtf8(v) => KeyColumn::Texts(copy_texts(v)),
        Array::Utf8View(v) => KeyColumn::Texts(copy_texts(v)),
        Array::RowHash(v) => {
            let mut r: Vec<Option<Vec<u8>>> = Vec::new();
            for i in 0..v.len()
                invariant
                    r.len() == i,
                    forall|j: int|
                        0 <= j < i ==> bytes_view(#[trigger] r@[j]) == Some(
                            big_endian(v@[j] as nat, 16),
                        ),
            {
                r.push(Some(to_big_endian(v[i], 16)));
            }
            KeyColumn::Bytes(r)
        },
        Array::Other(a) => a.native.clone(),
        _ => KeyColumn::Ints(native_ints(col)),
    }
}

/// The key values of a column in a key of type `t`.
fn key_column(col: &Array, t: &DataType) -> (r: KeyColumn)
    requires
        col.wf(),
    ensures
        r.spec_len() == col.spec_len(),
        forall|row: int|
            0 <= row < r.spec_len() ==> #[trigger] r.part(row) == key_part(*col, t.shape(), row),
{
    let n = col.len();
    if base_type(&col.data_type()).same(t) {
        native_column(col)
    } else if t.same(&DataType::Float64) {
        let mut r: Vec<Option<i64>> = Vec::new();
        for i in 0..n
            invariant
                col.wf(),
                n == col.spec_len(),
                r.len() == i,
                forall|row: int| 0 <= row < i ==> KeyPart::Int(#[trigger] r@[row]) == wide_part(*col, row),
        {
            r.push(match read_wide(col, i) {
                None => None,
                Some(bits) => Some(rank(bits)),
            });
        }
        KeyColumn::Ints(r)
    } else {
        let mut r: Vec<Option<String>> = Vec::new();
        for i in 0..n
            invariant
                col.wf(),
                n == col.spec_len(),
                r.len() == i,
                forall|row: int| 0 <= row < i ==> text_view(#[trigger] r@[row]) == cast_text(*col, row),
        {
            r.push(read_text(col, i));
        }
        KeyColumn::Texts(r)
    }
}

/// The key in a row: for each key column, its value in the agreed type.
pub open spec fn key_parts(
    columns: Seq<Array>,
    idx: Seq<usize>,
    types: Seq<TypeShape>,
    row: int,
) -> Seq<KeyPart> {
    Seq::new(idx.len(), |i: int| key_part(columns[idx[i] as int], types[i], row))
}

/// The types of key columns.
pub open spec fn shapes(types: Seq<DataType>) -> Seq<TypeShape> {
    types.map_values(|t: DataType| t.shape())
}

/// Encodes the key of every row.
pub fn encode_keys(columns: &Vec<Array>, idx: &Vec<usize>, types: &Vec<DataType>, rows: usize) -> (r: Vec<
    Vec<u8>,
>)
    requires
        idx@.len() > 0,
        types@.len() == idx@.len(),
        forall|i: int| 0 <= i < idx@.len() ==> #[trigger] idx@[i] < columns@.len(),
        forall|i: int|
            0 <= i < columns@.len() ==> (#[trigger] columns@[i]).wf() && columns@[i].spec_len() == rows,
    ensures
        r@.len() == rows,
        forall|i: int|
            0 <= i < rows ==> (#[trigger] r@[i])@ == row_key(
                key_parts(columns@, idx@, shapes(types@), i),
            ),
        forall|i: int, b: Seq<KeyPart>|
            0 <= i < rows && same_kinds(key_parts(columns@, idx@, shapes(types@), i), b) ==> byte_order(
                #[trigger] r@[i]@,
                #[trigger] row_key(b),
            ) == parts_order(key_parts(columns@, idx@, shapes(types@), i), b),
{
    let mut cols: Vec<KeyColumn> = Vec::new();
    for k in 0..idx.len()
        invariant
            types@.len() == idx@.len(),
            cols.len() == k,
            forall|i: int| 0 <= i < idx@.len() ==> #[trigger] idx@[i] < columns@.len(),
            forall|i: int|
                0 <= i < columns@.len() ==> (#[trigger] columns@[i]).wf() && columns@[i].spec_len()
                    == rows,
            forall|i: int|
                #![trigger cols@[i]]
                0 <= i < k ==> cols@[i].spec_len() == rows && (forall|row: int|
                    0 <= row < rows ==> #[trigger] cols@[i].part(row) == key_part(
                        columns@[idx@[i] as int],
                        types@[i].shape(),
                        row,
                    )),
    {
        assert(idx@[k as int] < columns@.len());
        let at = idx[k];
        cols.push(key_column(&columns[at], &types[k]));
    }
    assert forall|row: int| 0 <= row < rows implies #[trigger] parts_at(cols@, row) == key_parts(
        columns@,
        idx@,
        shapes(types@),
        row,
    ) by {
        assert(parts_at(cols@, row) =~= key_parts(columns@, idx@, shapes(types@), row));
    }
    let r = encode_rows(&cols, rows);
    assert forall|i: int, b: Seq<KeyPart>|
        0 <= i < rows && same_kinds(key_parts(columns@, idx@, shapes(types@), i), b) implies byte_order(
        #[trigger] r@[i]@,
        #[trigger] row_key(b),
    ) == parts_order(key_parts(columns@, idx@, shapes(types@), i), b) by {
        assert(parts_at(cols@, i) == key_parts(columns@, idx@, shapes(types@), i));
    }
    r
}

/// Values of one kind compare equal only where they are the same.
proof fn lemma_part_order_zero(a: KeyPart, b: KeyPart)
    requires
        part_kind(a) == part_kind(b),
        part_order(a, b) == 0,
    ensures
        a == b,
{
    match (a, b) {
        (KeyPart::Text(Some(x)), KeyPart::Text(Some(y))) => {
            law_byte_order_total(encode_utf8(x), encode_utf8(y));
            vstd::utf8::encode_utf8_decode_utf8(x);
            vstd::utf8::encode_utf8_decode_utf8(y);
        },
        (KeyPart::Bytes(Some(x)), KeyPart::Bytes(Some(y))) => {
            law_byte_order_total(x, y);
        },
        _ => {},
    }
}

/// Keys with values of the same kinds compare equal only where all of their
/// values are the same.
pub proof fn law_equal_keys_have_equal_parts(a: Seq<KeyPart>, b: Seq<KeyPart>)
    requires
        same_kinds(a, b),
    ensures
        parts_order(a, b) == 0 <==> a == b,
    decreases a.len(),
{
    if a.len() > 0 {
        assert(part_kind(a[0]) == part_kind(b[0]));
        let x = a.drop_first();
        let y = b.drop_first();
        assert forall|i: int| 0 <= i < x.len() implies part_kind(#[trigger] x[i]) == part_kind(y[i]) by {
            assert(part_kind(a[i + 1]) == part_kind(b[i + 1]));
        }
        law_equal_keys_have_equal_parts(x, y);
        if parts_order(a, b) == 0 {
            lemma_part_order_zero(a[0], b[0]);
            assert(a =~= seq![a[0]] + x);
            assert(b =~= seq![b[0]] + y);
        }
        if a == b {
            lemma_part_order_same(a[0]);
        }
    } else {
        assert(a =~= b);
    }
}

proof fn lemma_part_order_same(a: KeyPart)
    ensures
        part_order(a, a) == 0,
{
    match a {
        KeyPart::Text(Some(x)) => law_byte_order_total(encode_utf8(x), encode_utf8(x)),
        KeyPart::Bytes(Some(x)) => law_byte_order_total(x, x),
        _ => {},
    }
}

/// Two columns hold the same values.
pub open spec fn same_values(a: Array, b: Array) -> bool {
    &&& a.wf() == b.wf()
    &&& a.spec_len() == b.spec_len()
    &&& a.type_shape() == b.type_shape()
    &&& forall|i: int| 0 <= i < a.spec_len() ==> #[trigger] a.cell(i) == b.cell(i)
    &&& forall|t: TypeShape, i: int|
        0 <= i < a.spec_len() ==> #[trigger] key_part(a, t, i) == key_part(b, t, i)
}

} // verus!
