//! Whole-row content hashing for keyless mode: appends a synthetic hash
//! column so the external-sort/merge pipeline can treat it as the key.

use crate::error::{Error, ErrorView};
use crate::float::{equal, float_to_int, from_int, int_to_float, is_nan, lemma_from_int_is_number, lemma_zero_to_int, nan, same_value, to_int, NAN};
use crate::input::Batch;
use crate::key::copied;
use crate::schema::{first_missing, has_column, places, DataType, Field, FieldShape, Schema, TypeShape};
use crate::text::{number, views};
use crate::value::{cell_views, cells_match, extract, floats_match, law_exact_by_default, unsigned_cell, Array, Cell, CellView, Comparator};
use arrow::array::FixedSizeBinaryArray;
use vstd::bytes::{lemma_auto_spec_u64_to_from_le_bytes, spec_u64_from_le_bytes, spec_u64_to_le_bytes, u64_to_le_bytes};
use vstd::prelude::*;
use vstd::utf8::encode_utf8;

verus! {

/// The name of the column that holds the hashes.
pub const HASH_COL: &'static str = "__tabdiff_row_hash";

/// The two's complement pattern of an integer.
pub open spec fn pattern(i: i64) -> u64 {
    if i < 0 {
        (i + 0x1_0000_0000_0000_0000) as u64
    } else {
        i as u64
    }
}

/// An integer, as it is hashed.
pub open spec fn int_bytes(i: i64) -> Seq<u8> {
    seq![2u8] + spec_u64_to_le_bytes(pattern(i))
}

/// True for a double that stands for an integer.
pub open spec fn is_integral(bits: u64) -> bool {
    same_value(from_int(to_int(bits) as int), bits)
}

/// A double, as it is hashed: as an integer where it stands for one, and with
/// one pattern for every NaN.
pub open spec fn float_bytes(bits: u64) -> Seq<u8> {
    if is_integral(bits) {
        int_bytes(to_int(bits))
    } else if is_nan(bits) {
        seq![3u8] + spec_u64_to_le_bytes(NAN)
    } else {
        seq![3u8] + spec_u64_to_le_bytes(bits)
    }
}

/// A string, as it is hashed: its length in bytes, and its bytes.
pub open spec fn text_bytes(s: Seq<char>) -> Seq<u8> {
    seq![4u8] + spec_u64_to_le_bytes(encode_utf8(s).len() as u64) + encode_utf8(s)
}

/// A cell, as it is hashed.
pub open spec fn cell_bytes(c: CellView) -> Seq<u8> {
    match c {
        CellView::Null => seq![0u8],
        CellView::Bool(b) => seq![1u8, if b { 1u8 } else { 0u8 }],
        CellView::Int(i) => int_bytes(i),
        CellView::Float { bits, text: _ } => float_bytes(bits),
        CellView::Str(s) => text_bytes(s),
    }
}

/// A row, as it is hashed: its cells one after the other.
pub open spec fn row_bytes(cells: Seq<CellView>) -> Seq<u8>
    decreases cells.len(),
{
    if cells.len() == 0 {
        seq![]
    } else {
        row_bytes(cells.drop_last()) + cell_bytes(cells.last())
    }
}

/// Puts bytes at the end of a buffer.
fn write_all(buf: &mut Vec<u8>, bytes: &[u8])
    ensures
        final(buf)@ == old(buf)@ + bytes@,
{
    buf.extend_from_slice(bytes);
    assert(buf@ =~= old(buf)@ + bytes@);
}

fn write_int(buf: &mut Vec<u8>, i: i64)
    ensures
        final(buf)@ == old(buf)@ + int_bytes(i),
{
    let p: u64 = if i < 0 { (i as i128 + 0x1_0000_0000_0000_0000) as u64 } else { i as u64 };
    buf.push(2);
    write_all(buf, u64_to_le_bytes(p).as_slice());
    assert(buf@ =~= old(buf)@ + int_bytes(i));
}

fn write_float(buf: &mut Vec<u8>, bits: u64)
    ensures
        final(buf)@ == old(buf)@ + float_bytes(bits),
{
    let as_int = float_to_int(bits);
    if equal(int_to_float(as_int), bits) {
        write_int(buf, as_int);
    } else if nan(bits) {
        buf.push(3);
        write_all(buf, u64_to_le_bytes(NAN).as_slice());
        assert(buf@ =~= old(buf)@ + float_bytes(bits));
    } else {
        buf.push(3);
        write_all(buf, u64_to_le_bytes(bits).as_slice());
        assert(buf@ =~= old(buf)@ + float_bytes(bits));
    }
}

fn write_text(buf: &mut Vec<u8>, s: &str)
    ensures
        final(buf)@ == old(buf)@ + text_bytes(s@),
{
    let bytes = s.as_bytes();
    buf.push(4);
    write_all(buf, u64_to_le_bytes(bytes.len() as u64).as_slice());
    write_all(buf, bytes);
    assert(buf@ =~= old(buf)@ + text_bytes(s@));
}

fn write_bool(buf: &mut Vec<u8>, b: bool)
    ensures
        final(buf)@ == old(buf)@ + cell_bytes(CellView::Bool(b)),
{
    buf.push(1);
    buf.push(if b { 1 } else { 0 });
    assert(buf@ =~= old(buf)@ + cell_bytes(CellView::Bool(b)));
}

fn write_null(buf: &mut Vec<u8>)
    ensures
        final(buf)@ == old(buf)@ + cell_bytes(CellView::Null),
{
    buf.push(0);
    assert(buf@ =~= old(buf)@ + cell_bytes(CellView::Null));
}

/// Serializes a cell for hashing with the same normalization the keyed
/// comparator applies: integral floats hash like ints (so CSV `1` matches
/// Parquet `1.0`), NaN is canonical, and -0.0 folds into 0.
pub fn write_cell(buf: &mut Vec<u8>, c: &Cell)
    ensures
        final(buf)@ == old(buf)@ + cell_bytes(c@),
{
    match c {
        Cell::Null => write_null(buf),
        Cell::Bool(b) => write_bool(buf, *b),
        Cell::Int(i) => write_int(buf, *i),
        Cell::Float(f) => write_float(buf, f.bits),
        Cell::Str(s) => write_text(buf, s.as_str()),
    }
}

/// The 128-bit XXH3 hash of bytes, with the default seed and secret.
pub uninterp spec fn xxh3(bytes: Seq<u8>) -> u128;

/// Calls `twox_hash::XxHash3_128::oneshot`: the hash is a function of the
/// bytes. Nothing is said of which hashes differ.
#[verifier::external_body]
fn content_hash(bytes: &[u8]) -> (h: u128)
    ensures
        h == xxh3(bytes@),
{
    twox_hash::XxHash3_128::oneshot(bytes)
}

/// Hashes a row of cells.
pub fn row_hash(cells: &[Cell]) -> (h: u128)
    ensures
        h == xxh3(row_bytes(cell_views(cells@))),
{
    let ghost all = cell_views(cells@);
    let mut buf: Vec<u8> = Vec::new();
    assert(buf@ =~= row_bytes(all.take(0)));
    for i in 0..cells.len()
        invariant
            all == cell_views(cells@),
            buf@ == row_bytes(all.take(i as int)),
    {
        write_cell(&mut buf, &cells[i]);
        proof {
            assert(all.take(i + 1).drop_last() =~= all.take(i as int));
            assert(all.take(i + 1).last() == cells@[i as int]@);
        }
    }
    assert(all.take(all.len() as int) =~= all);
    content_hash(buf.as_slice())
}

/// Column pre-normalized, once per batch, so that the per-row write needs no
/// look at its type. Encodings stay byte-identical with [`write_cell`].
pub enum PreppedCol {
    Bool(Vec<Option<bool>>),
    Int(Vec<Option<i64>>),
    UInt(Vec<Option<u64>>),
    Float(Vec<Option<u64>>),
    Str(Vec<Option<String>>),
}

impl PreppedCol {
    /// The number of rows.
    pub open spec fn spec_len(&self) -> nat {
        match self {
            PreppedCol::Bool(v) => v@.len(),
            PreppedCol::Int(v) => v@.len(),
            PreppedCol::UInt(v) => v@.len(),
            PreppedCol::Float(v) => v@.len(),
            PreppedCol::Str(v) => v@.len(),
        }
    }

    /// What is hashed for a row.
    pub open spec fn bytes(&self, row: int) -> Seq<u8> {
        match self {
            PreppedCol::Bool(v) => match v@[row] {
                None => cell_bytes(CellView::Null),
                Some(b) => cell_bytes(CellView::Bool(b)),
            },
            PreppedCol::Int(v) => match v@[row] {
                None => cell_bytes(CellView::Null),
                Some(i) => int_bytes(i),
            },
            PreppedCol::UInt(v) => match v@[row] {
                None => cell_bytes(CellView::Null),
                Some(u) => cell_bytes(unsigned_cell(u)),
            },
            PreppedCol::Float(v) => match v@[row] {
                None => cell_bytes(CellView::Null),
                Some(bits) => float_bytes(bits),
            },
            PreppedCol::Str(v) => match v@[row] {
                None => cell_bytes(CellView::Null),
                Some(s) => text_bytes(s@),
            },
        }
    }

    /// Normalizes a column: what is hashed for a row is what its cell gives.
    pub fn new(col: &Array) -> (r: Self)
        ensures
            r.spec_len() == col.spec_len(),
            forall|row: int|
                0 <= row < col.spec_len() ==> #[trigger] r.bytes(row) == cell_bytes(col.cell(row)),
    {
        match col {
            Array::Boolean(v) => PreppedCol::Bool(copied(v)),
            Array::UInt64(v) => PreppedCol::UInt(copied(v)),
            Array::Int8(_) | Array::Int16(_) | Array::Int32(_) | Array::Int64(_) | Array::UInt8(_)
            | Array::UInt16(_) | Array::UInt32(_) => PreppedCol::Int(ints(col)),
            Array::Float32(_) | Array::Float64(_) => PreppedCol::Float(floats(col)),
            _ => PreppedCol::Str(strings(col)),
        }
    }

    /// Writes a row for hashing.
    pub fn write_row(&self, row: usize, buf: &mut Vec<u8>)
        requires
            row < self.spec_len(),
        ensures
            final(buf)@ == old(buf)@ + self.bytes(row as int),
    {
        match self {
            PreppedCol::Bool(v) => match v[row] {
                None => write_null(buf),
                Some(b) => write_bool(buf, b),
            },
            PreppedCol::Int(v) => match v[row] {
                None => write_null(buf),
                Some(i) => write_int(buf, i),
            },
            PreppedCol::UInt(v) => match v[row] {
                None => write_null(buf),
                Some(u) => if u <= i64::MAX as u64 {
                    write_int(buf, u as i64)
                } else {
                    write_text(buf, number(u as u128).as_str())
                },
            },
            PreppedCol::Float(v) => match v[row] {
                None => write_null(buf),
                Some(bits) => write_float(buf, bits),
            },
            PreppedCol::Str(v) => match &v[row] {
                None => write_null(buf),
                Some(s) => write_text(buf, s.as_str()),
            },
        }
    }
}

/// The integers of a column whose cells are integers.
fn ints(col: &Array) -> (r: Vec<Option<i64>>)
    requires
        forall|row: int|
            0 <= row < col.spec_len() ==> (#[trigger] col.cell(row) is Null || col.cell(row) is Int),
    ensures
        r@.len() == col.spec_len(),
        forall|row: int|
            0 <= row < r@.len() ==> match #[trigger] r@[row] {
                None => col.cell(row) == CellView::Null,
                Some(i) => col.cell(row) == CellView::Int(i),
            },
{
    let n = col.len();
    let mut r: Vec<Option<i64>> = Vec::new();
    for i in 0..n
        invariant
            n == col.spec_len(),
            r.len() == i,
            forall|row: int|
                0 <= row < col.spec_len() ==> (#[trigger] col.cell(row) is Null || col.cell(row) is Int),
            forall|row: int|
                0 <= row < i ==> match #[trigger] r@[row] {
                    None => col.cell(row) == CellView::Null,
                    Some(x) => col.cell(row) == CellView::Int(x),
                },
    {
        assert(col.cell(i as int) is Null || col.cell(i as int) is Int);
        match extract(col, i) {
            Cell::Int(x) => r.push(Some(x)),
            _ => r.push(None),
        }
    }
    r
}

/// The bit patterns of a column whose cells are floats.
fn floats(col: &Array) -> (r: Vec<Option<u64>>)
    requires
        forall|row: int|
            0 <= row < col.spec_len() ==> (#[trigger] col.cell(row) is Null || col.cell(row) is Float),
    ensures
        r@.len() == col.spec_len(),
        forall|row: int|
            0 <= row < r@.len() ==> match #[trigger] r@[row] {
                None => col.cell(row) == CellView::Null,
                Some(bits) => col.cell(row) matches CellView::Float { bits: b, text: _ } && b == bits,
            },
{
    let n = col.len();
    let mut r: Vec<Option<u64>> = Vec::new();
    for i in 0..n
        invariant
            n == col.spec_len(),
            r.len() == i,
            forall|row: int|
                0 <= row < col.spec_len() ==> (#[trigger] col.cell(row) is Null || col.cell(
                    row,
                ) is Float),
            forall|row: int|
                0 <= row < i ==> match #[trigger] r@[row] {
                    None => col.cell(row) == CellView::Null,
                    Some(bits) => col.cell(row) matches CellView::Float { bits: b, text: _ } && b == bits,
                },
    {
        assert(col.cell(i as int) is Null || col.cell(i as int) is Float);
        match extract(col, i) {
            Cell::Float(f) => r.push(Some(f.bits)),
            _ => r.push(None),
        }
    }
    r
}

/// The strings of a column whose cells are strings.
fn strings(col: &Array) -> (r: Vec<Option<String>>)
    requires
        forall|row: int|
            0 <= row < col.spec_len() ==> (#[trigger] col.cell(row) is Null || col.cell(row) is Str),
    ensures
        r@.len() == col.spec_len(),
        forall|row: int|
            0 <= row < r@.len() ==> match #[trigger] r@[row] {
                None => col.cell(row) == CellView::Null,
                Some(s) => col.cell(row) == CellView::Str(s@),
            },
{
    let n = col.len();
    let mut r: Vec<Option<String>> = Vec::new();
    for i in 0..n
        invariant
            n == col.spec_len(),
            r.len() == i,
            forall|row: int|
                0 <= row < col.spec_len() ==> (#[trigger] col.cell(row) is Null || col.cell(row) is Str),
            forall|row: int|
                0 <= row < i ==> match #[trigger] r@[row] {
                    None => col.cell(row) == CellView::Null,
                    Some(s) => col.cell(row) == CellView::Str(s@),
                },
    {
        assert(col.cell(i as int) is Null || col.cell(i as int) is Str);
        match extract(col, i) {
            Cell::Str(s) => r.push(Some(s)),
            _ => r.push(None),
        }
    }
    r
}

/// The cells of a row in the given columns.
pub open spec fn picked(cells: Seq<CellView>, idx: Seq<usize>) -> Seq<CellView> {
    idx.map_values(|i: usize| cells[i as int])
}

/// Calls `FixedSizeBinaryArray::try_new` on the hashes, most significant byte
/// first, and `get_array_memory_size` on the array. How much memory that is
/// depends on what was allocated; it holds the 16 bytes of each hash at least.
#[verifier::external_body]
fn hash_column_size(hashes: &Vec<u128>) -> (n: usize)
    ensures
        n >= 16 * hashes@.len(),
{
    let bytes: Vec<[u8; 16]> = hashes.iter().map(|h| h.to_be_bytes()).collect();
    let values = FixedSizeBinaryArray::try_new(16, bytes.into_flattened().into(), None).unwrap();
    arrow::array::Array::get_array_memory_size(&values)
}

/// Where the hashed columns are, and the schema with the hash column.
#[derive(Debug)]
pub struct RowHasher {
    pub idx: Vec<usize>,
    pub schema: Schema,
}

/// The hash column.
pub open spec fn hash_field() -> FieldShape {
    FieldShape {
        name: HASH_COL@,
        data_type: TypeShape::Other { name: "FixedSizeBinary(16)"@, numeric: false },
    }
}

/// Prepares to append a hash column computed over `cols` in the given
/// canonical order (must match on both sides of the diff).
pub fn with_row_hash(schema: &Schema, cols: &Vec<String>) -> (r: Result<RowHasher, Error>)
    ensures
        match r {
            Ok(h) => {
                &&& !has_column(schema@, HASH_COL@)
                &&& first_missing(schema@, views(cols@)) is None
                &&& h.idx@ == places(schema@, views(cols@))
                &&& forall|i: int| 0 <= i < h.idx@.len() ==> #[trigger] h.idx@[i] < schema@.len()
                &&& h.schema@ == schema@.push(hash_field())
            },
            Err(e) => if has_column(schema@, HASH_COL@) {
                e@ == ErrorView::HashColumnTaken
            } else {
                first_missing(schema@, views(cols@)) matches Some(name) && e@
                    == (ErrorView::MissingColumn { column: name })
            },
        },
{
    if schema.index_of(HASH_COL).is_some() {
        return Err(Error::HashColumnTaken);
    }
    let idx = match schema.indices_of(cols) {
        Ok(idx) => idx,
        Err(e) => {
            return Err(e);
        },
    };
    let mut out = schema.clone();
    let ghost before = out@;
    out.fields.push(
        Field {
            name: HASH_COL.to_owned(),
            data_type: DataType::Other { name: "FixedSizeBinary(16)".to_owned(), numeric: false },
        },
    );
    assert(out@ =~= before.push(hash_field()));
    Ok(RowHasher { idx, schema: out })
}

impl RowHasher {
    /// Appends the hash column to a batch.
    pub fn append_hash(&self, batch: Batch) -> (r: Batch)
        requires
            batch.wf(),
            forall|i: int| 0 <= i < self.idx@.len() ==> #[trigger] self.idx@[i] < batch.columns@.len(),
        ensures
            r.wf(),
            r.rows == batch.rows,
            r.sizes@.len() == batch.sizes@.len() + 1,
            r.sizes@.drop_last() == batch.sizes@,
            r.sizes@.last() >= 16 * batch.rows,
            r.columns@.len() == batch.columns@.len() + 1,
            r.columns@.drop_last() == batch.columns@,
            r.columns@.last() matches Array::RowHash(hashes) && hashes@ =~= Seq::new(
                batch.rows as nat,
                |row: int| xxh3(row_bytes(picked(batch.row(row), self.idx@))),
            ),
    {
        let mut prepped: Vec<PreppedCol> = Vec::new();
        for i in 0..self.idx.len()
            invariant
                batch.wf(),
                forall|k: int|
                    0 <= k < self.idx@.len() ==> #[trigger] self.idx@[k] < batch.columns@.len(),
                prepped.len() == i,
                forall|k: int|
                    #![trigger prepped@[k]]
                    0 <= k < i ==> prepped@[k].spec_len() == batch.rows && (forall|row: int|
                        0 <= row < batch.rows ==> #[trigger] prepped@[k].bytes(row) == cell_bytes(
                            batch.columns@[self.idx@[k] as int].cell(row),
                        )),
        {
            let at = self.idx[i];
            assert(self.idx@[i as int] < batch.columns@.len());
            assert(batch.columns@[at as int].wf());
            prepped.push(PreppedCol::new(&batch.columns[at]));
        }
        let mut buf: Vec<u8> = Vec::new();
        let mut hashes: Vec<u128> = Vec::new();
        for row in 0..batch.rows
            invariant
                prepped.len() == self.idx.len(),
                hashes.len() == row,
                forall|k: int|
                    #![trigger prepped@[k]]
                    0 <= k < prepped.len() ==> prepped@[k].spec_len() == batch.rows && (forall|r: int|
                        0 <= r < batch.rows ==> #[trigger] prepped@[k].bytes(r) == cell_bytes(
                            batch.columns@[self.idx@[k] as int].cell(r),
                        )),
                forall|k: int|
                    0 <= k < self.idx@.len() ==> #[trigger] self.idx@[k] < batch.columns@.len(),
                forall|r: int|
                    0 <= r < row ==> #[trigger] hashes@[r] == xxh3(
                        row_bytes(picked(batch.row(r), self.idx@)),
                    ),
        {
            let ghost cells = picked(batch.row(row as int), self.idx@);
            buf.clear();
            assert(buf@ =~= row_bytes(cells.take(0)));
            for k in 0..prepped.len()
                invariant
                    row < batch.rows,
                    prepped.len() == self.idx.len(),
                    cells == picked(batch.row(row as int), self.idx@),
                    forall|k: int|
                        #![trigger prepped@[k]]
                        0 <= k < prepped.len() ==> prepped@[k].spec_len() == batch.rows && (forall|
                            r: int,
                        |
                            0 <= r < batch.rows ==> #[trigger] prepped@[k].bytes(r) == cell_bytes(
                                batch.columns@[self.idx@[k] as int].cell(r),
                            )),
                    forall|k: int|
                        0 <= k < self.idx@.len() ==> #[trigger] self.idx@[k] < batch.columns@.len(),
                    buf@ == row_bytes(cells.take(k as int)),
            {
                assert(prepped@[k as int].bytes(row as int) == cell_bytes(
                    batch.columns@[self.idx@[k as int] as int].cell(row as int),
                ));
                prepped[k].write_row(row, &mut buf);
                proof {
                    assert(self.idx@[k as int] < batch.columns@.len());
                    assert(cells.take(k + 1).drop_last() =~= cells.take(k as int));
                    assert(cells.take(k + 1).last() == batch.columns@[self.idx@[k as int] as int].cell(
                        row as int,
                    ));
                }
            }
            assert(cells.take(prepped.len() as int) =~= cells);
            hashes.push(content_hash(buf.as_slice()));
        }
        let size = hash_column_size(&hashes);
        add_hashes(batch, hashes, size)
    }
}

/// Puts a column of hashes of a measured size behind the others.
pub fn add_hashes(batch: Batch, hashes: Vec<u128>, size: usize) -> (r: Batch)
    requires
        batch.wf(),
        hashes@.len() == batch.rows,
    ensures
        r.wf(),
        r.rows == batch.rows,
        r.columns@ == batch.columns@.push(Array::RowHash(hashes)),
        r.sizes@ == batch.sizes@.push(size),
{
    let rows = batch.rows;
    let mut columns = batch.columns;
    let mut sizes = batch.sizes;
    let ghost before = columns@;
    columns.push(Array::RowHash(hashes));
    sizes.push(size);
    let r = Batch { columns, rows, sizes };
    assert forall|i: int| 0 <= i < r.columns@.len() implies (#[trigger] r.columns@[i]).wf()
        && r.columns@[i].spec_len() == r.rows by {
        if i < before.len() {
            assert(r.columns@[i] == before[i]);
            assert(before[i].wf());
        }
    }
    r
}

/// How long a cell's bytes are, as its first bytes tell.
pub open spec fn frame_len(bytes: Seq<u8>) -> int {
    if bytes[0] == 0 {
        1
    } else if bytes[0] == 1 {
        2
    } else if bytes[0] == 2 || bytes[0] == 3 {
        9
    } else {
        9 + spec_u64_from_le_bytes(bytes.subrange(1, 9))
    }
}

/// Bytes that tell where they end.
pub open spec fn is_framed(bytes: Seq<u8>) -> bool {
    &&& bytes.len() > 0
    &&& bytes.len() == frame_len(bytes)
}

/// Framed bytes at the start of longer ones can be told apart from the rest.
proof fn lemma_frame_split(x: Seq<u8>, y: Seq<u8>, r: Seq<u8>, s: Seq<u8>)
    requires
        is_framed(x),
        is_framed(y),
        x + r == y + s,
    ensures
        x == y,
        r == s,
{
    let z = x + r;
    assert(z[0] == x[0]);
    assert((y + s)[0] == y[0]);
    if x[0] > 3 {
        assert(x.subrange(1, 9) =~= z.subrange(1, 9));
        assert(y.subrange(1, 9) =~= (y + s).subrange(1, 9));
    }
    assert(x.len() == y.len());
    assert(x =~= z.take(x.len() as int));
    assert(y =~= (y + s).take(y.len() as int));
    assert(r =~= z.skip(x.len() as int));
    assert(s =~= (y + s).skip(y.len() as int));
}

/// Byte strings one after the other.
pub open spec fn joined_bytes(parts: Seq<Seq<u8>>) -> Seq<u8>
    decreases parts.len(),
{
    if parts.len() == 0 {
        seq![]
    } else {
        joined_bytes(parts.drop_last()) + parts.last()
    }
}

proof fn lemma_joined_first(parts: Seq<Seq<u8>>)
    requires
        parts.len() > 0,
    ensures
        joined_bytes(parts) == parts[0] + joined_bytes(parts.drop_first()),
    decreases parts.len(),
{
    let head = parts.drop_last();
    if head.len() == 0 {
        assert(joined_bytes(head) =~= seq![]);
        assert(joined_bytes(parts.drop_first()) =~= seq![]);
        assert(joined_bytes(parts) =~= parts[0] + joined_bytes(parts.drop_first()));
    } else {
        lemma_joined_first(head);
        assert(parts.drop_first().drop_last() =~= head.drop_first());
        assert(joined_bytes(parts) =~= parts[0] + joined_bytes(parts.drop_first()));
    }
}

/// Framed byte strings one after the other can be taken apart again.
pub proof fn lemma_joined_injective(a: Seq<Seq<u8>>, b: Seq<Seq<u8>>)
    requires
        forall|i: int| 0 <= i < a.len() ==> is_framed(#[trigger] a[i]),
        forall|i: int| 0 <= i < b.len() ==> is_framed(#[trigger] b[i]),
        joined_bytes(a) == joined_bytes(b),
    ensures
        a == b,
    decreases a.len(),
{
    if a.len() > 0 {
        lemma_joined_first(a);
        assert(is_framed(a[0]));
    }
    if b.len() > 0 {
        lemma_joined_first(b);
        assert(is_framed(b[0]));
    }
    if a.len() > 0 && b.len() > 0 {
        let x = a.drop_first();
        let y = b.drop_first();
        lemma_frame_split(a[0], b[0], joined_bytes(x), joined_bytes(y));
        assert forall|i: int| 0 <= i < x.len() implies is_framed(#[trigger] x[i]) by {
            assert(is_framed(a[i + 1]));
        }
        assert forall|i: int| 0 <= i < y.len() implies is_framed(#[trigger] y[i]) by {
            assert(is_framed(b[i + 1]));
        }
        lemma_joined_injective(x, y);
        assert(a =~= seq![a[0]] + x);
        assert(b =~= seq![b[0]] + y);
    } else {
        if a.len() > 0 {
            assert(joined_bytes(a).len() >= a[0].len());
        }
        if b.len() > 0 {
            assert(joined_bytes(b).len() >= b[0].len());
        }
        assert(a =~= b);
    }
}

/// The bytes of each cell.
pub open spec fn all_cell_bytes(cells: Seq<CellView>) -> Seq<Seq<u8>> {
    cells.map_values(|c: CellView| cell_bytes(c))
}

proof fn lemma_row_bytes_joined(cells: Seq<CellView>)
    ensures
        row_bytes(cells) == joined_bytes(all_cell_bytes(cells)),
    decreases cells.len(),
{
    if cells.len() > 0 {
        lemma_row_bytes_joined(cells.drop_last());
        assert(all_cell_bytes(cells).drop_last() =~= all_cell_bytes(cells.drop_last()));
    }
}

/// A cell whose length in bytes can be written down.
pub open spec fn is_hashable(c: CellView) -> bool {
    c matches CellView::Str(s) ==> encode_utf8(s).len() <= u64::MAX
}

/// The bytes of a cell tell where they end.
pub proof fn lemma_cell_framed(c: CellView)
    requires
        is_hashable(c),
    ensures
        is_framed(cell_bytes(c)),
{
    lemma_auto_spec_u64_to_from_le_bytes();
    match c {
        CellView::Str(s) => {
            let n = encode_utf8(s).len() as u64;
            assert(text_bytes(s).subrange(1, 9) =~= spec_u64_to_le_bytes(n));
        },
        _ => {},
    }
}

/// Where two rows are hashed from the same bytes they have as many cells, and
/// each is hashed from the same bytes as its counterpart: the boundaries of
/// cells matter.
pub proof fn law_cell_boundaries_matter(a: Seq<CellView>, b: Seq<CellView>)
    requires
        forall|i: int| 0 <= i < a.len() ==> is_hashable(#[trigger] a[i]),
        forall|i: int| 0 <= i < b.len() ==> is_hashable(#[trigger] b[i]),
        row_bytes(a) == row_bytes(b),
    ensures
        a.len() == b.len(),
        forall|i: int| 0 <= i < a.len() ==> cell_bytes(#[trigger] a[i]) == cell_bytes(b[i]),
{
    lemma_row_bytes_joined(a);
    lemma_row_bytes_joined(b);
    let x = all_cell_bytes(a);
    let y = all_cell_bytes(b);
    assert forall|i: int| 0 <= i < x.len() implies is_framed(#[trigger] x[i]) by {
        lemma_cell_framed(a[i]);
    }
    assert forall|i: int| 0 <= i < y.len() implies is_framed(#[trigger] y[i]) by {
        lemma_cell_framed(b[i]);
    }
    lemma_joined_injective(x, y);
    assert(x.len() == a.len() && y.len() == b.len());
    assert forall|i: int| 0 <= i < a.len() implies cell_bytes(#[trigger] a[i]) == cell_bytes(b[i]) by {
        assert(x[i] == y[i]);
    }
}

proof fn lemma_int_bytes_injective(i: i64, j: i64)
    requires
        int_bytes(i) == int_bytes(j),
    ensures
        i == j,
{
    lemma_auto_spec_u64_to_from_le_bytes();
    assert(int_bytes(i).skip(1) =~= spec_u64_to_le_bytes(pattern(i)));
    assert(int_bytes(j).skip(1) =~= spec_u64_to_le_bytes(pattern(j)));
}

proof fn lemma_float_bytes_tag(bits: u64)
    ensures
        float_bytes(bits)[0] == (if is_integral(bits) {
            2u8
        } else {
            3u8
        }),
{
}

/// Two floats are hashed alike exactly where they match without tolerances.
proof fn lemma_floats_hash_alike(x: u64, y: u64)
    ensures
        float_bytes(x) == float_bytes(y) <==> same_value(x, y) || (is_nan(x) && is_nan(y)),
{
    lemma_auto_spec_u64_to_from_le_bytes();
    lemma_float_bytes_tag(x);
    lemma_float_bytes_tag(y);
    if float_bytes(x) == float_bytes(y) {
        if is_integral(x) {
            lemma_int_bytes_injective(to_int(x), to_int(y));
        } else {
            let p = if is_nan(x) {
                NAN
            } else {
                x
            };
            let q = if is_nan(y) {
                NAN
            } else {
                y
            };
            assert(float_bytes(x).skip(1) =~= spec_u64_to_le_bytes(p));
            assert(float_bytes(y).skip(1) =~= spec_u64_to_le_bytes(q));
            assert(p == q);
        }
    }
    if same_value(x, y) && x != y {
        lemma_zero_to_int(x);
        lemma_zero_to_int(y);
    }
}

/// An integer that a double holds exactly.
pub open spec fn is_exact(i: i64) -> bool {
    to_int(from_int(i as int)) == i
}

/// Cells are hashed alike exactly where they match without tolerances, but for
/// an integer that no double holds meeting a float: that one may match the
/// float nearest to it, and is hashed otherwise.
pub proof fn law_hashing_follows_matching(a: CellView, b: CellView)
    requires
        is_hashable(a),
        is_hashable(b),
        b is Float ==> (a matches CellView::Int(i) ==> is_exact(i)),
        a is Float ==> (b matches CellView::Int(i) ==> is_exact(i)),
    ensures
        cell_bytes(a) == cell_bytes(b) <==> cells_match(
            Comparator { tol_abs: None, tol_rel: None },
            a,
            b,
        ),
{
    let exact = Comparator { tol_abs: None, tol_rel: None };
    match (a, b) {
        (CellView::Int(i), CellView::Int(j)) => {
            if cell_bytes(a) == cell_bytes(b) {
                lemma_int_bytes_injective(i, j);
            }
        },
        (CellView::Float { bits: x, text: _ }, CellView::Float { bits: y, text: _ }) => {
            lemma_floats_hash_alike(x, y);
            law_exact_by_default(x, y);
        },
        (CellView::Int(i), CellView::Float { bits, text: _ }) => {
            lemma_int_hashes_like_float(i, bits);
        },
        (CellView::Float { bits, text: _ }, CellView::Int(i)) => {
            lemma_int_hashes_like_float(i, bits);
        },
        (CellView::Str(s), CellView::Str(u)) => {
            lemma_auto_spec_u64_to_from_le_bytes();
            assert(text_bytes(s).skip(9) =~= encode_utf8(s));
            assert(text_bytes(u).skip(9) =~= encode_utf8(u));
            vstd::utf8::encode_utf8_decode_utf8(s);
            vstd::utf8::encode_utf8_decode_utf8(u);
        },
        _ => {
            lemma_tags(a);
            lemma_tags(b);
            if let (CellView::Bool(x), CellView::Bool(y)) = (a, b) {
                assert(cell_bytes(a)[1] == if x {
                    1u8
                } else {
                    0u8
                });
                assert(cell_bytes(b)[1] == if y {
                    1u8
                } else {
                    0u8
                });
            }
        },
    }
}

proof fn lemma_int_hashes_like_float(i: i64, bits: u64)
    requires
        is_exact(i),
    ensures
        int_bytes(i) == float_bytes(bits) <==> floats_match(
            Comparator { tol_abs: None, tol_rel: None },
            from_int(i as int),
            bits,
        ),
{
    let f = from_int(i as int);
    law_exact_by_default(f, bits);
    lemma_from_int_is_number(i as int);
    lemma_float_bytes_tag(bits);
    if int_bytes(i) == float_bytes(bits) {
        assert(int_bytes(i)[0] == 2u8);
        lemma_int_bytes_injective(i, to_int(bits));
    }
    if same_value(f, bits) {
        if f != bits {
            lemma_zero_to_int(f);
            lemma_zero_to_int(bits);
        }
    }
}

/// The first byte tells the kind of a cell.
proof fn lemma_tags(c: CellView)
    ensures
        cell_bytes(c)[0] == match c {
            CellView::Null => 0u8,
            CellView::Bool(_) => 1u8,
            CellView::Int(_) => 2u8,
            CellView::Float { bits, text: _ } => if is_integral(bits) {
                2u8
            } else {
                3u8
            },
            CellView::Str(_) => 4u8,
        },
{
}

} // verus!
