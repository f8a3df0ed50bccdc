//! Sorting: turns an unsorted batch stream into sorted runs of rows.
//!
//! Keys are encoded into byte-comparable form, so all ordering and equality
//! checks are on bytes. Both sides of a diff must build their codecs from one
//! [`KeySpec`] so the encodings are mutually comparable.

use crate::error::{Error, ErrorView};
use crate::float::{from_int, lemma_total_rank_injective};
use crate::input::{byte_count, lemma_counts_grow, lemma_counts_next, lemma_memory_fits, row_count, Batch, BatchIter};
use crate::key::{encode_keys, key_part, key_parts, kind_of, law_equal_keys_have_equal_parts, part_kind, parts_order, row_key, same_kinds, shapes, KeyPart};
use crate::schema::{base_shape, base_type, column, first_missing, first_unshared, has_column, is_numeric_type, lemma_first_unshared, places, DataType, FieldShape, Schema, TypeShape};
use crate::text::{byte_order, compare_bytes, copy_all, decimal, decimal_int, joined, law_byte_order_total, law_byte_order_transitive, number, views};
use crate::value::{cell_views, shown, Array, Cell, CellView, Float};
use std::path::PathBuf;
use vstd::prelude::*;
use vstd::seq_lib::lemma_multiset_commutative;
use vstd::string::StringExecFns;

verus! {

/// A file system path, carried through and never looked into.
#[verifier::external_type_specification]
#[verifier::external_body]
pub struct ExPathBuf(PathBuf);

/// Rows per chunk of a run, so merging k runs only holds k small chunks in
/// memory rather than k whole runs.
pub const RUN_CHUNK_ROWS: usize = 8192;

/// A row of a table with its encoded key; byte order == logical key order.
#[derive(Debug)]
pub struct Row {
    pub key: Vec<u8>,
    pub cells: Vec<Cell>,
}

/// What a row holds.
pub struct RowView {
    pub key: Seq<u8>,
    pub cells: Seq<CellView>,
}

impl View for Row {
    type V = RowView;

    open spec fn view(&self) -> RowView {
        RowView { key: self.key@, cells: cell_views(self.cells@) }
    }
}

pub open spec fn row_views(rows: Seq<Row>) -> Seq<RowView> {
    rows.map_values(|r: Row| r@)
}

/// The order of two rows: that of their keys.
pub open spec fn row_order(a: RowView, b: RowView) -> int {
    byte_order(a.key, b.key)
}

/// True for rows in ascending key order.
pub open spec fn in_order(rows: Seq<RowView>) -> bool {
    forall|i: int, j: int|
        0 <= i <= j < rows.len() ==> row_order(#[trigger] rows[i], #[trigger] rows[j]) <= 0
}

/// Cross-side key type unification: identical types stay as they are, numeric
/// pairs widen to Float64, everything else meets at Utf8.
pub open spec fn unified(l: TypeShape, r: TypeShape) -> TypeShape {
    if base_shape(l) == base_shape(r) {
        base_shape(l)
    } else if is_numeric_type(base_shape(l)) && is_numeric_type(base_shape(r)) {
        TypeShape::Float64
    } else {
        TypeShape::Utf8
    }
}

/// Cross-side key type unification (so e.g. a UUID column can match a text
/// column).
pub fn unify(l: &DataType, r: &DataType) -> (t: DataType)
    ensures
        t.shape() == unified(l.shape(), r.shape()),
{
    let l = base_type(l);
    let r = base_type(r);
    if l.same(&r) {
        l
    } else if l.is_numeric() && r.is_numeric() {
        DataType::Float64
    } else {
        DataType::Utf8
    }
}

/// Which side is left does not matter to unification.
pub proof fn law_unification_is_symmetric(l: TypeShape, r: TypeShape)
    ensures
        unified(l, r) == unified(r, l),
{
}

/// A value of a column has the form that the key's type calls for, where that
/// type came from unifying the column's type with another.
proof fn lemma_key_part_kind(col: Array, other: TypeShape, t: TypeShape, row: int)
    requires
        col.wf(),
        t == unified(col.type_shape(), other),
    ensures
        part_kind(key_part(col, t, row)) == kind_of(t),
{
    match col {
        Array::Other(a) => {
            assert(part_kind(a.native.part(row)) == a.native.kind());
        },
        _ => {},
    }
}

/// What stands for the values of two key columns in the type that they unify
/// to can always be compared.
pub proof fn law_unified_columns_are_comparable(left: Array, right: Array, i: int, j: int)
    requires
        left.wf(),
        right.wf(),
    ensures
        ({
            let t = unified(left.type_shape(), right.type_shape());
            part_kind(key_part(left, t, i)) == part_kind(key_part(right, t, j))
        }),
{
    let t = unified(left.type_shape(), right.type_shape());
    lemma_key_part_kind(left, right.type_shape(), t, i);
    lemma_key_part_kind(right, left.type_shape(), t, j);
}

/// Key columns plus the unified comparison types both sides agree on.
#[derive(Debug)]
pub struct KeySpec {
    pub key_cols: Vec<String>,
    pub types: Vec<DataType>,
}

/// The type that a key column has in a schema.
pub open spec fn type_in(fields: Seq<FieldShape>, name: Seq<char>) -> TypeShape {
    fields[column(fields, name)].data_type
}

/// An integer on one side matches the float on the other side that it widens
/// to.
pub proof fn law_integer_keys_match_floats(left: Vec<Option<i64>>, right: Vec<Option<Float>>, i: int, j: int)
    ensures
        ({
            let l = Array::Int64(left);
            let r = Array::Float64(right);
            let t = unified(l.type_shape(), r.type_shape());
            key_part(l, t, i) == key_part(r, t, j) <==> match (left@[i], right@[j]) {
                (None, None) => true,
                (Some(x), Some(f)) => f.bits == from_int(x as int),
                _ => false,
            }
        }),
{
    let l = Array::Int64(left);
    let r = Array::Float64(right);
    assert(unified(l.type_shape(), r.type_shape()) == TypeShape::Float64);
    match (left@[i], right@[j]) {
        (Some(x), Some(f)) => {
            if f.bits != from_int(x as int) {
                lemma_total_rank_injective(f.bits, from_int(x as int));
            }
        },
        _ => {},
    }
}

/// An integer on one side matches the text on the other side that reads as its
/// digits.
pub proof fn law_integer_keys_match_text(left: Vec<Option<i64>>, right: Vec<Option<String>>, i: int, j: int)
    ensures
        ({
            let l = Array::Int64(left);
            let r = Array::Utf8(right);
            let t = unified(l.type_shape(), r.type_shape());
            key_part(l, t, i) == key_part(r, t, j) <==> match (left@[i], right@[j]) {
                (None, None) => true,
                (Some(x), Some(s)) => s@ == decimal_int(x as int),
                _ => false,
            }
        }),
{
    let l = Array::Int64(left);
    let r = Array::Utf8(right);
    assert(unified(l.type_shape(), r.type_shape()) == TypeShape::Utf8);
}

/// The types that two sides agree on for key columns.
pub open spec fn key_types(
    cols: Seq<Seq<char>>,
    left: Seq<FieldShape>,
    right: Seq<FieldShape>,
) -> Seq<TypeShape> {
    cols.map_values(|c: Seq<char>| unified(type_in(left, c), type_in(right, c)))
}

/// Columns that are wanted under the same name on both sides.
pub open spec fn twice(cols: Seq<Seq<char>>) -> Seq<(Seq<char>, Seq<char>)> {
    cols.map_values(|c: Seq<char>| (c, c))
}

impl KeySpec {
    pub fn new(key_cols: &Vec<String>, left: &Schema, right: &Schema) -> (r: Result<Self, Error>)
        ensures
            match r {
                Ok(spec) => {
                    &&& first_unshared(left@, right@, twice(views(key_cols@))) is None
                    &&& spec.key_cols@ == key_cols@
                    &&& shapes(spec.types@) == key_types(views(key_cols@), left@, right@)
                },
                Err(e) => first_unshared(left@, right@, twice(views(key_cols@))) matches Some(name) && e@
                    == (ErrorView::MissingColumn { column: name }),
            },
    {
        let ghost wanted = twice(views(key_cols@));
        let mut types: Vec<DataType> = Vec::new();
        for i in 0..key_cols.len()
            invariant
                wanted == twice(views(key_cols@)),
                types.len() == i,
                forall|j: int|
                    0 <= j < i ==> has_column(left@, (#[trigger] wanted[j]).0) && has_column(
                        right@,
                        wanted[j].1,
                    ),
                forall|j: int|
                    0 <= j < i ==> (#[trigger] types@[j]).shape() == unified(
                        type_in(left@, key_cols@[j]@),
                        type_in(right@, key_cols@[j]@),
                    ),
        {
            assert(wanted[i as int] == (key_cols@[i as int]@, key_cols@[i as int]@));
            let l = left.index_of(key_cols[i].as_str());
            let r = right.index_of(key_cols[i].as_str());
            match (l, r) {
                (Some(l), Some(r)) => {
                    let t = unify(&left.fields[l].data_type, &right.fields[r].data_type);
                    assert(left@[l as int] == left.fields@[l as int]@);
                    assert(right@[r as int] == right.fields@[r as int]@);
                    types.push(t);
                },
                _ => {
                    proof {
                        lemma_first_unshared(left@, right@, wanted, i as int);
                    }
                    return Err(Error::MissingColumn { column: key_cols[i].clone() });
                },
            }
        }
        let spec = KeySpec { key_cols: copy_all(key_cols), types };
        proof {
            lemma_first_unshared(left@, right@, wanted, wanted.len() as int);
            assert(shapes(spec.types@) =~= key_types(views(key_cols@), left@, right@));
        }
        Ok(spec)
    }

    /// Builds one side's codec. Encodings from the two codecs of one spec are
    /// byte-comparable because they share the same types.
    pub fn codec(&self, schema: &Schema) -> (r: Result<KeyCodec, Error>)
        ensures
            match r {
                Ok(codec) => {
                    &&& first_missing(schema@, views(self.key_cols@)) is None
                    &&& codec@ == side_codec(views(self.key_cols@), schema@, shapes(self.types@))
                    &&& forall|i: int|
                        0 <= i < codec@.idx.len() ==> #[trigger] codec@.idx[i] < schema@.len()
                },
                Err(e) => first_missing(schema@, views(self.key_cols@)) matches Some(name) && e@
                    == (ErrorView::MissingColumn { column: name }),
            },
    {
        let key_idx = match schema.indices_of(&self.key_cols) {
            Ok(idx) => idx,
            Err(e) => {
                return Err(e);
            },
        };
        let mut types: Vec<DataType> = Vec::new();
        for i in 0..self.types.len()
            invariant
                types.len() == i,
                forall|j: int| 0 <= j < i ==> (#[trigger] types@[j]).shape() == self.types@[j].shape(),
        {
            types.push(self.types[i].clone());
        }
        assert(shapes(types@) =~= shapes(self.types@));
        Ok(KeyCodec { key_idx, key_cols: copy_all(&self.key_cols), types })
    }
}

/// One side's way to read and encode keys.
#[derive(Debug)]
pub struct KeyCodec {
    pub key_idx: Vec<usize>,
    pub key_cols: Vec<String>,
    pub types: Vec<DataType>,
}

/// A codec as plain data: where the key columns are, what they are called, and
/// the types that they are compared in.
pub struct CodecView {
    pub idx: Seq<usize>,
    pub cols: Seq<Seq<char>>,
    pub types: Seq<TypeShape>,
}

impl CodecView {
    /// There is at least one key column, with a type and a place for each.
    pub open spec fn wf(self) -> bool {
        &&& self.idx.len() > 0
        &&& self.types.len() == self.idx.len()
        &&& self.cols.len() == self.idx.len()
    }

    /// The codec's columns are among the first `width`.
    pub open spec fn fits(self, width: int) -> bool {
        self.wf() && forall|i: int| 0 <= i < self.idx.len() ==> #[trigger] self.idx[i] < width
    }
}

impl View for KeyCodec {
    type V = CodecView;

    open spec fn view(&self) -> CodecView {
        CodecView { idx: self.key_idx@, cols: views(self.key_cols@), types: shapes(self.types@) }
    }
}

/// The codec of a side with the given columns: for the key columns, in the
/// types that both sides agree on.
pub open spec fn side_codec(
    cols: Seq<Seq<char>>,
    side: Seq<FieldShape>,
    types: Seq<TypeShape>,
) -> CodecView {
    CodecView { idx: places(side, cols), cols, types }
}

/// A batch's rows with their keys.
pub open spec fn keyed_rows(codec: CodecView, batch: Batch) -> Seq<RowView> {
    Seq::new(
        batch.rows as nat,
        |i: int|
            RowView {
                key: row_key(key_parts(batch.columns@, codec.idx, codec.types, i)),
                cells: batch.row(i),
            },
    )
}

/// The key's bytes compare as its values do, with any key that has values of
/// the same kinds.
pub open spec fn follows_values(a: Seq<KeyPart>) -> bool {
    forall|b: Seq<KeyPart>|
        same_kinds(a, b) ==> byte_order(row_key(a), #[trigger] row_key(b)) == parts_order(a, b)
}

/// The keys of a batch compare as their values do.
pub open spec fn batch_follows_values(codec: CodecView, batch: Batch) -> bool {
    forall|i: int|
        0 <= i < batch.rows ==> follows_values(
            #[trigger] key_parts(batch.columns@, codec.idx, codec.types, i),
        )
}

/// The keys of a stream compare as their values do.
pub open spec fn stream_follows_values(codec: CodecView, batches: Seq<Batch>) -> bool {
    forall|i: int| 0 <= i < batches.len() ==> #[trigger] batch_follows_values(codec, batches[i])
}

/// Keys whose values are of the same kinds are equal exactly where the values
/// are.
pub proof fn law_keys_match_by_value(a: Seq<KeyPart>, b: Seq<KeyPart>)
    requires
        follows_values(a),
        same_kinds(a, b),
    ensures
        row_key(a) == row_key(b) <==> a == b,
{
    law_equal_keys_have_equal_parts(a, b);
    law_byte_order_total(row_key(a), row_key(b));
}

/// The key cells of a row, as a codec shows them: `column=value`, with commas
/// between.
pub open spec fn key_text(codec: CodecView, cells: Seq<CellView>) -> Seq<char> {
    joined(
        Seq::new(
            codec.cols.len(),
            |i: int| codec.cols[i] + "="@ + shown(cells[codec.idx[i] as int]),
        ),
        ", "@,
    )
}

impl KeyCodec {
    /// Where the key columns are.
    pub fn key_idx(&self) -> (r: &Vec<usize>)
        ensures
            r@ == self@.idx,
    {
        &self.key_idx
    }

    /// Encodes the key of every row of a batch. Keys with values of the same
    /// kinds compare as their values do.
    pub fn encode(&self, batch: &Batch) -> (r: Vec<Vec<u8>>)
        requires
            batch.wf(),
            self@.fits(batch.columns@.len() as int),
        ensures
            r@.len() == batch.rows,
            forall|i: int| 0 <= i < batch.rows ==> (#[trigger] r@[i])@ == keyed_rows(self@, *batch)[i].key,
            forall|i: int, b: Seq<KeyPart>|
                0 <= i < batch.rows && same_kinds(
                    key_parts(batch.columns@, self@.idx, self@.types, i),
                    b,
                ) ==> byte_order(#[trigger] r@[i]@, #[trigger] row_key(b)) == parts_order(
                    key_parts(batch.columns@, self@.idx, self@.types, i),
                    b,
                ),
    {
        encode_keys(&batch.columns, &self.key_idx, &self.types, batch.rows)
    }

    /// Reads the rows of a batch, with their keys.
    pub fn rows(&self, batch: &Batch) -> (r: Vec<Row>)
        requires
            batch.wf(),
            self@.fits(batch.columns@.len() as int),
        ensures
            row_views(r@) == keyed_rows(self@, *batch),
            batch_follows_values(self@, *batch),
    {
        let encoded = self.encode(batch);
        assert(batch_follows_values(self@, *batch)) by {
            assert forall|i: int| 0 <= i < batch.rows implies follows_values(
                #[trigger] key_parts(batch.columns@, self@.idx, self@.types, i),
            ) by {
                assert(encoded@[i]@ == keyed_rows(self@, *batch)[i].key);
            }
        }
        let mut keys = reversed(encoded);
        let ghost want = keyed_rows(self@, *batch);
        let mut rows: Vec<Row> = Vec::new();
        for i in 0..batch.rows
            invariant
                batch.wf(),
                want == keyed_rows(self@, *batch),
                rows.len() == i,
                keys.len() == batch.rows - i,
                forall|j: int|
                    0 <= j < batch.rows - i ==> (#[trigger] keys@[j])@ == want[batch.rows - 1 - j].key,
                forall|j: int| 0 <= j < i ==> (#[trigger] rows@[j])@ == want[j],
        {
            assert(keys@[batch.rows - i - 1]@ == want[i as int].key);
            match keys.pop() {
                Some(key) => {
                    let cells = batch.cells(i);
                    rows.push(Row { key, cells });
                },
                None => {},
            }
        }
        assert(row_views(rows@) =~= want);
        rows
    }

    /// Renders the key cells of a row for messages.
    pub fn render_key(&self, row: &Row) -> (r: String)
        requires
            self@.fits(row.cells@.len() as int),
        ensures
            r@ == key_text(self@, row@.cells),
    {
        let ghost parts = Seq::new(
            self@.cols.len(),
            |i: int| self@.cols[i] + "="@ + shown(row@.cells[self@.idx[i] as int]),
        );
        let mut r = String::new();
        for i in 0..self.key_cols.len()
            invariant
                self@.fits(row.cells@.len() as int),
                parts == Seq::new(
                    self@.cols.len(),
                    |i: int| self@.cols[i] + "="@ + shown(row@.cells[self@.idx[i] as int]),
                ),
                r@ == joined(parts.take(i as int), ", "@),
        {
            assert(self@.idx[i as int] < row.cells@.len());
            assert(self@.cols[i as int] == self.key_cols@[i as int]@);
            if i > 0 {
                r.append(", ");
            }
            r.append(self.key_cols[i].as_str());
            r.append("=");
            r.append(row.cells[self.key_idx[i]].render().as_str());
            proof {
                let next = parts.take(i + 1);
                assert(next.drop_last() =~= parts.take(i as int));
                assert(joined(next, ", "@) =~= r@);
            }
        }
        assert(parts.take(parts.len() as int) =~= parts);
        r
    }
}

/// Turns a vector round.
pub fn reversed<T>(v: Vec<T>) -> (r: Vec<T>)
    ensures
        r@ == v@.reverse(),
{
    let mut from = v;
    let mut r: Vec<T> = Vec::new();
    let ghost all = from@;
    let n = from.len();
    for i in 0..n
        invariant
            n == all.len(),
            from@ == all.take(n - i),
            r@ == all.reverse().take(i as int),
    {
        match from.pop() {
            Some(x) => r.push(x),
            None => {},
        }
        assert(from@ =~= all.take(n - i - 1));
        assert(r@ =~= all.reverse().take(i + 1));
    }
    assert(r@ =~= all.reverse());
    r
}

/// Lazily created spill directory.
#[derive(Debug)]
pub struct SpillDir {
    pub parent: Option<PathBuf>,
    pub path: Option<PathBuf>,
    /// How many files have been named, a number that does not run out.
    pub counter: u128,
}

/// The name of a run's file, by its number.
pub open spec fn run_name(number: nat) -> Seq<char> {
    "run-"@ + decimal(number) + ".arrow"@
}

impl SpillDir {
    pub fn new(parent: Option<PathBuf>) -> (r: Self)
        ensures
            r.parent == parent,
            r.path is None,
            r.counter == 0,
    {
        SpillDir { parent, path: None, counter: 0 }
    }

    /// Names the next file of the directory.
    pub fn next_name(&mut self) -> (r: String)
        requires
            old(self).counter < u128::MAX,
        ensures
            *final(self) == (SpillDir { counter: (old(self).counter + 1) as u128, ..*old(self) }),
            r@ == run_name(final(self).counter as nat),
    {
        self.counter = self.counter + 1;
        let mut s = "run-".to_owned();
        s.append(number(self.counter).as_str());
        s.append(".arrow");
        s
    }

    /// Names the directory itself, after the process and the time.
    pub fn directory_name(process: u32, nanos: u128) -> (r: String)
        ensures
            r@ == "tabdiff-spill-"@ + decimal(process as nat) + "-"@ + decimal(nanos as nat),
    {
        let mut s = "tabdiff-spill-".to_owned();
        s.append(number(process as u128).as_str());
        s.append("-");
        s.append(number(nanos).as_str());
        s
    }
}

/// Two sequences hold the same rows the same number of times.
pub open spec fn same_rows(a: Seq<RowView>, b: Seq<RowView>) -> bool {
    a.to_multiset() == b.to_multiset()
}

/// Rows sorted by key: the same rows, in ascending key order.
pub open spec fn sorts(sorted: Seq<RowView>, rows: Seq<RowView>) -> bool {
    in_order(sorted) && same_rows(sorted, rows)
}

/// A row moved from one end to the other.
proof fn lemma_move_last(a: Seq<RowView>, b: Seq<RowView>)
    requires
        a.len() > 0,
    ensures
        a.drop_last().to_multiset().add(b.push(a.last()).to_multiset()) == a.to_multiset().add(
            b.to_multiset(),
        ),
{
    broadcast use vstd::seq_lib::group_to_multiset_ensures;

    assert(a =~= a.drop_last().push(a.last()));
    assert(a.drop_last().to_multiset().add(b.push(a.last()).to_multiset())
        =~= a.to_multiset().add(b.to_multiset()));
}

/// Every row of `a` comes before every row of `b`, or has an equal key.
spec fn all_before(a: Seq<RowView>, b: Seq<RowView>) -> bool {
    forall|i: int, j: int|
        0 <= i < a.len() && 0 <= j < b.len() ==> row_order(#[trigger] a[i], #[trigger] b[j]) <= 0
}

/// True for rows in descending key order.
spec fn descending(rows: Seq<RowView>) -> bool {
    forall|i: int, j: int|
        0 <= i <= j < rows.len() ==> row_order(#[trigger] rows[j], #[trigger] rows[i]) <= 0
}

/// The greater of two last rows comes after everything that is left.
proof fn lemma_take_last(a: Seq<RowView>, b: Seq<RowView>, out: Seq<RowView>)
    requires
        a.len() > 0,
        in_order(a),
        in_order(b),
        b.len() > 0 ==> row_order(b.last(), a.last()) <= 0,
        descending(out),
        all_before(a, out),
        all_before(b, out),
    ensures
        in_order(a.drop_last()),
        descending(out.push(a.last())),
        all_before(a.drop_last(), out.push(a.last())),
        all_before(b, out.push(a.last())),
{
    let x = a.last();
    let rest = a.drop_last();
    let more = out.push(x);
    assert forall|i: int, j: int| 0 <= i <= j < rest.len() implies row_order(
        #[trigger] rest[i],
        #[trigger] rest[j],
    ) <= 0 by {
        assert(row_order(a[i], a[j]) <= 0);
    }
    assert forall|i: int, j: int| 0 <= i <= j < more.len() implies row_order(
        #[trigger] more[j],
        #[trigger] more[i],
    ) <= 0 by {
        if j == out.len() {
            if i == j {
                law_byte_order_total(x.key, x.key);
            } else {
                assert(row_order(a[a.len() - 1], out[i]) <= 0);
            }
        } else {
            assert(row_order(out[j], out[i]) <= 0);
        }
    }
    assert forall|i: int, j: int| 0 <= i < rest.len() && 0 <= j < more.len() implies row_order(
        #[trigger] rest[i],
        #[trigger] more[j],
    ) <= 0 by {
        if j == out.len() {
            assert(row_order(a[i], a[a.len() - 1]) <= 0);
        } else {
            assert(row_order(a[i], out[j]) <= 0);
        }
    }
    assert forall|i: int, j: int| 0 <= i < b.len() && 0 <= j < more.len() implies row_order(
        #[trigger] b[i],
        #[trigger] more[j],
    ) <= 0 by {
        if j == out.len() {
            assert(row_order(b[i], b[b.len() - 1]) <= 0);
            law_byte_order_transitive(b[i].key, b.last().key, x.key);
        } else {
            assert(row_order(b[i], out[j]) <= 0);
        }
    }
}

proof fn lemma_views_pop(v: Seq<Row>)
    requires
        v.len() > 0,
    ensures
        row_views(v.drop_last()) == row_views(v).drop_last(),
        row_views(v).last() == v.last()@,
{
    assert(row_views(v.drop_last()) =~= row_views(v).drop_last());
}

/// Merges two sorted vectors.
fn merge_sorted(left: Vec<Row>, right: Vec<Row>) -> (r: Vec<Row>)
    requires
        in_order(row_views(left@)),
        in_order(row_views(right@)),
    ensures
        in_order(row_views(r@)),
        row_views(r@).to_multiset() == row_views(left@).to_multiset().add(
            row_views(right@).to_multiset(),
        ),
{
    let ghost all = row_views(left@).to_multiset().add(row_views(right@).to_multiset());
    let mut a = left;
    let mut b = right;
    let mut out: Vec<Row> = Vec::new();
    proof {
        broadcast use vstd::seq_lib::group_to_multiset_ensures;

        assert(row_views(out@) =~= Seq::<RowView>::empty());
        assert(all.add(row_views(out@).to_multiset()) =~= all);
    }
    while a.len() > 0 || b.len() > 0
        invariant
            in_order(row_views(a@)),
            in_order(row_views(b@)),
            descending(row_views(out@)),
            all_before(row_views(a@), row_views(out@)),
            all_before(row_views(b@), row_views(out@)),
            row_views(a@).to_multiset().add(row_views(b@).to_multiset()).add(
                row_views(out@).to_multiset(),
            ) == all,
        decreases a.len() + b.len(),
    {
        let ghost va = row_views(a@);
        let ghost vb = row_views(b@);
        let ghost vo = row_views(out@);
        let from_left = if a.len() == 0 {
            false
        } else if b.len() == 0 {
            true
        } else {
            compare_bytes(a[a.len() - 1].key.as_slice(), b[b.len() - 1].key.as_slice()) > 0
        };
        if from_left {
            proof {
                lemma_views_pop(a@);
                if vb.len() > 0 {
                    lemma_views_pop(b@);
                    law_byte_order_total(va.last().key, vb.last().key);
                }
                lemma_take_last(va, vb, vo);
                lemma_move_last(va, vo);
            }
            match a.pop() {
                Some(x) => out.push(x),
                None => {},
            }
            proof {
                assert(row_views(a@) =~= va.drop_last());
                assert(row_views(out@) =~= vo.push(va.last()));
                assert(row_views(a@).to_multiset().add(vb.to_multiset()).add(
                    row_views(out@).to_multiset(),
                ) =~= va.drop_last().to_multiset().add(vo.push(va.last()).to_multiset()).add(
                    vb.to_multiset(),
                ));
                assert(va.to_multiset().add(vo.to_multiset()).add(vb.to_multiset()) =~= all);
            }
        } else {
            proof {
                lemma_views_pop(b@);
                if va.len() > 0 {
                    lemma_views_pop(a@);
                    law_byte_order_total(va.last().key, vb.last().key);
                }
                lemma_take_last(vb, va, vo);
                lemma_move_last(vb, vo);
            }
            match b.pop() {
                Some(x) => out.push(x),
                None => {},
            }
            proof {
                assert(row_views(b@) =~= vb.drop_last());
                assert(row_views(out@) =~= vo.push(vb.last()));
                assert(va.to_multiset().add(row_views(b@).to_multiset()).add(
                    row_views(out@).to_multiset(),
                ) =~= vb.drop_last().to_multiset().add(vo.push(vb.last()).to_multiset()).add(
                    va.to_multiset(),
                ));
                assert(vb.to_multiset().add(vo.to_multiset()).add(va.to_multiset()) =~= all);
            }
        }
    }
    let ghost down = row_views(out@);
    let r = reversed(out);
    proof {
        broadcast use vstd::seq_lib::group_to_multiset_ensures;

        assert(row_views(a@) =~= Seq::<RowView>::empty());
        assert(row_views(b@) =~= Seq::<RowView>::empty());
        assert(down.to_multiset() =~= all);
        let up = row_views(r@);
        assert(up =~= down.reverse());
        down.lemma_reverse_to_multiset();
        assert forall|i: int, j: int| 0 <= i <= j < up.len() implies row_order(
            #[trigger] up[i],
            #[trigger] up[j],
        ) <= 0 by {
            assert(row_order(down[down.len() - 1 - i], down[down.len() - 1 - j]) <= 0);
        }
    }
    r
}

/// Sorts rows by key.
pub fn sort_rows(rows: Vec<Row>) -> (r: Vec<Row>)
    ensures
        sorts(row_views(r@), row_views(rows@)),
    decreases rows.len(),
{
    if rows.len() <= 1 {
        proof {
            let v = row_views(rows@);
            assert forall|i: int, j: int| 0 <= i <= j < v.len() implies row_order(
                #[trigger] v[i],
                #[trigger] v[j],
            ) <= 0 by {
                law_byte_order_total(v[i].key, v[i].key);
            }
        }
        rows
    } else {
        let ghost all = rows@;
        let mut left = rows;
        let n = left.len();
        let right = left.split_off(n / 2);
        proof {
            assert(row_views(all) =~= row_views(left@) + row_views(right@));
            lemma_multiset_commutative(row_views(left@), row_views(right@));
        }
        let left = sort_rows(left);
        let right = sort_rows(right);
        merge_sorted(left, right)
    }
}

/// True where the rows are already in ascending key order.
fn already_sorted(rows: &Vec<Row>) -> (r: bool)
    ensures
        r == in_order(row_views(rows@)),
{
    let ghost v = row_views(rows@);
    if rows.len() == 0 {
        return true;
    }
    let mut i: usize = 1;
    proof {
        law_byte_order_total(v[0].key, v[0].key);
    }
    while i < rows.len()
        invariant
            v == row_views(rows@),
            1 <= i <= rows.len(),
            in_order(v.take(i as int)),
        decreases rows.len() - i,
    {
        if compare_bytes(rows[i - 1].key.as_slice(), rows[i].key.as_slice()) > 0 {
            proof {
                assert(v[i - 1] == rows@[i - 1]@);
                assert(v[i as int] == rows@[i as int]@);
                if in_order(v) {
                    assert(row_order(v[i - 1], v[i as int]) <= 0);
                }
            }
            return false;
        }
        proof {
            let w = v.take(i as int);
            let next = v.take(i + 1);
            assert forall|x: int, y: int| 0 <= x <= y < next.len() implies row_order(
                #[trigger] next[x],
                #[trigger] next[y],
            ) <= 0 by {
                if y == i {
                    if x == i {
                        law_byte_order_total(v[x].key, v[x].key);
                    } else {
                        assert(row_order(w[x], w[i - 1]) <= 0);
                        assert(v[i - 1] == rows@[i - 1]@);
                        assert(v[i as int] == rows@[i as int]@);
                        law_byte_order_transitive(v[x].key, v[i - 1].key, v[i as int].key);
                    }
                } else {
                    assert(row_order(w[x], w[y]) <= 0);
                }
            }
        }
        i = i + 1;
    }
    assert(v.take(v.len() as int) =~= v);
    true
}

/// The rows of chunks, one chunk after the other.
pub open spec fn rows_of(chunks: Seq<Vec<Row>>) -> Seq<RowView>
    decreases chunks.len(),
{
    if chunks.len() == 0 {
        seq![]
    } else {
        rows_of(chunks.drop_last()) + row_views(chunks.last()@)
    }
}

/// Chunks are full, but for the last one, and none is empty.
pub open spec fn well_cut(chunks: Seq<Vec<Row>>) -> bool {
    forall|i: int|
        0 <= i < chunks.len() ==> 0 < (#[trigger] chunks[i])@.len() <= RUN_CHUNK_ROWS && (i
            < chunks.len() - 1 ==> chunks[i]@.len() == RUN_CHUNK_ROWS)
}

/// Cuts rows into chunks.
fn cut(rows: Vec<Row>) -> (chunks: Vec<Vec<Row>>)
    ensures
        rows_of(chunks@) == row_views(rows@),
        well_cut(chunks@),
{
    let ghost all = row_views(rows@);
    let mut left = reversed(rows);
    let mut chunks: Vec<Vec<Row>> = Vec::new();
    assert(row_views(left@) =~= all.reverse());
    assert(all.take(0) =~= seq![]);
    while left.len() > 0
        invariant
            left@.len() <= all.len(),
            row_views(left@) == all.skip(all.len() - left@.len()).reverse(),
            rows_of(chunks@) == all.take(all.len() - left@.len()),
            well_cut(chunks@),
            left@.len() > 0 ==> forall|i: int|
                0 <= i < chunks@.len() ==> (#[trigger] chunks@[i])@.len() == RUN_CHUNK_ROWS,
        decreases left@.len(),
    {
        let ghost done = all.len() - left@.len();
        let ghost before = chunks@;
        let mut chunk: Vec<Row> = Vec::new();
        let n = left.len();
        let take = if n < RUN_CHUNK_ROWS {
            n
        } else {
            RUN_CHUNK_ROWS
        };
        for i in 0..take
            invariant
                n == all.len() - done,
                0 <= done,
                take <= n,
                left@.len() == n - i,
                row_views(left@) == all.skip(done + i).reverse(),
                row_views(chunk@) == all.subrange(done, done + i),
        {
            let ghost v = row_views(left@);
            match left.pop() {
                Some(row) => {
                    assert(row@ == v.last());
                    assert(v.last() == all[done + i]);
                    let ghost c = row_views(chunk@);
                    chunk.push(row);
                    assert(row_views(chunk@) =~= c.push(all[done + i]));
                },
                None => {},
            }
            assert(row_views(left@) =~= v.drop_last());
            assert(row_views(left@) =~= all.skip(done + i + 1).reverse());
            assert(row_views(chunk@) =~= all.subrange(done, done + i + 1));
        }
        chunks.push(chunk);
        proof {
            assert(chunks@.drop_last() =~= before);
            assert(rows_of(chunks@) =~= all.take(all.len() - left@.len()));
        }
    }
    assert(all.take(all.len() as int) =~= all);
    chunks
}

/// Sorts accumulated rows by key and cuts them into small chunks. Rows that
/// are already sorted (common for keyed exports) stay as they are.
pub fn sort_chunks(rows: Vec<Row>) -> (chunks: Vec<Vec<Row>>)
    ensures
        sorts(rows_of(chunks@), row_views(rows@)),
        well_cut(chunks@),
{
    if already_sorted(&rows) {
        cut(rows)
    } else {
        let sorted = sort_rows(rows);
        cut(sorted)
    }
}

/// A sorted run in chunks: one that stays in memory, or one that goes to the
/// spill file of the given name.
#[derive(Debug)]
pub enum RunSource {
    Memory(Vec<Vec<Row>>),
    File { name: String, chunks: Vec<Vec<Row>> },
}

/// The chunks of a run.
pub open spec fn run_chunks(run: RunSource) -> Seq<Vec<Row>> {
    match run {
        RunSource::Memory(chunks) => chunks@,
        RunSource::File { name: _, chunks } => chunks@,
    }
}

/// The rows of a run.
pub open spec fn run_rows(run: RunSource) -> Seq<RowView> {
    rows_of(run_chunks(run))
}

/// True for a run that goes to the spill file of that number.
pub open spec fn is_spilled(run: RunSource, number: nat) -> bool {
    run matches RunSource::File { name, chunks: _ } && name@ == run_name(number)
}

/// The rows of runs, one run after the other.
pub open spec fn all_run_rows(runs: Seq<RunSource>) -> Seq<RowView>
    decreases runs.len(),
{
    if runs.len() == 0 {
        seq![]
    } else {
        all_run_rows(runs.drop_last()) + run_rows(runs.last())
    }
}

/// The rows of batches with their keys, in the order of the stream.
pub open spec fn stream_rows(codec: CodecView, batches: Seq<Batch>) -> Seq<RowView>
    decreases batches.len(),
{
    if batches.len() == 0 {
        seq![]
    } else {
        stream_rows(codec, batches.drop_last()) + keyed_rows(codec, batches.last())
    }
}

/// A stream has as many rows as its batches.
pub proof fn lemma_stream_len(codec: CodecView, batches: Seq<Batch>)
    ensures
        stream_rows(codec, batches).len() == row_count(batches),
    decreases batches.len(),
{
    if batches.len() > 0 {
        lemma_stream_len(codec, batches.drop_last());
    }
}

/// Batches cut where their memory reaches the budget: those before a cut, and
/// those behind the last one.
pub struct Cut {
    pub full: Seq<Seq<Batch>>,
    pub pending: Seq<Batch>,
}

/// Cuts batches each time that those since the last cut reach the budget.
pub open spec fn cut_batches(batches: Seq<Batch>, budget: nat) -> Cut
    decreases batches.len(),
{
    if batches.len() == 0 {
        Cut { full: seq![], pending: seq![] }
    } else {
        let before = cut_batches(batches.drop_last(), budget);
        let pending = before.pending.push(batches.last());
        if byte_count(pending) >= budget {
            Cut { full: before.full.push(pending), pending: seq![] }
        } else {
            Cut { pending, ..before }
        }
    }
}

/// The batches of each run: as they were cut, and what is left behind the last
/// cut as one more run. Without a cut there is one run of all batches.
pub open spec fn run_batches(batches: Seq<Batch>, budget: nat) -> Seq<Seq<Batch>> {
    let cut = cut_batches(batches, budget);
    if cut.full.len() == 0 || cut.pending.len() > 0 {
        cut.full.push(cut.pending)
    } else {
        cut.full
    }
}

/// True where batches stay in memory, as a single run.
pub open spec fn fits_budget(batches: Seq<Batch>, budget: nat) -> bool {
    batches.len() == 0 || byte_count(batches) < budget
}

/// How many runs go to files.
pub open spec fn file_count(batches: Seq<Batch>, budget: nat) -> nat {
    if fits_budget(batches, budget) {
        0
    } else {
        run_batches(batches, budget).len()
    }
}

/// Batches are cut exactly where they do not fit the budget, and each run has a
/// batch of its own then.
pub proof fn law_runs_are_cut_by_the_budget(batches: Seq<Batch>, budget: nat)
    ensures
        cut_batches(batches, budget).full.len() == 0 <==> fits_budget(batches, budget),
        fits_budget(batches, budget) ==> run_batches(batches, budget) == seq![batches],
        file_count(batches, budget) <= batches.len(),
        cut_batches(batches, budget).full.len() + (if cut_batches(batches, budget).pending.len() > 0 {
            1int
        } else {
            0
        }) <= batches.len(),
        cut_batches(batches, budget).full.len() == 0 ==> cut_batches(batches, budget).pending == batches,
    decreases batches.len(),
{
    if batches.len() > 0 {
        let less = batches.drop_last();
        law_runs_are_cut_by_the_budget(less, budget);
        assert(less.push(batches.last()) =~= batches);
        if cut_batches(less, budget).full.len() > 0 {
            assert(byte_count(batches) >= byte_count(less));
        }
    }
    if cut_batches(batches, budget).full.len() == 0 {
        assert(cut_batches(batches, budget).pending =~= batches);
        assert(run_batches(batches, budget) =~= seq![batches]);
    }
}

/// Sorting holds little more than the budget: the batches of a run are below it
/// without the last one, and those that are pending behind the last cut are
/// below it.
pub proof fn law_runs_keep_to_the_budget(batches: Seq<Batch>, budget: nat)
    ensures
        ({
            let cut = cut_batches(batches, budget);
            &&& forall|i: int|
                0 <= i < cut.full.len() ==> (#[trigger] cut.full[i]).len() > 0 && (cut.full[i].len() == 1
                    || byte_count(cut.full[i].drop_last()) < budget)
            &&& cut.pending.len() > 0 ==> byte_count(cut.pending) < budget
        }),
    decreases batches.len(),
{
    if batches.len() > 0 {
        law_runs_keep_to_the_budget(batches.drop_last(), budget);
        let before = cut_batches(batches.drop_last(), budget).pending;
        assert(before.push(batches.last()).drop_last() =~= before);
    }
}

/// Each run holds the rows of its batches, sorted and cut into chunks.
pub open spec fn runs_hold(codec: CodecView, runs: Seq<RunSource>, batches: Seq<Seq<Batch>>) -> bool {
    &&& runs.len() == batches.len()
    &&& forall|i: int|
        0 <= i < runs.len() ==> sorts(run_rows(#[trigger] runs[i]), stream_rows(codec, batches[i]))
            && well_cut(run_chunks(runs[i]))
}

/// Runs that go to files, numbered on from what was there.
pub open spec fn runs_are_spilled(runs: Seq<RunSource>, counter: nat) -> bool {
    forall|i: int| 0 <= i < runs.len() ==> is_spilled(#[trigger] runs[i], (counter + i + 1) as nat)
}

/// Collects batches into sorted runs, each begun afresh once the batches that
/// are pending reach the memory budget.
#[derive(Debug)]
pub struct RunBuilder {
    pub pending: Vec<Row>,
    pub pending_bytes: u128,
    /// True where a batch is pending, even one without rows.
    pub has_pending: bool,
    pub total_rows: usize,
    /// True once a run was handed out.
    pub spilled: bool,
}

impl RunBuilder {
    pub fn new() -> (r: Self)
        ensures
            r.pending@.len() == 0,
            r.pending_bytes == 0,
            !r.has_pending,
            r.total_rows == 0,
            !r.spilled,
    {
        RunBuilder {
            pending: Vec::new(),
            pending_bytes: 0,
            has_pending: false,
            total_rows: 0,
            spilled: false,
        }
    }

    /// Takes a batch. Hands out the pending rows as a sorted run for a file
    /// where their memory has reached the budget.
    pub fn push(
        &mut self,
        codec: &KeyCodec,
        batch: &Batch,
        budget_bytes: usize,
        spill: &mut SpillDir,
    ) -> (r: Option<RunSource>)
        requires
            batch.wf(),
            codec@.fits(batch.columns@.len() as int),
            old(self).total_rows + batch.rows <= usize::MAX,
            old(self).pending_bytes + batch.spec_memory() <= u128::MAX,
            old(spill).counter < u128::MAX,
        ensures
            batch_follows_values(codec@, *batch),
            final(self).total_rows == old(self).total_rows + batch.rows,
            r is Some <==> old(self).pending_bytes + batch.spec_memory() >= budget_bytes,
            match r {
                Some(run) => {
                    &&& sorts(
                        run_rows(run),
                        row_views(old(self).pending@) + keyed_rows(codec@, *batch),
                    )
                    &&& well_cut(run_chunks(run))
                    &&& is_spilled(run, (old(spill).counter + 1) as nat)
                    &&& *final(spill) == (SpillDir {
                        counter: (old(spill).counter + 1) as u128,
                        ..*old(spill)
                    })
                    &&& final(self).pending@.len() == 0
                    &&& final(self).pending_bytes == 0
                    &&& !final(self).has_pending
                    &&& final(self).spilled
                },
                None => {
                    &&& row_views(final(self).pending@) == row_views(old(self).pending@) + keyed_rows(
                        codec@,
                        *batch,
                    )
                    &&& *final(spill) == *old(spill)
                    &&& final(self).pending_bytes == old(self).pending_bytes + batch.spec_memory()
                    &&& final(self).has_pending
                    &&& final(self).spilled == old(self).spilled
                },
            },
    {
        let ghost before = self.pending@;
        self.total_rows = self.total_rows + batch.rows;
        self.pending_bytes = self.pending_bytes + batch.memory();
        let mut rows = codec.rows(batch);
        let ghost new = rows@;
        self.pending.append(&mut rows);
        assert(row_views(self.pending@) =~= row_views(before) + row_views(new));
        if self.pending_bytes >= budget_bytes as u128 {
            let mut run: Vec<Row> = Vec::new();
            std::mem::swap(&mut run, &mut self.pending);
            self.pending_bytes = 0;
            self.has_pending = false;
            self.spilled = true;
            let chunks = sort_chunks(run);
            Some(RunSource::File { name: spill.next_name(), chunks })
        } else {
            self.has_pending = true;
            None
        }
    }

    /// Sorts what is still pending. It stays in memory where everything fit in
    /// the budget; once one run has gone to a file, the others do too.
    pub fn finish(self, spill: &mut SpillDir) -> (r: Option<RunSource>)
        requires
            old(spill).counter < u128::MAX,
        ensures
            r is None <==> self.spilled && !self.has_pending,
            r matches Some(run) ==> sorts(run_rows(run), row_views(self.pending@)) && well_cut(
                run_chunks(run),
            ),
            !self.spilled ==> (r matches Some(run) && run is Memory),
            if self.spilled && self.has_pending {
                &&& r matches Some(run)
                &&& is_spilled(run, (old(spill).counter + 1) as nat)
                &&& *final(spill) == (SpillDir {
                    counter: (old(spill).counter + 1) as u128,
                    ..*old(spill)
                })
            } else {
                *final(spill) == *old(spill)
            },
    {
        if !self.spilled {
            Some(RunSource::Memory(sort_chunks(self.pending)))
        } else if self.has_pending {
            let chunks = sort_chunks(self.pending);
            Some(RunSource::File { name: spill.next_name(), chunks })
        } else {
            None
        }
    }
}

/// Runs of which each is sorted.
pub open spec fn sorted_runs(runs: Seq<RunSource>) -> bool {
    forall|i: int| 0 <= i < runs.len() ==> in_order(run_rows(#[trigger] runs[i]))
}

proof fn lemma_same_rows_joined(a: Seq<RowView>, b: Seq<RowView>, c: Seq<RowView>, d: Seq<RowView>)
    requires
        same_rows(a, b),
        same_rows(c, d),
    ensures
        same_rows(a + c, b + d),
{
    lemma_multiset_commutative(a, c);
    lemma_multiset_commutative(b, d);
}

/// One more run on top of those there are.
proof fn lemma_run_added(runs: Seq<RunSource>, run: RunSource, done: Seq<RowView>, pending: Seq<RowView>)
    requires
        sorted_runs(runs),
        same_rows(all_run_rows(runs), done),
        sorts(run_rows(run), pending),
    ensures
        sorted_runs(runs.push(run)),
        same_rows(all_run_rows(runs.push(run)), done + pending),
{
    let more = runs.push(run);
    assert(more.drop_last() =~= runs);
    lemma_same_rows_joined(all_run_rows(runs), done, run_rows(run), pending);
}

/// Consumes a batch stream, producing sorted runs plus the total row count.
/// Input within the budget stays in memory as a single run; anything larger
/// becomes one run for each time that the pending batches reach the budget, and
/// all of them go to files, which the spill directory names.
pub fn sort_into_runs(src: &BatchIter, codec: &KeyCodec, budget_bytes: usize, spill: &mut SpillDir) -> (r: (
    Vec<RunSource>,
    usize,
))
    requires
        src.wf(),
        codec@.fits(src.schema@.len() as int),
        old(spill).counter + src.batches@.len() < u128::MAX,
    ensures
        runs_hold(codec@, r.0@, run_batches(src.batches@, budget_bytes as nat)),
        if fits_budget(src.batches@, budget_bytes as nat) {
            r.0@.len() == 1 && r.0@[0] is Memory
        } else {
            runs_are_spilled(r.0@, old(spill).counter as nat)
        },
        *final(spill) == (SpillDir {
            counter: (old(spill).counter + file_count(src.batches@, budget_bytes as nat)) as u128,
            ..*old(spill)
        }),
        sorted_runs(r.0@),
        same_rows(all_run_rows(r.0@), stream_rows(codec@, src.batches@)),
        stream_follows_values(codec@, src.batches@),
        r.1 == row_count(src.batches@),
{
    let ghost all = src.batches@;
    let ghost budget = budget_bytes as nat;
    let ghost first = *spill;
    let mut runs: Vec<RunSource> = Vec::new();
    let mut builder = RunBuilder::new();
    let ghost mut done: Seq<RowView> = seq![];
    proof {
        assert(row_views(builder.pending@) =~= seq![]);
        assert(all_run_rows(runs@) =~= done);
        assert(stream_rows(codec@, all.take(0)) =~= done + row_views(builder.pending@));
    }
    for i in 0..src.batches.len()
        invariant
            src.wf(),
            codec@.fits(src.schema@.len() as int),
            all == src.batches@,
            budget == budget_bytes,
            first.counter + all.len() < u128::MAX,
            sorted_runs(runs@),
            same_rows(all_run_rows(runs@), done),
            forall|j: int| 0 <= j < i ==> #[trigger] batch_follows_values(codec@, all[j]),
            stream_rows(codec@, all.take(i as int)) == done + row_views(builder.pending@),
            builder.total_rows == row_count(all.take(i as int)),
            builder.spilled == (runs@.len() > 0),
            runs_hold(codec@, runs@, cut_batches(all.take(i as int), budget).full),
            runs_are_spilled(runs@, first.counter as nat),
            *spill == (SpillDir { counter: (first.counter + runs@.len()) as u128, ..first }),
            row_views(builder.pending@) == stream_rows(
                codec@,
                cut_batches(all.take(i as int), budget).pending,
            ),
            builder.pending_bytes == byte_count(cut_batches(all.take(i as int), budget).pending),
            builder.has_pending == (cut_batches(all.take(i as int), budget).pending.len() > 0),
    {
        let batch = &src.batches[i];
        proof {
            assert(all[i as int].wf());
            lemma_counts_next(all, i as int);
            lemma_counts_grow(all, i + 1);
            assert(all.take(i + 1).drop_last() =~= all.take(i as int));
            law_runs_are_cut_by_the_budget(all.take(i as int), budget);
            law_runs_keep_to_the_budget(all.take(i as int), budget);
            lemma_memory_fits(*batch);
        }
        let ghost pending = row_views(builder.pending@);
        let ghost now = pending + keyed_rows(codec@, *batch);
        let ghost before = runs@;
        let ghost cut = cut_batches(all.take(i as int), budget);
        let ghost waiting = cut.pending.push(*batch);
        proof {
            assert(waiting.drop_last() =~= cut.pending);
            assert(stream_rows(codec@, waiting) =~= now);
        }
        match builder.push(codec, batch, budget_bytes, spill) {
            Some(run) => {
                proof {
                    lemma_run_added(runs@, run, done, now);
                    assert(done + pending + keyed_rows(codec@, *batch) =~= done + now);
                    done = done + now;
                    assert(row_views(builder.pending@) =~= seq![]);
                    assert(done + row_views(builder.pending@) =~= done);
                }
                runs.push(run);
            },
            None => {
                assert(done + pending + keyed_rows(codec@, *batch) =~= done + now);
            },
        }
    }
    proof {
        assert(all.take(all.len() as int) =~= all);
        law_runs_are_cut_by_the_budget(all, budget);
    }
    let total = builder.total_rows;
    let ghost pending = row_views(builder.pending@);
    match builder.finish(spill) {
        Some(run) => {
            proof {
                lemma_run_added(runs@, run, done, pending);
            }
            runs.push(run);
        },
        None => {
            proof {
                assert(done + pending =~= done);
            }
        },
    }
    (runs, total)
}

} // verus!
