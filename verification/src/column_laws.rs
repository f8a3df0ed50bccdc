//! What columns hold, how their values compare in keys, and what samples show
//! of them.

use crate::error::ErrorView;
use crate::filter_laws::reads;
use crate::float::{from_int, lemma_total_rank_injective};
use crate::infer_laws::lemma_reads_lowered;
use crate::input::{all_rows, format_of, is_sample, picked_fields, Batch, BatchIter, FileFormat, Table};
use crate::key::{key_part, part_order, parts_order, KeyPart};
use crate::order_laws::{held_rows, table_rows};
use crate::schema::{column, has_column, lemma_column, names, places, type_label, FieldShape, TypeShape};
use crate::sort::unified;
use crate::text::{decimal, lemma_place};
use crate::value::{cell_order, cell_views, key_order, shown, Array, CellView, Single};
use vstd::prelude::*;

verus! {

/// A cell is an integer, or null where there is none.
pub open spec fn holds_int(c: CellView, i: Option<int>) -> bool {
    match (c, i) {
        (CellView::Null, None) => true,
        (CellView::Int(x), Some(y)) => x == y,
        _ => false,
    }
}

/// A cell is a string, or null where there is none.
pub open spec fn holds_text(c: CellView, s: Option<String>) -> bool {
    match (c, s) {
        (CellView::Null, None) => true,
        (CellView::Str(x), Some(y)) => x == y@,
        _ => false,
    }
}

/// An integer of any width is a cell of its value, and a null one is null.
pub proof fn law_integer_columns_hold_their_values(
    a: Vec<Option<i8>>,
    b: Vec<Option<i16>>,
    c: Vec<Option<i32>>,
    d: Vec<Option<i64>>,
    e: Vec<Option<u8>>,
    f: Vec<Option<u16>>,
    g: Vec<Option<u32>>,
    row: int,
)
    ensures
        holds_int(Array::Int8(a).cell(row), if let Some(i) = a@[row] { Some(i as int) } else { None }),
        holds_int(Array::Int16(b).cell(row), if let Some(i) = b@[row] { Some(i as int) } else { None }),
        holds_int(Array::Int32(c).cell(row), if let Some(i) = c@[row] { Some(i as int) } else { None }),
        holds_int(Array::Int64(d).cell(row), if let Some(i) = d@[row] { Some(i as int) } else { None }),
        holds_int(Array::UInt8(e).cell(row), if let Some(i) = e@[row] { Some(i as int) } else { None }),
        holds_int(Array::UInt16(f).cell(row), if let Some(i) = f@[row] { Some(i as int) } else { None }),
        holds_int(Array::UInt32(g).cell(row), if let Some(i) = g@[row] { Some(i as int) } else { None }),
{
}

/// A 64-bit unsigned integer is a cell of its value where a signed one holds it,
/// and is shown by its digits in either case.
pub proof fn law_large_integers_are_shown_by_their_digits(v: Vec<Option<u64>>, row: int)
    ensures
        ({
            let c = Array::UInt64(v).cell(row);
            match v@[row] {
                None => c is Null,
                Some(u) => {
                    &&& u <= i64::MAX ==> holds_int(c, Some(u as int))
                    &&& u > i64::MAX ==> c is Str
                    &&& shown(c) == decimal(u as nat)
                },
            }
        }),
{
}

/// Strings and booleans are cells of their values, in whatever layout a column
/// holds them.
pub proof fn law_text_columns_hold_their_values(
    a: Vec<Option<String>>,
    b: Vec<Option<String>>,
    c: Vec<Option<String>>,
    d: Vec<Option<bool>>,
    row: int,
)
    ensures
        holds_text(Array::Utf8(a).cell(row), a@[row]),
        holds_text(Array::LargeUtf8(b).cell(row), b@[row]),
        holds_text(Array::Utf8View(c).cell(row), c@[row]),
        match d@[row] {
            None => Array::Boolean(d).cell(row) is Null,
            Some(x) => Array::Boolean(d).cell(row) == CellView::Bool(x),
        },
{
}

/// True for a column of booleans, strings, doubles or integers that all fit a
/// signed one.
pub open spec fn is_plain(col: Array) -> bool {
    match col {
        Array::UInt64(_) | Array::Float32(_) | Array::RowHash(_) | Array::Other(_) => false,
        _ => true,
    }
}

/// Keys of one type are ordered as the cells that they are made of, null first.
pub proof fn law_keys_are_ordered_like_cells(left: Array, right: Array, i: int, j: int)
    requires
        is_plain(left),
        is_plain(right),
        left.type_shape() == right.type_shape(),
    ensures
        ({
            let t = unified(left.type_shape(), right.type_shape());
            part_order(key_part(left, t, i), key_part(right, t, j)) == cell_order(left.cell(i), right.cell(j))
        }),
{
}

/// Large unsigned keys are ordered by value.
pub proof fn law_unsigned_keys_are_ordered_by_value(
    left: Vec<Option<u64>>,
    right: Vec<Option<u64>>,
    i: int,
    j: int,
)
    ensures
        ({
            let t = unified(Array::UInt64(left).type_shape(), Array::UInt64(right).type_shape());
            let order = part_order(key_part(Array::UInt64(left), t, i), key_part(Array::UInt64(right), t, j));
            match (left@[i], right@[j]) {
                (Some(x), Some(y)) => (order < 0 <==> x < y) && (order == 0 <==> x == y),
                (None, None) => order == 0,
                (None, Some(_)) => order < 0,
                (Some(_), None) => order > 0,
            }
        }),
{
}

/// Keys of 32-bit floats are equal exactly where their bits are, and positive
/// ones are ordered by their bits.
pub proof fn law_single_keys_are_told_by_bits(
    left: Vec<Option<Single>>,
    right: Vec<Option<Single>>,
    i: int,
    j: int,
)
    ensures
        ({
            let t = unified(Array::Float32(left).type_shape(), Array::Float32(right).type_shape());
            let order = part_order(key_part(Array::Float32(left), t, i), key_part(Array::Float32(right), t, j));
            match (left@[i], right@[j]) {
                (Some(x), Some(y)) => {
                    &&& order == 0 <==> x.bits == y.bits
                    &&& x.bits < y.bits < 0x8000_0000 ==> order < 0
                    &&& x.bits >= 0x8000_0000 > y.bits ==> order < 0
                    &&& x.bits > y.bits >= 0x8000_0000 ==> order < 0
                },
                (None, None) => order == 0,
                (None, Some(_)) => order < 0,
                (Some(_), None) => order > 0,
            }
        }),
{
}

/// True for a column of integers that fit a signed one, or of floats.
pub open spec fn is_number(col: Array) -> bool {
    match col {
        Array::Float32(_) => true,
        Array::Boolean(_) | Array::Utf8(_) | Array::LargeUtf8(_) | Array::Utf8View(_) => false,
        _ => is_plain(col),
    }
}

/// A number as a double.
pub open spec fn as_double(c: CellView) -> Option<u64> {
    match c {
        CellView::Int(i) => Some(from_int(i as int)),
        CellView::Float { bits, text: _ } => Some(bits),
        _ => None,
    }
}

/// Keys of two numeric types match exactly where the cells are the same double,
/// or both null.
pub proof fn law_numeric_keys_match_as_doubles(left: Array, right: Array, i: int, j: int)
    requires
        is_number(left),
        is_number(right),
        left.type_shape() != right.type_shape(),
    ensures
        ({
            let t = unified(left.type_shape(), right.type_shape());
            key_part(left, t, i) == key_part(right, t, j) <==> as_double(left.cell(i)) == as_double(right.cell(j))
        }),
{
    if let (Some(x), Some(y)) = (as_double(left.cell(i)), as_double(right.cell(j))) {
        if x != y {
            lemma_total_rank_injective(x, y);
        }
    }
}

/// True for a column of booleans, integers or strings.
pub open spec fn is_discrete(col: Array) -> bool {
    match col {
        Array::UInt64(_) => true,
        Array::Float64(_) => false,
        _ => is_plain(col),
    }
}

/// Keys of two types that are not both numeric match exactly where the cells are
/// shown alike, or both null.
pub proof fn law_unlike_keys_match_as_texts(left: Array, right: Array, i: int, j: int)
    requires
        is_discrete(left),
        is_discrete(right),
        left.type_shape() != right.type_shape(),
        !(left is UInt64 || is_number(left)) || !(right is UInt64 || is_number(right)),
    ensures
        ({
            let t = unified(left.type_shape(), right.type_shape());
            key_part(left, t, i) == key_part(right, t, j) <==> {
                &&& left.cell(i) is Null == right.cell(j) is Null
                &&& left.cell(i) !is Null ==> shown(left.cell(i)) == shown(right.cell(j))
            }
        }),
{
    assert(unified(left.type_shape(), right.type_shape()) == TypeShape::Utf8);
}

/// Keys of several columns are ordered by the first column in which they differ.
pub proof fn law_first_column_decides(a: Seq<KeyPart>, b: Seq<KeyPart>, n: int)
    requires
        a.len() == b.len(),
        0 <= n <= a.len(),
        forall|i: int| 0 <= i < n ==> part_order(#[trigger] a[i], b[i]) == 0,
        n < a.len() ==> part_order(a[n], b[n]) != 0,
    ensures
        parts_order(a, b) == if n < a.len() {
            part_order(a[n], b[n])
        } else {
            0
        },
    decreases n,
{
    if n > 0 {
        assert(part_order(a[0], b[0]) == 0);
        let (x, y) = (a.drop_first(), b.drop_first());
        assert forall|i: int| 0 <= i < n - 1 implies part_order(#[trigger] x[i], y[i]) == 0 by {
            assert(part_order(a[i + 1], b[i + 1]) == 0);
        }
        law_first_column_decides(x, y, n - 1);
    }
}

/// Rows of cells are ordered by the first cell in which they differ, and one that
/// another starts with comes first.
pub proof fn law_first_cell_decides(a: Seq<CellView>, b: Seq<CellView>, n: int)
    requires
        0 <= n <= a.len(),
        n <= b.len(),
        forall|i: int| 0 <= i < n ==> cell_order(#[trigger] a[i], b[i]) == 0,
        n < a.len() && n < b.len() ==> cell_order(a[n], b[n]) != 0,
    ensures
        n < a.len() && n < b.len() ==> key_order(a, b) == cell_order(a[n], b[n]),
        n == a.len() && n < b.len() ==> key_order(a, b) < 0,
        n < a.len() && n == b.len() ==> key_order(a, b) > 0,
        n == a.len() && n == b.len() ==> key_order(a, b) == 0,
    decreases n,
{
    if n > 0 {
        assert(cell_order(a[0], b[0]) == 0);
        let (x, y) = (a.drop_first(), b.drop_first());
        assert forall|i: int| 0 <= i < n - 1 implies cell_order(#[trigger] x[i], y[i]) == 0 by {
            assert(cell_order(a[i + 1], b[i + 1]) == 0);
        }
        law_first_cell_decides(x, y, n - 1);
    }
}

/// The cells of a row, by the names of the columns.
proof fn lemma_rows_by_name(fields: Seq<FieldShape>, batches: Seq<Batch>, i: int, name: Seq<char>)
    requires
        forall|b: int| 0 <= b < batches.len() ==> (#[trigger] batches[b]).columns@.len() == fields.len(),
        has_column(fields, name),
    ensures
        all_rows(batches).len() == held_rows(fields, batches).len(),
        0 <= i < all_rows(batches).len() ==> all_rows(batches)[i][column(fields, name)] == held_rows(
            fields,
            batches,
        )[i][name].cell,
    decreases batches.len(),
{
    if batches.len() > 0 {
        let x = batches.drop_last();
        assert forall|b: int| 0 <= b < x.len() implies (#[trigger] x[b]).columns@.len() == fields.len() by {
            assert(batches[b].columns@.len() == fields.len());
        }
        lemma_rows_by_name(fields, x, i, name);
        assert(batches[batches.len() - 1].columns@.len() == fields.len());
        lemma_column(fields, name);
    }
}

/// A sample is the start of a table, as many rows as there are up to the limit,
/// and holds each cell under the name of its column.
pub proof fn law_samples_are_the_first_rows(
    t: Table,
    stream: BatchIter,
    wanted: Seq<Seq<char>>,
    limit: nat,
    i: int,
    name: Seq<char>,
)
    requires
        is_sample(t, stream, wanted, limit),
        stream.wf(),
        forall|c: int| 0 <= c < wanted.len() ==> has_column(stream.schema@, #[trigger] wanted[c]),
        wanted.contains(name),
    ensures
        t.rows@.len() <= limit,
        t.rows@.len() <= table_rows(stream).len(),
        t.rows@.len() == limit || t.rows@.len() == table_rows(stream).len(),
        0 <= i < t.rows@.len() ==> t.cell(i, name) == table_rows(stream)[i][name].cell,
{
    let fields = stream.schema@;
    let idx = places(fields, wanted);
    let c = choose|c: int| 0 <= c < wanted.len() && wanted[c] == name;
    assert(has_column(fields, wanted[c]));
    let side = picked_fields(fields, idx);
    assert forall|b: int| 0 <= b < stream.batches@.len() implies (#[trigger] stream.batches@[b]).columns@.len()
        == fields.len() by {}
    lemma_rows_by_name(fields, stream.batches@, i, name);
    lemma_column(fields, name);
    assert(fields.len() == stream.schema.fields@.len());
    assert(stream.schema.fields.len() <= usize::MAX);
    assert(names(side)[c] == name);
    lemma_place(names(side), name);
    let n = column(side, name);
    assert(names(side)[n] == name);
    if 0 <= i < t.rows@.len() {
        let row = cell_views(t.rows@[i]@);
        assert(row.len() == wanted.len());
        assert(row[n] == all_rows(stream.batches@)[i][idx[n] as int]);
        assert(has_column(fields, wanted[n]));
        lemma_column(fields, wanted[n]);
    }
}

/// A file's format is told by its extension, in small letters or capitals.
pub proof fn law_formats_are_told_by_extensions(extension: Seq<char>)
    ensures
        format_of(extension) == Ok::<FileFormat, ErrorView>(FileFormat::Csv) <==> reads(
            extension,
            seq!['c', 's', 'v'],
        ),
        format_of(extension) == Ok::<FileFormat, ErrorView>(FileFormat::Parquet) <==> {
            ||| reads(extension, seq!['p', 'a', 'r', 'q', 'u', 'e', 't'])
            ||| reads(extension, seq!['p', 'q'])
        },
{
    reveal_strlit("csv");
    reveal_strlit("parquet");
    reveal_strlit("pq");
    lemma_reads_lowered(extension, seq!['c', 's', 'v']);
    lemma_reads_lowered(extension, seq!['p', 'a', 'r', 'q', 'u', 'e', 't']);
    lemma_reads_lowered(extension, seq!['p', 'q']);
    assert("csv"@ =~= seq!['c', 's', 'v']);
    assert("parquet"@ =~= seq!['p', 'a', 'r', 'q', 'u', 'e', 't']);
    assert("pq"@ =~= seq!['p', 'q']);
}

/// True for a type that has one name.
pub open spec fn is_simple(t: TypeShape) -> bool {
    t !is Dictionary && t !is Other
}

/// Types are shown under names that tell them apart.
#[verifier::rlimit(50)]
pub proof fn law_type_names_tell_types_apart(a: TypeShape, b: TypeShape)
    requires
        is_simple(a),
        is_simple(b),
    ensures
        type_label(a) == type_label(b) <==> a == b,
{
    reveal_strlit("Null");
    reveal_strlit("Boolean");
    reveal_strlit("Int8");
    reveal_strlit("Int16");
    reveal_strlit("Int32");
    reveal_strlit("Int64");
    reveal_strlit("UInt8");
    reveal_strlit("UInt16");
    reveal_strlit("UInt32");
    reveal_strlit("UInt64");
    reveal_strlit("Float16");
    reveal_strlit("Float32");
    reveal_strlit("Float64");
    reveal_strlit("Date32");
    reveal_strlit("Date64");
    reveal_strlit("Binary");
    reveal_strlit("LargeBinary");
    reveal_strlit("Utf8");
    reveal_strlit("LargeUtf8");
    reveal_strlit("Utf8View");
    let (x, y) = (type_label(a), type_label(b));
    if x == y {
        assert(x.len() == y.len());
        assert(x[0] == y[0] && x[3] == y[3] && x[4] == y[4] && x[5] == y[5]);
    }
}

} // verus!
