//! Choosing a key: checking one that was given, and inferring one.

use crate::error::{Error, ErrorView};
use crate::float::total_rank;
use crate::hash::{cell_bytes, is_framed, is_hashable, joined_bytes, lemma_cell_framed, lemma_joined_injective, write_cell};
use crate::input::Table;
use crate::schema::{column, first_missing, has_column, lemma_column, FieldShape};
use crate::schema_diff::{lemma_filter_keeps, lemma_filter_next, SchemaDiff};
use crate::sort::{in_order, row_order, row_views, same_rows, sort_rows, Row, RowView};
use crate::text::{characters, contains, copy_all, equals, law_byte_order_total, law_byte_order_transitive, lowered, to_lower, views};
use crate::value::{cell_order, cell_views, comparable, key_order, Cell, CellView};
use vstd::bytes::{lemma_auto_spec_u64_to_from_le_bytes, spec_u64_to_le_bytes, u64_to_le_bytes};
use vstd::prelude::*;
use vstd::utf8::encode_utf8;

verus! {

/// The first of the names that is not in the list.
pub open spec fn first_outside(list: Seq<Seq<char>>, wanted: Seq<Seq<char>>) -> Option<Seq<char>>
    decreases wanted.len(),
{
    if wanted.len() == 0 {
        None
    } else if !list.contains(wanted[0]) {
        Some(wanted[0])
    } else {
        first_outside(list, wanted.drop_first())
    }
}

/// Refuses a key with a column that is not in both tables.
pub fn validate_key(key: &Vec<String>, schema: &SchemaDiff) -> (r: Result<(), Error>)
    ensures
        match first_outside(schema@.mutual, views(key@)) {
            None => r is Ok,
            Some(name) => r matches Err(e) && e@ == (ErrorView::KeyNotShared {
                column: name,
                shared: schema@.mutual,
            }),
        },
{
    let ghost list = schema@.mutual;
    let ghost all = views(key@);
    assert(all.skip(0) =~= all);
    for i in 0..key.len()
        invariant
            list == schema@.mutual,
            all == views(key@),
            first_outside(list, all) == first_outside(list, all.skip(i as int)),
    {
        proof {
            assert(all.skip(i as int)[0] == key@[i as int]@);
            assert(all.skip(i as int).drop_first() =~= all.skip(i + 1));
        }
        if !contains(&schema.mutual, key[i].as_str()) {
            return Err(
                Error::KeyNotShared { column: key[i].clone(), shared: copy_all(&schema.mutual) },
            );
        }
    }
    assert(all.skip(all.len() as int) =~= seq![]);
    Ok(())
}

/// The key cells of a row.
pub open spec fn key_cells(t: Table, cols: Seq<Seq<char>>, row: int) -> Seq<CellView> {
    cols.map_values(|c: Seq<char>| t.cell(row, c))
}

/// Reads the key cells of every row.
pub fn extract_keys(t: &Table, cols: &Vec<String>) -> (r: Result<Vec<Vec<Cell>>, Error>)
    requires
        t.wf(),
    ensures
        match r {
            Ok(keys) => {
                &&& first_missing(t.schema@, views(cols@)) is None
                &&& keys@.len() == t.rows@.len()
                &&& forall|i: int|
                    0 <= i < keys@.len() ==> cell_views((#[trigger] keys@[i])@) == key_cells(
                        *t,
                        views(cols@),
                        i,
                    )
            },
            Err(e) => first_missing(t.schema@, views(cols@)) matches Some(name) && e@
                == (ErrorView::MissingColumn { column: name }),
        },
{
    let idx = match t.schema.indices_of(cols) {
        Ok(idx) => idx,
        Err(e) => {
            return Err(e);
        },
    };
    let mut keys: Vec<Vec<Cell>> = Vec::new();
    for row in 0..t.rows.len()
        invariant
            t.wf(),
            idx@.len() == cols@.len(),
            forall|i: int| 0 <= i < idx@.len() ==> #[trigger] idx@[i] < t.schema@.len(),
            forall|i: int|
                0 <= i < idx@.len() ==> #[trigger] idx@[i] == column(t.schema@, cols@[i]@),
            keys.len() == row,
            forall|i: int|
                0 <= i < row ==> cell_views((#[trigger] keys@[i])@) == key_cells(*t, views(cols@), i),
    {
        let mut key: Vec<Cell> = Vec::new();
        for i in 0..idx.len()
            invariant
                t.wf(),
                row < t.rows@.len(),
                idx@.len() == cols@.len(),
                forall|j: int| 0 <= j < idx@.len() ==> #[trigger] idx@[j] < t.schema@.len(),
                forall|j: int|
                    0 <= j < idx@.len() ==> #[trigger] idx@[j] == column(t.schema@, cols@[j]@),
                key.len() == i,
                forall|j: int|
                    0 <= j < i ==> (#[trigger] key@[j])@ == key_cells(*t, views(cols@), row as int)[j],
        {
            assert(t.rows@[row as int]@.len() == t.schema@.len());
            assert(idx@[i as int] < t.schema@.len());
            key.push(t.rows[row][idx[i]].clone());
        }
        assert(cell_views(key@) =~= key_cells(*t, views(cols@), row as int));
        keys.push(key);
    }
    Ok(keys)
}

/// True where no row has a null among its key cells.
pub open spec fn no_nulls(t: Table, cols: Seq<Seq<char>>) -> bool {
    forall|i: int, j: int|
        0 <= i < t.rows@.len() && 0 <= j < cols.len() ==> !(#[trigger] key_cells(t, cols, i)[j] is Null)
}

/// True where no two rows have keys that compare equal.
pub open spec fn all_distinct(t: Table, cols: Seq<Seq<char>>) -> bool {
    forall|i: int, j: int|
        0 <= i < j < t.rows@.len() ==> key_order(
            #[trigger] key_cells(t, cols, i),
            #[trigger] key_cells(t, cols, j),
        ) != 0
}

/// True where columns identify every row: no nulls, and no key twice.
pub open spec fn is_unique_key(t: Table, cols: Seq<Seq<char>>) -> bool {
    no_nulls(t, cols) && all_distinct(t, cols)
}

/// A cell in bytes that differ wherever the cells compare unequal.
spec fn exact_bytes(c: CellView) -> Seq<u8> {
    match c {
        CellView::Float { bits, text: _ } => seq![3u8] + spec_u64_to_le_bytes(bits),
        _ => cell_bytes(c),
    }
}

spec fn exact_parts(cells: Seq<CellView>) -> Seq<Seq<u8>> {
    cells.map_values(|c: CellView| exact_bytes(c))
}

fn write_exact(buf: &mut Vec<u8>, c: &Cell)
    ensures
        final(buf)@ == old(buf)@ + exact_bytes(c@),
        is_hashable(c@),
{
    match c {
        Cell::Float(f) => {
            buf.push(3);
            buf.extend_from_slice(u64_to_le_bytes(f.bits).as_slice());
            assert(buf@ =~= old(buf)@ + exact_bytes(c@));
        },
        Cell::Str(s) => {
            let n = s.as_str().as_bytes().len();
            assert(encode_utf8(s@).len() == n);
            write_cell(buf, c);
        },
        _ => write_cell(buf, c),
    }
}

/// Writes a key in bytes that differ wherever keys compare unequal.
fn exact_key(cells: &Vec<Cell>) -> (r: Vec<u8>)
    ensures
        r@ == joined_bytes(exact_parts(cell_views(cells@))),
        forall|i: int| 0 <= i < cells@.len() ==> is_hashable(#[trigger] cell_views(cells@)[i]),
{
    let ghost parts = exact_parts(cell_views(cells@));
    let mut r: Vec<u8> = Vec::new();
    assert(r@ =~= joined_bytes(parts.take(0)));
    for i in 0..cells.len()
        invariant
            parts == exact_parts(cell_views(cells@)),
            r@ == joined_bytes(parts.take(i as int)),
            forall|j: int| 0 <= j < i ==> is_hashable(#[trigger] cell_views(cells@)[j]),
    {
        write_exact(&mut r, &cells[i]);
        proof {
            assert(parts.take(i + 1).drop_last() =~= parts.take(i as int));
            assert(parts.take(i + 1).last() == exact_bytes(cells@[i as int]@));
        }
    }
    assert(parts.take(parts.len() as int) =~= parts);
    r
}

proof fn lemma_exact_framed(c: CellView)
    requires
        is_hashable(c),
    ensures
        is_framed(exact_bytes(c)),
{
    lemma_auto_spec_u64_to_from_le_bytes();
    match c {
        CellView::Float { bits, text: _ } => {},
        _ => lemma_cell_framed(c),
    }
}

proof fn lemma_exact_tag(c: CellView)
    ensures
        exact_bytes(c)[0] == match c {
            CellView::Null => 0u8,
            CellView::Bool(_) => 1u8,
            CellView::Int(_) => 2u8,
            CellView::Float { bits: _, text: _ } => 3u8,
            CellView::Str(_) => 4u8,
        },
{
}

/// Cells of one column compare equal exactly where their bytes are the same.
proof fn lemma_exact_equal(a: CellView, b: CellView)
    requires
        comparable(a, b),
        is_hashable(a),
        is_hashable(b),
    ensures
        exact_bytes(a) == exact_bytes(b) <==> cell_order(a, b) == 0,
{
    lemma_auto_spec_u64_to_from_le_bytes();
    lemma_exact_tag(a);
    lemma_exact_tag(b);
    match (a, b) {
        (CellView::Bool(x), CellView::Bool(y)) => {
            assert(exact_bytes(a)[1] == if x {
                1u8
            } else {
                0u8
            });
            assert(exact_bytes(b)[1] == if y {
                1u8
            } else {
                0u8
            });
        },
        (CellView::Int(i), CellView::Int(j)) => {
            assert(exact_bytes(a).skip(1) =~= spec_u64_to_le_bytes(crate::hash::pattern(i)));
            assert(exact_bytes(b).skip(1) =~= spec_u64_to_le_bytes(crate::hash::pattern(j)));
        },
        (CellView::Float { bits: x, text: _ }, CellView::Float { bits: y, text: _ }) => {
            assert(exact_bytes(a).skip(1) =~= spec_u64_to_le_bytes(x));
            assert(exact_bytes(b).skip(1) =~= spec_u64_to_le_bytes(y));
            assert(total_rank(x) == total_rank(y) <==> x == y);
        },
        (CellView::Str(s), CellView::Str(u)) => {
            law_byte_order_total(encode_utf8(s), encode_utf8(u));
            assert(exact_bytes(a).skip(9) =~= encode_utf8(s));
            assert(exact_bytes(b).skip(9) =~= encode_utf8(u));
            vstd::utf8::encode_utf8_decode_utf8(s);
            vstd::utf8::encode_utf8_decode_utf8(u);
        },
        _ => {},
    }
}

/// Keys compare equal exactly where all of their cells do.
proof fn lemma_key_order_zero(a: Seq<CellView>, b: Seq<CellView>)
    requires
        a.len() == b.len(),
    ensures
        key_order(a, b) == 0 <==> forall|i: int|
            0 <= i < a.len() ==> cell_order(#[trigger] a[i], b[i]) == 0,
    decreases a.len(),
{
    if a.len() > 0 {
        let x = a.drop_first();
        let y = b.drop_first();
        lemma_key_order_zero(x, y);
        if key_order(a, b) == 0 {
            assert forall|i: int| 0 <= i < a.len() implies cell_order(#[trigger] a[i], b[i]) == 0 by {
                if i > 0 {
                    assert(cell_order(x[i - 1], y[i - 1]) == 0);
                }
            }
        }
        if forall|i: int| 0 <= i < a.len() ==> cell_order(#[trigger] a[i], b[i]) == 0 {
            assert(cell_order(a[0], b[0]) == 0);
            assert forall|i: int| 0 <= i < x.len() implies cell_order(#[trigger] x[i], y[i]) == 0 by {
                assert(cell_order(a[i + 1], b[i + 1]) == 0);
            }
        }
    }
}

/// Keys of one table compare equal exactly where their bytes are the same.
proof fn lemma_keys_equal(t: Table, cols: Seq<Seq<char>>, i: int, j: int)
    requires
        t.wf(),
        0 <= i < t.rows@.len(),
        0 <= j < t.rows@.len(),
        first_missing(t.schema@, cols) is None,
        forall|k: int| 0 <= k < cols.len() ==> is_hashable(#[trigger] key_cells(t, cols, i)[k]),
        forall|k: int| 0 <= k < cols.len() ==> is_hashable(#[trigger] key_cells(t, cols, j)[k]),
    ensures
        key_order(key_cells(t, cols, i), key_cells(t, cols, j)) == 0 <==> joined_bytes(
            exact_parts(key_cells(t, cols, i)),
        ) == joined_bytes(exact_parts(key_cells(t, cols, j))),
{
    let a = key_cells(t, cols, i);
    let b = key_cells(t, cols, j);
    let x = exact_parts(a);
    let y = exact_parts(b);
    lemma_key_order_zero(a, b);
    lemma_none_missing(t.schema@, cols);
    assert forall|k: int| 0 <= k < cols.len() implies (x[k] == y[k] <==> cell_order(
        #[trigger] a[k],
        b[k],
    ) == 0) by {
        let c = column(t.schema@, cols[k]);
        assert(0 <= c < t.schema@.len());
        assert(comparable(t.rows@[i]@[c]@, t.rows@[j]@[c]@));
        assert(is_hashable(key_cells(t, cols, i)[k]));
        assert(is_hashable(key_cells(t, cols, j)[k]));
        lemma_exact_equal(a[k], b[k]);
    }
    if key_order(a, b) == 0 {
        assert forall|k: int| 0 <= k < x.len() implies x[k] == y[k] by {
            assert(cell_order(a[k], b[k]) == 0);
        }
        assert(x =~= y);
    }
    if joined_bytes(x) == joined_bytes(y) {
        assert forall|k: int| 0 <= k < x.len() implies is_framed(#[trigger] x[k]) by {
            assert(is_hashable(key_cells(t, cols, i)[k]));
            lemma_exact_framed(a[k]);
        }
        assert forall|k: int| 0 <= k < y.len() implies is_framed(#[trigger] y[k]) by {
            assert(is_hashable(key_cells(t, cols, j)[k]));
            lemma_exact_framed(b[k]);
        }
        lemma_joined_injective(x, y);
        assert forall|k: int| 0 <= k < a.len() implies cell_order(#[trigger] a[k], b[k]) == 0 by {
            assert(x[k] == y[k]);
        }
    }
}

/// Where no name is missing, every column is there.
pub proof fn lemma_none_missing(fields: Seq<FieldShape>, names: Seq<Seq<char>>)
    requires
        first_missing(fields, names) is None,
    ensures
        forall|i: int|
            0 <= i < names.len() ==> has_column(fields, #[trigger] names[i]) && 0 <= column(
                fields,
                names[i],
            ),
    decreases names.len(),
{
    if names.len() > 0 {
        lemma_none_missing(fields, names.drop_first());
        assert forall|i: int| 0 <= i < names.len() implies has_column(fields, #[trigger] names[i])
            && 0 <= column(fields, names[i]) by {
            lemma_column(fields, names[i]);
            if i > 0 {
                assert(names.drop_first()[i - 1] == names[i]);
            }
        }
    }
}

/// The same rows are distinct in any order.
proof fn lemma_distinct_in_any_order(a: Seq<RowView>, b: Seq<RowView>)
    requires
        same_rows(a, b),
        a.no_duplicates(),
    ensures
        b.no_duplicates(),
{
    a.lemma_multiset_has_no_duplicates();
    b.lemma_multiset_has_no_duplicates_conv();
}

/// True where no two byte strings are the same.
fn distinct(keys: Vec<Row>) -> (r: bool)
    requires
        forall|i: int| 0 <= i < keys@.len() ==> (#[trigger] keys@[i]).cells@.len() == 0,
    ensures
        r == (forall|i: int, j: int|
            0 <= i < j < keys@.len() ==> (#[trigger] keys@[i]).key@ != (#[trigger] keys@[j]).key@),
{
    let ghost all = row_views(keys@);
    proof {
        assert forall|i: int| 0 <= i < all.len() implies (#[trigger] all[i]).cells == Seq::<
            CellView,
        >::empty() by {
            assert(keys@[i].cells@.len() == 0);
            assert(cell_views(keys@[i].cells@) =~= Seq::<CellView>::empty());
        }
    }
    let sorted = sort_rows(keys);
    let ghost v = row_views(sorted@);
    let n = sorted.len();
    let mut i: usize = 1;
    while i < n
        invariant
            n == sorted@.len(),
            v == row_views(sorted@),
            1 <= i,
            all == row_views(keys@),
            forall|k: int| 0 <= k < all.len() ==> (#[trigger] all[k]).cells == Seq::<CellView>::empty(),
            in_order(v),
            same_rows(v, all),
            forall|k: int| 0 < k < i && k < n ==> v[k - 1].key != (#[trigger] v[k]).key,
        decreases n - i,
    {
        if crate::merge::same_key(&sorted[i - 1].key, &sorted[i].key) {
            proof {
                let x = v[i - 1];
                let y = v[i as int];
                assert(x.key == y.key);
                lemma_keys_only(v, all, i - 1);
                lemma_keys_only(v, all, i as int);
                assert(x == y);
                if all.no_duplicates() {
                    lemma_distinct_in_any_order(all, v);
                    assert(v[i - 1] != v[i as int]);
                }
                let (p, q) = choose|p: int, q: int|
                    0 <= p < all.len() && 0 <= q < all.len() && p != q && all[p] == all[q];
                let (p, q) = if p < q {
                    (p, q)
                } else {
                    (q, p)
                };
                assert(keys@[p].key@ == all[p].key);
                assert(keys@[q].key@ == all[q].key);
            }
            return false;
        }
        proof {
            assert(v[i - 1].key == sorted@[i - 1].key@);
            assert(v[i as int].key == sorted@[i as int].key@);
        }
        i = i + 1;
    }
    proof {
        assert forall|x: int, y: int| 0 <= x < v.len() && 0 <= y < v.len() && x != y implies v[x]
            != v[y] by {
            lemma_strict(v, if x < y {
                x
            } else {
                y
            }, if x < y {
                y
            } else {
                x
            });
        }
        assert(v.no_duplicates());
        lemma_distinct_in_any_order(v, all);
        assert forall|x: int, y: int| 0 <= x < y < keys@.len() implies (#[trigger] keys@[x]).key@ != (
        #[trigger] keys@[y]).key@ by {
            assert(all[x] != all[y]);
            assert(all[x].cells == all[y].cells);
        }
    }
    true
}

/// Sorted rows keep the rows' empty cells.
proof fn lemma_keys_only(v: Seq<RowView>, all: Seq<RowView>, i: int)
    requires
        same_rows(v, all),
        0 <= i < v.len(),
        forall|k: int| 0 <= k < all.len() ==> (#[trigger] all[k]).cells == Seq::<CellView>::empty(),
    ensures
        v[i].cells == Seq::<CellView>::empty(),
{
    crate::merge::lemma_same_rows_contains(v, all, v[i]);
    let k = choose|k: int| 0 <= k < all.len() && all[k] == v[i];
    assert(all[k].cells == Seq::<CellView>::empty());
}

/// Sorted rows whose neighbours differ are all different.
proof fn lemma_strict(v: Seq<RowView>, x: int, y: int)
    requires
        in_order(v),
        forall|k: int| 0 < k < v.len() ==> v[k - 1].key != (#[trigger] v[k]).key,
        0 <= x < y < v.len(),
    ensures
        v[x].key != v[y].key,
{
    assert(row_order(v[x], v[y - 1]) <= 0);
    assert(row_order(v[y - 1], v[y]) <= 0);
    law_byte_order_total(v[y - 1].key, v[y].key);
    law_byte_order_transitive(v[x].key, v[y - 1].key, v[y].key);
    law_byte_order_total(v[x].key, v[y].key);
    assert(v[y - 1].key != v[y].key);
}

/// True where columns identify every row of a table.
pub fn key_is_unique(t: &Table, cols: &Vec<String>) -> (r: Result<bool, Error>)
    requires
        t.wf(),
    ensures
        match r {
            Ok(unique) => first_missing(t.schema@, views(cols@)) is None && unique == is_unique_key(
                *t,
                views(cols@),
            ),
            Err(e) => first_missing(t.schema@, views(cols@)) matches Some(name) && e@
                == (ErrorView::MissingColumn { column: name }),
        },
{
    let ghost names = views(cols@);
    let keys = match extract_keys(t, cols) {
        Ok(keys) => keys,
        Err(e) => {
            return Err(e);
        },
    };
    let mut rows: Vec<Row> = Vec::new();
    for i in 0..keys.len()
        invariant
            names == views(cols@),
            keys@.len() == t.rows@.len(),
            forall|k: int|
                0 <= k < keys@.len() ==> cell_views((#[trigger] keys@[k])@) == key_cells(*t, names, k),
            rows.len() == i,
            forall|k: int|
                0 <= k < i ==> (#[trigger] rows@[k]).cells@.len() == 0 && rows@[k].key@ == joined_bytes(
                    exact_parts(key_cells(*t, names, k)),
                ),
            forall|k: int, j: int|
                0 <= k < i && 0 <= j < names.len() ==> is_hashable(
                    #[trigger] key_cells(*t, names, k)[j],
                ) && !(key_cells(*t, names, k)[j] is Null),
            first_missing(t.schema@, names) is None,
    {
        let key = &keys[i];
        assert(cell_views(key@) == key_cells(*t, names, i as int));
        for j in 0..key.len()
            invariant
                first_missing(t.schema@, names) is None,
                names == views(cols@),
                i < t.rows@.len(),
                cell_views(key@) == key_cells(*t, names, i as int),
                forall|k: int| 0 <= k < j ==> !(#[trigger] key_cells(*t, names, i as int)[k] is Null),
        {
            assert(cell_views(key@)[j as int] == key@[j as int]@);
            if let Cell::Null = &key[j] {
                proof {
                    assert(cell_views(key@).len() == names.len());
                    assert(key_cells(*t, names, i as int)[j as int] is Null);
                    assert(!no_nulls(*t, names));
                }
                return Ok(false);
            }
        }
        rows.push(Row { key: exact_key(key), cells: Vec::new() });
    }
    let unique = distinct(rows);
    proof {
        assert(no_nulls(*t, names));
        assert forall|i: int, j: int| 0 <= i < j < t.rows@.len() implies ((key_order(
            #[trigger] key_cells(*t, names, i),
            #[trigger] key_cells(*t, names, j),
        ) == 0) == (rows@[i].key@ == rows@[j].key@)) by {
            lemma_keys_equal(*t, names, i, j);
            assert(rows@[i].cells@.len() == 0 && rows@[j].cells@.len() == 0);
        }
        if all_distinct(*t, names) {
            assert forall|i: int, j: int| 0 <= i < j < rows@.len() implies (#[trigger] rows@[i]).key@ != (
            #[trigger] rows@[j]).key@ by {
                assert(key_order(key_cells(*t, names, i), key_cells(*t, names, j)) != 0);
            }
        }
    }
    Ok(unique)
}

/// True for a name that reads `id`, in any case.
pub open spec fn is_id() -> spec_fn(Seq<char>) -> bool {
    |c: Seq<char>| lowered(c) == "id"@
}

/// True for a name that usually stands for a key: one that ends in `_id`, or
/// reads `key`, `pk` or `uuid`, in any case.
pub open spec fn is_key_like() -> spec_fn(Seq<char>) -> bool {
    |c: Seq<char>|
        {
            let l = lowered(c);
            ends_in_id(l) || l == "key"@ || l == "pk"@ || l == "uuid"@
        }
}

pub open spec fn ends_in_id(s: Seq<char>) -> bool {
    s.len() >= 3 && s.skip(s.len() - 3) == seq!['_', 'i', 'd']
}

/// Adds the names that are accepted and not there yet, in order.
pub open spec fn added_names(
    found: Seq<Seq<char>>,
    list: Seq<Seq<char>>,
    accepts: spec_fn(Seq<char>) -> bool,
) -> Seq<Seq<char>>
    decreases list.len(),
{
    if list.len() == 0 {
        found
    } else {
        let before = added_names(found, list.drop_last(), accepts);
        if accepts(list.last()) && !before.contains(list.last()) {
            before.push(list.last())
        } else {
            before
        }
    }
}

/// The columns to try as a key: id-like names first, then the remaining ones.
pub open spec fn key_candidates(mutual: Seq<Seq<char>>) -> Seq<Seq<char>> {
    added_names(
        added_names(mutual.filter(is_id()), mutual, is_key_like()),
        mutual,
        |c: Seq<char>| true,
    )
}

/// The first candidate that identifies every row on both sides.
pub open spec fn inferred_key(
    left: Table,
    right: Table,
    candidates: Seq<Seq<char>>,
) -> Result<Seq<char>, ErrorView>
    decreases candidates.len(),
{
    if candidates.len() == 0 {
        Err(ErrorView::NoKeyFound)
    } else {
        let c = candidates[0];
        if !has_column(left.schema@, c) {
            Err(ErrorView::MissingColumn { column: c })
        } else if !is_unique_key(left, seq![c]) {
            inferred_key(left, right, candidates.drop_first())
        } else if !has_column(right.schema@, c) {
            Err(ErrorView::MissingColumn { column: c })
        } else if !is_unique_key(right, seq![c]) {
            inferred_key(left, right, candidates.drop_first())
        } else {
            Ok(c)
        }
    }
}

fn reads_id(c: &str) -> (r: bool)
    ensures
        r == is_id()(c@),
{
    equals(&to_lower(c), "id")
}

fn reads_like_key(c: &str) -> (r: bool)
    ensures
        r == is_key_like()(c@),
{
    let l = to_lower(c);
    let v = characters(l.as_str());
    let n = v.len();
    let suffix = n >= 3 && v[n - 3] == '_' && v[n - 2] == 'i' && v[n - 1] == 'd';
    proof {
        if n >= 3 {
            let tail = l@.skip(n - 3);
            if suffix {
                assert(tail =~= seq!['_', 'i', 'd']);
            } else {
                assert(tail[0] == v@[n - 3] && tail[1] == v@[n - 2] && tail[2] == v@[n - 1]);
                assert(seq!['_', 'i', 'd'][0] == '_' && seq!['_', 'i', 'd'][1] == 'i' && seq![
                    '_',
                    'i',
                    'd',
                ][2] == 'd');
            }
        }
    }
    suffix || equals(&l, "key") || equals(&l, "pk") || equals(&l, "uuid")
}

/// Lists the columns to try as a key.
fn candidates(mutual: &Vec<String>) -> (r: Vec<String>)
    ensures
        views(r@) == key_candidates(views(mutual@)),
{
    let ghost all = views(mutual@);
    let mut r: Vec<String> = Vec::new();
    assert(views(r@) =~= all.take(0).filter(is_id())) by {
        reveal(Seq::filter);
    }
    for i in 0..mutual.len()
        invariant
            all == views(mutual@),
            views(r@) == all.take(i as int).filter(is_id()),
    {
        proof {
            lemma_filter_next(all, is_id(), i as int);
        }
        let ghost before = r@;
        if reads_id(mutual[i].as_str()) {
            r.push(mutual[i].clone());
            assert(views(r@) =~= views(before).push(all[i as int]));
        }
    }
    assert(all.take(all.len() as int) =~= all);
    let ghost ids = views(r@);
    for i in 0..mutual.len()
        invariant
            all == views(mutual@),
            views(r@) == added_names(ids, all.take(i as int), is_key_like()),
    {
        proof {
            assert(all.take(i + 1).drop_last() =~= all.take(i as int));
        }
        let ghost before = r@;
        if reads_like_key(mutual[i].as_str()) && !contains(&r, mutual[i].as_str()) {
            r.push(mutual[i].clone());
            assert(views(r@) =~= views(before).push(all[i as int]));
        }
    }
    let ghost liked = views(r@);
    let ghost any = |c: Seq<char>| true;
    for i in 0..mutual.len()
        invariant
            all == views(mutual@),
            any == (|c: Seq<char>| true),
            views(r@) == added_names(liked, all.take(i as int), any),
    {
        proof {
            assert(all.take(i + 1).drop_last() =~= all.take(i as int));
        }
        let ghost before = r@;
        if !contains(&r, mutual[i].as_str()) {
            r.push(mutual[i].clone());
            assert(views(r@) =~= views(before).push(all[i as int]));
        }
    }
    r
}

/// Infers a key from row samples of both sides. Uniqueness here is only a
/// sample-level heuristic; the merge verifies it over the full data.
pub fn infer_key(left: &Table, right: &Table, mutual: &Vec<String>) -> (r: Result<Vec<String>, Error>)
    requires
        left.wf(),
        right.wf(),
    ensures
        match inferred_key(*left, *right, key_candidates(views(mutual@))) {
            Ok(c) => r matches Ok(key) && views(key@) == seq![c],
            Err(want) => r matches Err(e) && e@ == want,
        },
{
    let cands = candidates(mutual);
    let ghost all = views(cands@);
    assert(all.skip(0) =~= all);
    for i in 0..cands.len()
        invariant
            left.wf(),
            right.wf(),
            all == views(cands@),
            all == key_candidates(views(mutual@)),
            inferred_key(*left, *right, all) == inferred_key(*left, *right, all.skip(i as int)),
    {
        let ghost c = cands@[i as int]@;
        let mut cols: Vec<String> = Vec::new();
        cols.push(cands[i].clone());
        proof {
            assert(views(cols@) =~= seq![c]);
            assert(all.skip(i as int)[0] == c);
            assert(all.skip(i as int).drop_first() =~= all.skip(i + 1));
            lemma_one_missing(left.schema@, c);
            lemma_one_missing(right.schema@, c);
        }
        match key_is_unique(left, &cols) {
            Err(e) => {
                return Err(e);
            },
            Ok(false) => {},
            Ok(true) => match key_is_unique(right, &cols) {
                Err(e) => {
                    return Err(e);
                },
                Ok(false) => {},
                Ok(true) => {
                    return Ok(cols);
                },
            },
        }
    }
    assert(all.skip(all.len() as int) =~= seq![]);
    Err(Error::NoKeyFound)
}

proof fn lemma_one_missing(fields: Seq<FieldShape>, c: Seq<char>)
    ensures
        first_missing(fields, seq![c]) == (if has_column(fields, c) {
            None::<Seq<char>>
        } else {
            Some(c)
        }),
{
    assert(seq![c].drop_first() =~= seq![]);
    assert(first_missing(fields, seq![c].drop_first()) is None);
}

/// An inferred key is the first candidate whose samples are unique and without
/// nulls on both sides.
pub proof fn law_inferred_key_is_unique(left: Table, right: Table, candidates: Seq<Seq<char>>)
    ensures
        inferred_key(left, right, candidates) matches Ok(c) ==> candidates.contains(c)
            && is_unique_key(left, seq![c]) && is_unique_key(right, seq![c]),
        inferred_key(left, right, candidates) == Err::<Seq<char>, ErrorView>(ErrorView::NoKeyFound)
            ==> forall|i: int|
            0 <= i < candidates.len() ==> !(is_unique_key(left, seq![#[trigger] candidates[i]])
                && is_unique_key(right, seq![candidates[i]])),
    decreases candidates.len(),
{
    if candidates.len() > 0 {
        let rest = candidates.drop_first();
        law_inferred_key_is_unique(left, right, rest);
        match inferred_key(left, right, candidates) {
            Ok(c) => {
                if c == candidates[0] {
                } else {
                    let i = choose|i: int| 0 <= i < rest.len() && rest[i] == c;
                    assert(candidates[i + 1] == c);
                }
            },
            Err(_) => {
                if inferred_key(left, right, candidates) == Err::<Seq<char>, ErrorView>(
                    ErrorView::NoKeyFound,
                ) {
                    assert forall|i: int| 0 <= i < candidates.len() implies !(is_unique_key(
                        left,
                        seq![#[trigger] candidates[i]],
                    ) && is_unique_key(right, seq![candidates[i]])) by {
                        if i > 0 {
                            assert(rest[i - 1] == candidates[i]);
                        }
                    }
                }
            },
        }
    }
}

pub proof fn lemma_added_names(
    start: Seq<Seq<char>>,
    more: Seq<Seq<char>>,
    p: spec_fn(Seq<char>) -> bool,
    name: Seq<char>,
)
    ensures
        added_names(start, more, p).contains(name) <==> start.contains(name) || (more.contains(name)
            && p(name)),
    decreases more.len(),
{
    if more.len() > 0 {
        let less = more.drop_last();
        lemma_added_names(start, less, p, name);
        let before = added_names(start, less, p);
        let c = more.last();
        let after = added_names(start, more, p);
        if more.contains(name) {
            let i = choose|i: int| 0 <= i < more.len() && more[i] == name;
            if i < less.len() {
                assert(less[i] == name);
            }
        }
        if less.contains(name) {
            let i = choose|i: int| 0 <= i < less.len() && less[i] == name;
            assert(more[i] == name);
        }
        assert(more[more.len() - 1] == c);
        if after != before {
            assert(after == before.push(c));
            if before.contains(name) {
                let i = choose|i: int| 0 <= i < before.len() && before[i] == name;
                assert(after[i] == name);
            }
            assert(after[after.len() - 1] == c);
            if after.contains(name) {
                let i = choose|i: int| 0 <= i < after.len() && after[i] == name;
                if i < before.len() {
                    assert(before[i] == name);
                }
            }
        }
    }
}

/// The columns that are tried as a key are the shared ones.
pub proof fn law_candidates_are_shared(mutual: Seq<Seq<char>>, name: Seq<char>)
    ensures
        key_candidates(mutual).contains(name) <==> mutual.contains(name),
{
    let ids = mutual.filter(is_id());
    let any = |c: Seq<char>| true;
    lemma_filter_keeps(mutual, is_id());
    if ids.contains(name) {
        let i = choose|i: int| 0 <= i < ids.len() && ids[i] == name;
        assert(mutual.contains(ids[i]));
    }
    lemma_added_names(ids, mutual, is_key_like(), name);
    lemma_added_names(added_names(ids, mutual, is_key_like()), mutual, any, name);
}

} // verus!
