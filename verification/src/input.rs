//! Tables as they come in: schemas, batches of columns, and file formats.

use crate::error::{Error, ErrorView};
use crate::hash::picked;
use crate::key::same_values;
use crate::schema::{column, first_missing, places, Field, FieldShape, Schema};
use crate::text::{equals, lowered, to_lower, views};
use crate::value::{cell_views, comparable, extract, Array, Cell, CellView};
use vstd::prelude::*;

verus! {

/// A number of rows, column by column, and the memory that each column takes,
/// as it was measured where the column was made.
#[derive(Debug)]
pub struct Batch {
    pub columns: Vec<Array>,
    pub rows: usize,
    pub sizes: Vec<usize>,
}

/// Sizes, added up.
pub open spec fn size_sum(sizes: Seq<usize>) -> nat
    decreases sizes.len(),
{
    if sizes.len() == 0 {
        0
    } else {
        size_sum(sizes.drop_last()) + sizes.last() as nat
    }
}

/// Sizes that fit a machine word each have a sum that fits two.
proof fn lemma_size_sum(sizes: Seq<usize>)
    ensures
        size_sum(sizes) <= sizes.len() * usize::MAX,
    decreases sizes.len(),
{
    if sizes.len() > 0 {
        lemma_size_sum(sizes.drop_last());
        let n = sizes.len() as int;
        assert((n - 1) * usize::MAX + usize::MAX == n * usize::MAX) by (nonlinear_arith);
    }
}

/// The first sizes add up to no more than all of them.
proof fn lemma_sizes_grow(sizes: Seq<usize>, i: int)
    requires
        0 <= i <= sizes.len(),
    ensures
        size_sum(sizes.take(i)) <= size_sum(sizes),
    decreases sizes.len(),
{
    if i == sizes.len() {
        assert(sizes.take(i) =~= sizes);
    } else {
        lemma_sizes_grow(sizes.drop_last(), i);
        assert(sizes.drop_last().take(i) =~= sizes.take(i));
    }
}

/// The memory of a batch fits two machine words, with one more word to spare.
pub proof fn lemma_memory_fits(batch: Batch)
    ensures
        batch.spec_memory() + usize::MAX <= u128::MAX,
{
    lemma_size_sum(batch.sizes@);
    let n = batch.sizes.len() as int;
    let most = usize::MAX as int;
    assert(batch.sizes@.len() == n);
    assert(n * most + most <= 0xffff_ffff_ffff_ffff_0000_0000_0000_0000) by (nonlinear_arith)
        requires
            0 <= n <= most,
            0 <= most <= 0xffff_ffff_ffff_ffff,
    ;
}

impl Batch {
    /// Every column has a value for every row, and a size.
    pub open spec fn wf(&self) -> bool {
        &&& self.sizes@.len() == self.columns@.len()
        &&& forall|i: int|
            0 <= i < self.columns@.len() ==> (#[trigger] self.columns@[i]).wf()
                && self.columns@[i].spec_len() == self.rows
    }

    /// The memory of the batch: that of its columns.
    pub open spec fn spec_memory(&self) -> nat {
        size_sum(self.sizes@)
    }

    /// The memory of the batch: that of its columns.
    pub fn memory(&self) -> (n: u128)
        ensures
            n == self.spec_memory(),
    {
        let ghost all = self.sizes@;
        let mut n: u128 = 0;
        assert(all.take(0).len() == 0);
        for i in 0..self.sizes.len()
            invariant
                all == self.sizes@,
                n == size_sum(all.take(i as int)),
        {
            proof {
                let next = all.take(i + 1);
                assert(next.drop_last() =~= all.take(i as int));
                lemma_memory_fits(*self);
                lemma_sizes_grow(all, i + 1);
            }
            n = n + self.sizes[i] as u128;
        }
        assert(all.take(all.len() as int) =~= all);
        n
    }

    /// The cells of a row, one per column.
    pub open spec fn row(&self, row: int) -> Seq<CellView> {
        Seq::new(self.columns@.len(), |i: int| self.columns@[i].cell(row))
    }

    /// Reads a row.
    pub fn cells(&self, row: usize) -> (cells: Vec<Cell>)
        requires
            self.wf(),
            row < self.rows,
        ensures
            cell_views(cells@) == self.row(row as int),
    {
        let mut cells: Vec<Cell> = Vec::new();
        for i in 0..self.columns.len()
            invariant
                self.wf(),
                row < self.rows,
                cells.len() == i,
                forall|j: int| 0 <= j < i ==> cells@[j]@ == self.columns@[j].cell(row as int),
        {
            cells.push(extract(&self.columns[i], row));
        }
        assert(cell_views(cells@) =~= self.row(row as int));
        cells
    }
}

/// A sample of a table: some of its columns, and its first rows in them.
#[derive(Debug)]
pub struct Table {
    pub schema: Schema,
    pub rows: Vec<Vec<Cell>>,
}

impl Table {
    /// The cell of a row in the first column of that name.
    pub open spec fn cell(&self, row: int, name: Seq<char>) -> CellView {
        self.rows@[row]@[column(self.schema@, name)]@
    }

    /// Every row has a cell for each column, and in no column an integer meets
    /// a float.
    pub open spec fn wf(&self) -> bool {
        &&& forall|i: int|
            0 <= i < self.rows@.len() ==> (#[trigger] self.rows@[i])@.len() == self.schema@.len()
        &&& forall|i: int, j: int, c: int|
            0 <= i < self.rows@.len() && 0 <= j < self.rows@.len() && 0 <= c < self.schema@.len()
                ==> comparable(#[trigger] self.rows@[i]@[c]@, #[trigger] self.rows@[j]@[c]@)
    }
}

/// A table as a stream of batches.
#[derive(Debug)]
pub struct BatchIter {
    pub schema: Schema,
    pub batches: Vec<Batch>,
}

/// The rows of batches, added up.
pub open spec fn row_count(batches: Seq<Batch>) -> nat
    decreases batches.len(),
{
    if batches.len() == 0 {
        0
    } else {
        row_count(batches.drop_last()) + batches.last().rows as nat
    }
}

/// The memory of batches, added up.
pub open spec fn byte_count(batches: Seq<Batch>) -> nat
    decreases batches.len(),
{
    if batches.len() == 0 {
        0
    } else {
        byte_count(batches.drop_last()) + batches.last().spec_memory()
    }
}

impl BatchIter {
    /// Every batch has a column for each field, of the field's type, and the
    /// rows can be counted.
    pub open spec fn wf(&self) -> bool {
        &&& forall|i: int|
            0 <= i < self.batches@.len() ==> (#[trigger] self.batches@[i]).wf()
                && self.batches@[i].columns@.len() == self.schema@.len()
        &&& forall|i: int, c: int|
            0 <= i < self.batches@.len() && 0 <= c < self.schema@.len() ==> (
            #[trigger] self.batches@[i].columns@[c]).type_shape() == self.schema@[c].data_type
        &&& row_count(self.batches@) < usize::MAX
    }
}

/// The first batches have no more rows than all of them.
pub proof fn lemma_counts_grow(batches: Seq<Batch>, i: int)
    requires
        0 <= i <= batches.len(),
    ensures
        row_count(batches.take(i)) <= row_count(batches),
    decreases batches.len(),
{
    if i < batches.len() {
        lemma_counts_grow(batches.drop_last(), i);
        assert(batches.drop_last().take(i) =~= batches.take(i));
    } else {
        assert(batches.take(i) =~= batches);
    }
}

/// The rows, one batch further.
pub proof fn lemma_counts_next(batches: Seq<Batch>, i: int)
    requires
        0 <= i < batches.len(),
    ensures
        row_count(batches.take(i + 1)) == row_count(batches.take(i)) + batches[i].rows,
{
    assert(batches.take(i + 1).drop_last() =~= batches.take(i));
}

/// The formats that tables come in.
#[derive(Debug, Clone, Copy, PartialEq, Eq, Structural)]
pub enum FileFormat {
    Csv,
    Parquet,
}

/// The format that a file's extension stands for, in any case.
pub open spec fn format_of(extension: Seq<char>) -> Result<FileFormat, ErrorView> {
    let ext = lowered(extension);
    if ext == "csv"@ {
        Ok(FileFormat::Csv)
    } else if ext == "parquet"@ || ext == "pq"@ {
        Ok(FileFormat::Parquet)
    } else {
        Err(ErrorView::UnsupportedExtension { extension: ext })
    }
}

/// Picks the format by a file's extension.
pub fn detect_format(extension: &str) -> (r: Result<FileFormat, Error>)
    ensures
        match format_of(extension@) {
            Ok(format) => r == Ok::<FileFormat, Error>(format),
            Err(want) => r matches Err(e) && e@ == want,
        },
{
    let ext = to_lower(extension);
    if equals(&ext, "csv") {
        Ok(FileFormat::Csv)
    } else if equals(&ext, "parquet") || equals(&ext, "pq") {
        Ok(FileFormat::Parquet)
    } else {
        Err(Error::UnsupportedExtension { extension: ext })
    }
}

/// Picks the format by its name.
pub fn named_format(name: &str) -> (r: Result<FileFormat, Error>)
    ensures
        if name@ == "csv"@ {
            r == Ok::<FileFormat, Error>(FileFormat::Csv)
        } else if name@ == "parquet"@ {
            r == Ok::<FileFormat, Error>(FileFormat::Parquet)
        } else {
            r matches Err(e) && e@ == (ErrorView::UnknownFormat { format: name@ })
        },
{
    let name = name.to_owned();
    if equals(&name, "csv") {
        Ok(FileFormat::Csv)
    } else if equals(&name, "parquet") {
        Ok(FileFormat::Parquet)
    } else {
        Err(Error::UnknownFormat { format: name })
    }
}

/// The format to read a file in: the one that is forced, or else the one that
/// its extension stands for.
pub fn input_format(forced: Option<FileFormat>, extension: &str) -> (r: Result<FileFormat, Error>)
    ensures
        match forced {
            Some(format) => r == Ok::<FileFormat, Error>(format),
            None => match format_of(extension@) {
                Ok(format) => r == Ok::<FileFormat, Error>(format),
                Err(want) => r matches Err(e) && e@ == want,
            },
        },
{
    match forced {
        Some(format) => Ok(format),
        None => detect_format(extension),
    }
}

/// The rows of batches, one after the other.
pub open spec fn all_rows(batches: Seq<Batch>) -> Seq<Seq<CellView>>
    decreases batches.len(),
{
    if batches.len() == 0 {
        seq![]
    } else {
        all_rows(batches.drop_last()) + Seq::new(
            batches.last().rows as nat,
            |i: int| batches.last().row(i),
        )
    }
}

/// The columns at the given places.
pub open spec fn picked_fields(fields: Seq<FieldShape>, idx: Seq<usize>) -> Seq<FieldShape> {
    idx.map_values(|i: usize| fields[i as int])
}

/// A batch holds the columns of another at the given places, each with its size.
pub open spec fn is_projected(batch: Batch, from: Batch, idx: Seq<usize>) -> bool {
    &&& batch.rows == from.rows
    &&& batch.sizes@ == idx.map_values(|i: usize| from.sizes@[i as int])
    &&& batch.columns@.len() == idx.len()
    &&& forall|c: int|
        0 <= c < idx.len() ==> same_values(
            #[trigger] batch.columns@[c],
            from.columns@[idx[c] as int],
        )
}

/// A stream holds the named columns of another.
pub open spec fn projects(stream: BatchIter, from: BatchIter, names: Seq<Seq<char>>) -> bool {
    let idx = places(from.schema@, names);
    &&& stream.wf()
    &&& stream.schema@ == picked_fields(from.schema@, idx)
    &&& stream.batches@.len() == from.batches@.len()
    &&& forall|b: int|
        0 <= b < from.batches@.len() ==> is_projected(
            #[trigger] stream.batches@[b],
            from.batches@[b],
            idx,
        )
}

/// A projection keeps the rows.
pub proof fn lemma_projected_counts(batches: Seq<Batch>, from: Seq<Batch>, idx: Seq<usize>)
    requires
        batches.len() == from.len(),
        forall|b: int| 0 <= b < from.len() ==> is_projected(#[trigger] batches[b], from[b], idx),
    ensures
        row_count(batches) == row_count(from),
    decreases from.len(),
{
    if from.len() > 0 {
        let x = batches.drop_last();
        let y = from.drop_last();
        assert forall|b: int| 0 <= b < y.len() implies is_projected(#[trigger] x[b], y[b], idx) by {
            assert(is_projected(batches[b], from[b], idx));
        }
        lemma_projected_counts(x, y, idx);
        assert(is_projected(batches[from.len() - 1], from[from.len() - 1], idx));
    }
}

impl Batch {
    /// Copies the columns at the given places.
    pub fn project(&self, idx: &Vec<usize>) -> (r: Batch)
        requires
            self.wf(),
            forall|i: int| 0 <= i < idx@.len() ==> #[trigger] idx@[i] < self.columns@.len(),
        ensures
            r.wf(),
            is_projected(r, *self, idx@),
    {
        let mut columns: Vec<Array> = Vec::new();
        let mut sizes: Vec<usize> = Vec::new();
        for c in 0..idx.len()
            invariant
                self.wf(),
                forall|i: int| 0 <= i < idx@.len() ==> #[trigger] idx@[i] < self.columns@.len(),
                columns.len() == c,
                sizes.len() == c,
                forall|j: int| 0 <= j < c ==> #[trigger] sizes@[j] == self.sizes@[idx@[j] as int],
                forall|j: int|
                    0 <= j < c ==> same_values(
                        #[trigger] columns@[j],
                        self.columns@[idx@[j] as int],
                    ),
        {
            assert(idx@[c as int] < self.columns@.len());
            assert(self.columns@[idx@[c as int] as int].wf());
            columns.push(self.columns[idx[c]].clone());
            sizes.push(self.sizes[idx[c]]);
        }
        let r = Batch { columns, rows: self.rows, sizes };
        assert(r.sizes@ =~= idx@.map_values(|i: usize| self.sizes@[i as int]));
        assert forall|c: int| 0 <= c < r.columns@.len() implies (#[trigger] r.columns@[c]).wf()
            && r.columns@[c].spec_len() == r.rows by {
            assert(same_values(columns@[c], self.columns@[idx@[c] as int]));
            assert(idx@[c] < self.columns@.len());
            assert(self.columns@[idx@[c] as int].wf());
        }
        r
    }
}

impl Schema {
    /// Copies the columns at the given places.
    pub fn project(&self, idx: &Vec<usize>) -> (r: Schema)
        requires
            forall|i: int| 0 <= i < idx@.len() ==> #[trigger] idx@[i] < self@.len(),
        ensures
            r@ == picked_fields(self@, idx@),
    {
        let mut fields: Vec<Field> = Vec::new();
        for c in 0..idx.len()
            invariant
                forall|i: int| 0 <= i < idx@.len() ==> #[trigger] idx@[i] < self@.len(),
                fields.len() == c,
                forall|j: int| 0 <= j < c ==> (#[trigger] fields@[j])@ == self@[idx@[j] as int],
        {
            assert(idx@[c as int] < self@.len());
            fields.push(self.fields[idx[c]].clone());
        }
        let r = Schema { fields };
        assert(r@ =~= picked_fields(self@, idx@));
        r
    }
}

/// Columns of one type hold no integers where they hold floats.
proof fn lemma_types_comparable(a: Array, b: Array, i: int, j: int)
    requires
        a.type_shape() == b.type_shape(),
    ensures
        comparable(a.cell(i), b.cell(j)),
{
}

/// Where a row of a stream is.
proof fn lemma_row_source(batches: Seq<Batch>, i: int) -> (at: (int, int))
    requires
        0 <= i < all_rows(batches).len(),
    ensures
        0 <= at.0 < batches.len(),
        0 <= at.1 < batches[at.0].rows,
        all_rows(batches)[i] == batches[at.0].row(at.1),
    decreases batches.len(),
{
    if batches.len() == 0 {
        (0, 0)
    } else {
        let head = batches.drop_last();
        let n = all_rows(head).len();
        if i < n {
            let at = lemma_row_source(head, i);
            assert(batches[at.0] == head[at.0]);
            at
        } else {
            (batches.len() - 1, i - n)
        }
    }
}

proof fn lemma_all_rows_prefix(batches: Seq<Batch>, n: int)
    requires
        0 <= n <= batches.len(),
    ensures
        all_rows(batches.take(n)).len() <= all_rows(batches).len(),
        forall|i: int|
            0 <= i < all_rows(batches.take(n)).len() ==> #[trigger] all_rows(batches.take(n))[i]
                == all_rows(batches)[i],
    decreases batches.len(),
{
    if n < batches.len() {
        lemma_all_rows_prefix(batches.drop_last(), n);
        assert(batches.drop_last().take(n) =~= batches.take(n));
    } else {
        assert(batches.take(n) =~= batches);
    }
}

/// A sample holds the first rows of a stream in the named columns.
pub open spec fn is_sample(t: Table, stream: BatchIter, names: Seq<Seq<char>>, limit: nat) -> bool {
    let rows = all_rows(stream.batches@);
    let idx = places(stream.schema@, names);
    &&& t.wf()
    &&& t.schema@ == picked_fields(stream.schema@, idx)
    &&& t.rows@.len() == (if rows.len() < limit {
        rows.len()
    } else {
        limit
    })
    &&& forall|i: int|
        0 <= i < t.rows@.len() ==> cell_views((#[trigger] t.rows@[i])@) == picked(rows[i], idx)
}

impl BatchIter {
    /// Copies the named columns.
    pub fn project(&self, names: &Vec<String>) -> (r: Result<BatchIter, Error>)
        requires
            self.wf(),
        ensures
            match r {
                Ok(out) => first_missing(self.schema@, views(names@)) is None && projects(
                    out,
                    *self,
                    views(names@),
                ),
                Err(e) => first_missing(self.schema@, views(names@)) matches Some(name) && e@
                    == (ErrorView::MissingColumn { column: name }),
            },
    {
        let idx = match self.schema.indices_of(names) {
            Ok(idx) => idx,
            Err(e) => {
                return Err(e);
            },
        };
        let mut batches: Vec<Batch> = Vec::new();
        for b in 0..self.batches.len()
            invariant
                self.wf(),
                forall|i: int| 0 <= i < idx@.len() ==> #[trigger] idx@[i] < self.schema@.len(),
                batches.len() == b,
                forall|j: int|
                    0 <= j < b ==> (#[trigger] batches@[j]).wf() && is_projected(
                        batches@[j],
                        self.batches@[j],
                        idx@,
                    ),
        {
            assert(self.batches@[b as int].wf());
            batches.push(self.batches[b].project(&idx));
        }
        let out = BatchIter { schema: self.schema.project(&idx), batches };
        proof {
            lemma_projected_counts(out.batches@, self.batches@, idx@);
            assert forall|i: int, c: int|
                0 <= i < out.batches@.len() && 0 <= c < out.schema@.len() implies (
            #[trigger] out.batches@[i].columns@[c]).type_shape() == out.schema@[c].data_type by {
                assert(is_projected(batches@[i], self.batches@[i], idx@));
                assert(same_values(
                    batches@[i].columns@[c],
                    self.batches@[i].columns@[idx@[c] as int],
                ));
                assert(idx@[c] < self.schema@.len());
                assert(self.batches@[i].columns@[idx@[c] as int].type_shape()
                    == self.schema@[idx@[c] as int].data_type);
            }
        }
        Ok(out)
    }

    /// Reads the first rows in the named columns.
    pub fn sample(&self, names: &Vec<String>, limit: usize) -> (r: Result<Table, Error>)
        requires
            self.wf(),
        ensures
            match r {
                Ok(t) => first_missing(self.schema@, views(names@)) is None && is_sample(
                    t,
                    *self,
                    views(names@),
                    limit as nat,
                ),
                Err(e) => first_missing(self.schema@, views(names@)) matches Some(name) && e@
                    == (ErrorView::MissingColumn { column: name }),
            },
    {
        let idx = match self.schema.indices_of(names) {
            Ok(idx) => idx,
            Err(e) => {
                return Err(e);
            },
        };
        let ghost all = all_rows(self.batches@);
        let mut rows: Vec<Vec<Cell>> = Vec::new();
        let mut b: usize = 0;
        while b < self.batches.len() && rows.len() < limit
            invariant
                self.wf(),
                all == all_rows(self.batches@),
                forall|i: int| 0 <= i < idx@.len() ==> #[trigger] idx@[i] < self.schema@.len(),
                b <= self.batches@.len(),
                rows.len() <= limit,
                rows.len() < limit ==> rows.len() == all_rows(self.batches@.take(b as int)).len(),
                rows.len() <= all.len(),
                forall|i: int|
                    0 <= i < rows@.len() ==> cell_views((#[trigger] rows@[i])@) == picked(all[i], idx@),
            decreases self.batches@.len() - b,
        {
            let batch = &self.batches[b];
            let ghost before = all_rows(self.batches@.take(b as int)).len();
            proof {
                assert(self.batches@[b as int].wf());
                assert(self.batches@.take(b + 1).drop_last() =~= self.batches@.take(b as int));
                lemma_all_rows_prefix(self.batches@, b + 1);
                let head = all_rows(self.batches@.take(b + 1));
                assert forall|i: int| 0 <= i < batch.rows implies #[trigger] all[before + i]
                    == batch.row(i) by {
                    assert(head[before + i] == batch.row(i));
                }
            }
            let mut row: usize = 0;
            while row < batch.rows && rows.len() < limit
                invariant
                    self.wf(),
                    batch.wf(),
                    batch == self.batches@[b as int],
                    batch.columns@.len() == self.schema@.len(),
                    all == all_rows(self.batches@),
                    forall|i: int| 0 <= i < idx@.len() ==> #[trigger] idx@[i] < self.schema@.len(),
                    row <= batch.rows,
                    rows.len() <= limit,
                    rows.len() == before + row,
                    before + batch.rows == all_rows(self.batches@.take(b + 1)).len(),
                    before + batch.rows <= all.len(),
                    forall|i: int|
                        0 <= i < batch.rows ==> #[trigger] all[before + i] == batch.row(i),
                    forall|i: int|
                        0 <= i < rows@.len() ==> cell_views((#[trigger] rows@[i])@) == picked(
                            all[i],
                            idx@,
                        ),
                decreases batch.rows - row,
            {
                let mut cells: Vec<Cell> = Vec::new();
                for c in 0..idx.len()
                    invariant
                        batch.wf(),
                        row < batch.rows,
                        forall|i: int| 0 <= i < idx@.len() ==> #[trigger] idx@[i] < batch.columns@.len(),
                        cells.len() == c,
                        forall|j: int|
                            0 <= j < c ==> (#[trigger] cells@[j])@ == batch.row(row as int)[idx@[j] as int],
                {
                    assert(idx@[c as int] < batch.columns@.len());
                    assert(batch.columns@[idx@[c as int] as int].wf());
                    cells.push(extract(&batch.columns[idx[c]], row));
                }
                proof {
                    assert(all[before + row] == batch.row(row as int));
                    assert(cell_views(cells@) =~= picked(all[before + row], idx@));
                }
                rows.push(cells);
                row = row + 1;
            }
            b = b + 1;
        }
        let t = Table { schema: self.schema.project(&idx), rows };
        proof {
            assert(self.batches@.take(self.batches@.len() as int) =~= self.batches@);
            assert forall|i: int| 0 <= i < t.rows@.len() implies (#[trigger] t.rows@[i])@.len()
                == t.schema@.len() by {
                assert(cell_views(t.rows@[i]@) == picked(all[i], idx@));
                assert(cell_views(t.rows@[i]@).len() == t.rows@[i]@.len());
            }
            assert forall|i: int, j: int, c: int|
                0 <= i < t.rows@.len() && 0 <= j < t.rows@.len() && 0 <= c < t.schema@.len() implies comparable(
                #[trigger] t.rows@[i]@[c]@,
                #[trigger] t.rows@[j]@[c]@,
            ) by {
                let x = lemma_row_source(self.batches@, i);
                let y = lemma_row_source(self.batches@, j);
                let at = idx@[c] as int;
                assert(cell_views(t.rows@[i]@)[c] == picked(all[i], idx@)[c]);
                assert(cell_views(t.rows@[j]@)[c] == picked(all[j], idx@)[c]);
                assert(idx@[c] < self.schema@.len());
                let p = self.batches@[x.0].columns@[at];
                let q = self.batches@[y.0].columns@[at];
                assert(p.type_shape() == self.schema@[at].data_type);
                assert(q.type_shape() == self.schema@[at].data_type);
                lemma_types_comparable(p, q, x.1, y.1);
            }
        }
        Ok(t)
    }
}

} // verus!
