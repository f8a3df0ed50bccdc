//! Column rename detection: pairs removed (left-only) columns with added
//! (right-only) columns by content similarity, so a rename is reported as
//! one schema change and the column still participates in the row diff.

use crate::float::{fraction, law_part_is_at_most_whole, rank, ratio, total_rank, ONE};
use crate::hash::{row_bytes, write_cell};
use crate::infer::key_cells;
use crate::input::Table;
use crate::key::copy_bytes;
use crate::row_diff::lemma_filter_shorter;
use crate::schema::{column, first_missing, has_column};
use crate::schema_diff::{lemma_filter_keeps, lemma_filter_next, ColumnDesc, DescView, RenameView, RenamedColumn, SchemaDiff, SchemaDiffView};
use crate::text::{byte_order, compare_bytes, contains, law_byte_order_total, law_byte_order_transitive, lemma_place, lemma_place_is, place, views};
use crate::value::{cells_match, Comparator};
use vstd::prelude::*;
use vstd::seq_lib::seq_to_set_is_finite;
use vstd::set_lib::lemma_len_subset;

verus! {

/// Rows sampled from each side.
pub const SAMPLE_ROWS: usize = 10_000;

/// Keyed detection: minimum key-matched sample rows to attempt a claim.
pub const MIN_MATCHED_ROWS: usize = 20;

/// Keyed detection: fraction of matched rows whose values must agree, 0.95.
pub const KEYED_MATCH_RATE: u64 = 0x3fee_6666_6666_6666;

/// Keyless detection: minimum distinct values, so low-cardinality columns
/// (booleans, small enums) can never masquerade as renames of each other.
pub const MIN_DISTINCT: usize = 8;

/// Keyless detection: least overlap of the two columns' values, 0.85.
pub const JACCARD_THRESHOLD: u64 = 0x3feb_3333_3333_3333;

/// The bytes that stand for a row's cells in some columns.
pub open spec fn sample_keys(t: Table, cols: Seq<Seq<char>>) -> Seq<Seq<u8>> {
    Seq::new(t.rows@.len(), |i: int| row_bytes(key_cells(t, cols, i)))
}

pub open spec fn byte_strings(v: Seq<Vec<u8>>) -> Seq<Seq<u8>> {
    v.map_values(|b: Vec<u8>| b@)
}

/// Writes the bytes that stand for each row's cells in some columns.
fn write_keys(t: &Table, cols: &Vec<String>) -> (r: Vec<Vec<u8>>)
    requires
        t.wf(),
        first_missing(t.schema@, views(cols@)) is None,
    ensures
        byte_strings(r@) == sample_keys(*t, views(cols@)),
{
    let ghost names = views(cols@);
    let idx = match t.schema.indices_of(cols) {
        Ok(idx) => idx,
        Err(_) => Vec::new(),
    };
    let mut r: Vec<Vec<u8>> = Vec::new();
    for row in 0..t.rows.len()
        invariant
            t.wf(),
            names == views(cols@),
            idx@.len() == cols@.len(),
            forall|i: int|
                0 <= i < idx@.len() ==> #[trigger] idx@[i] < t.schema@.len() && idx@[i] == column(
                    t.schema@,
                    cols@[i]@,
                ),
            r.len() == row,
            forall|i: int| 0 <= i < row ==> (#[trigger] r@[i])@ == row_bytes(key_cells(*t, names, i)),
    {
        let ghost cells = key_cells(*t, names, row as int);
        let mut buf: Vec<u8> = Vec::new();
        assert(buf@ =~= row_bytes(cells.take(0)));
        for i in 0..idx.len()
            invariant
                t.wf(),
                row < t.rows@.len(),
                names == views(cols@),
                cells == key_cells(*t, names, row as int),
                idx@.len() == cols@.len(),
                forall|j: int|
                    0 <= j < idx@.len() ==> #[trigger] idx@[j] < t.schema@.len() && idx@[j] == column(
                        t.schema@,
                        cols@[j]@,
                    ),
                buf@ == row_bytes(cells.take(i as int)),
        {
            assert(t.rows@[row as int]@.len() == t.schema@.len());
            assert(idx@[i as int] < t.schema@.len());
            write_cell(&mut buf, &t.rows[row][idx[i]]);
            proof {
                assert(cells.take(i + 1).drop_last() =~= cells.take(i as int));
                assert(cells.take(i + 1).last() == t.rows@[row as int]@[idx@[i as int] as int]@);
            }
        }
        assert(cells.take(cells.len() as int) =~= cells);
        r.push(buf);
    }
    assert(byte_strings(r@) =~= sample_keys(*t, names));
    r
}

/// A byte string, and the first row that has it.
struct KeyEntry {
    key: Vec<u8>,
    row: usize,
}

/// The distinct byte strings of a sample, in order.
struct KeyIndex {
    entries: Vec<KeyEntry>,
}

impl KeyIndex {
    /// The byte strings in order.
    spec fn keys(&self) -> Seq<Seq<u8>> {
        self.entries@.map_values(|e: KeyEntry| e.key@)
    }

    /// Each byte string is there once, in order, with its first row.
    spec fn indexes(&self, keys: Seq<Seq<u8>>) -> bool {
        &&& forall|i: int, j: int|
            0 <= i < j < self.keys().len() ==> byte_order(
                #[trigger] self.keys()[i],
                #[trigger] self.keys()[j],
            ) < 0
        &&& forall|i: int|
            0 <= i < self.entries@.len() ==> keys.contains((#[trigger] self.entries@[i]).key@)
                && self.entries@[i].row == place(keys, self.entries@[i].key@)
        &&& forall|i: int| 0 <= i < keys.len() ==> self.keys().contains(#[trigger] keys[i])
    }

    /// Where a byte string is, or where it would go.
    fn search(&self, key: &Vec<u8>) -> (r: (bool, usize))
        requires
            forall|i: int, j: int|
                0 <= i < j < self.keys().len() ==> byte_order(
                    #[trigger] self.keys()[i],
                    #[trigger] self.keys()[j],
                ) < 0,
        ensures
            r.1 <= self.entries@.len(),
            r.0 ==> r.1 < self.entries@.len() && self.entries@[r.1 as int].key@ == key@,
            !r.0 ==> {
                &&& !self.keys().contains(key@)
                &&& forall|i: int| 0 <= i < r.1 ==> byte_order(#[trigger] self.keys()[i], key@) < 0
                &&& forall|i: int|
                    r.1 <= i < self.keys().len() ==> byte_order(key@, #[trigger] self.keys()[i]) < 0
            },
    {
        let ghost keys = self.keys();
        let mut lo: usize = 0;
        let mut hi: usize = self.entries.len();
        while lo < hi
            invariant
                keys == self.keys(),
                lo <= hi <= self.entries@.len(),
                forall|i: int, j: int|
                    0 <= i < j < keys.len() ==> byte_order(#[trigger] keys[i], #[trigger] keys[j]) < 0,
                forall|i: int| 0 <= i < lo ==> byte_order(#[trigger] keys[i], key@) < 0,
                forall|i: int| hi <= i < keys.len() ==> byte_order(key@, #[trigger] keys[i]) < 0,
            decreases hi - lo,
        {
            let mid = lo + (hi - lo) / 2;
            let o = compare_bytes(self.entries[mid].key.as_slice(), key.as_slice());
            proof {
                let m = keys[mid as int];
                assert(m == self.entries@[mid as int].key@);
                law_byte_order_total(m, key@);
                assert forall|i: int| 0 <= i < mid && o < 0 implies byte_order(
                    #[trigger] keys[i],
                    key@,
                ) < 0 by {
                    assert(byte_order(keys[i], keys[mid as int]) < 0);
                    law_byte_order_transitive(keys[i], m, key@);
                }
                assert forall|i: int| mid < i < keys.len() && o > 0 implies byte_order(
                    key@,
                    #[trigger] keys[i],
                ) < 0 by {
                    assert(byte_order(keys[mid as int], keys[i]) < 0);
                    law_byte_order_transitive(key@, m, keys[i]);
                }
            }
            if o == 0 {
                return (true, mid);
            } else if o < 0 {
                lo = mid + 1;
            } else {
                hi = mid;
            }
        }
        proof {
            if keys.contains(key@) {
                let i = choose|i: int| 0 <= i < keys.len() && keys[i] == key@;
                law_byte_order_total(key@, key@);
                assert(byte_order(keys[i], key@) == 0);
            }
        }
        (false, lo)
    }

    /// The first row that has a byte string.
    fn find(&self, key: &Vec<u8>, Ghost(all): Ghost<Seq<Seq<u8>>>) -> (r: Option<usize>)
        requires
            self.indexes(all),
        ensures
            match r {
                Some(row) => all.contains(key@) && row == place(all, key@) && row < all.len(),
                None => !all.contains(key@),
            },
    {
        let (found, at) = self.search(key);
        if found {
            proof {
                lemma_place(all, key@);
            }
            Some(self.entries[at].row)
        } else {
            proof {
                if all.contains(key@) {
                    let i = choose|i: int| 0 <= i < all.len() && all[i] == key@;
                    assert(self.keys().contains(all[i]));
                }
            }
            None
        }
    }

    /// Indexes byte strings.
    #[verifier::rlimit(40)]
    #[verifier::spinoff_prover]
    fn new(keys: &Vec<Vec<u8>>) -> (r: Self)
        ensures
            r.indexes(byte_strings(keys@)),
    {
        let ghost all = byte_strings(keys@);
        let mut index = KeyIndex { entries: Vec::new() };
        for i in 0..keys.len()
            invariant
                all == byte_strings(keys@),
                index.indexes(all.take(i as int)),
        {
            let ghost before = all.take(i as int);
            let ghost now = all.take(i + 1);
            let ghost k = all[i as int];
            let ghost old_keys = index.keys();
            let ghost old_entries = index.entries@;
            assert(now =~= before.push(k));
            let (found, at) = index.search(&keys[i]);
            if !found {
                index.entries.insert(at, KeyEntry { key: copy_bytes(&keys[i]), row: i });
                proof {
                    assert(index.keys() =~= old_keys.insert(at as int, k));
                    assert(!before.contains(k)) by {
                        if before.contains(k) {
                            let j = choose|j: int| 0 <= j < before.len() && before[j] == k;
                            assert(old_keys.contains(before[j]));
                        }
                    }
                }
            }
            proof {
                assert forall|x: int, y: int| 0 <= x < y < index.keys().len() implies byte_order(
                    #[trigger] index.keys()[x],
                    #[trigger] index.keys()[y],
                ) < 0 by {
                    if !found {
                        if x < at && y > at {
                            assert(byte_order(old_keys[x], old_keys[y - 1]) < 0);
                        } else if x > at {
                            assert(byte_order(old_keys[x - 1], old_keys[y - 1]) < 0);
                        } else if y < at {
                            assert(byte_order(old_keys[x], old_keys[y]) < 0);
                        } else if y == at {
                            assert(byte_order(old_keys[x], k) < 0);
                        } else {
                            assert(byte_order(k, old_keys[y - 1]) < 0);
                        }
                    }
                }
                assert forall|x: int| 0 <= x < index.entries@.len() implies now.contains(
                    (#[trigger] index.entries@[x]).key@,
                ) && index.entries@[x].row == place(now, index.entries@[x].key@) by {
                    let e = index.entries@[x];
                    if !found && x == at {
                        assert(now[i as int] == k);
                        assert forall|j: int| 0 <= j < i implies now[j] != k by {
                            assert(now[j] == before[j]);
                            assert(before.contains(before[j]));
                        }
                        lemma_place_is(now, k, i as int);
                    } else {
                        let y = if !found && x > at {
                            x - 1
                        } else {
                            x
                        };
                        assert(old_entries[y] == e);
                        assert(before.contains(old_entries[y].key@));
                        lemma_place(before, e.key@);
                        let p = place(before, e.key@);
                        assert(now[p] == e.key@);
                        assert forall|j: int| 0 <= j < p implies now[j] != e.key@ by {
                            assert(now[j] == before[j]);
                        }
                        lemma_place_is(now, e.key@, p);
                    }
                }
                assert forall|x: int| 0 <= x < now.len() implies index.keys().contains(
                    #[trigger] now[x],
                ) by {
                    if x < i {
                        assert(before[x] == now[x]);
                        assert(old_keys.contains(before[x]));
                        let y = choose|y: int| 0 <= y < old_keys.len() && old_keys[y] == now[x];
                        let z = if !found && y >= at {
                            y + 1
                        } else {
                            y
                        };
                        assert(index.keys()[z] == now[x]);
                    } else {
                        assert(index.keys()[at as int] == k);
                    }
                }
            }
        }
        assert(all.take(all.len() as int) =~= all);
        index
    }
}

/// The rows of two samples that have the same key, for each key its first row
/// on either side, in the order of the left rows among the first `n`.
pub open spec fn matched_rows(left: Seq<Seq<u8>>, right: Seq<Seq<u8>>, n: int) -> Seq<(int, int)>
    decreases n,
{
    if n <= 0 {
        seq![]
    } else {
        let before = matched_rows(left, right, n - 1);
        let k = left[n - 1];
        if place(left, k) == n - 1 && right.contains(k) {
            before.push((n - 1, place(right, k)))
        } else {
            before
        }
    }
}

/// The pairs of rows in which two columns agree.
pub open spec fn agreeing(
    lsample: Table,
    rsample: Table,
    left: Seq<char>,
    right: Seq<char>,
) -> spec_fn((int, int)) -> bool {
    |p: (int, int)|
        cells_match(
            Comparator { tol_abs: None, tol_rel: None },
            lsample.cell(p.0, left),
            rsample.cell(p.1, right),
        )
}

/// A removed and an added column that may be one, with their similarity.
pub struct Candidate {
    pub left: String,
    pub right: String,
    /// The bit pattern of a double.
    pub similarity: u64,
}

impl View for Candidate {
    type V = RenameView;

    open spec fn view(&self) -> RenameView {
        RenameView { left: self.left@, right: self.right@, similarity: self.similarity }
    }
}

pub open spec fn candidate_views(v: Seq<Candidate>) -> Seq<RenameView> {
    v.map_values(|c: Candidate| c@)
}

/// How a pair of columns is judged: its similarity, where it is close enough.
pub open spec fn keyed_similarity(
    lsample: Table,
    rsample: Table,
    key: Seq<Seq<char>>,
    left: Seq<char>,
    right: Seq<char>,
) -> Option<u64> {
    let lkeys = sample_keys(lsample, key);
    let matched = matched_rows(lkeys, sample_keys(rsample, key), lkeys.len() as int);
    let agree = matched.filter(agreeing(lsample, rsample, left, right));
    let rate = fraction(agree.len(), matched.len());
    if matched.len() >= MIN_MATCHED_ROWS && rate >= KEYED_MATCH_RATE {
        Some(rate)
    } else {
        None
    }
}

/// The distinct values of a sample's column.
pub open spec fn value_set(t: Table, col: Seq<char>) -> Set<Seq<u8>> {
    sample_keys(t, seq![col]).to_set()
}

/// How a pair of columns is judged without a key: by the overlap of their
/// values, where both have enough of them.
pub open spec fn keyless_similarity(
    lsample: Table,
    rsample: Table,
    left: Seq<char>,
    right: Seq<char>,
) -> Option<u64> {
    let l = value_set(lsample, left);
    let r = value_set(rsample, right);
    let both = l.intersect(r).len();
    let jaccard = fraction(both, (l.len() + r.len() - both) as nat);
    if l.len() >= MIN_DISTINCT && r.len() >= MIN_DISTINCT && jaccard >= JACCARD_THRESHOLD {
        Some(jaccard)
    } else {
        None
    }
}

/// With a key, values are compared on key-matched sample rows; without one, by
/// value-set overlap.
pub open spec fn similarity(
    lsample: Table,
    rsample: Table,
    key: Option<Seq<Seq<char>>>,
    left: Seq<char>,
    right: Seq<char>,
) -> Option<u64> {
    match key {
        Some(k) => keyed_similarity(lsample, rsample, k, left, right),
        None => keyless_similarity(lsample, rsample, left, right),
    }
}

/// The close pairs of one removed column with the first `n` added ones.
pub open spec fn close_pairs(
    lsample: Table,
    rsample: Table,
    key: Option<Seq<Seq<char>>>,
    left: Seq<char>,
    added: Seq<Seq<char>>,
) -> Seq<RenameView>
    decreases added.len(),
{
    if added.len() == 0 {
        seq![]
    } else {
        let before = close_pairs(lsample, rsample, key, left, added.drop_last());
        match similarity(lsample, rsample, key, left, added.last()) {
            Some(s) => before.push(RenameView { left, right: added.last(), similarity: s }),
            None => before,
        }
    }
}

/// All close pairs: for each removed column in turn, its pairs with the added
/// ones in turn.
pub open spec fn all_close_pairs(
    lsample: Table,
    rsample: Table,
    key: Option<Seq<Seq<char>>>,
    removed: Seq<Seq<char>>,
    added: Seq<Seq<char>>,
) -> Seq<RenameView>
    decreases removed.len(),
{
    if removed.len() == 0 {
        seq![]
    } else {
        all_close_pairs(lsample, rsample, key, removed.drop_last(), added) + close_pairs(
            lsample,
            rsample,
            key,
            removed.last(),
            added,
        )
    }
}

/// Finds the rows of two samples that have the same key.
fn match_rows(lkeys: &Vec<Vec<u8>>, rkeys: &Vec<Vec<u8>>) -> (r: Vec<(usize, usize)>)
    ensures
        r@.map_values(|p: (usize, usize)| (p.0 as int, p.1 as int)) == matched_rows(
            byte_strings(lkeys@),
            byte_strings(rkeys@),
            lkeys@.len() as int,
        ),
        forall|i: int|
            0 <= i < r@.len() ==> (#[trigger] r@[i]).0 < lkeys@.len() && r@[i].1 < rkeys@.len(),
{
    let ghost l = byte_strings(lkeys@);
    let ghost m = byte_strings(rkeys@);
    let lindex = KeyIndex::new(lkeys);
    let rindex = KeyIndex::new(rkeys);
    let mut r: Vec<(usize, usize)> = Vec::new();
    assert(r@.map_values(|p: (usize, usize)| (p.0 as int, p.1 as int)) =~= matched_rows(l, m, 0));
    for i in 0..lkeys.len()
        invariant
            l == byte_strings(lkeys@),
            m == byte_strings(rkeys@),
            lindex.indexes(l),
            rindex.indexes(m),
            r@.map_values(|p: (usize, usize)| (p.0 as int, p.1 as int)) == matched_rows(
                l,
                m,
                i as int,
            ),
            forall|j: int|
                0 <= j < r@.len() ==> (#[trigger] r@[j]).0 < lkeys@.len() && r@[j].1 < rkeys@.len(),
    {
        let ghost before = r@.map_values(|p: (usize, usize)| (p.0 as int, p.1 as int));
        assert(l[i as int] == lkeys@[i as int]@);
        assert(l.contains(l[i as int]));
        match (lindex.find(&lkeys[i], Ghost(l)), rindex.find(&lkeys[i], Ghost(m))) {
            (Some(first), Some(other)) => {
                if first == i {
                    r.push((i, other));
                    assert(r@.map_values(|p: (usize, usize)| (p.0 as int, p.1 as int)) =~= before.push(
                        (i as int, other as int),
                    ));
                }
            },
            _ => {},
        }
    }
    r
}

/// Counts the pairs of rows in which two columns agree.
fn count_agreeing(
    lsample: &Table,
    rsample: &Table,
    left: &str,
    right: &str,
    pairs: &Vec<(usize, usize)>,
) -> (n: usize)
    requires
        lsample.wf(),
        rsample.wf(),
        has_column(lsample.schema@, left@),
        has_column(rsample.schema@, right@),
        forall|i: int|
            0 <= i < pairs@.len() ==> (#[trigger] pairs@[i]).0 < lsample.rows@.len() && pairs@[i].1
                < rsample.rows@.len(),
    ensures
        n == pairs@.map_values(|p: (usize, usize)| (p.0 as int, p.1 as int)).filter(
            agreeing(*lsample, *rsample, left@, right@),
        ).len(),
        n <= pairs@.len(),
{
    let ghost all = pairs@.map_values(|p: (usize, usize)| (p.0 as int, p.1 as int));
    let ghost p = agreeing(*lsample, *rsample, left@, right@);
    let exact = Comparator::default();
    let (at, other) = match (lsample.schema.index_of(left), rsample.schema.index_of(right)) {
        (Some(i), Some(j)) => (i, j),
        _ => (0, 0),
    };
    let mut n: usize = 0;
    assert(all.take(0).filter(p).len() == 0) by {
        reveal(Seq::filter);
    }
    for i in 0..pairs.len()
        invariant
            all == pairs@.map_values(|p: (usize, usize)| (p.0 as int, p.1 as int)),
            p == agreeing(*lsample, *rsample, left@, right@),
            exact == (Comparator { tol_abs: None, tol_rel: None }),
            lsample.wf(),
            rsample.wf(),
            at == column(lsample.schema@, left@) && at < lsample.schema@.len(),
            other == column(rsample.schema@, right@) && other < rsample.schema@.len(),
            forall|i: int|
                0 <= i < pairs@.len() ==> (#[trigger] pairs@[i]).0 < lsample.rows@.len()
                    && pairs@[i].1 < rsample.rows@.len(),
            n == all.take(i as int).filter(p).len(),
            n <= i,
    {
        let (li, ri) = pairs[i];
        proof {
            lemma_filter_next(all, p, i as int);
            assert(all[i as int] == (li as int, ri as int));
            assert(pairs@[i as int].0 < lsample.rows@.len());
            assert(lsample.rows@[li as int]@.len() == lsample.schema@.len());
            assert(rsample.rows@[ri as int]@.len() == rsample.schema@.len());
        }
        if exact.eq(&lsample.rows[li][at], &rsample.rows[ri][other]) {
            n = n + 1;
        }
    }
    assert(all.take(all.len() as int) =~= all);
    n
}

/// Counts the distinct byte strings that are in both indexes.
fn count_shared(left: &KeyIndex, right: &KeyIndex, Ghost(l): Ghost<Seq<Seq<u8>>>, Ghost(r): Ghost<
    Seq<Seq<u8>>,
>) -> (n: usize)
    requires
        left.indexes(l),
        right.indexes(r),
    ensures
        n == l.to_set().intersect(r.to_set()).len(),
        n <= left.entries@.len(),
        n <= r.to_set().len(),
{
    let ghost keys = left.keys();
    let mut n: usize = 0;
    proof {
        assert(keys.take(0).to_set().intersect(r.to_set()) =~= Set::<Seq<u8>>::empty());
    }
    for i in 0..left.entries.len()
        invariant
            keys == left.keys(),
            left.indexes(l),
            right.indexes(r),
            n <= i,
            n == keys.take(i as int).to_set().intersect(r.to_set()).len(),
    {
        let ghost k = keys[i as int];
        let ghost before = keys.take(i as int).to_set();
        let ghost now = keys.take(i + 1).to_set();
        proof {
            vstd::seq_lib::seq_to_set_is_finite(keys.take(i as int));
            assert(keys.take(i + 1) =~= keys.take(i as int).push(k));
            assert(now =~= before.insert(k)) by {
                let a = keys.take(i as int);
                let b = keys.take(i + 1);
                assert forall|x: Seq<u8>| now.contains(x) <==> before.insert(k).contains(x) by {
                    if now.contains(x) {
                        let j = choose|j: int| 0 <= j < b.len() && b[j] == x;
                        if j < i {
                            assert(a[j] == x);
                        }
                    }
                    if before.contains(x) {
                        let j = choose|j: int| 0 <= j < a.len() && a[j] == x;
                        assert(b[j] == x);
                    }
                    assert(b[i as int] == k);
                }
            }
            assert(!before.contains(k)) by {
                if before.contains(k) {
                    let a = keys.take(i as int);
                    let j = choose|j: int| 0 <= j < a.len() && a[j] == k;
                    assert(byte_order(keys[j], keys[i as int]) < 0);
                    law_byte_order_total(k, k);
                }
            }
            assert(k == left.entries@[i as int].key@);
        }
        match right.find(&left.entries[i].key, Ghost(r)) {
            Some(_) => {
                proof {
                    assert(now.intersect(r.to_set()) =~= before.intersect(r.to_set()).insert(k));
                }
                n = n + 1;
            },
            None => {
                proof {
                    assert(now.intersect(r.to_set()) =~= before.intersect(r.to_set()));
                }
            },
        }
    }
    proof {
        assert(keys.take(keys.len() as int) =~= keys);
        lemma_index_keys(*left, l);
        vstd::seq_lib::seq_to_set_is_finite(r);
        vstd::set_lib::lemma_len_subset(l.to_set().intersect(r.to_set()), r.to_set());
    }
    n
}

/// An index holds each byte string once.
proof fn lemma_index_keys(index: KeyIndex, all: Seq<Seq<u8>>)
    requires
        index.indexes(all),
    ensures
        index.keys().to_set() == all.to_set(),
        index.entries@.len() == all.to_set().len(),
{
    let keys = index.keys();
    assert(keys.to_set() =~= all.to_set()) by {
        assert forall|x: Seq<u8>| keys.to_set().contains(x) <==> all.to_set().contains(x) by {
            if keys.contains(x) {
                let i = choose|i: int| 0 <= i < keys.len() && keys[i] == x;
                assert(all.contains(index.entries@[i].key@));
            }
            if all.contains(x) {
                let i = choose|i: int| 0 <= i < all.len() && all[i] == x;
                assert(keys.contains(all[i]));
            }
        }
    }
    assert(keys.no_duplicates()) by {
        assert forall|i: int, j: int| 0 <= i < keys.len() && 0 <= j < keys.len() && i != j implies keys[i]
            != keys[j] by {
            law_byte_order_total(keys[i], keys[j]);
            if i < j {
                assert(byte_order(keys[i], keys[j]) < 0);
            } else {
                assert(byte_order(keys[j], keys[i]) < 0);
            }
        }
    }
    keys.unique_seq_to_set();
}

/// Judges a pair of columns by key-matched rows.
fn judge_keyed(
    lsample: &Table,
    rsample: &Table,
    matched: &Vec<(usize, usize)>,
    left: &str,
    right: &str,
) -> (r: Option<u64>)
    requires
        lsample.wf(),
        rsample.wf(),
        has_column(lsample.schema@, left@),
        has_column(rsample.schema@, right@),
        matched@.len() >= MIN_MATCHED_ROWS,
        forall|i: int|
            0 <= i < matched@.len() ==> (#[trigger] matched@[i]).0 < lsample.rows@.len() && matched@[i].1
                < rsample.rows@.len(),
    ensures
        ({
            let pairs = matched@.map_values(|p: (usize, usize)| (p.0 as int, p.1 as int));
            let agree = pairs.filter(agreeing(*lsample, *rsample, left@, right@));
            let rate = fraction(agree.len(), matched@.len());
            r == if rate >= KEYED_MATCH_RATE {
                Some(rate)
            } else {
                None
            }
        }),
{
    let n = count_agreeing(lsample, rsample, left, right, matched);
    let rate = ratio(n as u64, matched.len() as u64);
    if rate >= KEYED_MATCH_RATE {
        Some(rate)
    } else {
        None
    }
}

fn index_column(t: &Table, col: &String) -> (r: KeyIndex)
    requires
        t.wf(),
        has_column(t.schema@, col@),
    ensures
        r.indexes(sample_keys(*t, seq![col@])),
{
    let mut cols: Vec<String> = Vec::new();
    cols.push(col.clone());
    proof {
        assert(views(cols@) =~= seq![col@]);
        assert(seq![col@].drop_first() =~= seq![]);
        assert(first_missing(t.schema@, seq![col@].drop_first()) is None);
    }
    KeyIndex::new(&write_keys(t, &cols))
}

/// Judges a pair of columns by the overlap of their values.
fn judge_keyless(
    left: &KeyIndex,
    right: &KeyIndex,
    Ghost(l): Ghost<Seq<Seq<u8>>>,
    Ghost(r): Ghost<Seq<Seq<u8>>>,
) -> (s: Option<u64>)
    requires
        left.indexes(l),
        right.indexes(r),
        l.len() + r.len() <= u64::MAX,
    ensures
        ({
            let a = l.to_set();
            let b = r.to_set();
            let both = a.intersect(b).len();
            let jaccard = fraction(both, (a.len() + b.len() - both) as nat);
            s == if a.len() >= MIN_DISTINCT && b.len() >= MIN_DISTINCT && jaccard
                >= JACCARD_THRESHOLD {
                Some(jaccard)
            } else {
                None
            }
        }),
{
    proof {
        lemma_index_keys(*left, l);
        lemma_index_keys(*right, r);
    }
    if left.entries.len() < MIN_DISTINCT || right.entries.len() < MIN_DISTINCT {
        return None;
    }
    let both = count_shared(left, right, Ghost(l), Ghost(r));
    proof {
        l.lemma_cardinality_of_set();
        r.lemma_cardinality_of_set();
    }
    let union = left.entries.len() as u64 + (right.entries.len() - both) as u64;
    let jaccard = ratio(both as u64, union);
    if jaccard >= JACCARD_THRESHOLD {
        Some(jaccard)
    } else {
        None
    }
}

/// The samples have the columns that are compared, and can be counted.
pub open spec fn samples_hold(
    lsample: Table,
    rsample: Table,
    key: Option<Seq<Seq<char>>>,
    removed: Seq<Seq<char>>,
    added: Seq<Seq<char>>,
) -> bool {
    &&& lsample.wf()
    &&& rsample.wf()
    &&& lsample.rows@.len() + rsample.rows@.len() <= u64::MAX
    &&& forall|i: int| 0 <= i < removed.len() ==> has_column(lsample.schema@, #[trigger] removed[i])
    &&& forall|i: int| 0 <= i < added.len() ==> has_column(rsample.schema@, #[trigger] added[i])
    &&& match key {
        Some(k) => first_missing(lsample.schema@, k) is None && first_missing(rsample.schema@, k) is None,
        None => true,
    }
}

pub open spec fn key_view(key: Option<&Vec<String>>) -> Option<Seq<Seq<char>>> {
    match key {
        Some(k) => Some(views(k@)),
        None => None,
    }
}

/// Finds the close pairs on key-matched rows.
fn keyed_candidates(
    lsample: &Table,
    rsample: &Table,
    removed: &Vec<String>,
    added: &Vec<String>,
    key: &Vec<String>,
) -> (r: Vec<Candidate>)
    requires
        samples_hold(*lsample, *rsample, Some(views(key@)), views(removed@), views(added@)),
    ensures
        candidate_views(r@) == all_close_pairs(
            *lsample,
            *rsample,
            Some(views(key@)),
            views(removed@),
            views(added@),
        ),
{
    let ghost k = Some(views(key@));
    let ghost rem = views(removed@);
    let ghost add = views(added@);
    let lkeys = write_keys(lsample, key);
    let rkeys = write_keys(rsample, key);
    let matched = match_rows(&lkeys, &rkeys);
    let ghost pairs = matched@.map_values(|p: (usize, usize)| (p.0 as int, p.1 as int));
    proof {
        assert(byte_strings(lkeys@).len() == lkeys@.len());
        assert(byte_strings(rkeys@).len() == rkeys@.len());
        assert(pairs == matched_rows(
            sample_keys(*lsample, views(key@)),
            sample_keys(*rsample, views(key@)),
            sample_keys(*lsample, views(key@)).len() as int,
        ));
    }
    let mut r: Vec<Candidate> = Vec::new();
    if matched.len() < MIN_MATCHED_ROWS {
        proof {
            lemma_no_pairs(*lsample, *rsample, views(key@), rem, add);
            assert(candidate_views(r@) =~= seq![]);
        }
        return r;
    }
    assert(candidate_views(r@) =~= all_close_pairs(*lsample, *rsample, k, rem.take(0), add));
    for i in 0..removed.len()
        invariant
            k == Some(views(key@)),
            rem == views(removed@),
            add == views(added@),
            samples_hold(*lsample, *rsample, k, rem, add),
            matched@.len() >= MIN_MATCHED_ROWS,
            pairs == matched@.map_values(|p: (usize, usize)| (p.0 as int, p.1 as int)),
            pairs == matched_rows(
                sample_keys(*lsample, views(key@)),
                sample_keys(*rsample, views(key@)),
                sample_keys(*lsample, views(key@)).len() as int,
            ),
            forall|j: int|
                0 <= j < matched@.len() ==> (#[trigger] matched@[j]).0 < lsample.rows@.len()
                    && matched@[j].1 < rsample.rows@.len(),
            candidate_views(r@) == all_close_pairs(*lsample, *rsample, k, rem.take(i as int), add),
    {
        let ghost before = candidate_views(r@);
        let ghost l = rem[i as int];
        proof {
            assert(rem.take(i + 1).drop_last() =~= rem.take(i as int));
            assert(add.take(0) =~= seq![]);
            assert(before + close_pairs(*lsample, *rsample, k, l, add.take(0)) =~= before);
        }
        for j in 0..added.len()
            invariant
                k == Some(views(key@)),
                rem == views(removed@),
                add == views(added@),
                i < removed@.len(),
                l == rem[i as int],
                samples_hold(*lsample, *rsample, k, rem, add),
                matched@.len() >= MIN_MATCHED_ROWS,
                pairs == matched@.map_values(|p: (usize, usize)| (p.0 as int, p.1 as int)),
                pairs == matched_rows(
                    sample_keys(*lsample, views(key@)),
                    sample_keys(*rsample, views(key@)),
                    sample_keys(*lsample, views(key@)).len() as int,
                ),
                forall|j: int|
                    0 <= j < matched@.len() ==> (#[trigger] matched@[j]).0 < lsample.rows@.len()
                        && matched@[j].1 < rsample.rows@.len(),
                candidate_views(r@) == before + close_pairs(
                    *lsample,
                    *rsample,
                    k,
                    l,
                    add.take(j as int),
                ),
        {
            let ghost here = candidate_views(r@);
            proof {
                assert(rem[i as int] == removed@[i as int]@);
                assert(add[j as int] == added@[j as int]@);
                assert(has_column(lsample.schema@, rem[i as int]));
                assert(has_column(rsample.schema@, add[j as int]));
                assert(add.take(j + 1).drop_last() =~= add.take(j as int));
            }
            match judge_keyed(lsample, rsample, &matched, removed[i].as_str(), added[j].as_str()) {
                Some(similarity) => {
                    r.push(
                        Candidate { left: removed[i].clone(), right: added[j].clone(), similarity },
                    );
                    assert(candidate_views(r@) =~= here.push(
                        RenameView { left: l, right: add[j as int], similarity },
                    ));
                    assert(candidate_views(r@) =~= before + close_pairs(
                        *lsample,
                        *rsample,
                        k,
                        l,
                        add.take(j + 1),
                    ));
                },
                None => {},
            }
        }
        assert(add.take(add.len() as int) =~= add);
    }
    assert(rem.take(rem.len() as int) =~= rem);
    r
}

/// With too few matched rows no pair is close.
proof fn lemma_no_pairs(
    lsample: Table,
    rsample: Table,
    key: Seq<Seq<char>>,
    removed: Seq<Seq<char>>,
    added: Seq<Seq<char>>,
)
    requires
        ({
            let lkeys = sample_keys(lsample, key);
            matched_rows(lkeys, sample_keys(rsample, key), lkeys.len() as int).len() < MIN_MATCHED_ROWS
        }),
    ensures
        all_close_pairs(lsample, rsample, Some(key), removed, added) == Seq::<RenameView>::empty(),
    decreases removed.len(),
{
    if removed.len() > 0 {
        lemma_no_pairs(lsample, rsample, key, removed.drop_last(), added);
        lemma_no_pair(lsample, rsample, key, removed.last(), added);
        assert(all_close_pairs(lsample, rsample, Some(key), removed, added) =~= Seq::<
            RenameView,
        >::empty());
    }
}

proof fn lemma_no_pair(
    lsample: Table,
    rsample: Table,
    key: Seq<Seq<char>>,
    left: Seq<char>,
    added: Seq<Seq<char>>,
)
    requires
        ({
            let lkeys = sample_keys(lsample, key);
            matched_rows(lkeys, sample_keys(rsample, key), lkeys.len() as int).len() < MIN_MATCHED_ROWS
        }),
    ensures
        close_pairs(lsample, rsample, Some(key), left, added) == Seq::<RenameView>::empty(),
    decreases added.len(),
{
    if added.len() > 0 {
        lemma_no_pair(lsample, rsample, key, left, added.drop_last());
    }
}

/// Finds the close pairs by value-set overlap.
fn jaccard_candidates(lsample: &Table, rsample: &Table, removed: &Vec<String>, added: &Vec<String>) -> (r:
    Vec<Candidate>)
    requires
        samples_hold(*lsample, *rsample, None, views(removed@), views(added@)),
    ensures
        candidate_views(r@) == all_close_pairs(
            *lsample,
            *rsample,
            None,
            views(removed@),
            views(added@),
        ),
{
    let ghost k = None::<Seq<Seq<char>>>;
    let ghost rem = views(removed@);
    let ghost add = views(added@);
    let mut r: Vec<Candidate> = Vec::new();
    assert(candidate_views(r@) =~= all_close_pairs(*lsample, *rsample, k, rem.take(0), add));
    for i in 0..removed.len()
        invariant
            k == None::<Seq<Seq<char>>>,
            rem == views(removed@),
            add == views(added@),
            samples_hold(*lsample, *rsample, k, rem, add),
            candidate_views(r@) == all_close_pairs(*lsample, *rsample, k, rem.take(i as int), add),
    {
        let ghost before = candidate_views(r@);
        let ghost l = rem[i as int];
        proof {
            assert(rem.take(i + 1).drop_last() =~= rem.take(i as int));
            assert(add.take(0) =~= seq![]);
            assert(before + close_pairs(*lsample, *rsample, k, l, add.take(0)) =~= before);
            assert(rem[i as int] == removed@[i as int]@);
            assert(has_column(lsample.schema@, rem[i as int]));
        }
        let lindex = index_column(lsample, &removed[i]);
        for j in 0..added.len()
            invariant
                k == None::<Seq<Seq<char>>>,
                rem == views(removed@),
                add == views(added@),
                i < removed@.len(),
                l == rem[i as int],
                l == removed@[i as int]@,
                lindex.indexes(sample_keys(*lsample, seq![l])),
                samples_hold(*lsample, *rsample, k, rem, add),
                candidate_views(r@) == before + close_pairs(
                    *lsample,
                    *rsample,
                    k,
                    l,
                    add.take(j as int),
                ),
        {
            let ghost here = candidate_views(r@);
            proof {
                assert(add[j as int] == added@[j as int]@);
                assert(has_column(rsample.schema@, add[j as int]));
                assert(add.take(j + 1).drop_last() =~= add.take(j as int));
            }
            let rindex = index_column(rsample, &added[j]);
            match judge_keyless(
                &lindex,
                &rindex,
                Ghost(sample_keys(*lsample, seq![l])),
                Ghost(sample_keys(*rsample, seq![add[j as int]])),
            ) {
                Some(similarity) => {
                    r.push(
                        Candidate { left: removed[i].clone(), right: added[j].clone(), similarity },
                    );
                    assert(candidate_views(r@) =~= here.push(
                        RenameView { left: l, right: add[j as int], similarity },
                    ));
                    assert(candidate_views(r@) =~= before + close_pairs(
                        *lsample,
                        *rsample,
                        k,
                        l,
                        add.take(j + 1),
                    ));
                },
                None => {},
            }
        }
        assert(add.take(add.len() as int) =~= add);
    }
    assert(rem.take(rem.len() as int) =~= rem);
    r
}

/// A pair put behind those that are at least as similar, in the total order of
/// doubles.
pub open spec fn inserted(ranked: Seq<RenameView>, c: RenameView) -> Seq<RenameView>
    decreases ranked.len(),
{
    if ranked.len() == 0 || total_rank(ranked.last().similarity) >= total_rank(c.similarity) {
        ranked.push(c)
    } else {
        inserted(ranked.drop_last(), c).push(ranked.last())
    }
}

/// Pairs from the most to the least similar; equally similar ones stay in
/// order.
pub open spec fn ranking(pairs: Seq<RenameView>) -> Seq<RenameView>
    decreases pairs.len(),
{
    if pairs.len() == 0 {
        seq![]
    } else {
        inserted(ranking(pairs.drop_last()), pairs.last())
    }
}

pub open spec fn left_sides(pairs: Seq<RenameView>) -> Seq<Seq<char>> {
    pairs.map_values(|c: RenameView| c.left)
}

pub open spec fn right_sides(pairs: Seq<RenameView>) -> Seq<Seq<char>> {
    pairs.map_values(|c: RenameView| c.right)
}

/// Greedy mutual-best assignment: of the ranked pairs, each whose two columns
/// are both still free.
pub open spec fn assignment(ranked: Seq<RenameView>) -> Seq<RenameView>
    decreases ranked.len(),
{
    if ranked.len() == 0 {
        seq![]
    } else {
        let before = assignment(ranked.drop_last());
        let c = ranked.last();
        if left_sides(before).contains(c.left) || right_sides(before).contains(c.right) {
            before
        } else {
            before.push(c)
        }
    }
}

/// True for a column that is not among the given ones.
pub open spec fn not_named(names: Seq<Seq<char>>) -> spec_fn(DescView) -> bool {
    |c: DescView| !names.contains(c.name)
}

/// A schema difference in which renames were recognized.
pub open spec fn with_renames(schema: SchemaDiffView, renames: Seq<RenameView>) -> SchemaDiffView {
    SchemaDiffView {
        added: schema.added.filter(not_named(right_sides(renames))),
        removed: schema.removed.filter(not_named(left_sides(renames))),
        renamed: schema.renamed + renames,
        ..schema
    }
}

/// Sorts pairs from the most to the least similar.
fn rank_pairs(pairs: Vec<Candidate>) -> (r: Vec<Candidate>)
    ensures
        candidate_views(r@) == ranking(candidate_views(pairs@)),
{
    let ghost all = candidate_views(pairs@);
    let mut left = crate::sort::reversed(pairs);
    let n = left.len();
    let mut r: Vec<Candidate> = Vec::new();
    assert(candidate_views(r@) =~= ranking(all.take(0)));
    for i in 0..n
        invariant
            n == all.len(),
            candidate_views(left@) == all.skip(i as int).reverse(),
            candidate_views(r@) == ranking(all.take(i as int)),
    {
        let ghost before = candidate_views(r@);
        let ghost here = candidate_views(left@);
        match left.pop() {
            Some(c) => {
                proof {
                    assert(c@ == here.last());
                    assert(c@ == all[i as int]);
                }
                let mut at = r.len();
                assert(before.take(at as int) =~= before);
                assert(before.skip(at as int) =~= seq![]);
                assert(inserted(before, c@) =~= inserted(before.take(at as int), c@) + before.skip(
                    at as int,
                ));
                while at > 0 && rank(r[at - 1].similarity) < rank(c.similarity)
                    invariant
                        at <= r@.len(),
                        before == candidate_views(r@),
                        inserted(before, c@) == inserted(before.take(at as int), c@) + before.skip(
                            at as int,
                        ),
                    decreases at,
                {
                    proof {
                        let head = before.take(at as int);
                        assert(head.last() == r@[at - 1]@);
                        assert(head.drop_last() =~= before.take(at - 1));
                        assert(inserted(head, c@) + before.skip(at as int) =~= inserted(
                            before.take(at - 1),
                            c@,
                        ) + before.skip(at - 1));
                    }
                    at = at - 1;
                }
                proof {
                    let head = before.take(at as int);
                    if at > 0 {
                        assert(head.last() == r@[at - 1]@);
                    }
                    assert(inserted(head, c@) == head.push(c@));
                }
                let ghost entry = c@;
                r.insert(at, c);
                proof {
                    assert(candidate_views(r@) =~= before.take(at as int).push(entry) + before.skip(
                        at as int,
                    ));
                    assert(all.take(i + 1).drop_last() =~= all.take(i as int));
                }
            },
            None => {},
        }
        assert(candidate_views(left@) =~= here.drop_last());
        assert(here.drop_last() =~= all.skip(i + 1).reverse());
    }
    assert(all.take(n as int) =~= all);
    r
}

/// The names of columns that are not in the given list.
fn without(cols: Vec<ColumnDesc>, names: &Vec<String>) -> (r: Vec<ColumnDesc>)
    ensures
        r@.map_values(|c: ColumnDesc| c@) == cols@.map_values(|c: ColumnDesc| c@).filter(
            not_named(views(names@)),
        ),
{
    let ghost all = cols@.map_values(|c: ColumnDesc| c@);
    let ghost p = not_named(views(names@));
    let mut left = crate::sort::reversed(cols);
    let n = left.len();
    let mut r: Vec<ColumnDesc> = Vec::new();
    assert(r@.map_values(|c: ColumnDesc| c@) =~= all.take(0).filter(p)) by {
        reveal(Seq::filter);
    }
    for i in 0..n
        invariant
            n == all.len(),
            p == not_named(views(names@)),
            left@.map_values(|c: ColumnDesc| c@) == all.skip(i as int).reverse(),
            r@.map_values(|c: ColumnDesc| c@) == all.take(i as int).filter(p),
    {
        let ghost before = r@.map_values(|c: ColumnDesc| c@);
        let ghost here = left@.map_values(|c: ColumnDesc| c@);
        proof {
            lemma_filter_next(all, p, i as int);
        }
        match left.pop() {
            Some(c) => {
                assert(c@ == here.last());
                assert(c@ == all[i as int]);
                if !contains(names, c.name.as_str()) {
                    let ghost entry = c@;
                    r.push(c);
                    assert(r@.map_values(|c: ColumnDesc| c@) =~= before.push(entry));
                }
            },
            None => {},
        }
        assert(left@.map_values(|c: ColumnDesc| c@) =~= here.drop_last());
        assert(here.drop_last() =~= all.skip(i + 1).reverse());
    }
    assert(all.take(n as int) =~= all);
    r
}

/// Greedy mutual-best assignment: highest similarity wins, each column
/// participates in at most one rename.
pub fn apply(schema: SchemaDiff, pairs: Vec<Candidate>) -> (r: SchemaDiff)
    ensures
        r@ == with_renames(schema@, assignment(ranking(candidate_views(pairs@)))),
{
    let ranked = rank_pairs(pairs);
    let ghost all = candidate_views(ranked@);
    let ghost was = schema@;
    let mut lefts: Vec<String> = Vec::new();
    let mut rights: Vec<String> = Vec::new();
    let mut renamed = schema.renamed;
    let ghost old_renamed = was.renamed;
    let ghost mut found: Seq<RenameView> = seq![];
    proof {
        assert(views(lefts@) =~= left_sides(found));
        assert(views(rights@) =~= right_sides(found));
        assert(found =~= assignment(all.take(0)));
        assert(renamed@.map_values(|c: RenamedColumn| c@) =~= old_renamed + found);
    }
    for i in 0..ranked.len()
        invariant
            all == candidate_views(ranked@),
            found == assignment(all.take(i as int)),
            views(lefts@) == left_sides(found),
            views(rights@) == right_sides(found),
            renamed@.map_values(|c: RenamedColumn| c@) == old_renamed + found,
    {
        let c = &ranked[i];
        proof {
            assert(all.take(i + 1).drop_last() =~= all.take(i as int));
            assert(all[i as int] == c@);
        }
        if !(contains(&lefts, c.left.as_str()) || contains(&rights, c.right.as_str())) {
            let ghost l0 = views(lefts@);
            let ghost r0 = views(rights@);
            let ghost n0 = renamed@.map_values(|c: RenamedColumn| c@);
            lefts.push(c.left.clone());
            rights.push(c.right.clone());
            renamed.push(
                RenamedColumn {
                    left: c.left.clone(),
                    right: c.right.clone(),
                    similarity: c.similarity,
                },
            );
            proof {
                let more = found.push(c@);
                assert(views(lefts@) =~= l0.push(c.left@));
                assert(left_sides(more) =~= l0.push(c.left@));
                assert(views(rights@) =~= r0.push(c.right@));
                assert(right_sides(more) =~= r0.push(c.right@));
                assert(renamed@.map_values(|c: RenamedColumn| c@) =~= n0.push(c@));
                assert(old_renamed + more =~= n0.push(c@));
                found = more;
            }
        }
    }
    assert(all.take(all.len() as int) =~= all);
    let added = without(schema.added, &rights);
    let removed = without(schema.removed, &lefts);
    SchemaDiff {
        added,
        removed,
        type_changed: schema.type_changed,
        renamed,
        mutual: schema.mutual,
    }
}

/// The names of reported columns.
pub open spec fn desc_names(cols: Seq<DescView>) -> Seq<Seq<char>> {
    cols.map_values(|c: DescView| c.name)
}

/// Lists the names of reported columns.
pub fn names_of(cols: &Vec<ColumnDesc>) -> (r: Vec<String>)
    ensures
        views(r@) == desc_names(cols@.map_values(|c: ColumnDesc| c@)),
{
    let mut r: Vec<String> = Vec::new();
    for i in 0..cols.len()
        invariant
            r.len() == i,
            forall|j: int| 0 <= j < i ==> (#[trigger] r@[j])@ == cols@[j].name@,
    {
        r.push(cols[i].name.clone());
    }
    assert(views(r@) =~= desc_names(cols@.map_values(|c: ColumnDesc| c@)));
    r
}

/// The renames that the samples show.
pub open spec fn detected_renames(
    schema: SchemaDiffView,
    lsample: Table,
    rsample: Table,
    key: Option<Seq<Seq<char>>>,
) -> Seq<RenameView> {
    assignment(
        ranking(
            all_close_pairs(
                lsample,
                rsample,
                key,
                desc_names(schema.removed),
                desc_names(schema.added),
            ),
        ),
    )
}

/// Detects renames among a schema difference's added and removed columns and
/// moves the matched pairs into its renames. With a key, values are compared
/// on key-matched sample rows; without one, by value-set overlap.
pub fn detect_renames(
    schema: SchemaDiff,
    lsample: &Table,
    rsample: &Table,
    key: Option<&Vec<String>>,
) -> (r: SchemaDiff)
    requires
        samples_hold(
            *lsample,
            *rsample,
            key_view(key),
            desc_names(schema@.removed),
            desc_names(schema@.added),
        ),
    ensures
        r@ == with_renames(schema@, detected_renames(schema@, *lsample, *rsample, key_view(key))),
{
    let removed = names_of(&schema.removed);
    let added = names_of(&schema.added);
    let pairs = match key {
        Some(k) => keyed_candidates(lsample, rsample, &removed, &added, k),
        None => jaccard_candidates(lsample, rsample, &removed, &added),
    };
    apply(schema, pairs)
}

pub proof fn lemma_close_pairs(
    lsample: Table,
    rsample: Table,
    key: Option<Seq<Seq<char>>>,
    left: Seq<char>,
    added: Seq<Seq<char>>,
)
    ensures
        ({
            let pairs = close_pairs(lsample, rsample, key, left, added);
            forall|i: int|
                0 <= i < pairs.len() ==> (#[trigger] pairs[i]).left == left && added.contains(pairs[i].right)
                    && similarity(lsample, rsample, key, left, pairs[i].right) == Some(
                    pairs[i].similarity,
                )
        }),
    decreases added.len(),
{
    if added.len() > 0 {
        let less = added.drop_last();
        lemma_close_pairs(lsample, rsample, key, left, less);
        let before = close_pairs(lsample, rsample, key, left, less);
        let pairs = close_pairs(lsample, rsample, key, left, added);
        assert forall|i: int| 0 <= i < pairs.len() implies (#[trigger] pairs[i]).left == left
            && added.contains(pairs[i].right) && similarity(lsample, rsample, key, left, pairs[i].right)
            == Some(pairs[i].similarity) by {
            if i < before.len() {
                assert(pairs[i] == before[i]);
                let j = choose|j: int| 0 <= j < less.len() && less[j] == before[i].right;
                assert(added[j] == before[i].right);
            } else {
                assert(added[added.len() - 1] == pairs[i].right);
            }
        }
    }
}

/// A pair of columns, one removed and one added, whose samples are close.
pub open spec fn is_close(
    lsample: Table,
    rsample: Table,
    key: Option<Seq<Seq<char>>>,
    removed: Seq<Seq<char>>,
    added: Seq<Seq<char>>,
    pair: RenameView,
) -> bool {
    &&& removed.contains(pair.left)
    &&& added.contains(pair.right)
    &&& similarity(lsample, rsample, key, pair.left, pair.right) == Some(pair.similarity)
}

pub proof fn lemma_all_close_pairs(
    lsample: Table,
    rsample: Table,
    key: Option<Seq<Seq<char>>>,
    removed: Seq<Seq<char>>,
    added: Seq<Seq<char>>,
)
    ensures
        ({
            let pairs = all_close_pairs(lsample, rsample, key, removed, added);
            forall|i: int|
                0 <= i < pairs.len() ==> is_close(
                    lsample,
                    rsample,
                    key,
                    removed,
                    added,
                    #[trigger] pairs[i],
                )
        }),
    decreases removed.len(),
{
    if removed.len() > 0 {
        let less = removed.drop_last();
        lemma_all_close_pairs(lsample, rsample, key, less, added);
        lemma_close_pairs(lsample, rsample, key, removed.last(), added);
        let before = all_close_pairs(lsample, rsample, key, less, added);
        let more = close_pairs(lsample, rsample, key, removed.last(), added);
        let pairs = all_close_pairs(lsample, rsample, key, removed, added);
        assert forall|i: int| 0 <= i < pairs.len() implies is_close(
            lsample,
            rsample,
            key,
            removed,
            added,
            #[trigger] pairs[i],
        ) by {
            if i < before.len() {
                assert(pairs[i] == before[i]);
                let j = choose|j: int| 0 <= j < less.len() && less[j] == before[i].left;
                assert(removed[j] == before[i].left);
            } else {
                assert(pairs[i] == more[i - before.len()]);
                assert(removed[removed.len() - 1] == pairs[i].left);
            }
        }
    }
}

/// Pairs from the most to the least similar.
pub open spec fn descending(pairs: Seq<RenameView>) -> bool {
    forall|i: int, j: int|
        0 <= i <= j < pairs.len() ==> total_rank((#[trigger] pairs[i]).similarity) >= total_rank(
            (#[trigger] pairs[j]).similarity,
        )
}

proof fn lemma_inserted(ranked: Seq<RenameView>, c: RenameView)
    requires
        descending(ranked),
    ensures
        descending(inserted(ranked, c)),
        inserted(ranked, c).to_multiset() == ranked.to_multiset().insert(c),
        inserted(ranked, c).len() == ranked.len() + 1,
        forall|i: int|
            0 <= i < inserted(ranked, c).len() ==> #[trigger] inserted(ranked, c)[i] == c
                || ranked.contains(inserted(ranked, c)[i]),
    decreases ranked.len(),
{
    broadcast use vstd::seq_lib::group_to_multiset_ensures;

    if ranked.len() == 0 || total_rank(ranked.last().similarity) >= total_rank(c.similarity) {
        let r = inserted(ranked, c);
        assert forall|i: int| 0 <= i < r.len() implies #[trigger] r[i] == c || ranked.contains(r[i]) by {
            if i < ranked.len() {
                assert(r[i] == ranked[i]);
            }
        }
    } else {
        let less = ranked.drop_last();
        lemma_inserted(less, c);
        let before = inserted(less, c);
        let r = inserted(ranked, c);
        assert(r == before.push(ranked.last()));
        assert forall|i: int| 0 <= i < r.len() implies #[trigger] r[i] == c || ranked.contains(r[i]) by {
            if i < before.len() {
                assert(r[i] == before[i]);
                if before[i] != c {
                    let j = choose|j: int| 0 <= j < less.len() && less[j] == before[i];
                    assert(ranked[j] == before[i]);
                }
            } else {
                assert(ranked[ranked.len() - 1] == r[i]);
            }
        }
        assert forall|i: int, j: int| 0 <= i <= j < r.len() implies total_rank(
            (#[trigger] r[i]).similarity,
        ) >= total_rank((#[trigger] r[j]).similarity) by {
            if j == before.len() && i < j {
                assert(r[i] == before[i]);
                if before[i] != c {
                    let k = choose|k: int| 0 <= k < less.len() && less[k] == before[i];
                    assert(ranked[k] == before[i]);
                }
            }
        }
        assert(less.push(ranked.last()) =~= ranked);
        assert(less.to_multiset().insert(c).insert(ranked.last()) =~= less.to_multiset().insert(
            ranked.last(),
        ).insert(c));
    }
}

/// Ranking keeps every pair, and puts the more similar ones first.
pub proof fn law_ranking_sorts(pairs: Seq<RenameView>)
    ensures
        descending(ranking(pairs)),
        ranking(pairs).to_multiset() == pairs.to_multiset(),
    decreases pairs.len(),
{
    broadcast use vstd::seq_lib::group_to_multiset_ensures;

    if pairs.len() > 0 {
        law_ranking_sorts(pairs.drop_last());
        lemma_inserted(ranking(pairs.drop_last()), pairs.last());
        assert(pairs.drop_last().push(pairs.last()) =~= pairs);
    } else {
        assert(pairs =~= seq![]);
    }
}

/// Each column takes part in at most one rename, and a pair is passed over
/// only for one that is ranked before it.
pub proof fn law_assignment_is_greedy(ranked: Seq<RenameView>)
    ensures
        left_sides(assignment(ranked)).no_duplicates(),
        right_sides(assignment(ranked)).no_duplicates(),
        forall|i: int|
            0 <= i < assignment(ranked).len() ==> ranked.contains(#[trigger] assignment(ranked)[i]),
        forall|i: int|
            0 <= i < ranked.len() ==> {
                ||| assignment(ranked).contains(#[trigger] ranked[i])
                ||| left_sides(assignment(ranked.take(i))).contains(ranked[i].left)
                ||| right_sides(assignment(ranked.take(i))).contains(ranked[i].right)
            },
    decreases ranked.len(),
{
    if ranked.len() > 0 {
        let less = ranked.drop_last();
        law_assignment_is_greedy(less);
        let before = assignment(less);
        let r = assignment(ranked);
        let c = ranked.last();
        assert(ranked.take(ranked.len() - 1) =~= less);
        if r != before {
            assert(r == before.push(c));
            assert(left_sides(r) =~= left_sides(before).push(c.left));
            assert(right_sides(r) =~= right_sides(before).push(c.right));
        }
        assert forall|i: int| 0 <= i < r.len() implies ranked.contains(#[trigger] r[i]) by {
            if i < before.len() {
                assert(r[i] == before[i]);
                let j = choose|j: int| 0 <= j < less.len() && less[j] == before[i];
                assert(ranked[j] == before[i]);
            } else {
                assert(ranked[ranked.len() - 1] == r[i]);
            }
        }
        assert forall|i: int| 0 <= i < ranked.len() implies {
            ||| r.contains(#[trigger] ranked[i])
            ||| left_sides(assignment(ranked.take(i))).contains(ranked[i].left)
            ||| right_sides(assignment(ranked.take(i))).contains(ranked[i].right)
        } by {
            if i < less.len() {
                assert(ranked[i] == less[i]);
                assert(ranked.take(i) =~= less.take(i));
                if before.contains(less[i]) {
                    let j = choose|j: int| 0 <= j < before.len() && before[j] == less[i];
                    assert(r[j] == less[i]);
                }
            } else if r != before {
                assert(r[r.len() - 1] == c);
            }
        }
    }
}

/// What is assigned of the first pairs stays assigned.
proof fn lemma_assignment_grows(ranked: Seq<RenameView>, n: int)
    requires
        0 <= n <= ranked.len(),
    ensures
        assignment(ranked.take(n)).is_prefix_of(assignment(ranked)),
    decreases ranked.len(),
{
    if n < ranked.len() {
        let less = ranked.drop_last();
        assert(less.take(n) =~= ranked.take(n));
        lemma_assignment_grows(less, n);
        assert(assignment(less).is_prefix_of(assignment(ranked)));
    } else {
        assert(ranked.take(n) =~= ranked);
    }
}

/// What is assigned of ranked pairs is ranked.
proof fn lemma_assignment_descends(ranked: Seq<RenameView>)
    requires
        descending(ranked),
    ensures
        descending(assignment(ranked)),
    decreases ranked.len(),
{
    if ranked.len() > 0 {
        let less = ranked.drop_last();
        lemma_assignment_descends(less);
        law_assignment_is_greedy(less);
        let before = assignment(less);
        let r = assignment(ranked);
        assert forall|i: int, j: int| 0 <= i <= j < r.len() implies total_rank((#[trigger] r[i]).similarity)
            >= total_rank((#[trigger] r[j]).similarity) by {
            if j < before.len() {
                assert(r[i] == before[i] && r[j] == before[j]);
            } else if i < before.len() {
                assert(less.contains(before[i]));
                let k = choose|k: int| 0 <= k < less.len() && less[k] == before[i];
                assert(ranked[k] == r[i]);
            }
        }
    }
}

/// True where two pairs have a column in common.
pub open spec fn share_column(a: RenameView, b: RenameView) -> bool {
    a.left == b.left || a.right == b.right
}

/// The renames that come of candidates are among them, from the most to the
/// least similar, no column in two of them; and a candidate that is not among
/// the renames has a column in common with one that is at least as similar.
pub proof fn law_highest_similarity_wins(pairs: Seq<RenameView>)
    ensures
        ({
            let taken = assignment(ranking(pairs));
            &&& descending(taken)
            &&& left_sides(taken).no_duplicates()
            &&& right_sides(taken).no_duplicates()
            &&& forall|i: int| 0 <= i < taken.len() ==> pairs.contains(#[trigger] taken[i])
            &&& forall|p: RenameView| #[trigger]
                pairs.contains(p) ==> taken.contains(p) || exists|j: int|
                    0 <= j < taken.len() && share_column(#[trigger] taken[j], p) && total_rank(
                        taken[j].similarity,
                    ) >= total_rank(p.similarity)
        }),
{
    broadcast use vstd::seq_lib::group_to_multiset_ensures;

    let ranked = ranking(pairs);
    let taken = assignment(ranked);
    law_ranking_sorts(pairs);
    law_assignment_is_greedy(ranked);
    lemma_assignment_descends(ranked);
    assert forall|i: int| 0 <= i < taken.len() implies pairs.contains(#[trigger] taken[i]) by {
        assert(ranked.contains(taken[i]));
        assert(ranked.to_multiset().count(taken[i]) > 0);
    }
    assert forall|p: RenameView| #[trigger] pairs.contains(p) && !taken.contains(p) implies exists|j: int|
        0 <= j < taken.len() && share_column(#[trigger] taken[j], p) && total_rank(taken[j].similarity)
            >= total_rank(p.similarity) by {
        assert(ranked.to_multiset().count(p) > 0);
        assert(ranked.contains(p));
        let i = choose|i: int| 0 <= i < ranked.len() && ranked[i] == p;
        let before = assignment(ranked.take(i));
        lemma_assignment_grows(ranked, i);
        law_assignment_is_greedy(ranked.take(i));
        let j = if left_sides(before).contains(p.left) {
            choose|j: int| 0 <= j < before.len() && left_sides(before)[j] == p.left
        } else {
            choose|j: int| 0 <= j < before.len() && right_sides(before)[j] == p.right
        };
        assert(before[j] == taken[j]);
        assert(ranked.take(i).contains(before[j]));
        let k = choose|k: int| 0 <= k < i && ranked.take(i)[k] == before[j];
        assert(ranked[k] == taken[j]);
        assert(share_column(taken[j], p));
    }
}

/// Each detected rename pairs a removed column with an added one whose samples
/// are close, and no column is in two of them.
pub proof fn law_renames_pair_close_columns(
    schema: SchemaDiffView,
    lsample: Table,
    rsample: Table,
    key: Option<Seq<Seq<char>>>,
)
    ensures
        ({
            let found = detected_renames(schema, lsample, rsample, key);
            let removed = desc_names(schema.removed);
            let added = desc_names(schema.added);
            &&& forall|i: int|
                0 <= i < found.len() ==> is_close(
                    lsample,
                    rsample,
                    key,
                    removed,
                    added,
                    #[trigger] found[i],
                )
            &&& left_sides(found).no_duplicates()
            &&& right_sides(found).no_duplicates()
            &&& found.len() <= removed.len()
            &&& found.len() <= added.len()
        }),
{
    broadcast use vstd::seq_lib::group_to_multiset_ensures;

    let removed = desc_names(schema.removed);
    let added = desc_names(schema.added);
    let pairs = all_close_pairs(lsample, rsample, key, removed, added);
    let ranked = ranking(pairs);
    let found = assignment(ranked);
    lemma_all_close_pairs(lsample, rsample, key, removed, added);
    law_ranking_sorts(pairs);
    law_assignment_is_greedy(ranked);
    assert forall|i: int| 0 <= i < found.len() implies is_close(
        lsample,
        rsample,
        key,
        removed,
        added,
        #[trigger] found[i],
    ) by {
        assert(ranked.contains(found[i]));
        assert(ranked.to_multiset().count(found[i]) > 0);
        assert(pairs.contains(found[i]));
        let j = choose|j: int| 0 <= j < pairs.len() && pairs[j] == found[i];
        assert(is_close(lsample, rsample, key, removed, added, pairs[j]));
    }
    assert forall|i: int| 0 <= i < found.len() implies removed.contains(#[trigger] left_sides(found)[i]) by {
        assert(is_close(lsample, rsample, key, removed, added, found[i]));
    }
    assert forall|i: int| 0 <= i < found.len() implies added.contains(#[trigger] right_sides(found)[i]) by {
        assert(is_close(lsample, rsample, key, removed, added, found[i]));
    }
    lemma_no_more(left_sides(found), removed);
    lemma_no_more(right_sides(found), added);
}

/// A similarity is a share of rows or of values, so it is at most 1.
pub proof fn law_similarity_is_a_share(
    lsample: Table,
    rsample: Table,
    key: Option<Seq<Seq<char>>>,
    left: Seq<char>,
    right: Seq<char>,
)
    ensures
        similarity(lsample, rsample, key, left, right) matches Some(s) ==> s <= ONE,
{
    if similarity(lsample, rsample, key, left, right) is Some {
        match key {
            Some(k) => {
                let lkeys = sample_keys(lsample, k);
                let matched = matched_rows(lkeys, sample_keys(rsample, k), lkeys.len() as int);
                let agree = matched.filter(agreeing(lsample, rsample, left, right));
                lemma_filter_shorter(matched, agreeing(lsample, rsample, left, right));
                law_part_is_at_most_whole(agree.len(), matched.len());
            },
            None => {
                let l = value_set(lsample, left);
                let r = value_set(rsample, right);
                let both = l.intersect(r);
                seq_to_set_is_finite(sample_keys(lsample, seq![left]));
                seq_to_set_is_finite(sample_keys(rsample, seq![right]));
                lemma_len_subset(both, l);
                lemma_len_subset(both, r);
                law_part_is_at_most_whole(both.len(), (l.len() + r.len() - both.len()) as nat);
            },
        }
    }
}

/// Distinct elements of a list are no more than it has.
pub proof fn lemma_no_more<A>(s: Seq<A>, of: Seq<A>)
    requires
        s.no_duplicates(),
        forall|i: int| 0 <= i < s.len() ==> of.contains(#[trigger] s[i]),
    ensures
        s.len() <= of.len(),
{
    broadcast use vstd::seq_lib::seq_to_set_is_finite;

    s.unique_seq_to_set();
    of.lemma_cardinality_of_set();
    assert(s.to_set().subset_of(of.to_set()));
    vstd::set_lib::lemma_len_subset(s.to_set(), of.to_set());
}

/// Without a key, columns with few distinct values are never taken for renames
/// of each other.
pub proof fn law_few_values_are_no_rename(
    schema: SchemaDiffView,
    lsample: Table,
    rsample: Table,
    i: int,
)
    requires
        0 <= i < detected_renames(schema, lsample, rsample, None).len(),
    ensures
        ({
            let found = detected_renames(schema, lsample, rsample, None)[i];
            &&& value_set(lsample, found.left).len() >= MIN_DISTINCT
            &&& value_set(rsample, found.right).len() >= MIN_DISTINCT
            &&& found.similarity >= JACCARD_THRESHOLD
        }),
{
    law_renames_pair_close_columns(schema, lsample, rsample, None);
    let found = detected_renames(schema, lsample, rsample, None);
    assert(is_close(
        lsample,
        rsample,
        None,
        desc_names(schema.removed),
        desc_names(schema.added),
        found[i],
    ));
}

/// A renamed column is no longer reported as removed or added, and every other
/// one still is.
pub proof fn law_renames_move_columns(schema: SchemaDiffView, renames: Seq<RenameView>, name: Seq<char>)
    ensures
        ({
            let after = with_renames(schema, renames);
            &&& desc_names(after.removed).contains(name) <==> desc_names(schema.removed).contains(name)
                && !left_sides(renames).contains(name)
            &&& desc_names(after.added).contains(name) <==> desc_names(schema.added).contains(name)
                && !right_sides(renames).contains(name)
            &&& after.mutual == schema.mutual
            &&& after.type_changed == schema.type_changed
        }),
{
    lemma_unnamed(schema.removed, left_sides(renames), name);
    lemma_unnamed(schema.added, right_sides(renames), name);
}

proof fn lemma_unnamed(cols: Seq<DescView>, names: Seq<Seq<char>>, name: Seq<char>)
    ensures
        desc_names(cols.filter(not_named(names))).contains(name) <==> desc_names(cols).contains(name)
            && !names.contains(name),
{
    let kept = cols.filter(not_named(names));
    lemma_filter_keeps(cols, not_named(names));
    if desc_names(kept).contains(name) {
        let i = choose|i: int| 0 <= i < desc_names(kept).len() && desc_names(kept)[i] == name;
        assert(not_named(names)(kept[i]));
        let j = choose|j: int| 0 <= j < cols.len() && cols[j] == kept[i];
        assert(desc_names(cols)[j] == name);
    }
    if desc_names(cols).contains(name) && !names.contains(name) {
        let i = choose|i: int| 0 <= i < desc_names(cols).len() && desc_names(cols)[i] == name;
        assert(not_named(names)(cols[i]));
        let j = choose|j: int| 0 <= j < kept.len() && kept[j] == cols[i];
        assert(desc_names(kept)[j] == name);
    }
}

/// Where nothing was removed, or nothing added, no rename is detected.
pub proof fn law_no_rename_without_both(
    schema: SchemaDiffView,
    lsample: Table,
    rsample: Table,
    key: Option<Seq<Seq<char>>>,
)
    requires
        schema.removed.len() == 0 || schema.added.len() == 0,
    ensures
        detected_renames(schema, lsample, rsample, key).len() == 0,
{
    law_renames_pair_close_columns(schema, lsample, rsample, key);
}

} // verus!
