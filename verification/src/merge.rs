//! Merging sorted runs into one sorted row stream.

use crate::error::{Error, ErrorView};
use crate::input::{row_count, Batch, BatchIter};
use crate::key::copy_bytes;
use crate::sort::{all_run_rows, batch_follows_values, file_count, in_order, key_text, keyed_rows, lemma_stream_len, reversed, row_order, row_views, rows_of, run_rows, same_rows, sort_into_runs, sorted_runs, sorts, stream_follows_values, stream_rows, CodecView, KeyCodec, Row, RowView, RunSource, SpillDir};
use crate::text::{byte_order, compare_bytes, copy_all, law_byte_order_total, law_byte_order_transitive};
use vstd::prelude::*;
use vstd::seq_lib::lemma_multiset_commutative;

verus! {

/// A place in a run: the rows in hand, and whether more may follow.
#[derive(Debug)]
pub struct RunCursor {
    /// The rows of the current chunk, the next one last.
    pub rest: Vec<Row>,
    /// The chunks after it, the next one last.
    pub later: Vec<Vec<Row>>,
    /// True where chunks may still be fed.
    pub open: bool,
}

/// The rows of chunks that come last one first.
pub open spec fn rows_from_last(chunks: Seq<Vec<Row>>) -> Seq<RowView>
    decreases chunks.len(),
{
    if chunks.len() == 0 {
        seq![]
    } else {
        row_views(chunks.last()@) + rows_from_last(chunks.drop_last())
    }
}

impl View for RunCursor {
    type V = Seq<RowView>;

    /// The rows in hand, in the order in which they come.
    open spec fn view(&self) -> Seq<RowView> {
        row_views(self.rest@).reverse() + rows_from_last(self.later@)
    }
}

proof fn lemma_rows_from_last_first(first: Vec<Row>, chunks: Seq<Vec<Row>>)
    ensures
        rows_from_last(seq![first] + chunks) == rows_from_last(chunks) + row_views(first@),
    decreases chunks.len(),
{
    let all = seq![first] + chunks;
    if chunks.len() == 0 {
        assert(all.drop_last() =~= seq![]);
        assert(rows_from_last(all.drop_last()) =~= seq![]);
        assert(rows_from_last(all) =~= rows_from_last(chunks) + row_views(first@));
    } else {
        assert(all.drop_last() =~= seq![first] + chunks.drop_last());
        lemma_rows_from_last_first(first, chunks.drop_last());
        assert(rows_from_last(all) =~= rows_from_last(chunks) + row_views(first@));
    }
}

/// Chunks turned round hold the same rows.
proof fn lemma_rows_from_last(chunks: Seq<Vec<Row>>)
    ensures
        rows_from_last(chunks.reverse()) == rows_of(chunks),
    decreases chunks.len(),
{
    if chunks.len() == 0 {
        assert(chunks.reverse() =~= seq![]);
    } else {
        lemma_rows_from_last(chunks.drop_last());
        assert(chunks.reverse() =~= seq![chunks.last()] + chunks.drop_last().reverse());
        lemma_rows_from_last_first(chunks.last(), chunks.drop_last().reverse());
    }
}

impl RunCursor {
    /// The next row is at hand where any is.
    pub open spec fn wf(&self) -> bool {
        self.rest@.len() == 0 ==> self.later@.len() == 0
    }

    /// Starts at the first of the given chunks.
    pub fn new(chunks: Vec<Vec<Row>>, open: bool) -> (r: Self)
        ensures
            r.wf(),
            r@ == rows_of(chunks@),
            r.open == open,
    {
        proof {
            lemma_rows_from_last(chunks@);
        }
        let mut cursor = RunCursor { rest: Vec::new(), later: reversed(chunks), open };
        assert(row_views(cursor.rest@) =~= seq![]);
        assert(row_views(cursor.rest@).reverse() =~= seq![]);
        assert(cursor@ =~= rows_of(chunks@));
        cursor.load();
        cursor
    }

    /// Moves on to the next chunk that has rows, where the current one has
    /// none left.
    fn load(&mut self)
        ensures
            final(self).wf(),
            final(self)@ == old(self)@,
            final(self).open == old(self).open,
    {
        let ghost all = self@;
        while self.rest.len() == 0 && self.later.len() > 0
            invariant
                self@ == all,
                self.open == old(self).open,
            decreases self.later@.len(),
        {
            let ghost chunks = self.later@;
            match self.later.pop() {
                Some(chunk) => {
                    assert(row_views(self.rest@) =~= seq![]);
                    self.rest = reversed(chunk);
                    assert(self.later@ =~= chunks.drop_last());
                    assert(row_views(self.rest@).reverse() =~= row_views(chunk@));
                    assert(self@ =~= all);
                },
                None => {},
            }
        }
    }

    /// The key of the next row.
    pub fn peek_key(&self) -> (r: Option<&Vec<u8>>)
        requires
            self.wf(),
        ensures
            match r {
                Some(key) => self@.len() > 0 && key@ == self@[0].key,
                None => self@.len() == 0,
            },
    {
        if self.rest.len() == 0 {
            assert(row_views(self.rest@) =~= seq![]);
            assert(self@ =~= seq![]);
            None
        } else {
            let ghost v = row_views(self.rest@);
            assert(self@[0] == v.last());
            Some(&self.rest[self.rest.len() - 1].key)
        }
    }

    /// Takes the next row.
    pub fn take_row(&mut self) -> (r: Row)
        requires
            old(self).wf(),
            old(self)@.len() > 0,
        ensures
            final(self).wf(),
            r@ == old(self)@[0],
            final(self)@ == old(self)@.drop_first(),
            final(self).open == old(self).open,
    {
        proof {
            if self.rest@.len() == 0 {
                assert(row_views(self.rest@) =~= seq![]);
                assert(self@ =~= seq![]);
            }
        }
        let ghost v = row_views(self.rest@);
        let ghost all = self@;
        match self.rest.pop() {
            Some(row) => {
                proof {
                    assert(row@ == v.last());
                    assert(row_views(self.rest@) =~= v.drop_last());
                    assert(self@ =~= all.drop_first());
                }
                self.load();
                row
            },
            None => {
                assert(false);
                Row { key: Vec::new(), cells: Vec::new() }
            },
        }
    }

    /// Appends a chunk, or closes the run.
    pub fn feed(&mut self, chunk: Option<Vec<Row>>)
        requires
            old(self).wf(),
        ensures
            final(self).wf(),
            match chunk {
                Some(rows) => final(self)@ == old(self)@ + row_views(rows@) && final(self).open == old(
                    self,
                ).open,
                None => final(self)@ == old(self)@ && !final(self).open,
            },
    {
        match chunk {
            Some(rows) => {
                let ghost chunks = self.later@;
                self.later.insert(0, rows);
                proof {
                    assert(self.later@ =~= seq![rows] + chunks);
                    lemma_rows_from_last_first(rows, chunks);
                    assert(self@ =~= old(self)@ + row_views(rows@));
                }
                self.load();
            },
            None => {
                self.open = false;
            },
        }
    }

    /// True where the rows in hand may end before the group of a key does:
    /// there are none, or the last one has that key.
    pub fn starved(&self, key: Option<&Vec<u8>>) -> (r: bool)
        requires
            self.wf(),
        ensures
            r == (self.open && (self@.len() == 0 || (key matches Some(k) && self@.last().key == k@))),
    {
        if !self.open {
            return false;
        }
        if self.rest.len() == 0 {
            assert(row_views(self.rest@) =~= seq![]);
            assert(self@ =~= seq![]);
            return true;
        }
        let k = match key {
            Some(k) => k,
            None => {
                return false;
            },
        };
        let ghost v = row_views(self.rest@);
        let mut i: usize = 0;
        assert(self.later@.skip(0) =~= self.later@);
        while i < self.later.len()
            invariant
                i <= self.later@.len(),
                v == row_views(self.rest@),
                self.rest@.len() > 0,
                self.open,
                key == Some(k),
                rows_from_last(self.later@) == rows_from_last(self.later@.skip(i as int)),
            decreases self.later@.len() - i,
        {
            proof {
                let here = self.later@.skip(i as int);
                assert(here =~= seq![self.later@[i as int]] + self.later@.skip(i + 1));
                lemma_rows_from_last_first(self.later@[i as int], self.later@.skip(i + 1));
            }
            let chunk = &self.later[i];
            if chunk.len() > 0 {
                assert(self@.last() == row_views(chunk@).last());
                return same_key(&chunk[chunk.len() - 1].key, k);
            }
            assert(row_views(chunk@) =~= seq![]);
            assert(rows_from_last(self.later@.skip(i as int)) =~= rows_from_last(
                self.later@.skip(i + 1),
            ));
            i = i + 1;
        }
        proof {
            assert(self.later@.skip(i as int) =~= seq![]);
            assert(self@.last() == v[0]);
        }
        same_key(&self.rest[0].key, k)
    }
}

/// True where two keys are equal.
pub fn same_key(a: &Vec<u8>, b: &Vec<u8>) -> (r: bool)
    ensures
        r == (a@ == b@),
{
    proof {
        law_byte_order_total(a@, b@);
    }
    compare_bytes(a.as_slice(), b.as_slice()) == 0
}

/// Run `k` has the next row: none that is next elsewhere has a smaller key,
/// and none before run `k` has an equal one.
pub open spec fn leads(runs: Seq<Seq<RowView>>, k: int) -> bool {
    &&& 0 <= k < runs.len()
    &&& runs[k].len() > 0
    &&& forall|j: int|
        0 <= j < runs.len() && (#[trigger] runs[j]).len() > 0 ==> row_order(runs[k][0], runs[j][0]) <= 0
            && (j < k ==> row_order(runs[k][0], runs[j][0]) < 0)
}

/// The number of rows in runs.
pub open spec fn rows_left(runs: Seq<Seq<RowView>>) -> nat
    decreases runs.len(),
{
    if runs.len() == 0 {
        0
    } else {
        rows_left(runs.drop_last()) + runs.last().len()
    }
}

/// A run replaced by another changes the number of rows by theirs.
pub proof fn lemma_rows_left_update(runs: Seq<Seq<RowView>>, k: int, run: Seq<RowView>)
    requires
        0 <= k < runs.len(),
    ensures
        rows_left(runs.update(k, run)) == rows_left(runs) - runs[k].len() + run.len(),
        rows_left(runs) >= runs[k].len(),
    decreases runs.len(),
{
    let other = runs.update(k, run);
    if k == runs.len() - 1 {
        assert(other.drop_last() =~= runs.drop_last());
    } else {
        assert(other.drop_last() =~= runs.drop_last().update(k, run));
        lemma_rows_left_update(runs.drop_last(), k, run);
    }
}

/// The runs without the next row.
pub open spec fn without_next(runs: Seq<Seq<RowView>>) -> Seq<Seq<RowView>> {
    let k = choose|k: int| leads(runs, k);
    runs.update(k, runs[k].drop_first())
}

/// Runs merged into one stream: the next row first, then the rest merged.
pub open spec fn merged(runs: Seq<Seq<RowView>>) -> Seq<RowView>
    decreases rows_left(runs),
{
    if exists|k: int| leads(runs, k) {
        let k = choose|k: int| leads(runs, k);
        proof {
            lemma_rows_left_update(runs, k, runs[k].drop_first());
        }
        seq![runs[k][0]] + merged(without_next(runs))
    } else {
        seq![]
    }
}

/// At most one run has the next row.
proof fn lemma_leader_unique(runs: Seq<Seq<RowView>>, j: int, k: int)
    requires
        leads(runs, j),
        leads(runs, k),
    ensures
        j == k,
{
    law_byte_order_total(runs[j][0].key, runs[k][0].key);
}

/// The merged stream starts with the row of the run that leads.
proof fn lemma_merged_first(runs: Seq<Seq<RowView>>, k: int)
    requires
        leads(runs, k),
    ensures
        merged(runs).len() > 0,
        merged(runs)[0] == runs[k][0],
        merged(runs).drop_first() == merged(runs.update(k, runs[k].drop_first())),
{
    let c = choose|c: int| leads(runs, c);
    lemma_leader_unique(runs, c, k);
    let rest = merged(runs.update(k, runs[k].drop_first()));
    assert(merged(runs) == seq![runs[k][0]] + rest);
    assert(merged(runs).drop_first() =~= rest);
}

/// Nothing is left of the stream where no run has rows.
proof fn lemma_merged_none(runs: Seq<Seq<RowView>>)
    requires
        forall|j: int| 0 <= j < runs.len() ==> (#[trigger] runs[j]).len() == 0,
    ensures
        merged(runs) == Seq::<RowView>::empty(),
{
}

/// The rows of runs, one run after the other.
pub open spec fn concatenated(runs: Seq<Seq<RowView>>) -> Seq<RowView>
    decreases runs.len(),
{
    if runs.len() == 0 {
        seq![]
    } else {
        concatenated(runs.drop_last()) + runs.last()
    }
}

proof fn lemma_concatenated_update(runs: Seq<Seq<RowView>>, k: int)
    requires
        0 <= k < runs.len(),
        runs[k].len() > 0,
    ensures
        concatenated(runs).to_multiset() == concatenated(
            runs.update(k, runs[k].drop_first()),
        ).to_multiset().insert(runs[k][0]),
    decreases runs.len(),
{
    broadcast use vstd::seq_lib::group_to_multiset_ensures;

    let rest = runs[k].drop_first();
    let other = runs.update(k, rest);
    let head = runs.drop_last();
    if k == runs.len() - 1 {
        assert(other.drop_last() =~= head);
        lemma_multiset_commutative(concatenated(head), runs[k]);
        lemma_multiset_commutative(concatenated(head), rest);
        let x = seq![runs[k][0]];
        assert(runs[k] =~= x + rest);
        lemma_multiset_commutative(x, rest);
        assert(x =~= Seq::<RowView>::empty().push(runs[k][0]));
        assert(concatenated(runs).to_multiset() =~= concatenated(other).to_multiset().insert(runs[k][0]));
    } else {
        assert(other.drop_last() =~= head.update(k, rest));
        lemma_concatenated_update(head, k);
        lemma_multiset_commutative(concatenated(head), runs.last());
        lemma_multiset_commutative(concatenated(head.update(k, rest)), runs.last());
        assert(concatenated(runs).to_multiset() =~= concatenated(other).to_multiset().insert(runs[k][0]));
    }
}

proof fn lemma_concatenated_none(runs: Seq<Seq<RowView>>)
    requires
        forall|j: int| 0 <= j < runs.len() ==> (#[trigger] runs[j]).len() == 0,
    ensures
        concatenated(runs) == Seq::<RowView>::empty(),
    decreases runs.len(),
{
    if runs.len() > 0 {
        assert(runs[runs.len() - 1].len() == 0);
        assert forall|j: int| 0 <= j < runs.drop_last().len() implies (#[trigger] runs.drop_last()[j]).len()
            == 0 by {
            assert(runs[j].len() == 0);
        }
        lemma_concatenated_none(runs.drop_last());
        assert(concatenated(runs) =~= Seq::<RowView>::empty());
    }
}

/// Some run leads where any run has rows.
proof fn lemma_leader_exists(runs: Seq<Seq<RowView>>, n: int)
    requires
        0 <= n <= runs.len(),
    ensures
        (exists|j: int| 0 <= j < n && (#[trigger] runs[j]).len() > 0) ==> exists|k: int|
            leads(runs.take(n), k),
    decreases n,
{
    if n > 0 {
        lemma_leader_exists(runs, n - 1);
        let before = runs.take(n - 1);
        let now = runs.take(n);
        let last = n - 1;
        if exists|k: int| leads(before, k) {
            let k = choose|k: int| leads(before, k);
            assert(now[k] == before[k]);
            if runs[last].len() > 0 && row_order(runs[last][0], runs[k][0]) < 0 {
                assert forall|j: int| 0 <= j < now.len() && (#[trigger] now[j]).len() > 0 implies row_order(
                    now[last][0],
                    now[j][0],
                ) <= 0 && (j < last ==> row_order(now[last][0], now[j][0]) < 0) by {
                    if j < last {
                        assert(now[j] == before[j]);
                        law_byte_order_transitive(now[last][0].key, now[k][0].key, now[j][0].key);
                    } else {
                        law_byte_order_total(now[j][0].key, now[j][0].key);
                    }
                }
                assert(leads(now, last));
            } else {
                if runs[last].len() > 0 {
                    law_byte_order_total(runs[last][0].key, runs[k][0].key);
                }
                assert forall|j: int| 0 <= j < now.len() && (#[trigger] now[j]).len() > 0 implies row_order(
                    now[k][0],
                    now[j][0],
                ) <= 0 && (j < k ==> row_order(now[k][0], now[j][0]) < 0) by {
                    if j < last {
                        assert(now[j] == before[j]);
                    }
                }
                assert(leads(now, k));
            }
        } else if runs[last].len() > 0 {
            assert forall|j: int| 0 <= j < now.len() && (#[trigger] now[j]).len() > 0 implies row_order(
                now[last][0],
                now[j][0],
            ) <= 0 && (j < last ==> row_order(now[last][0], now[j][0]) < 0) by {
                if j < last {
                    assert(runs[j].len() > 0);
                } else {
                    law_byte_order_total(now[j][0].key, now[j][0].key);
                }
            }
            assert(leads(now, last));
        }
    }
}

/// The same rows are found in both.
pub proof fn lemma_same_rows_contains(a: Seq<RowView>, b: Seq<RowView>, x: RowView)
    requires
        same_rows(a, b),
        a.contains(x),
    ensures
        b.contains(x),
{
    vstd::seq_lib::to_multiset_contains(a, x);
    vstd::seq_lib::to_multiset_contains(b, x);
}

/// Merging loses no row and adds none.
pub proof fn law_merging_keeps_rows(runs: Seq<Seq<RowView>>)
    ensures
        same_rows(merged(runs), concatenated(runs)),
    decreases rows_left(runs),
{
    broadcast use vstd::seq_lib::group_to_multiset_ensures;

    if exists|k: int| leads(runs, k) {
        let k = choose|k: int| leads(runs, k);
        let rest = runs.update(k, runs[k].drop_first());
        lemma_rows_left_update(runs, k, runs[k].drop_first());
        law_merging_keeps_rows(rest);
        lemma_concatenated_update(runs, k);
        let tail = merged(rest);
        assert(merged(runs) =~= seq![runs[k][0]] + tail);
        lemma_multiset_commutative(seq![runs[k][0]], tail);
        assert(seq![runs[k][0]] =~= Seq::<RowView>::empty().push(runs[k][0]));
        assert(merged(runs).to_multiset() =~= concatenated(runs).to_multiset());
    } else {
        assert forall|j: int| 0 <= j < runs.len() implies (#[trigger] runs[j]).len() == 0 by {
            if runs[j].len() > 0 {
                lemma_leader_exists(runs, runs.len() as int);
                assert(runs.take(runs.len() as int) =~= runs);
            }
        }
        lemma_concatenated_none(runs);
    }
}

/// Merging sorted runs sorts all of their rows.
pub proof fn law_merging_sorts(runs: Seq<Seq<RowView>>)
    requires
        forall|j: int| 0 <= j < runs.len() ==> in_order(#[trigger] runs[j]),
    ensures
        sorts(merged(runs), concatenated(runs)),
    decreases rows_left(runs),
{
    law_merging_keeps_rows(runs);
    let all = merged(runs);
    if exists|k: int| leads(runs, k) {
        let k = choose|k: int| leads(runs, k);
        let rest = runs.update(k, runs[k].drop_first());
        lemma_rows_left_update(runs, k, runs[k].drop_first());
        assert forall|j: int| 0 <= j < rest.len() implies in_order(#[trigger] rest[j]) by {
            assert(in_order(runs[j]));
            if j == k {
                assert forall|x: int, y: int| 0 <= x <= y < rest[j].len() implies row_order(
                    #[trigger] rest[j][x],
                    #[trigger] rest[j][y],
                ) <= 0 by {
                    assert(row_order(runs[j][x + 1], runs[j][y + 1]) <= 0);
                }
            }
        }
        law_merging_sorts(rest);
        let tail = merged(rest);
        assert(all =~= seq![runs[k][0]] + tail);
        assert forall|x: int, y: int| 0 <= x <= y < all.len() implies row_order(
            #[trigger] all[x],
            #[trigger] all[y],
        ) <= 0 by {
            if x > 0 {
                assert(row_order(tail[x - 1], tail[y - 1]) <= 0);
            } else if y == 0 {
                law_byte_order_total(all[0].key, all[0].key);
            } else {
                assert(tail[y - 1] == all[y]);
                assert(tail.contains(all[y]));
                law_merging_keeps_rows(rest);
                lemma_same_rows_contains(tail, concatenated(rest), all[y]);
                lemma_leader_is_least(runs, k, all[y]);
            }
        }
    }
}

/// No row of the other rows comes before that of the run that leads.
proof fn lemma_leader_is_least(runs: Seq<Seq<RowView>>, k: int, x: RowView)
    requires
        leads(runs, k),
        forall|j: int| 0 <= j < runs.len() ==> in_order(#[trigger] runs[j]),
        concatenated(runs.update(k, runs[k].drop_first())).contains(x),
    ensures
        row_order(runs[k][0], x) <= 0,
{
    let rest = runs.update(k, runs[k].drop_first());
    lemma_concatenated_contains(rest, x);
    let (i, j) = choose|i: int, j: int|
        0 <= i < rest.len() && 0 <= j < rest[i].len() && #[trigger] rest[i][j] == x;
    let at = if i == k {
        j + 1
    } else {
        j
    };
    assert(runs[i][at] == x);
    assert(in_order(runs[i]));
    assert(row_order(runs[i][0], runs[i][at]) <= 0);
    law_byte_order_transitive(runs[k][0].key, runs[i][0].key, x.key);
}

proof fn lemma_concatenated_contains(runs: Seq<Seq<RowView>>, x: RowView)
    requires
        concatenated(runs).contains(x),
    ensures
        exists|i: int, j: int|
            0 <= i < runs.len() && 0 <= j < runs[i].len() && #[trigger] runs[i][j] == x,
    decreases runs.len(),
{
    let all = concatenated(runs);
    let n = choose|n: int| 0 <= n < all.len() && all[n] == x;
    if runs.len() > 0 {
        let head = runs.drop_last();
        if n < concatenated(head).len() {
            assert(concatenated(head)[n] == x);
            lemma_concatenated_contains(head, x);
            let (i, j) = choose|i: int, j: int|
                0 <= i < head.len() && 0 <= j < head[i].len() && #[trigger] head[i][j] == x;
            assert(runs[i][j] == x);
        } else {
            let i = runs.len() - 1;
            let j = n - concatenated(head).len();
            assert(runs[i][j] == x);
        }
    }
}

/// Merges runs, row by row.
#[derive(Debug)]
pub struct KWayMerge {
    pub cursors: Vec<RunCursor>,
}

/// The rows that each cursor has in hand.
pub open spec fn in_hand(cursors: Seq<RunCursor>) -> Seq<Seq<RowView>> {
    cursors.map_values(|c: RunCursor| c@)
}

impl KWayMerge {
    pub open spec fn wf(&self) -> bool {
        forall|i: int| 0 <= i < self.cursors@.len() ==> (#[trigger] self.cursors@[i]).wf()
    }

    /// The rows in hand, merged.
    pub open spec fn rows(&self) -> Seq<RowView> {
        merged(in_hand(self.cursors@))
    }

    pub fn new(cursors: Vec<RunCursor>) -> (r: Self)
        requires
            forall|i: int| 0 <= i < cursors@.len() ==> (#[trigger] cursors@[i]).wf(),
        ensures
            r.wf(),
            r.cursors@ == cursors@,
    {
        KWayMerge { cursors }
    }

    /// The run that has the next row.
    fn leader(&self) -> (r: Option<usize>)
        requires
            self.wf(),
        ensures
            match r {
                Some(k) => leads(in_hand(self.cursors@), k as int),
                None => forall|j: int|
                    0 <= j < self.cursors@.len() ==> (#[trigger] in_hand(self.cursors@)[j]).len() == 0,
            },
    {
        let ghost runs = in_hand(self.cursors@);
        let mut best: Option<usize> = None;
        for i in 0..self.cursors.len()
            invariant
                self.wf(),
                runs == in_hand(self.cursors@),
                match best {
                    Some(k) => k < i && leads(runs.take(i as int), k as int),
                    None => forall|j: int| 0 <= j < i ==> (#[trigger] runs[j]).len() == 0,
                },
        {
            let ghost before = runs.take(i as int);
            let ghost now = runs.take(i + 1);
            assert(runs[i as int] == self.cursors@[i as int]@);
            match (self.cursors[i].peek_key(), best) {
                (None, Some(k)) => {
                    assert forall|j: int| 0 <= j < now.len() && (#[trigger] now[j]).len() > 0 implies
                        row_order(now[k as int][0], now[j][0]) <= 0 && (j < k ==> row_order(
                        now[k as int][0],
                        now[j][0],
                    ) < 0) by {
                        assert(now[j] == before[j]);
                    }
                    assert(now[k as int] == before[k as int]);
                },
                (None, None) => {},
                (Some(key), None) => {
                    proof {
                        law_byte_order_total(key@, key@);
                        assert forall|j: int| 0 <= j < now.len() && (#[trigger] now[j]).len() > 0 implies j
                            == i by {
                            assert(now[j] == runs[j]);
                        }
                    }
                    best = Some(i);
                },
                (Some(key), Some(k)) => {
                    assert(now[k as int] == before[k as int]);
                    match self.cursors[k].peek_key() {
                        Some(least) => {
                            let smaller = compare_bytes(key.as_slice(), least.as_slice()) < 0;
                            proof {
                                law_byte_order_total(key@, least@);
                                law_byte_order_total(key@, key@);
                                assert forall|j: int| 0 <= j < i && (#[trigger] now[j]).len() > 0 implies {
                                    &&& row_order(now[k as int][0], now[j][0]) <= 0
                                    &&& j < k ==> row_order(now[k as int][0], now[j][0]) < 0
                                    &&& smaller ==> row_order(now[i as int][0], now[j][0]) < 0
                                } by {
                                    assert(now[j] == before[j]);
                                    if smaller {
                                        law_byte_order_transitive(key@, least@, now[j][0].key);
                                    }
                                }
                            }
                            if smaller {
                                best = Some(i);
                            }
                        },
                        None => {},
                    }
                },
            }
        }
        assert(runs.take(runs.len() as int) =~= runs);
        best
    }

    /// Takes the next row.
    pub fn next(&mut self) -> (r: Option<Row>)
        requires
            old(self).wf(),
        ensures
            final(self).wf(),
            match r {
                Some(row) => {
                    &&& old(self).rows().len() > 0
                    &&& row@ == old(self).rows()[0]
                    &&& final(self).rows() == old(self).rows().drop_first()
                },
                None => old(self).rows().len() == 0 && *final(self) == *old(self),
            },
    {
        let ghost runs = in_hand(self.cursors@);
        match self.leader() {
            Some(k) => {
                assert(self.cursors@[k as int].wf());
                let row = self.cursors[k].take_row();
                proof {
                    assert(in_hand(self.cursors@) =~= runs.update(k as int, runs[k as int].drop_first()));
                    lemma_merged_first(runs, k as int);
                }
                Some(row)
            },
            None => {
                proof {
                    lemma_merged_none(runs);
                }
                None
            },
        }
    }
}

/// A row stream from its current row on, and what is known of it.
pub struct SourceView {
    pub rest: Seq<RowView>,
    pub codec: CodecView,
    pub label: Seq<char>,
    pub validate_order: bool,
    pub consumed: nat,
    pub total_hint: Option<nat>,
}

/// The error for a row that comes after one with a greater key.
pub open spec fn not_sorted(s: SourceView, row: RowView, after: RowView) -> ErrorView {
    ErrorView::NotSorted {
        label: s.label,
        row: key_text(s.codec, row.cells),
        after: key_text(s.codec, after.cells),
    }
}

/// Row `i` breaks the order that is verified.
pub open spec fn breaks_order(s: SourceView, i: int) -> bool {
    s.validate_order && 0 < i < s.rest.len() && row_order(s.rest[i], s.rest[i - 1]) < 0
}

/// Why a stream cannot move on to its next row, if it cannot.
pub open spec fn advance_error(s: SourceView) -> Option<ErrorView> {
    if breaks_order(s, 1) {
        Some(not_sorted(s, s.rest[1], s.rest[0]))
    } else if s.rest.len() > 1 && s.rest[0].key == s.rest[1].key {
        Some(
            ErrorView::NotUnique {
                columns: s.codec.cols,
                label: s.label,
                example: key_text(s.codec, s.rest[0].cells),
            },
        )
    } else {
        None
    }
}

/// A stream `n` rows on. Every row that becomes the current one counts as
/// consumed.
pub open spec fn moved_on(s: SourceView, n: nat) -> SourceView {
    SourceView {
        rest: s.rest.skip(n as int),
        consumed: s.consumed + (if n < s.rest.len() {
            n
        } else {
            (s.rest.len() - 1) as nat
        }),
        ..s
    }
}

/// A stream past its current row.
pub open spec fn advanced(s: SourceView) -> SourceView {
    if s.rest.len() == 0 {
        s
    } else {
        moved_on(s, 1)
    }
}

/// How many rows from the start have the given key.
pub open spec fn leading(rows: Seq<RowView>, key: Seq<u8>) -> nat
    decreases rows.len(),
{
    if rows.len() == 0 || rows[0].key != key {
        0
    } else {
        1 + leading(rows.drop_first(), key)
    }
}

/// How many rows share the current key.
pub open spec fn group_size(s: SourceView) -> nat {
    if s.rest.len() == 0 {
        0
    } else {
        leading(s.rest, s.rest[0].key)
    }
}

/// Why a stream cannot move past its current group, if it cannot.
pub open spec fn group_error(s: SourceView) -> Option<ErrorView> {
    let n = group_size(s) as int;
    if breaks_order(s, n) {
        Some(not_sorted(s, s.rest[n], s.rest[n - 1]))
    } else {
        None
    }
}

/// A stream past its current group.
pub open spec fn past_group(s: SourceView) -> SourceView {
    if s.rest.len() == 0 {
        s
    } else {
        moved_on(s, group_size(s))
    }
}

/// What the leading rows are.
pub proof fn lemma_leading(rows: Seq<RowView>, key: Seq<u8>, n: nat)
    requires
        n <= rows.len(),
        forall|i: int| 0 <= i < n ==> (#[trigger] rows[i]).key == key,
        n < rows.len() ==> rows[n as int].key != key,
    ensures
        leading(rows, key) == n,
    decreases n,
{
    if n > 0 {
        let rest = rows.drop_first();
        assert(rows[0].key == key);
        assert forall|i: int| 0 <= i < n - 1 implies (#[trigger] rest[i]).key == key by {
            assert(rest[i] == rows[i + 1]);
        }
        lemma_leading(rest, key, (n - 1) as nat);
    }
}

/// Every row has the codec's columns.
pub open spec fn rows_fit(codec: CodecView, rows: Seq<RowView>) -> bool {
    forall|i: int| 0 <= i < rows.len() ==> codec.fits((#[trigger] rows[i]).cells.len() as int)
}

/// Sorted row stream over one side of the diff.
#[derive(Debug)]
pub struct SortedSource {
    pub merge: KWayMerge,
    pub codec: KeyCodec,
    pub current: Option<Row>,
    pub label: String,
    /// Verify ascending key order while streaming.
    pub validate_order: bool,
    pub consumed: usize,
    pub total_hint: Option<usize>,
}

impl View for SortedSource {
    type V = SourceView;

    open spec fn view(&self) -> SourceView {
        SourceView {
            rest: match self.current {
                Some(row) => seq![row@] + self.merge.rows(),
                None => self.merge.rows(),
            },
            codec: self.codec@,
            label: self.label@,
            validate_order: self.validate_order,
            consumed: self.consumed as nat,
            total_hint: match self.total_hint {
                Some(n) => Some(n as nat),
                None => None,
            },
        }
    }
}

/// Rows taken from runs fit where those of the runs do.
proof fn lemma_merged_fits(codec: CodecView, runs: Seq<Seq<RowView>>)
    requires
        forall|i: int| 0 <= i < runs.len() ==> rows_fit(codec, #[trigger] runs[i]),
    ensures
        rows_fit(codec, merged(runs)),
{
    law_merging_keeps_rows(runs);
    let all = merged(runs);
    assert forall|n: int| 0 <= n < all.len() implies codec.fits((#[trigger] all[n]).cells.len() as int) by {
        lemma_same_rows_contains(all, concatenated(runs), all[n]);
        lemma_concatenated_contains(runs, all[n]);
        let (i, j) = choose|i: int, j: int|
            0 <= i < runs.len() && 0 <= j < runs[i].len() && #[trigger] runs[i][j] == all[n];
        assert(rows_fit(codec, runs[i]));
    }
}

impl SortedSource {
    /// Every row in hand has the codec's columns, and where any row is in
    /// hand one of them is the current one.
    pub open spec fn wf(&self) -> bool {
        &&& self.merge.wf()
        &&& self.codec@.wf()
        &&& rows_fit(self.codec@, self@.rest)
        &&& self.current is None ==> self.merge.rows().len() == 0
        &&& self.current is Some ==> self.consumed > 0
    }

    fn pull(&mut self) -> (r: Result<Option<Row>, Error>)
        requires
            old(self).merge.wf(),
            rows_fit(old(self).codec@, old(self)@.rest),
            old(self).consumed < usize::MAX || old(self).merge.rows().len() == 0,
        ensures
            final(self).merge.wf(),
            final(self).codec == old(self).codec,
            final(self).label == old(self).label,
            final(self).validate_order == old(self).validate_order,
            final(self).total_hint == old(self).total_hint,
            final(self).current == old(self).current,
            match r {
                Ok(None) => old(self).merge.rows().len() == 0 && *final(self) == *old(self),
                Ok(Some(row)) => {
                    &&& old(self).merge.rows().len() > 0
                    &&& row@ == old(self).merge.rows()[0]
                    &&& final(self).merge.rows() == old(self).merge.rows().drop_first()
                    &&& final(self).consumed == old(self).consumed + 1
                    &&& old(self).current is Some ==> !breaks_order(old(self)@, 1)
                },
                Err(e) => old(self).current is Some && breaks_order(old(self)@, 1) && e@ == not_sorted(
                    old(self)@,
                    old(self)@.rest[1],
                    old(self)@.rest[0],
                ),
            },
    {
        let ghost s = self@;
        match self.merge.next() {
            None => Ok(None),
            Some(row) => {
                self.consumed = self.consumed + 1;
                if self.validate_order {
                    if let Some(cur) = &self.current {
                        assert(s.rest[0] == cur@);
                        assert(s.rest[1] == row@);
                        if compare_bytes(row.key.as_slice(), cur.key.as_slice()) < 0 {
                            assert(self.codec@.fits(s.rest[0].cells.len() as int));
                            assert(self.codec@.fits(s.rest[1].cells.len() as int));
                            return Err(
                                Error::NotSorted {
                                    label: self.label.clone(),
                                    row: self.codec.render_key(&row),
                                    after: self.codec.render_key(cur),
                                },
                            );
                        }
                    }
                }
                Ok(Some(row))
            },
        }
    }

    /// Starts at the first row in hand.
    pub fn start(
        merge: KWayMerge,
        codec: KeyCodec,
        label: String,
        validate_order: bool,
        total_hint: Option<usize>,
    ) -> (r: Self)
        requires
            merge.wf(),
            codec@.wf(),
            rows_fit(codec@, merge.rows()),
        ensures
            r.wf(),
            r@.rest == merge.rows(),
            r@.codec == codec@,
            r@.label == label@,
            r@.validate_order == validate_order,
            r@.consumed == (if merge.rows().len() > 0 {
                1nat
            } else {
                0nat
            }),
            r.total_hint == total_hint,
    {
        let mut source = SortedSource {
            merge,
            codec,
            current: None,
            label,
            validate_order,
            consumed: 0,
            total_hint,
        };
        let ghost all = merge.rows();
        match source.merge.next() {
            Some(row) => {
                source.consumed = 1;
                source.current = Some(row);
                assert(source@.rest =~= all);
            },
            None => {},
        }
        source
    }

    /// Streams over the rows of sorted runs.
    pub fn from_runs(runs: Vec<RunSource>, codec: KeyCodec, label: String, total_rows: usize) -> (r: Self)
        requires
            codec@.wf(),
            forall|i: int|
                0 <= i < runs@.len() ==> rows_fit(codec@, run_rows(#[trigger] runs@[i])),
        ensures
            r.wf(),
            r@.rest == merged(runs@.map_values(|run: RunSource| run_rows(run))),
            r@.codec == codec@,
            r@.label == label@,
            !r@.validate_order,
            r@.consumed == (if r@.rest.len() > 0 {
                1nat
            } else {
                0nat
            }),
            r.total_hint == Some(total_rows),
    {
        let ghost all = runs@;
        let ghost contents = all.map_values(|run: RunSource| run_rows(run));
        let mut left = reversed(runs);
        let mut cursors: Vec<RunCursor> = Vec::new();
        let n = left.len();
        for i in 0..n
            invariant
                n == all.len(),
                left@ == all.skip(i as int).reverse(),
                cursors.len() == i,
                forall|j: int|
                    0 <= j < i ==> (#[trigger] cursors@[j]).wf() && cursors@[j]@ == run_rows(all[j]),
        {
            let ghost here = left@;
            match left.pop() {
                Some(RunSource::Memory(chunks)) => {
                    assert(here.last() == all[i as int]);
                    cursors.push(RunCursor::new(chunks, false));
                },
                Some(RunSource::File { name: _, chunks }) => {
                    assert(here.last() == all[i as int]);
                    cursors.push(RunCursor::new(chunks, false));
                },
                None => {},
            }
            assert(left@ =~= all.skip(i + 1).reverse());
        }
        proof {
            assert(in_hand(cursors@) =~= contents);
            assert forall|i: int| 0 <= i < contents.len() implies rows_fit(codec@, #[trigger] contents[i]) by {
                assert(rows_fit(codec@, run_rows(all[i])));
            }
            lemma_merged_fits(codec@, contents);
        }
        Self::start(KWayMerge::new(cursors), codec, label, false, Some(total_rows))
    }

    /// Streams directly from a reader's rows without sorting; key order is
    /// verified on the fly and violations are an error.
    pub fn from_stream(rows: Vec<Row>, open: bool, codec: KeyCodec, label: String) -> (r: Self)
        requires
            codec@.wf(),
            rows_fit(codec@, row_views(rows@)),
        ensures
            r.wf(),
            r@.rest == row_views(rows@),
            r@.codec == codec@,
            r@.label == label@,
            r@.validate_order,
            r@.consumed == (if rows@.len() > 0 {
                1nat
            } else {
                0nat
            }),
            r.total_hint is None,
    {
        let ghost all = row_views(rows@);
        let mut chunks: Vec<Vec<Row>> = Vec::new();
        chunks.push(rows);
        proof {
            assert(chunks@.drop_last() =~= seq![]);
            assert(rows_of(chunks@.drop_last()) =~= seq![]);
            assert(rows_of(chunks@) =~= all);
            lemma_merged_single(all);
        }
        let mut cursors: Vec<RunCursor> = Vec::new();
        cursors.push(RunCursor::new(chunks, open));
        assert(in_hand(cursors@) =~= seq![all]);
        Self::start(KWayMerge::new(cursors), codec, label, true, None)
    }

    /// The current row.
    pub fn peek(&self) -> (r: Option<&Row>)
        requires
            self.wf(),
        ensures
            match r {
                Some(row) => self@.rest.len() > 0 && row@ == self@.rest[0],
                None => self@.rest.len() == 0,
            },
    {
        match &self.current {
            Some(row) => Some(row),
            None => None,
        }
    }

    /// Total rows on this side: exact when pre-counted by the sort phase,
    /// otherwise rows consumed so far (a lower bound if the scan stopped early).
    pub fn total_rows(&self) -> (r: usize)
        ensures
            r as nat == row_total(self@),
    {
        match self.total_hint {
            Some(n) => n,
            None => self.consumed,
        }
    }

    /// Advances past the current row.
    pub fn advance(&mut self) -> (r: Result<(), Error>)
        requires
            old(self).wf(),
            old(self).consumed < usize::MAX || old(self)@.rest.len() <= 1,
        ensures
            match r {
                Ok(()) => {
                    &&& advance_error(old(self)@) is None
                    &&& final(self).wf()
                    &&& final(self)@ == advanced(old(self)@)
                },
                Err(e) => advance_error(old(self)@) == Some(e@),
            },
    {
        let ghost s = self@;
        let next = match self.pull() {
            Ok(next) => next,
            Err(e) => {
                return Err(e);
            },
        };
        if let Some(cur) = &self.current {
            if let Some(nxt) = &next {
                assert(s.rest[0] == cur@);
                assert(s.rest[1] == nxt@);
                if same_key(&cur.key, &nxt.key) {
                    assert(self.codec@.fits(s.rest[0].cells.len() as int));
                    return Err(
                        Error::NotUnique {
                            columns: copy_all(&self.codec.key_cols),
                            label: self.label.clone(),
                            example: self.codec.render_key(cur),
                        },
                    );
                }
            }
        }
        self.current = next;
        proof {
            assert(self@.rest =~= advanced(s).rest);
            assert forall|i: int| 0 <= i < self@.rest.len() implies self.codec@.fits(
                (#[trigger] self@.rest[i]).cells.len() as int,
            ) by {
                if s.rest.len() > 0 {
                    assert(self@.rest[i] == s.rest[i + 1]);
                }
            }
        }
        Ok(())
    }

    /// Advances past every row sharing the current key and returns the group
    /// size. Used by keyless mode, where duplicate keys are expected data
    /// rather than an error.
    pub fn advance_group(&mut self) -> (r: Result<usize, Error>)
        requires
            old(self).wf(),
            old(self).consumed + old(self)@.rest.len() <= usize::MAX + 1,
        ensures
            match r {
                Ok(n) => {
                    &&& group_error(old(self)@) is None
                    &&& n as nat == group_size(old(self)@)
                    &&& final(self).wf()
                    &&& final(self)@ == past_group(old(self)@)
                },
                Err(e) => group_error(old(self)@) == Some(e@),
            },
    {
        let ghost s = self@;
        let key = match &self.current {
            Some(row) => copy_bytes(&row.key),
            None => {
                return Ok(0);
            },
        };
        let mut n: usize = 0;
        let mut inside = true;
        assert(s.rest.skip(0) =~= s.rest);
        while inside
            invariant
                self.wf(),
                s == old(self)@,
                s.rest.len() > 0,
                s.consumed > 0,
                key@ == s.rest[0].key,
                s.consumed + s.rest.len() <= usize::MAX + 1,
                rows_fit(s.codec, s.rest),
                n <= s.rest.len(),
                self@ == moved_on(s, n as nat),
                forall|i: int| 0 <= i < n ==> (#[trigger] s.rest[i]).key == key@,
                inside ==> n < s.rest.len() && s.rest[n as int].key == key@,
                !inside ==> n > 0 && !breaks_order(s, n as int) && (n < s.rest.len()
                    ==> s.rest[n as int].key != key@),
            decreases s.rest.len() - n + (if inside {
                1int
            } else {
                0int
            }),
        {
            let ghost here = self@;
            assert(here.rest[0] == s.rest[n as int]);
            assert(here.rest.len() == s.rest.len() - n);
            let ghost m = self.merge.rows();
            assert(self.current is Some);
            assert(here.rest.skip(1) =~= m);
            let next = match self.pull() {
                Ok(next) => next,
                Err(e) => {
                    proof {
                        assert(here.rest[1] == s.rest[n + 1]);
                        law_byte_order_total(s.rest[n + 1].key, s.rest[n as int].key);
                        lemma_leading(s.rest, key@, (n + 1) as nat);
                    }
                    return Err(e);
                },
            };
            n = n + 1;
            inside = match &next {
                Some(row) => same_key(&row.key, &key),
                None => false,
            };
            self.current = next;
            proof {
                assert(self@.rest =~= m);
                assert(self@.rest =~= s.rest.skip(n as int));
                if n < s.rest.len() {
                    assert(here.rest[1] == s.rest[n as int]);
                    if inside {
                        law_byte_order_total(key@, key@);
                    }
                }
                assert forall|i: int| 0 <= i < self@.rest.len() implies self.codec@.fits(
                    (#[trigger] self@.rest[i]).cells.len() as int,
                ) by {
                    assert(self@.rest[i] == s.rest[i + n]);
                }
            }
        }
        proof {
            lemma_leading(s.rest, key@, n as nat);
        }
        Ok(n)
    }

    /// A run whose rows in hand may end before the current group does.
    pub fn starved(&self) -> (r: Option<usize>)
        requires
            self.wf(),
        ensures
            match r {
                Some(k) => k < self.merge.cursors@.len() && hungry(*self, k as int),
                None => forall|k: int| 0 <= k < self.merge.cursors@.len() ==> !#[trigger] hungry(*self, k),
            },
    {
        let key = match &self.current {
            Some(row) => Some(&row.key),
            None => None,
        };
        for k in 0..self.merge.cursors.len()
            invariant
                self.wf(),
                match key {
                    Some(key) => self.current matches Some(row) && row.key@ == key@,
                    None => self.current is None,
                },
                forall|j: int| 0 <= j < k ==> !#[trigger] hungry(*self, j),
        {
            assert(self.merge.cursors@[k as int].wf());
            if self.merge.cursors[k].starved(key) {
                return Some(k);
            }
        }
        None
    }

    /// Hands run `k` its next chunk, or closes it.
    pub fn feed(&mut self, k: usize, chunk: Option<Vec<Row>>)
        requires
            old(self).wf(),
            old(self).current is Some || chunk is None,
            k < old(self).merge.cursors@.len(),
            chunk matches Some(rows) ==> rows_fit(old(self).codec@, row_views(rows@)),
        ensures
            final(self).wf(),
            final(self).current == old(self).current,
            final(self).consumed == old(self).consumed,
            final(self).total_hint == old(self).total_hint,
            final(self)@.label == old(self)@.label,
            final(self)@.validate_order == old(self)@.validate_order,
            final(self)@.codec == old(self)@.codec,
            final(self).merge.cursors@.len() == old(self).merge.cursors@.len(),
            match chunk {
                Some(rows) => in_hand(final(self).merge.cursors@) == in_hand(
                    old(self).merge.cursors@,
                ).update(k as int, in_hand(old(self).merge.cursors@)[k as int] + row_views(rows@)),
                None => final(self)@ == old(self)@ && !final(self).merge.cursors@[k as int].open,
            },
    {
        let ghost runs = in_hand(self.merge.cursors@);
        let ghost s = self@;
        let ghost codec = self.codec@;
        let ghost fed = chunk;
        assert(self.merge.cursors@[k as int].wf());
        self.merge.cursors[k].feed(chunk);
        proof {
            let now = in_hand(self.merge.cursors@);
            match fed {
                Some(rows) => {
                    assert(now =~= runs.update(k as int, runs[k as int] + row_views(rows@)));
                    assert(s.rest.drop_first() =~= merged(runs));
                    assert forall|i: int| 0 <= i < runs.len() implies rows_fit(codec, #[trigger] runs[i]) by {
                        lemma_in_hand_fits(codec, runs, s.rest, i);
                    }
                    assert forall|i: int| 0 <= i < now.len() implies rows_fit(codec, #[trigger] now[i]) by {
                        assert(rows_fit(codec, runs[i]));
                    }
                    lemma_merged_fits(codec, now);
                    assert(self@.rest[0] == s.rest[0]);
                    assert forall|i: int| 0 <= i < self@.rest.len() implies codec.fits(
                        (#[trigger] self@.rest[i]).cells.len() as int,
                    ) by {
                        if i > 0 {
                            assert(self@.rest[i] == merged(now)[i - 1]);
                        }
                    }
                },
                None => {
                    assert(now =~= runs);
                },
            }
        }
    }
}

/// There is a current row where any row is left.
pub proof fn lemma_current(s: SortedSource)
    requires
        s.wf(),
    ensures
        s.current is Some <==> s@.rest.len() > 0,
{
    match s.current {
        Some(row) => {
            assert(s@.rest == seq![row@] + s.merge.rows());
        },
        None => {},
    }
}

/// Run `k` may run out of rows before the current group ends.
pub open spec fn hungry(s: SortedSource, k: int) -> bool {
    let c = s.merge.cursors@[k];
    c.open && (c@.len() == 0 || (s.current matches Some(row) && c@.last().key == row.key@))
}

/// The number of rows of a stream: as counted beforehand, or as consumed.
pub open spec fn row_total(s: SourceView) -> nat {
    match s.total_hint {
        Some(n) => n,
        None => s.consumed,
    }
}

/// A single run merges to itself.
pub proof fn lemma_merged_single(run: Seq<RowView>)
    ensures
        merged(seq![run]) == run,
    decreases run.len(),
{
    let runs = seq![run];
    if run.len() > 0 {
        law_byte_order_total(run[0].key, run[0].key);
        assert(leads(runs, 0));
        lemma_merged_first(runs, 0);
        assert(runs.update(0, run.drop_first()) =~= seq![run.drop_first()]);
        lemma_merged_single(run.drop_first());
        assert(merged(runs) =~= seq![run[0]] + run.drop_first());
        assert(merged(runs) =~= run);
    } else {
        assert forall|j: int| 0 <= j < runs.len() implies (#[trigger] runs[j]).len() == 0 by {}
        lemma_merged_none(runs);
        assert(run =~= Seq::<RowView>::empty());
    }
}

/// Rows in hand fit where the merged rows do.
proof fn lemma_in_hand_fits(codec: CodecView, runs: Seq<Seq<RowView>>, rest: Seq<RowView>, i: int)
    requires
        0 <= i < runs.len(),
        rest.len() > 0,
        rest.drop_first() == merged(runs),
        rows_fit(codec, rest),
    ensures
        rows_fit(codec, runs[i]),
{
    law_merging_keeps_rows(runs);
    assert forall|j: int| 0 <= j < runs[i].len() implies codec.fits(
        (#[trigger] runs[i][j]).cells.len() as int,
    ) by {
        let x = runs[i][j];
        lemma_concatenated_holds(runs, i, j);
        lemma_same_rows_contains(concatenated(runs), merged(runs), x);
        let n = choose|n: int| 0 <= n < merged(runs).len() && merged(runs)[n] == x;
        assert(rest[n + 1] == x);
    }
}

proof fn lemma_concatenated_holds(runs: Seq<Seq<RowView>>, i: int, j: int)
    requires
        0 <= i < runs.len(),
        0 <= j < runs[i].len(),
    ensures
        concatenated(runs).contains(runs[i][j]),
    decreases runs.len(),
{
    let head = runs.drop_last();
    if i < head.len() {
        lemma_concatenated_holds(head, i, j);
        let n = choose|n: int| 0 <= n < concatenated(head).len() && concatenated(head)[n] == runs[i][j];
        assert(concatenated(runs)[n] == runs[i][j]);
    } else {
        assert(concatenated(runs)[concatenated(head).len() + j] == runs[i][j]);
    }
}

/// Rows in the order in which they are scanned: as they come, or sorted.
pub open spec fn arranged(assume_sorted: bool, scanned: Seq<RowView>, rows: Seq<RowView>) -> bool {
    if assume_sorted {
        scanned == rows
    } else {
        sorts(scanned, rows)
    }
}

/// A stream at its first row.
pub open spec fn begin(
    codec: CodecView,
    label: Seq<char>,
    rows: Seq<RowView>,
    assume_sorted: bool,
) -> SourceView {
    SourceView {
        rest: rows,
        codec,
        label,
        validate_order: assume_sorted,
        consumed: if rows.len() > 0 {
            1
        } else {
            0
        },
        total_hint: if assume_sorted {
            None
        } else {
            Some(rows.len())
        },
    }
}

/// Every row has that many cells.
pub open spec fn rows_of_width(rows: Seq<RowView>, width: nat) -> bool {
    forall|i: int| 0 <= i < rows.len() ==> (#[trigger] rows[i]).cells.len() == width
}

/// The rows of a stream have a cell for each column.
proof fn lemma_stream_width(codec: CodecView, batches: Seq<Batch>, width: nat)
    requires
        forall|i: int| 0 <= i < batches.len() ==> (#[trigger] batches[i]).columns@.len() == width,
    ensures
        rows_of_width(stream_rows(codec, batches), width),
    decreases batches.len(),
{
    if batches.len() > 0 {
        let head = batches.drop_last();
        assert forall|i: int| 0 <= i < head.len() implies (#[trigger] head[i]).columns@.len() == width by {
            assert(batches[i].columns@.len() == width);
        }
        lemma_stream_width(codec, head, width);
        assert(batches[batches.len() - 1].columns@.len() == width);
        let all = stream_rows(codec, batches);
        assert forall|i: int| 0 <= i < all.len() implies (#[trigger] all[i]).cells.len() == width by {
            let n = stream_rows(codec, head).len();
            if i < n {
                assert(all[i] == stream_rows(codec, head)[i]);
            } else {
                assert(all[i] == keyed_rows(codec, batches.last())[i - n]);
            }
        }
    }
}

/// The same rows have the same widths.
proof fn lemma_same_width(a: Seq<RowView>, b: Seq<RowView>, width: nat)
    requires
        same_rows(a, b),
        rows_of_width(b, width),
    ensures
        rows_of_width(a, width),
{
    assert forall|i: int| 0 <= i < a.len() implies (#[trigger] a[i]).cells.len() == width by {
        lemma_same_rows_contains(a, b, a[i]);
        let j = choose|j: int| 0 <= j < b.len() && b[j] == a[i];
        assert(b[j].cells.len() == width);
    }
}

proof fn lemma_run_rows_contained(runs: Seq<RunSource>, i: int, j: int)
    requires
        0 <= i < runs.len(),
        0 <= j < run_rows(runs[i]).len(),
    ensures
        all_run_rows(runs).contains(run_rows(runs[i])[j]),
    decreases runs.len(),
{
    let head = runs.drop_last();
    let all = all_run_rows(runs);
    let n = all_run_rows(head).len();
    if i < head.len() {
        lemma_run_rows_contained(head, i, j);
        let k = choose|k: int| 0 <= k < n && all_run_rows(head)[k] == run_rows(runs[i])[j];
        assert(all[k] == run_rows(runs[i])[j]);
    } else {
        assert(all[n + j] == run_rows(runs[i])[j]);
    }
}

proof fn lemma_concatenated_runs(runs: Seq<RunSource>)
    ensures
        concatenated(runs.map_values(|run: RunSource| run_rows(run))) == all_run_rows(runs),
    decreases runs.len(),
{
    let contents = runs.map_values(|run: RunSource| run_rows(run));
    if runs.len() > 0 {
        assert(contents.drop_last() =~= runs.drop_last().map_values(|run: RunSource| run_rows(run)));
        lemma_concatenated_runs(runs.drop_last());
    }
}

/// Sorted runs merge to all of their rows, sorted.
proof fn lemma_runs_sort(runs: Seq<RunSource>, rows: Seq<RowView>)
    requires
        sorted_runs(runs),
        same_rows(all_run_rows(runs), rows),
    ensures
        sorts(merged(runs.map_values(|run: RunSource| run_rows(run))), rows),
{
    let contents = runs.map_values(|run: RunSource| run_rows(run));
    assert forall|j: int| 0 <= j < contents.len() implies in_order(#[trigger] contents[j]) by {
        assert(in_order(run_rows(runs[j])));
    }
    law_merging_sorts(contents);
    lemma_concatenated_runs(runs);
}

/// The same rows are as many.
pub proof fn lemma_same_rows_len(a: Seq<RowView>, b: Seq<RowView>)
    requires
        same_rows(a, b),
    ensures
        a.len() == b.len(),
{
    vstd::seq_lib::to_multiset_len(a);
    vstd::seq_lib::to_multiset_len(b);
}

/// Opens one side of the diff: the stream itself where it is taken to be
/// sorted, and otherwise its rows sorted within the memory budget. The spill
/// directory names the runs that are beyond it.
pub fn open_side(
    stream: &BatchIter,
    codec: KeyCodec,
    label: String,
    assume_sorted: bool,
    budget_bytes: usize,
    spill: &mut SpillDir,
) -> (r: SortedSource)
    requires
        stream.wf(),
        codec@.fits(stream.schema@.len() as int),
        old(spill).counter + stream.batches@.len() < u128::MAX,
    ensures
        *final(spill) == (SpillDir {
            counter: (old(spill).counter + if assume_sorted {
                0
            } else {
                file_count(stream.batches@, budget_bytes as nat)
            }) as u128,
            ..*old(spill)
        }),
        r.wf(),
        arranged(assume_sorted, r@.rest, stream_rows(codec@, stream.batches@)),
        r@ == begin(codec@, label@, r@.rest, assume_sorted),
        r@.rest.len() == row_count(stream.batches@),
        rows_of_width(r@.rest, stream.schema@.len()),
        stream_follows_values(codec@, stream.batches@),
{
    let ghost all = stream_rows(codec@, stream.batches@);
    let ghost width = stream.schema@.len();
    let ghost view = codec@;
    proof {
        assert forall|i: int| 0 <= i < stream.batches@.len() implies (
        #[trigger] stream.batches@[i]).columns@.len() == width by {
            assert(stream.batches@[i].wf());
        }
        lemma_stream_width(codec@, stream.batches@, width);
        lemma_stream_len(codec@, stream.batches@);
    }
    if assume_sorted {
        let mut rows: Vec<Row> = Vec::new();
        assert(row_views(rows@) =~= stream_rows(codec@, stream.batches@.take(0)));
        for i in 0..stream.batches.len()
            invariant
                stream.wf(),
                codec@ == view,
                codec@.fits(stream.schema@.len() as int),
                row_views(rows@) == stream_rows(codec@, stream.batches@.take(i as int)),
                forall|j: int|
                    0 <= j < i ==> #[trigger] batch_follows_values(codec@, stream.batches@[j]),
        {
            assert(stream.batches@[i as int].wf());
            let ghost before = rows@;
            let mut more = codec.rows(&stream.batches[i]);
            let ghost new = more@;
            rows.append(&mut more);
            proof {
                assert(row_views(rows@) =~= row_views(before) + row_views(new));
                assert(stream.batches@.take(i + 1).drop_last() =~= stream.batches@.take(i as int));
            }
        }
        proof {
            assert(stream.batches@.take(stream.batches@.len() as int) =~= stream.batches@);
            assert(rows_fit(codec@, row_views(rows@))) by {
                assert forall|i: int| 0 <= i < all.len() implies codec@.fits(
                    (#[trigger] all[i]).cells.len() as int,
                ) by {
                    assert(all[i].cells.len() == width);
                }
            }
        }
        SortedSource::from_stream(rows, false, codec, label)
    } else {
        let (runs, total) = sort_into_runs(stream, &codec, budget_bytes, spill);
        proof {
            lemma_runs_sort(runs@, all);
            lemma_same_rows_len(merged(runs@.map_values(|run: RunSource| run_rows(run))), all);
            lemma_same_width(all_run_rows(runs@), all, width);
            lemma_same_width(merged(runs@.map_values(|run: RunSource| run_rows(run))), all, width);
            assert forall|i: int| 0 <= i < runs@.len() implies rows_fit(
                codec@,
                run_rows(#[trigger] runs@[i]),
            ) by {
                let rows = run_rows(runs@[i]);
                assert forall|j: int| 0 <= j < rows.len() implies codec@.fits(
                    (#[trigger] rows[j]).cells.len() as int,
                ) by {
                    lemma_run_rows_contained(runs@, i, j);
                    let k = choose|k: int|
                        0 <= k < all_run_rows(runs@).len() && all_run_rows(runs@)[k] == rows[j];
                    assert(all_run_rows(runs@)[k].cells.len() == width);
                }
            }
        }
        SortedSource::from_runs(runs, codec, label, total)
    }
}

/// How many rows from the start have keys up to the given one.
pub open spec fn leading_up_to(rows: Seq<RowView>, key: Seq<u8>) -> nat
    decreases rows.len(),
{
    if rows.len() == 0 || byte_order(rows[0].key, key) > 0 {
        0
    } else {
        1 + leading_up_to(rows.drop_first(), key)
    }
}

/// Some rows of each run are in hand. Where not all of them are, the last one
/// in hand is beyond the given key.
pub open spec fn reaches_beyond(runs: Seq<Seq<RowView>>, all: Seq<Seq<RowView>>, key: Seq<u8>) -> bool {
    &&& runs.len() == all.len()
    &&& forall|k: int|
        0 <= k < runs.len() ==> (#[trigger] runs[k]).is_prefix_of(all[k]) && (runs[k] == all[k] || (
        runs[k].len() > 0 && byte_order(runs[k].last().key, key) > 0))
}

/// The run that leads among the rows in hand leads among all rows.
proof fn lemma_leader_in_hand(runs: Seq<Seq<RowView>>, all: Seq<Seq<RowView>>, key: Seq<u8>, k: int)
    requires
        reaches_beyond(runs, all, key),
    ensures
        leads(runs, k) <==> leads(all, k),
        leads(runs, k) ==> runs[k][0] == all[k][0],
{
    assert forall|j: int| 0 <= j < runs.len() implies ((#[trigger] runs[j]).len() > 0 <==> all[j].len() > 0)
        && (runs[j].len() > 0 ==> runs[j][0] == all[j][0]) by {
        assert(runs[j].is_prefix_of(all[j]));
    }
    if leads(runs, k) {
        assert forall|j: int| 0 <= j < all.len() && (#[trigger] all[j]).len() > 0 implies row_order(
            all[k][0],
            all[j][0],
        ) <= 0 && (j < k ==> row_order(all[k][0], all[j][0]) < 0) by {
            assert(runs[j].len() > 0);
        }
        assert(runs[k].len() > 0);
    }
    if leads(all, k) {
        assert forall|j: int| 0 <= j < runs.len() && (#[trigger] runs[j]).len() > 0 implies row_order(
            runs[k][0],
            runs[j][0],
        ) <= 0 && (j < k ==> row_order(runs[k][0], runs[j][0]) < 0) by {
            assert(all[j].len() > 0);
        }
        assert(runs[k].len() > 0 <==> all[k].len() > 0);
    }
}

/// Rows that are not in hand yet come later: where every run reaches beyond a
/// key, the rows in hand merge to the same stream as all rows, up to and with
/// the first row beyond that key.
pub proof fn law_unread_rows_come_later(runs: Seq<Seq<RowView>>, all: Seq<Seq<RowView>>, key: Seq<u8>)
    requires
        reaches_beyond(runs, all, key),
    ensures
        ({
            let n = leading_up_to(merged(runs), key) as int;
            if n < merged(runs).len() {
                merged(runs).len() <= merged(all).len() && merged(runs).take(n + 1) == merged(all).take(
                    n + 1,
                )
            } else {
                merged(runs) == merged(all)
            }
        }),
    decreases rows_left(runs),
{
    if exists|k: int| leads(runs, k) {
        let k = choose|k: int| leads(runs, k);
        lemma_leader_in_hand(runs, all, key, k);
        lemma_merged_first(runs, k);
        lemma_merged_first(all, k);
        let row = runs[k][0];
        let rest = runs.update(k, runs[k].drop_first());
        let more = all.update(k, all[k].drop_first());
        lemma_rows_left_update(runs, k, runs[k].drop_first());
        assert(runs[k].is_prefix_of(all[k]));
        if byte_order(row.key, key) > 0 {
            lemma_rows_left_grow(runs, all);
            lemma_merged_len(runs);
            lemma_merged_len(all);
            assert(merged(runs).take(1) =~= merged(all).take(1));
        } else {
            assert(reaches_beyond(rest, more, key)) by {
                assert forall|j: int| 0 <= j < rest.len() implies (#[trigger] rest[j]).is_prefix_of(more[j])
                    && (rest[j] == more[j] || (rest[j].len() > 0 && byte_order(rest[j].last().key, key)
                    > 0)) by {
                    assert(runs[j].is_prefix_of(all[j]));
                    if j == k {
                        assert(runs[k].drop_first().is_prefix_of(all[k].drop_first()));
                        if runs[k] != all[k] {
                            assert(runs[k].len() > 1);
                            assert(runs[k].drop_first().last() == runs[k].last());
                        }
                    }
                }
            }
            law_unread_rows_come_later(rest, more, key);
            let a = merged(runs);
            let b = merged(all);
            let n = leading_up_to(merged(rest), key) as int;
            assert(a.drop_first() =~= merged(rest));
            assert(leading_up_to(a, key) == n + 1);
            if n < merged(rest).len() {
                assert(a.take(n + 2) =~= seq![row] + merged(rest).take(n + 1));
                assert(b.take(n + 2) =~= seq![row] + merged(more).take(n + 1));
            }
        }
    } else {
        if exists|k: int| leads(all, k) {
            let k = choose|k: int| leads(all, k);
            lemma_leader_in_hand(runs, all, key, k);
        }
    }
}

proof fn lemma_rows_left_grow(runs: Seq<Seq<RowView>>, all: Seq<Seq<RowView>>)
    requires
        runs.len() == all.len(),
        forall|k: int| 0 <= k < runs.len() ==> (#[trigger] runs[k]).is_prefix_of(all[k]),
    ensures
        rows_left(runs) <= rows_left(all),
    decreases runs.len(),
{
    if runs.len() > 0 {
        let n = runs.len() - 1;
        assert(runs[n].is_prefix_of(all[n]));
        assert forall|k: int| 0 <= k < n implies (#[trigger] runs.drop_last()[k]).is_prefix_of(
            all.drop_last()[k],
        ) by {
            assert(runs[k].is_prefix_of(all[k]));
        }
        lemma_rows_left_grow(runs.drop_last(), all.drop_last());
    }
}

/// The merged stream has all the rows.
proof fn lemma_merged_len(runs: Seq<Seq<RowView>>)
    ensures
        merged(runs).len() == rows_left(runs),
{
    law_merging_keeps_rows(runs);
    lemma_same_rows_len(merged(runs), concatenated(runs));
    lemma_concatenated_len(runs);
}

proof fn lemma_concatenated_len(runs: Seq<Seq<RowView>>)
    ensures
        concatenated(runs).len() == rows_left(runs),
    decreases runs.len(),
{
    if runs.len() > 0 {
        lemma_concatenated_len(runs.drop_last());
    }
}

/// A row of a run is in the merged stream.
proof fn lemma_run_in_merged(runs: Seq<Seq<RowView>>, k: int, i: int)
    requires
        0 <= k < runs.len(),
        0 <= i < runs[k].len(),
    ensures
        merged(runs).contains(runs[k][i]),
{
    lemma_run_in_concatenated(runs, k, i);
    law_merging_keeps_rows(runs);
    lemma_same_rows_contains(concatenated(runs), merged(runs), runs[k][i]);
}

proof fn lemma_run_in_concatenated(runs: Seq<Seq<RowView>>, k: int, i: int)
    requires
        0 <= k < runs.len(),
        0 <= i < runs[k].len(),
    ensures
        concatenated(runs).contains(runs[k][i]),
    decreases runs.len(),
{
    let head = runs.drop_last();
    let n = concatenated(head).len();
    if k < head.len() {
        lemma_run_in_concatenated(head, k, i);
        let j = choose|j: int| 0 <= j < n && concatenated(head)[j] == runs[k][i];
        assert(concatenated(runs)[j] == runs[k][i]);
    } else {
        assert(concatenated(runs)[n + i] == runs[k][i]);
    }
}

/// The runs that a side reads from: those in hand start them, and those that
/// are closed are all of them.
pub open spec fn is_whole(s: SortedSource, all: Seq<Seq<RowView>>) -> bool {
    let runs = in_hand(s.merge.cursors@);
    &&& runs.len() == all.len()
    &&& forall|k: int|
        0 <= k < runs.len() ==> (#[trigger] runs[k]).is_prefix_of(all[k]) && (s.merge.cursors@[k].open
            || runs[k] == all[k])
}

/// Two streams agree on their first rows: the first is read to the end, or
/// both have that many.
pub open spec fn agree_on(a: Seq<RowView>, b: Seq<RowView>, n: int) -> bool {
    a == b || (n <= a.len() && n <= b.len() && a.take(n) == b.take(n))
}

/// A side that is fed where it is hungry reads as if all of its rows were in
/// hand: the two agree on the group of the current key, and on the row after
/// it.
pub proof fn law_fed_side_reads_as_whole(s: SortedSource, all: Seq<Seq<RowView>>)
    requires
        s.wf(),
        s.current is Some,
        in_order(s@.rest),
        is_whole(s, all),
        forall|k: int| 0 <= k < s.merge.cursors@.len() ==> !#[trigger] hungry(s, k),
    ensures
        agree_on(s@.rest, seq![s@.rest[0]] + merged(all), group_size(s@) as int + 1),
{
    let runs = in_hand(s.merge.cursors@);
    let row = s@.rest[0];
    let rest = s.merge.rows();
    assert(s@.rest.drop_first() =~= rest);
    assert(reaches_beyond(runs, all, row.key)) by {
        assert forall|k: int| 0 <= k < runs.len() implies (#[trigger] runs[k]).is_prefix_of(all[k]) && (
        runs[k] == all[k] || (runs[k].len() > 0 && byte_order(runs[k].last().key, row.key) > 0)) by {
            assert(!hungry(s, k));
            assert(runs[k] == s.merge.cursors@[k]@);
            if runs[k] != all[k] {
                let last = runs[k].last();
                lemma_run_in_merged(runs, k, runs[k].len() - 1);
                let j = choose|j: int| 0 <= j < merged(runs).len() && merged(runs)[j] == last;
                assert(s@.rest[j + 1] == last);
                assert(row_order(s@.rest[0], s@.rest[j + 1]) <= 0);
                law_byte_order_total(row.key, last.key);
            }
        }
    }
    law_unread_rows_come_later(runs, all, row.key);
    let n = leading_up_to(rest, row.key) as int;
    let whole = seq![row] + merged(all);
    lemma_group_within(s@.rest, n);
    if n < rest.len() {
        let g = group_size(s@) as int;
        assert(s@.rest.take(g + 1) =~= whole.take(g + 1)) by {
            assert forall|i: int| 0 <= i < g + 1 implies s@.rest[i] == whole[i] by {
                if i > 0 {
                    assert(rest[i - 1] == rest.take(n + 1)[i - 1]);
                    assert(merged(all)[i - 1] == merged(all).take(n + 1)[i - 1]);
                }
            }
        }
    } else {
        assert(s@.rest =~= whole);
    }
}

/// The group of the first key ends where greater keys begin.
proof fn lemma_group_within(rows: Seq<RowView>, n: int)
    requires
        rows.len() > 0,
        n == leading_up_to(rows.drop_first(), rows[0].key),
    ensures
        leading(rows, rows[0].key) <= n + 1,
        n <= rows.len() - 1,
{
    lemma_leading_within(rows.drop_first(), rows[0].key);
}

proof fn lemma_leading_within(rows: Seq<RowView>, key: Seq<u8>)
    ensures
        leading(rows, key) <= leading_up_to(rows, key) <= rows.len(),
    decreases rows.len(),
{
    if rows.len() > 0 {
        law_byte_order_total(rows[0].key, key);
        lemma_leading_within(rows.drop_first(), key);
    }
}

} // verus!
