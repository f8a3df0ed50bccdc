//! What holds of keyless diffs as a whole.

use crate::error::ErrorView;
use crate::input::{Batch, BatchIter};
use crate::key::lemma_big_endian_injective;
use crate::keyed_laws::row_keys;
use crate::keyless::{hash_codec, hash_key, hash_parts, hashed_rows, hashes_follow, keyless_diff, keyless_refusal, keyless_result, keyless_step, keyless_walk, lemma_group_nonempty, lemma_keyless_step_shrinks, no_surplus, row_hashes, sample_cols, surplus_rows, surplus_sample, KeylessStep, SampleColView, Surplus};
use crate::merge::{begin, group_error, group_size, leading, lemma_same_rows_len, past_group, SourceView};
use crate::report::{row_differences, sampled_rows, shown_rows, ReportView};
use crate::row_diff::{as_limit, first, limit_reached};
use crate::schema::{places, FieldShape};
use crate::schema_diff::SchemaDiffView;
use crate::sort::{follows_values, in_order, law_keys_match_by_value, row_order, same_rows, sorts, RowView};
use crate::text::{byte_order, law_byte_order_total, law_byte_order_transitive};
use crate::DiffConfig;
use vstd::arithmetic::power::pow;
use vstd::multiset::Multiset;
use vstd::prelude::*;
use vstd::seq_lib::lemma_multiset_commutative;

verus! {

/// The keys of rows, each as often as it occurs.
pub open spec fn key_counts(rows: Seq<RowView>) -> Multiset<Seq<u8>> {
    row_keys(rows).to_multiset()
}

/// A key, a number of times.
pub open spec fn copies(key: Seq<u8>, n: nat) -> Multiset<Seq<u8>>
    decreases n,
{
    if n == 0 {
        Multiset::empty()
    } else {
        copies(key, (n - 1) as nat).insert(key)
    }
}

/// The keys of a surplus, each as often as it stands for.
pub open spec fn surplus_keys(s: Seq<(RowView, nat)>) -> Multiset<Seq<u8>>
    decreases s.len(),
{
    if s.len() == 0 {
        Multiset::empty()
    } else {
        surplus_keys(s.drop_last()).add(copies(s.last().0.key, s.last().1))
    }
}

proof fn lemma_copies(key: Seq<u8>, n: nat)
    ensures
        copies(key, n).len() == n,
        copies(key, n).count(key) == n,
        forall|x: Seq<u8>| x != key ==> #[trigger] copies(key, n).count(x) == 0,
    decreases n,
{
    broadcast use vstd::multiset::group_multiset_axioms;

    if n > 0 {
        lemma_copies(key, (n - 1) as nat);
    }
}

/// A surplus stands for as many rows as it has keys.
pub proof fn lemma_surplus_keys_len(s: Seq<(RowView, nat)>)
    ensures
        surplus_keys(s).len() == surplus_rows(s),
    decreases s.len(),
{
    broadcast use vstd::multiset::group_multiset_axioms;

    if s.len() > 0 {
        lemma_surplus_keys_len(s.drop_last());
        lemma_copies(s.last().0.key, s.last().1);
    }
}

proof fn lemma_surplus_keys_push(s: Seq<(RowView, nat)>, row: RowView, n: nat)
    ensures
        surplus_keys(s.push((row, n))) == surplus_keys(s).add(copies(row.key, n)),
{
    assert(s.push((row, n)).drop_last() =~= s);
}

/// The leading rows of a key, and those after them.
proof fn lemma_leading_counts(rows: Seq<RowView>, key: Seq<u8>)
    ensures
        leading(rows, key) <= rows.len(),
        key_counts(rows) == copies(key, leading(rows, key)).add(
            key_counts(rows.skip(leading(rows, key) as int)),
        ),
        leading(rows, key) < rows.len() ==> rows[leading(rows, key) as int].key != key,
    decreases rows.len(),
{
    broadcast use vstd::multiset::group_multiset_axioms;
    broadcast use vstd::seq_lib::group_to_multiset_ensures;

    if rows.len() == 0 || rows[0].key != key {
        assert(rows.skip(0) =~= rows);
        assert(key_counts(rows) =~= copies(key, 0).add(key_counts(rows)));
    } else {
        let rest = rows.drop_first();
        let n = leading(rest, key);
        lemma_leading_counts(rest, key);
        assert(rest.skip(n as int) =~= rows.skip(n as int + 1));
        assert(row_keys(rows) =~= seq![key] + row_keys(rest));
        lemma_multiset_commutative(seq![key], row_keys(rest));
        assert(seq![key] =~= Seq::<Seq<u8>>::empty().push(key));
        assert(seq![key].to_multiset() =~= Multiset::singleton(key));
        if n < rest.len() {
            assert(rest[n as int] == rows[n as int + 1]);
        }
        assert(key_counts(rows) =~= copies(key, n + 1).add(key_counts(rows.skip(n as int + 1))));
    }
}

/// Rows in order whose first key is greater have none of a smaller key.
proof fn lemma_key_absent(rows: Seq<RowView>, key: Seq<u8>)
    requires
        in_order(rows),
        rows.len() == 0 || byte_order(key, rows[0].key) < 0,
    ensures
        key_counts(rows).count(key) == 0,
{
    broadcast use vstd::seq_lib::group_to_multiset_ensures;

    if key_counts(rows).count(key) > 0 {
        assert(row_keys(rows).contains(key));
        let i = choose|i: int| 0 <= i < row_keys(rows).len() && row_keys(rows)[i] == key;
        assert(row_order(rows[0], rows[i]) <= 0);
        law_byte_order_transitive(key, rows[0].key, rows[i].key);
        law_byte_order_total(key, key);
    }
}

proof fn lemma_in_order_skip(rows: Seq<RowView>, n: int)
    requires
        in_order(rows),
        0 <= n <= rows.len(),
    ensures
        in_order(rows.skip(n)),
{
    let rest = rows.skip(n);
    assert forall|i: int, j: int| 0 <= i <= j < rest.len() implies row_order(
        #[trigger] rest[i],
        #[trigger] rest[j],
    ) <= 0 by {
        assert(row_order(rows[i + n], rows[j + n]) <= 0);
    }
}

/// What a stream holds past its current group: the same rows without those of
/// the current key.
proof fn lemma_past_group(s: SourceView)
    requires
        in_order(s.rest),
        s.rest.len() > 0,
    ensures
        0 < group_size(s) <= s.rest.len(),
        past_group(s).rest == s.rest.skip(group_size(s) as int),
        in_order(past_group(s).rest),
        key_counts(s.rest) == copies(s.rest[0].key, group_size(s)).add(
            key_counts(past_group(s).rest),
        ),
        key_counts(past_group(s).rest).count(s.rest[0].key) == 0,
{
    let key = s.rest[0].key;
    let n = group_size(s) as int;
    lemma_group_nonempty(s);
    lemma_leading_counts(s.rest, key);
    lemma_in_order_skip(s.rest, n);
    let rest = s.rest.skip(n);
    if rest.len() > 0 {
        assert(row_order(s.rest[0], s.rest[n]) <= 0);
        law_byte_order_total(key, s.rest[n].key);
        assert(rest[0] == s.rest[n]);
    }
    lemma_key_absent(rest, key);
}

/// What moving past one group after the other gives, until no row is left.
pub open spec fn group_sizes(s: SourceView) -> Seq<nat>
    decreases s.rest.len(),
{
    if s.rest.len() == 0 {
        seq![]
    } else {
        proof {
            lemma_group_nonempty(s);
        }
        seq![group_size(s)] + group_sizes(past_group(s))
    }
}

/// Numbers, added up.
pub open spec fn total(numbers: Seq<nat>) -> nat
    decreases numbers.len(),
{
    if numbers.len() == 0 {
        0
    } else {
        numbers[0] + total(numbers.drop_first())
    }
}

/// The groups of a stream have all of its rows between them, each at least one.
pub proof fn law_groups_add_up_to_the_rows(s: SourceView)
    ensures
        total(group_sizes(s)) == s.rest.len(),
        forall|i: int| 0 <= i < group_sizes(s).len() ==> #[trigger] group_sizes(s)[i] > 0,
    decreases s.rest.len(),
{
    if s.rest.len() > 0 {
        lemma_group_nonempty(s);
        let after = past_group(s);
        law_groups_add_up_to_the_rows(after);
        let sizes = group_sizes(s);
        assert(sizes.drop_first() =~= group_sizes(after));
        assert forall|i: int| 0 <= i < sizes.len() implies #[trigger] sizes[i] > 0 by {
            if i > 0 {
                assert(sizes[i] == group_sizes(after)[i - 1]);
            }
        }
    }
}

/// Among sorted rows a group is all the rows with the current key, what follows
/// it has a larger key, and moving past it is never refused.
pub proof fn law_group_is_all_of_its_key(s: SourceView)
    requires
        in_order(s.rest),
    ensures
        group_error(s) is None,
        s.rest.len() > 0 ==> group_size(s) == key_counts(s.rest).count(s.rest[0].key),
        s.rest.len() > 0 && past_group(s).rest.len() > 0 ==> byte_order(
            s.rest[0].key,
            past_group(s).rest[0].key,
        ) < 0,
{
    broadcast use vstd::multiset::group_multiset_axioms;

    if s.rest.len() > 0 {
        let key = s.rest[0].key;
        let n = group_size(s) as int;
        lemma_past_group(s);
        lemma_copies(key, group_size(s));
        lemma_leading_counts(s.rest, key);
        if n < s.rest.len() {
            assert(row_order(s.rest[0], s.rest[n]) <= 0);
            assert(row_order(s.rest[n - 1], s.rest[n]) <= 0);
            law_byte_order_total(key, s.rest[n].key);
            law_byte_order_total(s.rest[n - 1].key, s.rest[n].key);
            assert(past_group(s).rest[0] == s.rest[n]);
        }
    }
}

/// Without a limit, the rows that are reported as removed are those that the
/// left has more often than the right, by content hash, each as often as it has
/// them more; and the added ones likewise.
pub proof fn law_surplus_is_multiset_difference(left: SourceView, right: SourceView, found: Surplus)
    requires
        in_order(left.rest),
        in_order(right.rest),
    ensures
        ({
            let end = keyless_walk(None, left, right, found);
            let l = key_counts(left.rest);
            let r = key_counts(right.rest);
            &&& surplus_keys(end.found.removed) == surplus_keys(found.removed).add(l.sub(r))
            &&& surplus_keys(end.found.added) == surplus_keys(found.added).add(r.sub(l))
            &&& !end.truncated
        }),
    decreases left.rest.len() + right.rest.len(),
{
    broadcast use vstd::multiset::group_multiset_axioms;

    let end = keyless_walk(None, left, right, found);
    let l = key_counts(left.rest);
    let r = key_counts(right.rest);
    if left.rest.len() > 0 {
        lemma_past_group(left);
        lemma_copies(left.rest[0].key, group_size(left));
    }
    if right.rest.len() > 0 {
        lemma_past_group(right);
        lemma_copies(right.rest[0].key, group_size(right));
    }
    if left.rest.len() == 0 && right.rest.len() == 0 {
        assert(row_keys(left.rest) =~= row_keys(right.rest));
        assert(surplus_keys(end.found.removed) =~= surplus_keys(found.removed).add(l.sub(r)));
        assert(surplus_keys(end.found.added) =~= surplus_keys(found.added).add(r.sub(l)));
    } else if right.rest.len() == 0 || (left.rest.len() > 0 && row_order(left.rest[0], right.rest[0]) < 0) {
        let k = left.rest[0].key;
        let n = group_size(left);
        lemma_key_absent(right.rest, k);
        let f = Surplus { removed: found.removed.push((left.rest[0], n)), ..found };
        lemma_surplus_keys_push(found.removed, left.rest[0], n);
        law_surplus_is_multiset_difference(past_group(left), right, f);
        let x = key_counts(past_group(left).rest);
        assert(surplus_keys(found.removed).add(copies(k, n)).add(x.sub(r)) =~= surplus_keys(
            found.removed,
        ).add(l.sub(r)));
        assert(r.sub(x) =~= r.sub(l));
    } else if left.rest.len() == 0 || row_order(left.rest[0], right.rest[0]) > 0 {
        let k = right.rest[0].key;
        let n = group_size(right);
        if left.rest.len() > 0 {
            law_byte_order_total(left.rest[0].key, k);
        }
        lemma_key_absent(left.rest, k);
        let f = Surplus { added: found.added.push((right.rest[0], n)), ..found };
        lemma_surplus_keys_push(found.added, right.rest[0], n);
        law_surplus_is_multiset_difference(left, past_group(right), f);
        let x = key_counts(past_group(right).rest);
        assert(surplus_keys(found.added).add(copies(k, n)).add(x.sub(l)) =~= surplus_keys(
            found.added,
        ).add(r.sub(l)));
        assert(l.sub(x) =~= l.sub(r));
    } else {
        let k = left.rest[0].key;
        law_byte_order_total(k, right.rest[0].key);
        let nl = group_size(left);
        let nr = group_size(right);
        let x = key_counts(past_group(left).rest);
        let y = key_counts(past_group(right).rest);
        let f = if nl > nr {
            Surplus { removed: found.removed.push((left.rest[0], (nl - nr) as nat)), ..found }
        } else if nr > nl {
            Surplus { added: found.added.push((right.rest[0], (nr - nl) as nat)), ..found }
        } else {
            found
        };
        law_surplus_is_multiset_difference(past_group(left), past_group(right), f);
        if nl > nr {
            lemma_surplus_keys_push(found.removed, left.rest[0], (nl - nr) as nat);
            lemma_copies(k, (nl - nr) as nat);
        } else if nr > nl {
            lemma_surplus_keys_push(found.added, right.rest[0], (nr - nl) as nat);
            lemma_copies(k, (nr - nl) as nat);
        }
        assert(surplus_keys(f.removed).add(x.sub(y)) =~= surplus_keys(found.removed).add(l.sub(r)));
        assert(surplus_keys(f.added).add(y.sub(x)) =~= surplus_keys(found.added).add(r.sub(l)));
    }
}

/// How many rows a keyless scan without a limit reports as removed and added.
pub proof fn law_surplus_counts(left: SourceView, right: SourceView)
    requires
        in_order(left.rest),
        in_order(right.rest),
    ensures
        ({
            let found = keyless_walk(None, left, right, no_surplus()).found;
            let l = key_counts(left.rest);
            let r = key_counts(right.rest);
            &&& surplus_rows(found.removed) == l.sub(r).len()
            &&& surplus_rows(found.added) == r.sub(l).len()
            &&& left.rest.len() + surplus_rows(found.added) == right.rest.len() + surplus_rows(
                found.removed,
            )
        }),
{
    broadcast use vstd::multiset::group_multiset_axioms;
    broadcast use vstd::seq_lib::group_to_multiset_ensures;

    let found = keyless_walk(None, left, right, no_surplus()).found;
    let l = key_counts(left.rest);
    let r = key_counts(right.rest);
    law_surplus_is_multiset_difference(left, right, no_surplus());
    assert(surplus_keys(found.removed) =~= l.sub(r));
    assert(surplus_keys(found.added) =~= r.sub(l));
    lemma_surplus_keys_len(found.removed);
    lemma_surplus_keys_len(found.added);
    assert(l.add(r.sub(l)) =~= r.add(l.sub(r)));
    assert(l.add(r.sub(l)).len() == l.len() + r.sub(l).len());
    assert(r.add(l.sub(r)).len() == r.len() + l.sub(r).len());
}

/// Swapping the two tables swaps what a keyless scan counts as removed and as
/// added.
pub proof fn law_swapping_sides_swaps_counts(left: SourceView, right: SourceView)
    requires
        in_order(left.rest),
        in_order(right.rest),
    ensures
        ({
            let there = keyless_walk(None, left, right, no_surplus()).found;
            let back = keyless_walk(None, right, left, no_surplus()).found;
            &&& surplus_rows(there.removed) == surplus_rows(back.added)
            &&& surplus_rows(there.added) == surplus_rows(back.removed)
        }),
{
    law_surplus_counts(left, right);
    law_surplus_counts(right, left);
}

/// Tables that hold the same rows equally often, in whatever order, show no
/// difference in a keyless scan, though rows occur more than once.
pub proof fn law_equal_multisets_have_no_surplus(left: SourceView, right: SourceView)
    requires
        in_order(left.rest),
        in_order(right.rest),
        same_rows(left.rest, right.rest),
    ensures
        ({
            let end = keyless_walk(None, left, right, no_surplus());
            &&& surplus_rows(end.found.removed) == 0
            &&& surplus_rows(end.found.added) == 0
            &&& !end.truncated
        }),
{
    broadcast use vstd::multiset::group_multiset_axioms;

    lemma_key_counts_follow(left.rest, right.rest);
    law_surplus_is_multiset_difference(left, right, no_surplus());
    law_surplus_counts(left, right);
    let l = key_counts(left.rest);
    assert(l.sub(l) =~= Multiset::empty());
}

/// The same elements are mapped to the same ones, equally often.
pub proof fn lemma_map_same<A, B>(a: Seq<A>, b: Seq<A>, f: spec_fn(A) -> B)
    requires
        a.to_multiset() == b.to_multiset(),
    ensures
        a.map_values(f).to_multiset() == b.map_values(f).to_multiset(),
    decreases a.len(),
{
    broadcast use vstd::multiset::group_multiset_axioms;
    broadcast use vstd::seq_lib::group_to_multiset_ensures;

    assert(a.to_multiset().len() == a.len());
    assert(b.to_multiset().len() == b.len());
    if a.len() > 0 {
        assert(a.to_multiset().count(a[0]) > 0) by {
            assert(a.contains(a[0]));
        }
        assert(b.contains(a[0]));
        let j = choose|j: int| 0 <= j < b.len() && b[j] == a[0];
        let x = a.drop_first();
        let y = b.remove(j);
        assert(a.remove(0) =~= x);
        assert(x.to_multiset() =~= a.to_multiset().remove(a[0]));
        assert(y.to_multiset() =~= b.to_multiset().remove(b[j]));
        lemma_map_same(x, y, f);
        assert(x.map_values(f) =~= a.map_values(f).remove(0));
        assert(y.map_values(f) =~= b.map_values(f).remove(j));
        assert(a.map_values(f).contains(a.map_values(f)[0]));
        assert(b.map_values(f).contains(b.map_values(f)[j]));
        assert(a.map_values(f).to_multiset() =~= x.map_values(f).to_multiset().insert(f(a[0])));
        assert(b.map_values(f).to_multiset() =~= y.map_values(f).to_multiset().insert(f(a[0])));
    } else {
        assert(a.map_values(f) =~= b.map_values(f));
    }
}

/// The same rows have the same keys equally often.
proof fn lemma_key_counts_follow(a: Seq<RowView>, b: Seq<RowView>)
    requires
        same_rows(a, b),
    ensures
        key_counts(a) == key_counts(b),
{
    let f = |r: RowView| r.key;
    lemma_map_same(a, b, f);
    assert(row_keys(a) =~= a.map_values(f));
    assert(row_keys(b) =~= b.map_values(f));
}

/// What was found is the start of what was found in the end.
pub open spec fn is_start(a: Surplus, b: Surplus) -> bool {
    a.removed.is_prefix_of(b.removed) && a.added.is_prefix_of(b.added)
}

proof fn lemma_start_of_start(a: Surplus, b: Surplus, c: Surplus)
    requires
        is_start(a, b),
        is_start(b, c),
    ensures
        is_start(a, c),
{
    assert forall|i: int| 0 <= i < a.removed.len() implies a.removed[i] == c.removed[i] by {
        assert(b.removed[i] == a.removed[i]);
    }
    assert forall|i: int| 0 <= i < a.added.len() implies a.added[i] == c.added[i] by {
        assert(b.added[i] == a.added[i]);
    }
    assert(a.removed =~= c.removed.subrange(0, a.removed.len() as int));
    assert(a.added =~= c.added.subrange(0, a.added.len() as int));
}

proof fn lemma_walk_keeps(limit: Option<nat>, left: SourceView, right: SourceView, found: Surplus)
    ensures
        is_start(found, keyless_walk(limit, left, right, found).found),
    decreases left.rest.len() + right.rest.len(),
{
    match keyless_step(limit, left, right, found) {
        KeylessStep::More { left: l, right: r, found: f } => {
            lemma_keyless_step_shrinks(limit, left, right, found);
            lemma_walk_keeps(limit, l, r, f);
            assert(is_start(found, f));
            lemma_start_of_start(found, f, keyless_walk(limit, l, r, f).found);
        },
        _ => {},
    }
}

proof fn lemma_surplus_grows(a: Seq<(RowView, nat)>, b: Seq<(RowView, nat)>)
    requires
        a.is_prefix_of(b),
    ensures
        surplus_rows(a) <= surplus_rows(b),
    decreases b.len(),
{
    if a.len() < b.len() {
        assert(a.is_prefix_of(b.drop_last()));
        lemma_surplus_grows(a, b.drop_last());
    } else {
        assert(a =~= b);
    }
}

/// A keyless scan with a limit is truncated exactly where it has found that
/// many differences. What it found is the start of what a scan without the
/// limit finds, so its counts are lower bounds; a scan that did not stop finds
/// the same.
pub proof fn law_limit_truncates_keyless(
    limit: Option<nat>,
    left: SourceView,
    right: SourceView,
    found: Surplus,
)
    ensures
        ({
            let end = keyless_walk(limit, left, right, found);
            let all = keyless_walk(None, left, right, found);
            &&& end.truncated <==> limit_reached(
                limit,
                surplus_rows(end.found.added) + surplus_rows(end.found.removed),
            )
            &&& is_start(end.found, all.found)
            &&& surplus_rows(end.found.removed) <= surplus_rows(all.found.removed)
            &&& surplus_rows(end.found.added) <= surplus_rows(all.found.added)
            &&& !end.truncated ==> end == all
        }),
    decreases left.rest.len() + right.rest.len(),
{
    let all = keyless_walk(None, left, right, found);
    if limit_reached(limit, surplus_rows(found.added) + surplus_rows(found.removed)) {
        lemma_walk_keeps(None, left, right, found);
        lemma_surplus_grows(found.removed, all.found.removed);
        lemma_surplus_grows(found.added, all.found.added);
    } else {
        assert(keyless_step(limit, left, right, found) == keyless_step(None, left, right, found));
        match keyless_step(limit, left, right, found) {
            KeylessStep::More { left: l, right: r, found: f } => {
                lemma_keyless_step_shrinks(limit, left, right, found);
                law_limit_truncates_keyless(limit, l, r, f);
            },
            _ => {},
        }
    }
}

/// Keys of hashes are equal exactly where the hashes are.
pub proof fn law_hash_keys_match_by_hash(g: u128, h: u128)
    requires
        follows_values(hash_parts(g)),
    ensures
        hash_key(g) == hash_key(h) <==> g == h,
{
    law_keys_match_by_value(hash_parts(g), hash_parts(h));
    if hash_parts(g) == hash_parts(h) {
        assert(hash_parts(g)[0] == hash_parts(h)[0]);
        assert(pow(256, 16) == 0x1_0000_0000_0000_0000_0000_0000_0000_0000) by {
            reveal_with_fuel(pow, 17);
        }
        lemma_big_endian_injective(g as nat, h as nat, 16);
    }
}

/// Keys of hashed rows are the keys of their hashes.
proof fn lemma_hashed_keys(batches: Seq<Batch>, idx: Seq<usize>)
    ensures
        row_keys(hashed_rows(batches, idx)) == row_hashes(batches, idx).map_values(
            |h: u128| hash_key(h),
        ),
    decreases batches.len(),
{
    let keys = row_keys(hashed_rows(batches, idx));
    let want = row_hashes(batches, idx).map_values(|h: u128| hash_key(h));
    if batches.len() > 0 {
        lemma_hashed_keys(batches.drop_last(), idx);
        let n = row_hashes(batches.drop_last(), idx).len();
        assert(row_keys(hashed_rows(batches.drop_last(), idx)).len() == n);
        assert forall|i: int| 0 <= i < keys.len() implies keys[i] == want[i] by {
            if i < n {
                assert(keys[i] == row_keys(hashed_rows(batches.drop_last(), idx))[i]);
                assert(row_hashes(batches, idx)[i] == row_hashes(batches.drop_last(), idx)[i]);
            }
        }
    }
    assert(keys =~= want);
}

/// A multiset difference stays as large where distinct elements stay distinct.
proof fn lemma_difference_maps<A, B>(a: Seq<A>, b: Seq<A>, f: spec_fn(A) -> B)
    requires
        forall|i: int, j: int|
            0 <= i < a.len() && 0 <= j < b.len() && f(#[trigger] a[i]) == f(#[trigger] b[j]) ==> a[i]
                == b[j],
    ensures
        a.to_multiset().sub(b.to_multiset()).len() == a.map_values(f).to_multiset().sub(
            b.map_values(f).to_multiset(),
        ).len(),
    decreases a.len(),
{
    broadcast use vstd::multiset::group_multiset_axioms;
    broadcast use vstd::seq_lib::group_to_multiset_ensures;

    let fa = a.map_values(f);
    let fb = b.map_values(f);
    if a.len() == 0 {
        assert(a.to_multiset().sub(b.to_multiset()) =~= Multiset::empty());
        assert(fa.to_multiset().sub(fb.to_multiset()) =~= Multiset::empty());
    } else {
        let x = a.last();
        let less = a.drop_last();
        assert(a =~= less.push(x));
        assert(fa =~= less.map_values(f).push(f(x)));
        if b.contains(x) {
            let j = choose|j: int| 0 <= j < b.len() && b[j] == x;
            let c = b.remove(j);
            assert(c.map_values(f) =~= fb.remove(j));
            assert(fb[j] == f(x));
            assert(fb.contains(f(x)));
            assert forall|i: int, k: int|
                0 <= i < less.len() && 0 <= k < c.len() && f(#[trigger] less[i]) == f(#[trigger] c[k]) implies less[i]
                == c[k] by {
                assert(less[i] == a[i]);
                assert(c[k] == b[if k < j {
                    k
                } else {
                    k + 1
                }]);
            }
            lemma_difference_maps(less, c, f);
            assert(c.to_multiset() =~= b.to_multiset().remove(x));
            assert(c.map_values(f).to_multiset() =~= fb.to_multiset().remove(f(x)));
            assert(a.to_multiset().sub(b.to_multiset()) =~= less.to_multiset().sub(c.to_multiset()));
            assert(fa.to_multiset().sub(fb.to_multiset()) =~= less.map_values(f).to_multiset().sub(
                c.map_values(f).to_multiset(),
            ));
        } else {
            assert forall|i: int, k: int|
                0 <= i < less.len() && 0 <= k < b.len() && f(#[trigger] less[i]) == f(#[trigger] b[k]) implies less[i]
                == b[k] by {
                assert(less[i] == a[i]);
            }
            lemma_difference_maps(less, b, f);
            if fb.contains(f(x)) {
                let k = choose|k: int| 0 <= k < fb.len() && fb[k] == f(x);
                assert(a[a.len() - 1] == b[k]);
            }
            assert(fb.to_multiset().count(f(x)) == 0);
            assert(b.to_multiset().count(x) == 0);
            assert(a.to_multiset().sub(b.to_multiset()) =~= less.to_multiset().sub(
                b.to_multiset(),
            ).insert(x));
            assert(fa.to_multiset().sub(fb.to_multiset()) =~= less.map_values(f).to_multiset().sub(
                fb.to_multiset(),
            ).insert(f(x)));
        }
    }
}

/// What a keyless diff without a limit reports: by content hash, as many rows
/// removed as the left has more often than the right, and as many added as the
/// right has more often. Rows of equal content always count as equal.
pub proof fn law_keyless_report_counts(
    left: BatchIter,
    right: BatchIter,
    auto: bool,
    schema: SchemaDiffView,
    cfg: DiffConfig,
    report: ReportView,
)
    requires
        keyless_result(left, right, auto, schema, cfg, Ok(report)),
        cfg.fail_fast is None,
    ensures
        ({
            let lhashes = row_hashes(left.batches@, places(left.schema@, schema.left_names()));
            let rhashes = row_hashes(right.batches@, places(right.schema@, schema.right_names()));
            let l = lhashes.to_multiset();
            let r = rhashes.to_multiset();
            &&& report.left_rows == lhashes.len()
            &&& report.right_rows == rhashes.len()
            &&& report.removed == l.sub(r).len()
            &&& report.added == r.sub(l).len()
            &&& report.left_rows + report.added == report.right_rows + report.removed
            &&& report.modified == 0
            &&& !report.truncated
        }),
{
    let lidx = places(left.schema@, schema.left_names());
    let ridx = places(right.schema@, schema.right_names());
    let lhashes = row_hashes(left.batches@, lidx);
    let rhashes = row_hashes(right.batches@, ridx);
    let lrows = hashed_rows(left.batches@, lidx);
    let rrows = hashed_rows(right.batches@, ridx);
    let (x, y) = choose|x: Seq<RowView>, y: Seq<RowView>|
        {
            &&& #[trigger] sorts(x, lrows)
            &&& #[trigger] sorts(y, rrows)
            &&& Ok::<ReportView, ErrorView>(report) == Ok::<ReportView, ErrorView>(
                keyless_diff(left.schema@, right.schema@, schema, auto, cfg, x, y),
            )
        };
    let xs = begin(hash_codec(left.schema@.len()), cfg.left@, x, false);
    let ys = begin(hash_codec(right.schema@.len()), cfg.right@, y, false);
    law_surplus_is_multiset_difference(xs, ys, no_surplus());
    law_surplus_counts(xs, ys);
    lemma_key_counts_follow(x, lrows);
    lemma_key_counts_follow(y, rrows);
    lemma_same_rows_len(x, lrows);
    lemma_same_rows_len(y, rrows);
    lemma_totals_stay(None, xs, ys, no_surplus());
    let f = |h: u128| hash_key(h);
    lemma_hashed_keys(left.batches@, lidx);
    lemma_hashed_keys(right.batches@, ridx);
    assert(row_keys(lrows).len() == lhashes.len());
    assert(row_keys(rrows).len() == rhashes.len());
    assert forall|i: int, j: int|
        0 <= i < lhashes.len() && 0 <= j < rhashes.len() && f(#[trigger] lhashes[i]) == f(
            #[trigger] rhashes[j],
        ) implies lhashes[i] == rhashes[j] by {
        assert(follows_values(hash_parts(lhashes[i])));
        law_hash_keys_match_by_hash(lhashes[i], rhashes[j]);
    }
    assert forall|i: int, j: int|
        0 <= i < rhashes.len() && 0 <= j < lhashes.len() && f(#[trigger] rhashes[i]) == f(
            #[trigger] lhashes[j],
        ) implies rhashes[i] == lhashes[j] by {
        assert(follows_values(hash_parts(rhashes[i])));
        law_hash_keys_match_by_hash(rhashes[i], lhashes[j]);
    }
    lemma_difference_maps(lhashes, rhashes, f);
    lemma_difference_maps(rhashes, lhashes, f);
}

/// A row is surplus at most once.
proof fn lemma_surplus_bounded(limit: Option<nat>, left: SourceView, right: SourceView, found: Surplus)
    ensures
        ({
            let end = keyless_walk(limit, left, right, found).found;
            &&& surplus_rows(end.removed) <= surplus_rows(found.removed) + left.rest.len()
            &&& surplus_rows(end.added) <= surplus_rows(found.added) + right.rest.len()
        }),
    decreases left.rest.len() + right.rest.len(),
{
    match keyless_step(limit, left, right, found) {
        KeylessStep::More { left: l, right: r, found: f } => {
            lemma_keyless_step_shrinks(limit, left, right, found);
            lemma_group_nonempty(left);
            lemma_group_nonempty(right);
            if f.removed.len() > found.removed.len() {
                assert(f.removed.drop_last() =~= found.removed);
            }
            if f.added.len() > found.added.len() {
                assert(f.added.drop_last() =~= found.added);
            }
            lemma_surplus_bounded(limit, l, r, f);
        },
        _ => {},
    }
}

/// Examples stand for as many rows as the surplus that they show.
pub proof fn lemma_sampled_surplus(s: Seq<(RowView, nat)>, cols: Seq<SampleColView>)
    ensures
        sampled_rows(s.map_values(surplus_sample(cols))) == surplus_rows(s),
    decreases s.len(),
{
    if s.len() > 0 {
        lemma_sampled_surplus(s.drop_last(), cols);
        assert(s.map_values(surplus_sample(cols)).drop_last() =~= s.drop_last().map_values(
            surplus_sample(cols),
        ));
    }
}

/// No more rows are removed than the left has, nor added than the right has,
/// and the examples show no more than that.
pub proof fn law_keyless_counts_are_bounded(
    left: Seq<FieldShape>,
    right: Seq<FieldShape>,
    schema: SchemaDiffView,
    auto: bool,
    cfg: DiffConfig,
    lrows: Seq<RowView>,
    rrows: Seq<RowView>,
)
    ensures
        ({
            let report = keyless_diff(left, right, schema, auto, cfg, lrows, rrows);
            &&& report.removed <= lrows.len()
            &&& report.added <= rrows.len()
            &&& shown_rows(report.samples) <= row_differences(report)
        }),
{
    let l = begin(hash_codec(left.len()), cfg.left@, lrows, false);
    let r = begin(hash_codec(right.len()), cfg.right@, rrows, false);
    let limit = as_limit(cfg.fail_fast);
    let found = keyless_walk(limit, l, r, no_surplus()).found;
    let max = cfg.max_samples as nat;
    lemma_surplus_bounded(limit, l, r, no_surplus());
    lemma_sampled_surplus(first(found.added, max), sample_cols(schema.right_names(), right));
    lemma_sampled_surplus(first(found.removed, max), sample_cols(schema.left_names(), left));
    lemma_surplus_grows(first(found.added, max), found.added);
    lemma_surplus_grows(first(found.removed, max), found.removed);
}

/// A scan does not change how many rows its sides are known to have.
proof fn lemma_totals_stay(limit: Option<nat>, left: SourceView, right: SourceView, found: Surplus)
    ensures
        keyless_walk(limit, left, right, found).left.total_hint == left.total_hint,
        keyless_walk(limit, left, right, found).right.total_hint == right.total_hint,
    decreases left.rest.len() + right.rest.len(),
{
    match keyless_step(limit, left, right, found) {
        KeylessStep::More { left: l, right: r, found: f } => {
            lemma_keyless_step_shrinks(limit, left, right, found);
            lemma_totals_stay(limit, l, r, f);
        },
        _ => {},
    }
}

/// Each surplus that a scan finds is of a row at least.
proof fn lemma_surplus_is_some(limit: Option<nat>, left: SourceView, right: SourceView, found: Surplus)
    requires
        forall|i: int| 0 <= i < found.removed.len() ==> (#[trigger] found.removed[i]).1 > 0,
        forall|i: int| 0 <= i < found.added.len() ==> (#[trigger] found.added[i]).1 > 0,
    ensures
        ({
            let end = keyless_walk(limit, left, right, found).found;
            &&& forall|i: int| 0 <= i < end.removed.len() ==> (#[trigger] end.removed[i]).1 > 0
            &&& forall|i: int| 0 <= i < end.added.len() ==> (#[trigger] end.added[i]).1 > 0
        }),
    decreases left.rest.len() + right.rest.len(),
{
    match keyless_step(limit, left, right, found) {
        KeylessStep::More { left: l, right: r, found: f } => {
            lemma_keyless_step_shrinks(limit, left, right, found);
            lemma_group_nonempty(left);
            lemma_group_nonempty(right);
            lemma_surplus_is_some(limit, l, r, f);
        },
        _ => {},
    }
}

/// Two streams of the same rows, in whatever order, show no difference in a
/// keyless diff.
pub proof fn law_same_rows_show_nothing_keyless(
    left: BatchIter,
    right: BatchIter,
    auto: bool,
    schema: SchemaDiffView,
    cfg: DiffConfig,
    report: ReportView,
)
    requires
        keyless_result(left, right, auto, schema, cfg, Ok(report)),
        same_rows(
            hashed_rows(left.batches@, places(left.schema@, schema.left_names())),
            hashed_rows(right.batches@, places(right.schema@, schema.right_names())),
        ),
    ensures
        report.schema == schema,
        report.removed == 0,
        report.added == 0,
        report.modified == 0,
        report.columns_changed.len() == 0,
        report.samples.removed.len() == 0,
        report.samples.added.len() == 0,
        report.samples.modified.len() == 0,
        report.left_rows == report.right_rows,
{
    let lrows = hashed_rows(left.batches@, places(left.schema@, schema.left_names()));
    let rrows = hashed_rows(right.batches@, places(right.schema@, schema.right_names()));
    let (x, y) = choose|x: Seq<RowView>, y: Seq<RowView>|
        {
            &&& #[trigger] sorts(x, lrows)
            &&& #[trigger] sorts(y, rrows)
            &&& Ok::<ReportView, ErrorView>(report) == Ok::<ReportView, ErrorView>(
                keyless_diff(left.schema@, right.schema@, schema, auto, cfg, x, y),
            )
        };
    let xs = begin(hash_codec(left.schema@.len()), cfg.left@, x, false);
    let ys = begin(hash_codec(right.schema@.len()), cfg.right@, y, false);
    law_equal_multisets_have_no_surplus(xs, ys);
    law_limit_truncates_keyless(as_limit(cfg.fail_fast), xs, ys, no_surplus());
    lemma_totals_stay(as_limit(cfg.fail_fast), xs, ys, no_surplus());
    lemma_same_rows_len(x, lrows);
    lemma_same_rows_len(y, rrows);
    lemma_same_rows_len(lrows, rrows);
    lemma_surplus_is_some(as_limit(cfg.fail_fast), xs, ys, no_surplus());
    let found = keyless_walk(as_limit(cfg.fail_fast), xs, ys, no_surplus()).found;
    if found.removed.len() > 0 {
        assert(found.removed[found.removed.len() - 1].1 > 0);
    }
    if found.added.len() > 0 {
        assert(found.added[found.added.len() - 1].1 > 0);
    }
}

/// The order of the rows in a table has no part in what a keyless diff may come
/// to.
pub proof fn law_row_order_does_not_matter_keyless(
    left: BatchIter,
    right: BatchIter,
    other_left: BatchIter,
    other_right: BatchIter,
    auto: bool,
    schema: SchemaDiffView,
    cfg: DiffConfig,
    r: Result<ReportView, ErrorView>,
)
    requires
        keyless_result(left, right, auto, schema, cfg, r),
        other_left.schema@ == left.schema@,
        other_right.schema@ == right.schema@,
        ({
            let lidx = places(left.schema@, schema.left_names());
            let ridx = places(right.schema@, schema.right_names());
            &&& same_rows(hashed_rows(left.batches@, lidx), hashed_rows(other_left.batches@, lidx))
            &&& same_rows(hashed_rows(right.batches@, ridx), hashed_rows(other_right.batches@, ridx))
            &&& hashes_follow(row_hashes(other_left.batches@, lidx))
            &&& hashes_follow(row_hashes(other_right.batches@, ridx))
        }),
    ensures
        keyless_result(other_left, other_right, auto, schema, cfg, r),
{
    if keyless_refusal(left.schema@, right.schema@, schema) is None {
        let lidx = places(left.schema@, schema.left_names());
        let ridx = places(right.schema@, schema.right_names());
        let (x, y) = choose|x: Seq<RowView>, y: Seq<RowView>|
            {
                &&& #[trigger] sorts(x, hashed_rows(left.batches@, lidx))
                &&& #[trigger] sorts(y, hashed_rows(right.batches@, ridx))
                &&& r == Ok::<ReportView, ErrorView>(
                    keyless_diff(left.schema@, right.schema@, schema, auto, cfg, x, y),
                )
            };
        assert(sorts(x, hashed_rows(other_left.batches@, lidx)));
        assert(sorts(y, hashed_rows(other_right.batches@, ridx)));
    }
}

} // verus!
