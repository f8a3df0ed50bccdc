//! What holds of keyed diffs as a whole.

use crate::error::ErrorView;
use crate::input::BatchIter;
use crate::key::{key_parts, part_kind};
use crate::merge::{advance_error, advanced, agree_on, arranged, begin, lemma_same_rows_contains, lemma_same_rows_len, row_total, SourceView};
use crate::report::{differs as reports_differences, row_differences, sampled_rows, shown_rows, CountView, ReportView, SampleView};
use crate::row_diff::{changes, column_tally, differences, differs, first, is_modified, key_sample, keyed_diff, keyed_missing, keyed_result, keyed_setup, keyed_step, keyed_walk, lemma_filter_shorter, lemma_step_shrinks, limit_reached, modified, modified_sample, nothing_found, Found, KeyedEnd, KeyedRules, KeyedSetup, KeyedStep, ValueColView};
use crate::schema::{column, lemma_all_shared, lemma_column};
use crate::schema_diff::{no_schema_change, SchemaDiffView};
use crate::sort::{batch_follows_values, in_order, keyed_rows, law_keys_match_by_value, law_unified_columns_are_comparable, row_order, same_rows, sorts, stream_follows_values, stream_rows, twice, RowView};
use crate::text::{law_byte_order_total, law_byte_order_transitive, lemma_place, place};
use crate::value::{law_matching_is_reflexive, law_matching_is_symmetric, Comparator};
use crate::DiffConfig;
use vstd::prelude::*;

verus! {

/// Rows in ascending key order, no two with the same key.
pub open spec fn ascending(rows: Seq<RowView>) -> bool {
    forall|i: int, j: int|
        0 <= i < j < rows.len() ==> row_order(#[trigger] rows[i], #[trigger] rows[j]) < 0
}

pub open spec fn row_keys(rows: Seq<RowView>) -> Seq<Seq<u8>> {
    rows.map_values(|r: RowView| r.key)
}

/// Rows whose key the other side has too.
pub open spec fn has_match(other: Seq<RowView>) -> spec_fn(RowView) -> bool {
    |r: RowView| row_keys(other).contains(r.key)
}

/// Rows whose key the other side does not have.
pub open spec fn has_no_match(other: Seq<RowView>) -> spec_fn(RowView) -> bool {
    |r: RowView| !row_keys(other).contains(r.key)
}

/// A row with the row of the other side that has its key.
pub open spec fn paired(other: Seq<RowView>) -> spec_fn(RowView) -> (RowView, RowView) {
    |r: RowView| (r, other[place(row_keys(other), r.key)])
}

/// Rows sorted into removed, added and matched ones by their keys alone.
pub open spec fn classified(left: Seq<RowView>, right: Seq<RowView>) -> Found {
    Found {
        removed: left.filter(has_no_match(right)),
        added: right.filter(has_no_match(left)),
        matched: left.filter(has_match(right)).map_values(paired(right)),
    }
}

/// What was found, and then more.
pub open spec fn and_more(a: Found, b: Found) -> Found {
    Found {
        removed: a.removed + b.removed,
        added: a.added + b.added,
        matched: a.matched + b.matched,
    }
}

/// A filter, one element shorter at the front.
pub proof fn lemma_filter_first<A>(s: Seq<A>, p: spec_fn(A) -> bool)
    requires
        s.len() > 0,
    ensures
        s.filter(p) == (if p(s[0]) {
            seq![s[0]] + s.drop_first().filter(p)
        } else {
            s.drop_first().filter(p)
        }),
    decreases s.len(),
{
    reveal(Seq::filter);
    let rest = s.drop_first();
    if s.len() == 1 {
        assert(s.drop_last() =~= seq![]);
        assert(rest =~= seq![]);
        assert(s.drop_last().filter(p) =~= seq![]);
        assert(s.filter(p) =~= (if p(s[0]) {
            seq![s[0]]
        } else {
            seq![]
        }));
        assert(rest.filter(p) =~= seq![]);
        assert(seq![s[0]] + rest.filter(p) =~= seq![s[0]]);
    } else {
        lemma_filter_first(s.drop_last(), p);
        assert(s.drop_last().drop_first() =~= rest.drop_last());
        assert(s.drop_last()[0] == s[0]);
        assert(s.last() == rest.last());
        assert(s.filter(p) =~= (if p(s[0]) {
            seq![s[0]] + rest.filter(p)
        } else {
            rest.filter(p)
        }));
    }
}

/// Predicates that agree on a sequence filter it alike.
pub proof fn lemma_filter_agree<A>(s: Seq<A>, p: spec_fn(A) -> bool, q: spec_fn(A) -> bool)
    requires
        forall|i: int| 0 <= i < s.len() ==> p(#[trigger] s[i]) == q(s[i]),
    ensures
        s.filter(p) == s.filter(q),
    decreases s.len(),
{
    reveal(Seq::filter);
    if s.len() > 0 {
        let less = s.drop_last();
        assert forall|i: int| 0 <= i < less.len() implies p(#[trigger] less[i]) == q(less[i]) by {
            assert(less[i] == s[i]);
        }
        lemma_filter_agree(less, p, q);
        assert(s.last() == s[s.len() - 1]);
    } else {
        assert(s.filter(p) =~= s.filter(q));
    }
}

/// Every element that a filter keeps is accepted.
proof fn lemma_filter_accepts<A>(s: Seq<A>, p: spec_fn(A) -> bool)
    ensures
        forall|i: int| 0 <= i < s.filter(p).len() ==> p(#[trigger] s.filter(p)[i]) && s.contains(s.filter(p)[i]),
{
    crate::schema_diff::lemma_filter_keeps(s, p);
}

/// A key is the first row's, or one of the others'.
proof fn lemma_keys_first(rows: Seq<RowView>, key: Seq<u8>)
    requires
        rows.len() > 0,
    ensures
        row_keys(rows).contains(key) <==> rows[0].key == key || row_keys(rows.drop_first()).contains(key),
        rows[0].key != key ==> place(row_keys(rows), key) == 1 + place(
            row_keys(rows.drop_first()),
            key,
        ),
        rows[0].key == key ==> place(row_keys(rows), key) == 0,
{
    let all = row_keys(rows);
    let rest = row_keys(rows.drop_first());
    assert(all.drop_first() =~= rest);
    lemma_place(all, key);
    lemma_place(rest, key);
}

/// A key before all of a side's keys is not among them.
proof fn lemma_key_not_there(rows: Seq<RowView>, r: RowView)
    requires
        ascending(rows),
        rows.len() == 0 || row_order(r, rows[0]) < 0,
    ensures
        !row_keys(rows).contains(r.key),
{
    if row_keys(rows).contains(r.key) {
        let i = choose|i: int| 0 <= i < row_keys(rows).len() && row_keys(rows)[i] == r.key;
        law_byte_order_total(r.key, rows[i].key);
        if i > 0 {
            assert(row_order(rows[0], rows[i]) < 0);
            law_byte_order_transitive(r.key, rows[0].key, rows[i].key);
        }
    }
}

/// The first row's key is not among those of the rows after it.
proof fn lemma_first_not_after(rows: Seq<RowView>)
    requires
        ascending(rows),
        rows.len() > 0,
    ensures
        ascending(rows.drop_first()),
        !row_keys(rows.drop_first()).contains(rows[0].key),
{
    let rest = rows.drop_first();
    assert forall|i: int, j: int| 0 <= i < j < rest.len() implies row_order(
        #[trigger] rest[i],
        #[trigger] rest[j],
    ) < 0 by {
        assert(row_order(rows[i + 1], rows[j + 1]) < 0);
    }
    if rest.len() > 0 {
        assert(row_order(rows[0], rows[1]) < 0);
        assert(rest[0] == rows[1]);
    }
    lemma_key_not_there(rest, rows[0]);
}

/// A row that is only on the left comes first.
proof fn lemma_classify_left(left: Seq<RowView>, right: Seq<RowView>)
    requires
        ascending(left),
        left.len() > 0,
        !row_keys(right).contains(left[0].key),
    ensures
        classified(left, right) == and_more(
            Found { removed: seq![left[0]], added: seq![], matched: seq![] },
            classified(left.drop_first(), right),
        ),
{
    let rest = left.drop_first();
    let all = classified(left, right);
    let less = classified(rest, right);
    lemma_filter_first(left, has_no_match(right));
    lemma_filter_first(left, has_match(right));
    assert forall|i: int| 0 <= i < right.len() implies has_no_match(left)(#[trigger] right[i])
        == has_no_match(rest)(right[i]) by {
        lemma_keys_first(left, right[i].key);
        assert(row_keys(right)[i] == right[i].key);
    }
    lemma_filter_agree(right, has_no_match(left), has_no_match(rest));
    assert(all.added =~= Seq::<RowView>::empty() + less.added);
    assert(all.matched =~= Seq::<(RowView, RowView)>::empty() + less.matched);
    assert(all.removed =~= seq![left[0]] + less.removed);
}

/// What a row is matched with does not depend on rows before it that have
/// other keys.
proof fn lemma_pair_after_first(rows: Seq<RowView>, r: RowView)
    requires
        rows.len() > 0,
        rows[0].key != r.key,
    ensures
        has_match(rows)(r) == has_match(rows.drop_first())(r),
        has_no_match(rows)(r) == has_no_match(rows.drop_first())(r),
        has_match(rows)(r) ==> paired(rows)(r) == paired(rows.drop_first())(r),
{
    let rest = rows.drop_first();
    lemma_keys_first(rows, r.key);
    lemma_place(row_keys(rest), r.key);
}

/// A row that is only on the right comes first.
proof fn lemma_classify_right(left: Seq<RowView>, right: Seq<RowView>)
    requires
        ascending(right),
        right.len() > 0,
        !row_keys(left).contains(right[0].key),
    ensures
        classified(left, right) == and_more(
            Found { removed: seq![], added: seq![right[0]], matched: seq![] },
            classified(left, right.drop_first()),
        ),
{
    let rest = right.drop_first();
    let all = classified(left, right);
    let less = classified(left, rest);
    lemma_filter_first(right, has_no_match(left));
    assert forall|i: int| 0 <= i < left.len() implies has_no_match(right)(#[trigger] left[i])
        == has_no_match(rest)(left[i]) && has_match(right)(left[i]) == has_match(rest)(left[i])
        && (has_match(rest)(left[i]) ==> paired(right)(left[i]) == paired(rest)(left[i])) by {
        assert(row_keys(left)[i] == left[i].key);
        lemma_pair_after_first(right, left[i]);
    }
    lemma_filter_agree(left, has_no_match(right), has_no_match(rest));
    lemma_filter_agree(left, has_match(right), has_match(rest));
    let kept = left.filter(has_match(rest));
    lemma_filter_accepts(left, has_match(rest));
    assert forall|i: int| 0 <= i < kept.len() implies #[trigger] all.matched[i] == less.matched[i] by {
        assert(has_match(rest)(kept[i]));
        let j = choose|j: int| 0 <= j < left.len() && left[j] == kept[i];
        assert(paired(right)(left[j]) == paired(rest)(left[j]));
    }
    assert(all.added =~= seq![right[0]] + less.added);
    assert(all.matched =~= Seq::<(RowView, RowView)>::empty() + less.matched);
    assert(all.removed =~= Seq::<RowView>::empty() + less.removed);
}

/// Rows with the same key come first on both sides.
proof fn lemma_classify_both(left: Seq<RowView>, right: Seq<RowView>)
    requires
        ascending(left),
        ascending(right),
        left.len() > 0,
        right.len() > 0,
        left[0].key == right[0].key,
    ensures
        classified(left, right) == and_more(
            Found { removed: seq![], added: seq![], matched: seq![(left[0], right[0])] },
            classified(left.drop_first(), right.drop_first()),
        ),
{
    let l = left.drop_first();
    let r = right.drop_first();
    let all = classified(left, right);
    let less = classified(l, r);
    lemma_first_not_after(left);
    lemma_first_not_after(right);
    lemma_keys_first(right, left[0].key);
    lemma_keys_first(left, right[0].key);
    lemma_filter_first(left, has_no_match(right));
    lemma_filter_first(left, has_match(right));
    lemma_filter_first(right, has_no_match(left));
    assert forall|i: int| 0 <= i < l.len() implies has_no_match(right)(#[trigger] l[i]) == has_no_match(r)(
        l[i],
    ) && has_match(right)(l[i]) == has_match(r)(l[i]) && (has_match(r)(l[i]) ==> paired(right)(l[i])
        == paired(r)(l[i])) by {
        assert(row_keys(l)[i] == l[i].key);
        lemma_pair_after_first(right, l[i]);
    }
    assert forall|i: int| 0 <= i < r.len() implies has_no_match(left)(#[trigger] r[i]) == has_no_match(l)(
        r[i],
    ) by {
        assert(row_keys(r)[i] == r[i].key);
        lemma_pair_after_first(left, r[i]);
    }
    lemma_filter_agree(l, has_no_match(right), has_no_match(r));
    lemma_filter_agree(l, has_match(right), has_match(r));
    lemma_filter_agree(r, has_no_match(left), has_no_match(l));
    let kept = l.filter(has_match(r));
    lemma_filter_accepts(l, has_match(r));
    assert(paired(right)(left[0]) == (left[0], right[0]));
    assert forall|i: int| 0 <= i < kept.len() implies paired(right)(#[trigger] kept[i]) == paired(r)(kept[i]) by {
        assert(has_match(r)(kept[i]));
        let j = choose|j: int| 0 <= j < l.len() && l[j] == kept[i];
        assert(paired(right)(l[j]) == paired(r)(l[j]));
    }
    assert(left.filter(has_match(right)) =~= seq![left[0]] + kept);
    assert(all.matched =~= seq![(left[0], right[0])] + less.matched);
    assert(all.added =~= Seq::<RowView>::empty() + less.added);
    assert(all.removed =~= Seq::<RowView>::empty() + less.removed);
}

/// A stream that has been read to its end.
pub open spec fn finished(s: SourceView) -> SourceView {
    SourceView {
        rest: seq![],
        consumed: if s.rest.len() > 0 {
            (s.consumed + s.rest.len() - 1) as nat
        } else {
            s.consumed
        },
        ..s
    }
}

proof fn lemma_advance_ascending(s: SourceView)
    requires
        ascending(s.rest),
        s.rest.len() > 0,
    ensures
        advance_error(s) is None,
        advanced(s).rest == s.rest.drop_first(),
        ascending(advanced(s).rest),
        finished(advanced(s)) == finished(s),
        advanced(s).codec == s.codec,
        advanced(s).label == s.label,
        advanced(s).validate_order == s.validate_order,
{
    lemma_first_not_after(s.rest);
    assert(s.rest.skip(1) =~= s.rest.drop_first());
    if s.rest.len() > 1 {
        assert(row_order(s.rest[0], s.rest[1]) < 0);
        law_byte_order_total(s.rest[0].key, s.rest[1].key);
    }
}

proof fn lemma_and_more(a: Found, b: Found, c: Found)
    ensures
        and_more(and_more(a, b), c) == and_more(a, and_more(b, c)),
{
    let x = and_more(and_more(a, b), c);
    let y = and_more(a, and_more(b, c));
    assert(x.removed =~= y.removed);
    assert(x.added =~= y.added);
    assert(x.matched =~= y.matched);
}

/// Where no key occurs twice on a side and no limit stops the scan, the rows
/// that are reported as removed are those whose key only the left has, the
/// added ones those whose key only the right has, and every other row is
/// compared with the one row of the other side that has its key.
pub proof fn law_rows_are_classified_by_key(
    rules: KeyedRules,
    left: SourceView,
    right: SourceView,
    found: Found,
)
    requires
        rules.limit is None,
        ascending(left.rest),
        ascending(right.rest),
    ensures
        keyed_walk(rules, left, right, found) == (KeyedEnd::Done {
            left: finished(left),
            right: finished(right),
            found: and_more(found, classified(left.rest, right.rest)),
            truncated: false,
        }),
    decreases left.rest.len() + right.rest.len(),
{
    let l = left.rest;
    let r = right.rest;
    if l.len() > 0 {
        lemma_advance_ascending(left);
    }
    if r.len() > 0 {
        lemma_advance_ascending(right);
    }
    if l.len() == 0 && r.len() == 0 {
        reveal(Seq::filter);
        let c = classified(l, r);
        assert(and_more(found, c).removed =~= found.removed);
        assert(and_more(found, c).added =~= found.added);
        assert(and_more(found, c).matched =~= found.matched);
        assert(left.rest =~= seq![]);
        assert(right.rest =~= seq![]);
    } else if r.len() == 0 || (l.len() > 0 && row_order(l[0], r[0]) < 0) {
        lemma_key_not_there(r, l[0]);
        lemma_classify_left(l, r);
        let one = Found { removed: seq![l[0]], added: seq![], matched: seq![] };
        let f = Found { removed: found.removed.push(l[0]), ..found };
        assert(f.removed =~= and_more(found, one).removed);
        assert(f.added =~= and_more(found, one).added);
        assert(f.matched =~= and_more(found, one).matched);
        law_rows_are_classified_by_key(rules, advanced(left), right, f);
        lemma_and_more(found, one, classified(l.drop_first(), r));
    } else if l.len() == 0 || row_order(l[0], r[0]) > 0 {
        if l.len() > 0 {
            law_byte_order_total(l[0].key, r[0].key);
        }
        lemma_key_not_there(l, r[0]);
        lemma_classify_right(l, r);
        let one = Found { removed: seq![], added: seq![r[0]], matched: seq![] };
        let f = Found { added: found.added.push(r[0]), ..found };
        assert(f.removed =~= and_more(found, one).removed);
        assert(f.added =~= and_more(found, one).added);
        assert(f.matched =~= and_more(found, one).matched);
        law_rows_are_classified_by_key(rules, left, advanced(right), f);
        lemma_and_more(found, one, classified(l, r.drop_first()));
    } else {
        law_byte_order_total(l[0].key, r[0].key);
        lemma_classify_both(l, r);
        let one = Found { removed: seq![], added: seq![], matched: seq![(l[0], r[0])] };
        let f = Found { matched: found.matched.push((l[0], r[0])), ..found };
        assert(f.removed =~= and_more(found, one).removed);
        assert(f.added =~= and_more(found, one).added);
        assert(f.matched =~= and_more(found, one).matched);
        law_rows_are_classified_by_key(rules, advanced(left), advanced(right), f);
        lemma_and_more(found, one, classified(l.drop_first(), r.drop_first()));
    }
}

/// A row repeats the key of the row before it, or, where the order is
/// verified, comes after one with a greater key.
pub open spec fn is_flaw(s: SourceView, i: int) -> bool {
    &&& 0 < i < s.rest.len()
    &&& s.rest[i - 1].key == s.rest[i].key || (s.validate_order && row_order(s.rest[i], s.rest[i - 1])
        < 0)
}

pub open spec fn is_flawed(s: SourceView) -> bool {
    exists|i: int| is_flaw(s, i)
}

proof fn lemma_flaw_moves(s: SourceView)
    requires
        s.rest.len() > 0,
    ensures
        advance_error(s) is Some ==> is_flawed(s),
        advance_error(s) is None ==> is_flawed(s) == is_flawed(advanced(s)),
{
    let next = advanced(s);
    if advance_error(s) is Some {
        assert(is_flaw(s, 1));
    } else {
        if is_flawed(s) {
            let i = choose|i: int| is_flaw(s, i);
            assert(i != 1);
            assert(is_flaw(next, i - 1));
        }
        if is_flawed(next) {
            let i = choose|i: int| is_flaw(next, i);
            assert(is_flaw(s, i + 1));
        }
    }
}

/// Without a limit, a scan fails exactly where a side repeats a key or, where
/// the order is verified, is not sorted.
pub proof fn law_flawed_sides_are_refused(
    rules: KeyedRules,
    left: SourceView,
    right: SourceView,
    found: Found,
)
    requires
        rules.limit is None,
    ensures
        keyed_walk(rules, left, right, found) is Failed <==> is_flawed(left) || is_flawed(right),
    decreases left.rest.len() + right.rest.len(),
{
    if left.rest.len() > 0 {
        lemma_flaw_moves(left);
    }
    if right.rest.len() > 0 {
        lemma_flaw_moves(right);
    }
    match keyed_step(rules, left, right, found) {
        KeyedStep::More { left: l, right: r, found: f } => {
            law_flawed_sides_are_refused(rules, l, r, f);
        },
        _ => {},
    }
}

/// A side whose order is not verified is refused only for a key that it
/// repeats, and the error names the key columns and the side.
pub proof fn law_refusal_names_the_side(
    rules: KeyedRules,
    left: SourceView,
    right: SourceView,
    found: Found,
)
    requires
        !left.validate_order,
        !right.validate_order,
    ensures
        keyed_walk(rules, left, right, found) matches KeyedEnd::Failed(e) ==> (e matches ErrorView::NotUnique {
            columns,
            label,
            ..
        } && (columns == left.codec.cols && label == left.label || columns == right.codec.cols && label
            == right.label)),
    decreases left.rest.len() + right.rest.len(),
{
    match keyed_step(rules, left, right, found) {
        KeyedStep::More { left: l, right: r, found: f } => {
            lemma_step_shrinks(rules, left, right, found);
            law_refusal_names_the_side(rules, l, r, f);
        },
        _ => {},
    }
}

/// Sorted rows repeat no key exactly where they are all distinct.
pub proof fn law_sorted_rows_are_flawed_by_duplicates(s: SourceView)
    requires
        in_order(s.rest),
    ensures
        is_flawed(s) <==> !ascending(s.rest),
{
    if is_flawed(s) {
        let i = choose|i: int| is_flaw(s, i);
        assert(row_order(s.rest[i - 1], s.rest[i]) <= 0);
        law_byte_order_total(s.rest[i - 1].key, s.rest[i].key);
    } else {
        assert forall|i: int, j: int| 0 <= i < j < s.rest.len() implies row_order(
            #[trigger] s.rest[i],
            #[trigger] s.rest[j],
        ) < 0 by {
            assert(!is_flaw(s, i + 1));
            assert(row_order(s.rest[i], s.rest[i + 1]) <= 0);
            assert(row_order(s.rest[i + 1], s.rest[j]) <= 0);
            law_byte_order_total(s.rest[i].key, s.rest[i + 1].key);
            law_byte_order_transitive(s.rest[i].key, s.rest[i + 1].key, s.rest[j].key);
        }
    }
}

proof fn lemma_filter_grows<A>(a: Seq<A>, b: Seq<A>, p: spec_fn(A) -> bool)
    requires
        a.is_prefix_of(b),
    ensures
        a.filter(p).len() <= b.filter(p).len(),
    decreases b.len(),
{
    reveal(Seq::filter);
    if a.len() < b.len() {
        assert(a.is_prefix_of(b.drop_last()));
        lemma_filter_grows(a, b.drop_last(), p);
    } else {
        assert(a =~= b);
    }
}

/// One step finds at most one difference, and forgets nothing.
proof fn lemma_step_finds_one(rules: KeyedRules, left: SourceView, right: SourceView, found: Found)
    ensures
        keyed_step(rules, left, right, found) matches KeyedStep::More { left: l, right: r, found: f }
            ==> is_part(found, f) && differences(rules, f) <= differences(rules, found) + 1,
{
    match keyed_step(rules, left, right, found) {
        KeyedStep::More { left: l, right: r, found: f } => {
            reveal(Seq::filter);
            if f.matched != found.matched {
                assert(f.matched.drop_last() =~= found.matched);
            }
        },
        _ => {},
    }
}

/// What was found is the start of what was found in the end.
pub open spec fn is_part(a: Found, b: Found) -> bool {
    &&& a.removed.is_prefix_of(b.removed)
    &&& a.added.is_prefix_of(b.added)
    &&& a.matched.is_prefix_of(b.matched)
}

/// A scan forgets nothing.
proof fn lemma_walk_keeps(rules: KeyedRules, left: SourceView, right: SourceView, found: Found)
    ensures
        keyed_walk(rules, left, right, found) matches KeyedEnd::Done { found: f, .. } ==> is_part(
            found,
            f,
        ),
    decreases left.rest.len() + right.rest.len(),
{
    match keyed_step(rules, left, right, found) {
        KeyedStep::More { left: l, right: r, found: f } => {
            lemma_step_finds_one(rules, left, right, found);
            lemma_walk_keeps(rules, l, r, f);
            match keyed_walk(rules, left, right, found) {
                KeyedEnd::Done { found: g, .. } => {
                    assert(is_part(f, g));
                    lemma_part_of_part(found, f, g);
                },
                _ => {},
            }
        },
        _ => {},
    }
}

proof fn lemma_part_of_part(a: Found, b: Found, c: Found)
    requires
        is_part(a, b),
        is_part(b, c),
    ensures
        is_part(a, c),
{
    assert forall|i: int| 0 <= i < a.removed.len() implies a.removed[i] == c.removed[i] by {
        assert(b.removed[i] == a.removed[i]);
    }
    assert forall|i: int| 0 <= i < a.added.len() implies a.added[i] == c.added[i] by {
        assert(b.added[i] == a.added[i]);
    }
    assert forall|i: int| 0 <= i < a.matched.len() implies a.matched[i] == c.matched[i] by {
        assert(b.matched[i] == a.matched[i]);
    }
    assert(a.removed =~= c.removed.subrange(0, a.removed.len() as int));
    assert(a.added =~= c.added.subrange(0, a.added.len() as int));
    assert(a.matched =~= c.matched.subrange(0, a.matched.len() as int));
}

/// A scan with a limit stops as soon as it has found that many differences,
/// and is then marked as truncated. What it found is the start of what a scan
/// without the limit finds, so its counts are lower bounds; a scan that did
/// not stop finds the same.
pub proof fn law_limit_truncates(rules: KeyedRules, left: SourceView, right: SourceView, found: Found)
    requires
        rules.limit matches Some(n) && differences(rules, found) <= n,
    ensures
        ({
            let all = keyed_walk(KeyedRules { limit: None, ..rules }, left, right, found);
            match keyed_walk(rules, left, right, found) {
                KeyedEnd::Done { left: l, right: r, found: f, truncated } => {
                    &&& truncated <==> differences(rules, f) == rules.limit->0
                    &&& differences(rules, f) <= rules.limit->0
                    &&& truncated ==> (all matches KeyedEnd::Done { found: g, .. } ==> is_part(f, g)
                        && differences(rules, f) <= differences(rules, g))
                    &&& !truncated ==> all == (KeyedEnd::Done {
                        left: l,
                        right: r,
                        found: f,
                        truncated: false,
                    })
                },
                KeyedEnd::Failed(e) => all == KeyedEnd::Failed(e),
            }
        }),
    decreases left.rest.len() + right.rest.len(),
{
    let free = KeyedRules { limit: None, ..rules };
    if limit_reached(rules.limit, differences(rules, found)) {
        lemma_walk_keeps(free, left, right, found);
        match keyed_walk(free, left, right, found) {
            KeyedEnd::Done { found: g, .. } => {
                lemma_filter_grows(found.matched, g.matched, is_modified(rules));
                assert(found.removed.len() <= g.removed.len());
                assert(found.added.len() <= g.added.len());
            },
            _ => {},
        }
    } else {
        assert(keyed_step(rules, left, right, found) == keyed_step(free, left, right, found));
        match keyed_step(rules, left, right, found) {
            KeyedStep::More { left: l, right: r, found: f } => {
                lemma_step_finds_one(rules, left, right, found);
                law_limit_truncates(rules, l, r, f);
            },
            _ => {},
        }
    }
}

/// Rows with distinct keys have one sorted order.
pub proof fn law_sorted_order_is_unique(a: Seq<RowView>, b: Seq<RowView>)
    requires
        ascending(a),
        in_order(b),
        same_rows(a, b),
    ensures
        a == b,
    decreases a.len(),
{
    broadcast use vstd::seq_lib::group_to_multiset_ensures;

    assert(a.to_multiset().len() == a.len());
    assert(b.to_multiset().len() == b.len());
    if a.len() > 0 {
        lemma_same_rows_contains(b, a, b[0]);
        lemma_same_rows_contains(a, b, a[0]);
        let k = choose|k: int| 0 <= k < a.len() && a[k] == b[0];
        let j = choose|j: int| 0 <= j < b.len() && b[j] == a[0];
        assert(row_order(b[0], b[j]) <= 0);
        law_byte_order_total(a[0].key, b[0].key);
        if k > 0 {
            assert(row_order(a[0], a[k]) < 0);
        }
        assert(a[0] == b[0]);
        let x = a.drop_first();
        let y = b.drop_first();
        lemma_first_not_after(a);
        assert forall|i: int, j: int| 0 <= i <= j < y.len() implies row_order(
            #[trigger] y[i],
            #[trigger] y[j],
        ) <= 0 by {
            assert(row_order(b[i + 1], b[j + 1]) <= 0);
        }
        assert(a.remove(0) =~= x);
        assert(b.remove(0) =~= y);
        assert(x.to_multiset() =~= a.to_multiset().remove(a[0]));
        assert(y.to_multiset() =~= b.to_multiset().remove(b[0]));
        law_sorted_order_is_unique(x, y);
        assert(a =~= seq![a[0]] + x);
        assert(b =~= seq![b[0]] + y);
    } else {
        assert(a =~= b);
    }
}

/// Sorted rows with distinct keys are ascending, however they came.
pub proof fn law_distinct_keys_sort_ascending(sorted: Seq<RowView>, rows: Seq<RowView>)
    requires
        sorts(sorted, rows),
        row_keys(rows).no_duplicates(),
    ensures
        ascending(sorted),
{
    broadcast use vstd::seq_lib::group_to_multiset_ensures;

    assert(rows.no_duplicates()) by {
        assert forall|i: int, j: int| 0 <= i < rows.len() && 0 <= j < rows.len() && i != j implies rows[i]
            != rows[j] by {
            assert(row_keys(rows)[i] != row_keys(rows)[j]);
        }
    }
    rows.lemma_multiset_has_no_duplicates();
    sorted.lemma_multiset_has_no_duplicates_conv();
    assert forall|i: int, j: int| 0 <= i < j < sorted.len() implies row_order(
        #[trigger] sorted[i],
        #[trigger] sorted[j],
    ) < 0 by {
        assert(row_order(sorted[i], sorted[j]) <= 0);
        law_byte_order_total(sorted[i].key, sorted[j].key);
        assert(sorted[i] != sorted[j]);
        lemma_same_rows_contains(sorted, rows, sorted[i]);
        lemma_same_rows_contains(sorted, rows, sorted[j]);
        let x = choose|x: int| 0 <= x < rows.len() && rows[x] == sorted[i];
        let y = choose|y: int| 0 <= y < rows.len() && rows[y] == sorted[j];
        assert(row_keys(rows)[x] != row_keys(rows)[y]);
    }
}

/// The same rows on both sides all match themselves.
proof fn lemma_classify_same(rows: Seq<RowView>)
    ensures
        classified(rows, rows).removed.len() == 0,
        classified(rows, rows).added.len() == 0,
{
    assert forall|i: int| 0 <= i < rows.len() implies !has_no_match(rows)(#[trigger] rows[i]) by {
        assert(row_keys(rows)[i] == rows[i].key);
    }
    let none = rows.filter(has_no_match(rows));
    lemma_filter_accepts(rows, has_no_match(rows));
    if none.len() > 0 {
        assert(has_no_match(rows)(none[0]));
        let j = choose|j: int| 0 <= j < rows.len() && rows[j] == none[0];
        assert(!has_no_match(rows)(rows[j]));
    }
}

/// A row has no changes against itself.
proof fn lemma_no_changes(rules: KeyedRules, row: RowView)
    requires
        forall|i: int| 0 <= i < rules.cols.len() ==> (#[trigger] rules.cols[i]).left == rules.cols[i].right,
    ensures
        changes(rules, row, row).len() == 0,
{
    let p = differs(rules.comparator, row, row);
    lemma_filter_accepts(rules.cols, p);
    let found = rules.cols.filter(p);
    if found.len() > 0 {
        let c = found[0];
        assert(p(c));
        let j = choose|j: int| 0 <= j < rules.cols.len() && rules.cols[j] == c;
        assert(rules.cols[j].left == rules.cols[j].right);
        law_matching_is_reflexive(rules.comparator, row.cells[c.left]);
    }
}

proof fn lemma_no_tally(rules: KeyedRules, matched: Seq<(RowView, RowView)>)
    requires
        forall|i: int|
            0 <= i < matched.len() ==> changes(rules, (#[trigger] matched[i]).0, matched[i].1).len() == 0,
    ensures
        column_tally(rules, matched) == Seq::<CountView>::empty(),
    decreases matched.len(),
{
    if matched.len() > 0 {
        let less = matched.drop_last();
        assert forall|i: int| 0 <= i < less.len() implies changes(
            rules,
            (#[trigger] less[i]).0,
            less[i].1,
        ).len() == 0 by {
            assert(less[i] == matched[i]);
        }
        lemma_no_tally(rules, less);
        assert(matched[matched.len() - 1] == matched.last());
    }
}

/// Rows with distinct keys differ from themselves in nothing, whatever the
/// tolerances.
pub proof fn law_same_rows_have_no_differences(rules: KeyedRules, rows: Seq<RowView>)
    requires
        ascending(rows),
        forall|i: int| 0 <= i < rules.cols.len() ==> (#[trigger] rules.cols[i]).left == rules.cols[i].right,
    ensures
        differences(rules, classified(rows, rows)) == 0,
        column_tally(rules, classified(rows, rows).matched) == Seq::<CountView>::empty(),
{
    lemma_classify_same(rows);
    let matched = classified(rows, rows).matched;
    let kept = rows.filter(has_match(rows));
    lemma_filter_accepts(rows, has_match(rows));
    assert forall|i: int| 0 <= i < matched.len() implies changes(
        rules,
        (#[trigger] matched[i]).0,
        matched[i].1,
    ).len() == 0 by {
        let j = choose|j: int| 0 <= j < rows.len() && rows[j] == kept[i];
        let at = place(row_keys(rows), kept[i].key);
        lemma_place(row_keys(rows), kept[i].key);
        assert(row_keys(rows)[j] == kept[i].key);
        if at != j {
            assert(row_keys(rows)[at] == rows[j].key);
            if at < j {
                assert(row_order(rows[at], rows[j]) < 0);
            } else {
                assert(row_order(rows[j], rows[at]) < 0);
            }
            law_byte_order_total(rows[at].key, rows[j].key);
            law_byte_order_total(rows[j].key, rows[at].key);
        }
        assert(matched[i] == (rows[j], rows[j]));
        lemma_no_changes(rules, rows[j]);
    }
    lemma_no_tally(rules, matched);
    let bad = matched.filter(is_modified(rules));
    lemma_filter_accepts(matched, is_modified(rules));
    if bad.len() > 0 {
        assert(is_modified(rules)(bad[0]));
        let j = choose|j: int| 0 <= j < matched.len() && matched[j] == bad[0];
        assert(changes(rules, matched[j].0, matched[j].1).len() == 0);
    }
}

/// How a scan of rows with distinct keys ends, if it is not stopped: as many
/// rows are counted as there are, however that is known.
proof fn lemma_untruncated(setup: KeyedSetup, cfg: DiffConfig, left: Seq<RowView>, right: Seq<RowView>)
    requires
        ascending(left),
        ascending(right),
    ensures
        ({
            let found = classified(left, right);
            let l = begin(setup.left, cfg.left@, left, cfg.assume_sorted);
            let r = begin(setup.right, cfg.right@, right, cfg.assume_sorted);
            match keyed_walk(setup.rules, l, r, nothing_found()) {
                KeyedEnd::Done { left: x, right: y, found: f, truncated } => {
                    &&& truncated <==> limit_reached(setup.rules.limit, differences(setup.rules, found))
                    &&& !truncated ==> {
                        &&& f == found
                        &&& row_total(x) == left.len()
                        &&& row_total(y) == right.len()
                        &&& x.codec == setup.left
                        &&& y.codec == setup.right
                    }
                },
                KeyedEnd::Failed(_) => false,
            }
        }),
{
    let found = classified(left, right);
    let free = KeyedRules { limit: None, ..setup.rules };
    let l = begin(setup.left, cfg.left@, left, cfg.assume_sorted);
    let r = begin(setup.right, cfg.right@, right, cfg.assume_sorted);
    law_rows_are_classified_by_key(free, l, r, nothing_found());
    assert(and_more(nothing_found(), found).removed =~= found.removed);
    assert(and_more(nothing_found(), found).added =~= found.added);
    assert(and_more(nothing_found(), found).matched =~= found.matched);
    match setup.rules.limit {
        None => {
            assert(free == setup.rules);
        },
        Some(n) => {
            assert(nothing_found().matched.filter(is_modified(setup.rules)).len() == 0) by {
                reveal(Seq::filter);
            }
            law_limit_truncates(setup.rules, l, r, nothing_found());
        },
    }
}

/// Tables that are sorted already give the same report whether they are taken
/// to be sorted or sorted anew, unless the scan is stopped.
pub proof fn law_assuming_sorted_changes_nothing(
    setup: KeyedSetup,
    schema: SchemaDiffView,
    inferred: bool,
    cfg: DiffConfig,
    left: Seq<RowView>,
    right: Seq<RowView>,
)
    requires
        ascending(left),
        ascending(right),
        !limit_reached(setup.rules.limit, differences(setup.rules, classified(left, right))),
    ensures
        keyed_diff(
            setup,
            schema,
            inferred,
            DiffConfig { assume_sorted: true, ..cfg },
            left,
            right,
        ) == keyed_diff(
            setup,
            schema,
            inferred,
            DiffConfig { assume_sorted: false, ..cfg },
            left,
            right,
        ),
{
    lemma_untruncated(setup, DiffConfig { assume_sorted: true, ..cfg }, left, right);
    lemma_untruncated(setup, DiffConfig { assume_sorted: false, ..cfg }, left, right);
}

/// Tables that are not sorted by the key are refused where they are taken to
/// be, if the scan is not stopped before.
pub proof fn law_unsorted_rows_are_refused(
    setup: KeyedSetup,
    schema: SchemaDiffView,
    inferred: bool,
    cfg: DiffConfig,
    left: Seq<RowView>,
    right: Seq<RowView>,
)
    requires
        cfg.assume_sorted,
        setup.rules.limit is None,
        !in_order(left) || !in_order(right),
    ensures
        keyed_diff(setup, schema, inferred, cfg, left, right) is Err,
{
    let l = begin(setup.left, cfg.left@, left, true);
    let r = begin(setup.right, cfg.right@, right, true);
    if !in_order(left) {
        lemma_disorder_is_flaw(l);
    } else {
        lemma_disorder_is_flaw(r);
    }
    law_flawed_sides_are_refused(setup.rules, l, r, nothing_found());
}

proof fn lemma_disorder_is_flaw(s: SourceView)
    requires
        s.validate_order,
        !in_order(s.rest),
    ensures
        is_flawed(s),
{
    if !is_flawed(s) {
        let (i, j) = choose|i: int, j: int|
            0 <= i <= j < s.rest.len() && row_order(#[trigger] s.rest[i], #[trigger] s.rest[j]) > 0;
        lemma_unflawed_order(s, i, j);
    }
}

proof fn lemma_unflawed_order(s: SourceView, i: int, j: int)
    requires
        s.validate_order,
        !is_flawed(s),
        0 <= i <= j < s.rest.len(),
    ensures
        row_order(s.rest[i], s.rest[j]) <= 0,
    decreases j - i,
{
    law_byte_order_total(s.rest[i].key, s.rest[i].key);
    if i < j {
        lemma_unflawed_order(s, i, j - 1);
        assert(!is_flaw(s, j));
        law_byte_order_total(s.rest[j - 1].key, s.rest[j].key);
        law_byte_order_transitive(s.rest[i].key, s.rest[j - 1].key, s.rest[j].key);
    }
}

/// A table compared with itself shows no row difference, whatever the
/// tolerances, where its keys are distinct and at least one difference is let
/// pass.
pub proof fn law_same_tables_have_no_differences(
    setup: KeyedSetup,
    schema: SchemaDiffView,
    inferred: bool,
    cfg: DiffConfig,
    rows: Seq<RowView>,
)
    requires
        ascending(rows),
        forall|i: int|
            0 <= i < setup.rules.cols.len() ==> (#[trigger] setup.rules.cols[i]).left
                == setup.rules.cols[i].right,
        setup.rules.limit != Some(0nat),
    ensures
        keyed_diff(setup, schema, inferred, cfg, rows, rows) matches Ok(report) && {
            &&& report.removed == 0
            &&& report.added == 0
            &&& report.modified == 0
            &&& report.columns_changed.len() == 0
            &&& !report.truncated
            &&& report.left_rows == rows.len()
            &&& report.right_rows == rows.len()
            &&& no_schema_change(schema) ==> !reports_differences(report)
        },
{
    law_same_rows_have_no_differences(setup.rules, rows);
    lemma_untruncated(setup, cfg, rows, rows);
}

/// The two sides of what was found, swapped.
pub open spec fn swapped(found: Found) -> Found {
    Found {
        removed: found.added,
        added: found.removed,
        matched: found.matched.map_values(|p: (RowView, RowView)| (p.1, p.0)),
    }
}

/// Swapping the two tables swaps what was removed and what was added, and
/// matches the same rows.
pub proof fn law_swapping_sides_swaps_rows(left: Seq<RowView>, right: Seq<RowView>)
    requires
        ascending(left),
        ascending(right),
    ensures
        classified(right, left) == swapped(classified(left, right)),
    decreases left.len() + right.len(),
{
    let turn = |p: (RowView, RowView)| (p.1, p.0);
    if left.len() == 0 && right.len() == 0 {
        reveal(Seq::filter);
        assert(left =~= right);
        assert(classified(right, left).matched =~= swapped(classified(left, right)).matched);
    } else if right.len() == 0 || (left.len() > 0 && row_order(left[0], right[0]) < 0) {
        lemma_key_not_there(right, left[0]);
        lemma_first_not_after(left);
        lemma_classify_left(left, right);
        lemma_classify_right(right, left);
        law_swapping_sides_swaps_rows(left.drop_first(), right);
        assert(swapped(classified(left, right)).matched =~= classified(right, left).matched);
    } else if left.len() == 0 || row_order(left[0], right[0]) > 0 {
        if left.len() > 0 {
            law_byte_order_total(left[0].key, right[0].key);
        }
        lemma_key_not_there(left, right[0]);
        lemma_first_not_after(right);
        lemma_classify_right(left, right);
        lemma_classify_left(right, left);
        law_swapping_sides_swaps_rows(left, right.drop_first());
        assert(swapped(classified(left, right)).matched =~= classified(right, left).matched);
    } else {
        law_byte_order_total(left[0].key, right[0].key);
        lemma_first_not_after(left);
        lemma_first_not_after(right);
        lemma_classify_both(left, right);
        lemma_classify_both(right, left);
        law_swapping_sides_swaps_rows(left.drop_first(), right.drop_first());
        assert(swapped(classified(left, right)).matched =~= classified(right, left).matched);
    }
}

/// The compared columns with their sides swapped.
pub open spec fn swapped_rules(rules: KeyedRules) -> KeyedRules {
    KeyedRules {
        cols: rules.cols.map_values(
            |c: ValueColView| ValueColView { name: c.name, left: c.right, right: c.left },
        ),
        ..rules
    }
}

proof fn lemma_swapped_changes(rules: KeyedRules, l: RowView, r: RowView)
    ensures
        changes(swapped_rules(rules), r, l).len() == changes(rules, l, r).len(),
    decreases rules.cols.len(),
{
    reveal(Seq::filter);
    let back = swapped_rules(rules);
    if rules.cols.len() > 0 {
        let less = KeyedRules { cols: rules.cols.drop_last(), ..rules };
        lemma_swapped_changes(less, l, r);
        assert(swapped_rules(less).cols =~= back.cols.drop_last());
        let c = rules.cols.last();
        law_matching_is_symmetric(rules.comparator, l.cells[c.left], r.cells[c.right]);
        assert(back.cols.last() == (ValueColView { name: c.name, left: c.right, right: c.left }));
    }
}

/// Swapping the two tables leaves the number of row differences as it is.
pub proof fn law_swapping_sides_keeps_count(rules: KeyedRules, found: Found)
    ensures
        differences(swapped_rules(rules), swapped(found)) == differences(rules, found),
    decreases found.matched.len(),
{
    reveal(Seq::filter);
    if found.matched.len() > 0 {
        let less = Found { matched: found.matched.drop_last(), ..found };
        law_swapping_sides_keeps_count(rules, less);
        let p = found.matched.last();
        lemma_swapped_changes(rules, p.0, p.1);
        assert(swapped(less).matched =~= swapped(found).matched.drop_last());
        assert(swapped(found).matched.last() == (p.1, p.0));
    }
}

/// Rows that the other side has with the same key and with changes.
pub open spec fn is_changed(rules: KeyedRules, other: Seq<RowView>) -> spec_fn(RowView) -> bool {
    |r: RowView| has_match(other)(r) && changes(rules, r, paired(other)(r).1).len() > 0
}

/// The matched pairs that are modified are those of the left rows that are
/// changed.
pub proof fn lemma_modified_rows(rules: KeyedRules, left: Seq<RowView>, right: Seq<RowView>)
    ensures
        left.filter(has_match(right)).map_values(paired(right)).filter(is_modified(rules)).len()
            == left.filter(is_changed(rules, right)).len(),
        left.filter(has_match(right)).map_values(paired(right)).filter(is_modified(rules)) == left.filter(
            is_changed(rules, right),
        ).map_values(paired(right)),
    decreases left.len(),
{
    reveal(Seq::filter);
    if left.len() > 0 {
        let less = left.drop_last();
        lemma_modified_rows(rules, less, right);
        let kept = less.filter(has_match(right));
        let changed = less.filter(is_changed(rules, right));
        if has_match(right)(left.last()) {
            let more = kept.push(left.last()).map_values(paired(right));
            assert(more.drop_last() =~= kept.map_values(paired(right)));
            assert(more.last() == paired(right)(left.last()));
        }
        assert(changed.push(left.last()).map_values(paired(right)) =~= changed.map_values(paired(right)).push(
            paired(right)(left.last()),
        ));
    } else {
        assert(left.filter(has_match(right)).map_values(paired(right)).filter(is_modified(rules))
            =~= left.filter(is_changed(rules, right)).map_values(paired(right)));
    }
}

/// A filter keeps equally many of the same elements.
pub proof fn lemma_filter_same<A>(a: Seq<A>, b: Seq<A>, p: spec_fn(A) -> bool)
    requires
        a.to_multiset() == b.to_multiset(),
    ensures
        a.filter(p).len() == b.filter(p).len(),
    decreases a.len(),
{
    broadcast use vstd::multiset::group_multiset_axioms;
    broadcast use vstd::seq_lib::group_to_multiset_ensures;

    assert(a.to_multiset().len() == a.len());
    assert(b.to_multiset().len() == b.len());
    if a.len() > 0 {
        assert(a.contains(a[0]));
        assert(a.to_multiset().count(a[0]) > 0);
        assert(b.contains(a[0]));
        let j = choose|j: int| 0 <= j < b.len() && b[j] == a[0];
        assert(a.remove(0) =~= a.drop_first());
        assert(a.remove(0).to_multiset() =~= a.to_multiset().remove(a[0]));
        assert(b.remove(j).to_multiset() =~= b.to_multiset().remove(b[j]));
        lemma_filter_same(a.remove(0), b.remove(j), p);
        lemma_filter_first(a, p);
        lemma_filter_removed(b, j, p);
    } else {
        assert(a =~= b);
    }
}

proof fn lemma_filter_removed<A>(s: Seq<A>, j: int, p: spec_fn(A) -> bool)
    requires
        0 <= j < s.len(),
    ensures
        s.filter(p).len() == s.remove(j).filter(p).len() + (if p(s[j]) {
            1nat
        } else {
            0nat
        }),
    decreases s.len(),
{
    reveal(Seq::filter);
    if j == s.len() - 1 {
        assert(s.remove(j) =~= s.drop_last());
    } else {
        lemma_filter_removed(s.drop_last(), j, p);
        assert(s.remove(j).drop_last() =~= s.drop_last().remove(j));
        assert(s.remove(j).last() == s.last());
    }
}

/// The same rows on the other side match the same rows.
pub proof fn lemma_match_same_rows(other: Seq<RowView>, same: Seq<RowView>, r: RowView)
    requires
        same_rows(other, same),
        ascending(other),
        row_keys(same).no_duplicates(),
    ensures
        has_match(other)(r) == has_match(same)(r),
        has_no_match(other)(r) == has_no_match(same)(r),
        has_match(other)(r) ==> paired(other)(r) == paired(same)(r),
{
    lemma_place(row_keys(other), r.key);
    lemma_place(row_keys(same), r.key);
    if has_match(other)(r) {
        let row = other[place(row_keys(other), r.key)];
        assert(row_keys(other)[place(row_keys(other), r.key)] == r.key);
        lemma_same_rows_contains(other, same, row);
        let j = choose|j: int| 0 <= j < same.len() && same[j] == row;
        assert(row_keys(same)[j] == r.key);
        assert(row_keys(same)[place(row_keys(same), r.key)] == r.key);
    }
    if has_match(same)(r) {
        let row = same[place(row_keys(same), r.key)];
        assert(row_keys(same)[place(row_keys(same), r.key)] == r.key);
        lemma_same_rows_contains(same, other, row);
        let j = choose|j: int| 0 <= j < other.len() && other[j] == row;
        assert(row_keys(other)[j] == r.key);
    }
}

/// Ascending rows have distinct keys, and so have the same rows in any order.
proof fn lemma_distinct_anyhow(sorted: Seq<RowView>, rows: Seq<RowView>)
    requires
        same_rows(sorted, rows),
        ascending(sorted),
    ensures
        row_keys(rows).no_duplicates(),
{
    broadcast use vstd::seq_lib::group_to_multiset_ensures;

    assert(sorted.no_duplicates()) by {
        assert forall|i: int, j: int|
            0 <= i < sorted.len() && 0 <= j < sorted.len() && i != j implies sorted[i] != sorted[j] by {
            law_byte_order_total(sorted[i].key, sorted[j].key);
            law_byte_order_total(sorted[j].key, sorted[i].key);
            if i < j {
                assert(row_order(sorted[i], sorted[j]) < 0);
            } else {
                assert(row_order(sorted[j], sorted[i]) < 0);
            }
        }
    }
    sorted.lemma_multiset_has_no_duplicates();
    rows.lemma_multiset_has_no_duplicates_conv();
    assert forall|i: int, j: int| 0 <= i < rows.len() && 0 <= j < rows.len() && i != j implies row_keys(
        rows,
    )[i] != row_keys(rows)[j] by {
        assert(rows[i] != rows[j]);
        lemma_same_rows_contains(rows, sorted, rows[i]);
        lemma_same_rows_contains(rows, sorted, rows[j]);
        let x = choose|x: int| 0 <= x < sorted.len() && sorted[x] == rows[i];
        let y = choose|y: int| 0 <= y < sorted.len() && sorted[y] == rows[j];
        law_byte_order_total(sorted[x].key, sorted[y].key);
        law_byte_order_total(sorted[y].key, sorted[x].key);
        if x < y {
            assert(row_order(sorted[x], sorted[y]) < 0);
        } else {
            assert(row_order(sorted[y], sorted[x]) < 0);
        }
    }
}

/// A side that was scanned to its end without an error is ascending.
proof fn lemma_scanned_ascending(s: SourceView)
    requires
        !is_flawed(s),
        s.validate_order || in_order(s.rest),
    ensures
        ascending(s.rest),
{
    if s.validate_order {
        assert(in_order(s.rest)) by {
            assert forall|i: int, j: int| 0 <= i <= j < s.rest.len() implies row_order(
                #[trigger] s.rest[i],
                #[trigger] s.rest[j],
            ) <= 0 by {
                lemma_unflawed_order(s, i, j);
            }
        }
    }
    law_sorted_rows_are_flawed_by_duplicates(s);
}

/// What a report without a limit is made of: the rows of both sides in ascending
/// order, sorted into removed, added and matched ones by their keys.
pub proof fn lemma_scan_of_report(
    left: BatchIter,
    right: BatchIter,
    key: Seq<Seq<char>>,
    inferred: bool,
    schema: SchemaDiffView,
    cfg: DiffConfig,
    comparator: Comparator,
    report: ReportView,
) -> (r: (Seq<RowView>, Seq<RowView>))
    requires
        keyed_result(left, right, key, inferred, schema, cfg, comparator, Ok(report)),
        cfg.fail_fast is None,
    ensures
        ({
            let setup = keyed_setup(key, left.schema@, right.schema@, schema, comparator, None);
            let found = classified(r.0, r.1);
            let max = cfg.max_samples as nat;
            &&& keyed_missing(key, left.schema@, right.schema@, schema) is None
            &&& ascending(r.0)
            &&& ascending(r.1)
            &&& same_rows(r.0, stream_rows(setup.left, left.batches@))
            &&& same_rows(r.1, stream_rows(setup.right, right.batches@))
            &&& row_keys(stream_rows(setup.left, left.batches@)).no_duplicates()
            &&& row_keys(stream_rows(setup.right, right.batches@)).no_duplicates()
            &&& report.columns_changed == column_tally(setup.rules, found.matched)
            &&& report.samples.removed == first(found.removed, max).map_values(key_sample(setup.left))
            &&& report.samples.added == first(found.added, max).map_values(key_sample(setup.right))
            &&& report.samples.modified == first(modified(setup.rules, found), max).map_values(
                modified_sample(setup.rules, setup.left),
            )
            &&& report.removed == found.removed.len()
            &&& report.added == found.added.len()
            &&& report.modified == modified(setup.rules, found).len()
        }),
{
    let setup = keyed_setup(key, left.schema@, right.schema@, schema, comparator, None);
    let l = stream_rows(setup.left, left.batches@);
    let r = stream_rows(setup.right, right.batches@);
    let (x, y) = choose|x: Seq<RowView>, y: Seq<RowView>|
        {
            &&& #[trigger] arranged(cfg.assume_sorted, x, l)
            &&& #[trigger] arranged(cfg.assume_sorted, y, r)
            &&& Ok::<ReportView, ErrorView>(report) == keyed_diff(setup, schema, inferred, cfg, x, y)
        };
    let xs = begin(setup.left, cfg.left@, x, cfg.assume_sorted);
    let ys = begin(setup.right, cfg.right@, y, cfg.assume_sorted);
    law_flawed_sides_are_refused(setup.rules, xs, ys, nothing_found());
    lemma_scanned_ascending(xs);
    lemma_scanned_ascending(ys);
    lemma_untruncated(setup, cfg, x, y);
    lemma_distinct_anyhow(x, l);
    lemma_distinct_anyhow(y, r);
    (x, y)
}

/// What a keyed diff without a limit reports, if it reports at all: no side has
/// two rows with the same key; the removed rows are the left ones whose key the
/// right does not have, the added rows the right ones whose key the left does
/// not have, and the modified rows the left ones that have changes against the
/// right row with their key.
pub proof fn law_keyed_report_counts(
    left: BatchIter,
    right: BatchIter,
    key: Seq<Seq<char>>,
    inferred: bool,
    schema: SchemaDiffView,
    cfg: DiffConfig,
    comparator: Comparator,
    report: ReportView,
)
    requires
        keyed_result(left, right, key, inferred, schema, cfg, comparator, Ok(report)),
        cfg.fail_fast is None,
    ensures
        ({
            let setup = keyed_setup(key, left.schema@, right.schema@, schema, comparator, None);
            let l = stream_rows(setup.left, left.batches@);
            let r = stream_rows(setup.right, right.batches@);
            &&& row_keys(l).no_duplicates()
            &&& row_keys(r).no_duplicates()
            &&& report.left_rows == l.len()
            &&& report.right_rows == r.len()
            &&& report.removed == l.filter(has_no_match(r)).len()
            &&& report.added == r.filter(has_no_match(l)).len()
            &&& report.modified == l.filter(is_changed(setup.rules, r)).len()
            &&& !report.truncated
        }),
{
    broadcast use vstd::seq_lib::group_to_multiset_ensures;

    let setup = keyed_setup(key, left.schema@, right.schema@, schema, comparator, None);
    let l = stream_rows(setup.left, left.batches@);
    let r = stream_rows(setup.right, right.batches@);
    let (x, y) = choose|x: Seq<RowView>, y: Seq<RowView>|
        {
            &&& #[trigger] arranged(cfg.assume_sorted, x, l)
            &&& #[trigger] arranged(cfg.assume_sorted, y, r)
            &&& Ok::<ReportView, ErrorView>(report) == keyed_diff(setup, schema, inferred, cfg, x, y)
        };
    let xs = begin(setup.left, cfg.left@, x, cfg.assume_sorted);
    let ys = begin(setup.right, cfg.right@, y, cfg.assume_sorted);
    law_flawed_sides_are_refused(setup.rules, xs, ys, nothing_found());
    lemma_scanned_ascending(xs);
    lemma_scanned_ascending(ys);
    lemma_untruncated(setup, cfg, x, y);
    lemma_distinct_anyhow(x, l);
    lemma_distinct_anyhow(y, r);
    assert(x.to_multiset().len() == l.to_multiset().len());
    assert(y.to_multiset().len() == r.to_multiset().len());
    lemma_modified_rows(setup.rules, x, y);
    assert forall|i: int| 0 <= i < x.len() implies has_no_match(y)(#[trigger] x[i]) == has_no_match(r)(
        x[i],
    ) && is_changed(setup.rules, y)(x[i]) == is_changed(setup.rules, r)(x[i]) by {
        lemma_match_same_rows(y, r, x[i]);
    }
    assert forall|i: int| 0 <= i < y.len() implies has_no_match(x)(#[trigger] y[i]) == has_no_match(l)(
        y[i],
    ) by {
        lemma_match_same_rows(x, l, y[i]);
    }
    lemma_filter_agree(x, has_no_match(y), has_no_match(r));
    lemma_filter_agree(x, is_changed(setup.rules, y), is_changed(setup.rules, r));
    lemma_filter_agree(y, has_no_match(x), has_no_match(l));
    lemma_filter_same(x, l, has_no_match(r));
    lemma_filter_same(x, l, is_changed(setup.rules, r));
    lemma_filter_same(y, r, has_no_match(l));
}

/// A keyed diff that sorts its sides and has no limit succeeds exactly where no
/// side has two rows with the same key; otherwise the error says so, and names
/// the key columns and the side.
pub proof fn law_keyed_diff_needs_distinct_keys(
    left: BatchIter,
    right: BatchIter,
    key: Seq<Seq<char>>,
    inferred: bool,
    schema: SchemaDiffView,
    cfg: DiffConfig,
    comparator: Comparator,
    r: Result<ReportView, ErrorView>,
)
    requires
        keyed_result(left, right, key, inferred, schema, cfg, comparator, r),
        keyed_missing(key, left.schema@, right.schema@, schema) is None,
        cfg.fail_fast is None,
        !cfg.assume_sorted,
    ensures
        ({
            let setup = keyed_setup(key, left.schema@, right.schema@, schema, comparator, None);
            let distinct = row_keys(stream_rows(setup.left, left.batches@)).no_duplicates() && row_keys(
                stream_rows(setup.right, right.batches@),
            ).no_duplicates();
            match r {
                Ok(_) => distinct,
                Err(e) => !distinct && (e matches ErrorView::NotUnique { columns, label, .. } && columns
                    == key && (label == cfg.left@ || label == cfg.right@)),
            }
        }),
{
    let setup = keyed_setup(key, left.schema@, right.schema@, schema, comparator, None);
    let l = stream_rows(setup.left, left.batches@);
    let m = stream_rows(setup.right, right.batches@);
    let (x, y) = choose|x: Seq<RowView>, y: Seq<RowView>|
        {
            &&& #[trigger] arranged(cfg.assume_sorted, x, l)
            &&& #[trigger] arranged(cfg.assume_sorted, y, m)
            &&& r == keyed_diff(setup, schema, inferred, cfg, x, y)
        };
    match r {
        Ok(report) => {
            law_keyed_report_counts(
                left,
                right,
                key,
                inferred,
                schema,
                cfg,
                comparator,
                report,
            );
        },
        Err(_) => {
            let xs = begin(setup.left, cfg.left@, x, false);
            let ys = begin(setup.right, cfg.right@, y, false);
            law_refusal_names_the_side(setup.rules, xs, ys, nothing_found());
            if row_keys(l).no_duplicates() && row_keys(m).no_duplicates() {
                law_distinct_keys_sort_ascending(x, l);
                law_distinct_keys_sort_ascending(y, m);
                lemma_untruncated(setup, cfg, x, y);
            }
        },
    }
}

/// Rows are matched by the values in their key columns, in the types that the
/// two sides agree on: two rows have the same key exactly where those values
/// are the same.
pub proof fn law_rows_match_by_key_values(
    left: BatchIter,
    right: BatchIter,
    key: Seq<Seq<char>>,
    inferred: bool,
    schema: SchemaDiffView,
    cfg: DiffConfig,
    comparator: Comparator,
    r: Result<ReportView, ErrorView>,
    b: int,
    i: int,
    c: int,
    j: int,
)
    requires
        left.wf(),
        right.wf(),
        keyed_result(left, right, key, inferred, schema, cfg, comparator, r),
        keyed_missing(key, left.schema@, right.schema@, schema) is None,
        0 <= b < left.batches@.len(),
        0 <= i < left.batches@[b].rows,
        0 <= c < right.batches@.len(),
        0 <= j < right.batches@[c].rows,
    ensures
        ({
            let setup = keyed_setup(key, left.schema@, right.schema@, schema, comparator, cfg.fail_fast);
            let x = left.batches@[b];
            let y = right.batches@[c];
            keyed_rows(setup.left, x)[i].key == keyed_rows(setup.right, y)[j].key <==> key_parts(
                x.columns@,
                setup.left.idx,
                setup.left.types,
                i,
            ) == key_parts(y.columns@, setup.right.idx, setup.right.types, j)
        }),
{
    let setup = keyed_setup(key, left.schema@, right.schema@, schema, comparator, cfg.fail_fast);
    let x = left.batches@[b];
    let y = right.batches@[c];
    let p = key_parts(x.columns@, setup.left.idx, setup.left.types, i);
    let q = key_parts(y.columns@, setup.right.idx, setup.right.types, j);
    assert(left.schema.fields.len() <= usize::MAX);
    assert(right.schema.fields.len() <= usize::MAX);
    assert(x.wf() && y.wf());
    assert forall|k: int| 0 <= k < p.len() implies part_kind(#[trigger] p[k]) == part_kind(q[k]) by {
        lemma_all_shared(left.schema@, right.schema@, twice(key), k);
        lemma_column(left.schema@, key[k]);
        lemma_column(right.schema@, key[k]);
        let u = column(left.schema@, key[k]);
        let v = column(right.schema@, key[k]);
        assert(x.columns@[u].type_shape() == left.schema@[u].data_type);
        assert(y.columns@[v].type_shape() == right.schema@[v].data_type);
        assert(x.columns@[u].wf() && y.columns@[v].wf());
        law_unified_columns_are_comparable(x.columns@[u], y.columns@[v], i, j);
    }
    assert(batch_follows_values(setup.left, x));
    law_keys_match_by_value(p, q);
}

/// Streams whose keys are distinct have one result, so how much of them was
/// sorted in memory does not show.
pub proof fn law_keyed_result_is_determined(
    left: BatchIter,
    right: BatchIter,
    key: Seq<Seq<char>>,
    inferred: bool,
    schema: SchemaDiffView,
    cfg: DiffConfig,
    comparator: Comparator,
    a: Result<ReportView, ErrorView>,
    b: Result<ReportView, ErrorView>,
)
    requires
        keyed_result(left, right, key, inferred, schema, cfg, comparator, a),
        keyed_result(left, right, key, inferred, schema, cfg, comparator, b),
        ({
            let setup = keyed_setup(key, left.schema@, right.schema@, schema, comparator, cfg.fail_fast);
            &&& row_keys(stream_rows(setup.left, left.batches@)).no_duplicates()
            &&& row_keys(stream_rows(setup.right, right.batches@)).no_duplicates()
        }),
    ensures
        a == b,
{
    if keyed_missing(key, left.schema@, right.schema@, schema) is None {
        let setup = keyed_setup(key, left.schema@, right.schema@, schema, comparator, cfg.fail_fast);
        let l = stream_rows(setup.left, left.batches@);
        let r = stream_rows(setup.right, right.batches@);
        let (x, y) = choose|x: Seq<RowView>, y: Seq<RowView>|
            {
                &&& #[trigger] arranged(cfg.assume_sorted, x, l)
                &&& #[trigger] arranged(cfg.assume_sorted, y, r)
                &&& a == keyed_diff(setup, schema, inferred, cfg, x, y)
            };
        let (v, w) = choose|v: Seq<RowView>, w: Seq<RowView>|
            {
                &&& #[trigger] arranged(cfg.assume_sorted, v, l)
                &&& #[trigger] arranged(cfg.assume_sorted, w, r)
                &&& b == keyed_diff(setup, schema, inferred, cfg, v, w)
            };
        if !cfg.assume_sorted {
            law_distinct_keys_sort_ascending(x, l);
            law_distinct_keys_sort_ascending(y, r);
            law_sorted_order_is_unique(x, v);
            law_sorted_order_is_unique(y, w);
        }
    }
}

proof fn lemma_matching_itself(rules: KeyedRules, found: Found, row: RowView)
    requires
        forall|i: int| 0 <= i < rules.cols.len() ==> (#[trigger] rules.cols[i]).left == rules.cols[i].right,
    ensures
        differences(rules, Found { matched: found.matched.push((row, row)), ..found }) == differences(
            rules,
            found,
        ),
{
    reveal(Seq::filter);
    lemma_no_changes(rules, row);
    assert(found.matched.push((row, row)).drop_last() =~= found.matched);
}

/// The first of sorted rows is the first however they were sorted, where its
/// key occurs once.
proof fn lemma_same_first(a: Seq<RowView>, b: Seq<RowView>)
    requires
        in_order(a),
        in_order(b),
        same_rows(a, b),
        a.len() > 0,
        a.len() > 1 ==> a[0].key != a[1].key,
    ensures
        b.len() == a.len(),
        b[0] == a[0],
        in_order(a.drop_first()),
        in_order(b.drop_first()),
        same_rows(a.drop_first(), b.drop_first()),
{
    broadcast use vstd::multiset::group_multiset_axioms;
    broadcast use vstd::seq_lib::group_to_multiset_ensures;

    assert(a.to_multiset().len() == a.len());
    assert(b.to_multiset().len() == b.len());
    lemma_same_rows_contains(b, a, b[0]);
    lemma_same_rows_contains(a, b, a[0]);
    let k = choose|k: int| 0 <= k < a.len() && a[k] == b[0];
    let j = choose|j: int| 0 <= j < b.len() && b[j] == a[0];
    assert(row_order(b[0], b[j]) <= 0);
    law_byte_order_total(a[0].key, b[0].key);
    if k > 0 {
        assert(row_order(a[0], a[1]) <= 0);
        assert(row_order(a[1], a[k]) <= 0);
        law_byte_order_total(a[0].key, a[1].key);
        law_byte_order_transitive(a[0].key, a[1].key, a[k].key);
    }
    let x = a.drop_first();
    let y = b.drop_first();
    assert forall|i: int, j: int| 0 <= i <= j < x.len() implies row_order(
        #[trigger] x[i],
        #[trigger] x[j],
    ) <= 0 by {
        assert(row_order(a[i + 1], a[j + 1]) <= 0);
    }
    assert forall|i: int, j: int| 0 <= i <= j < y.len() implies row_order(
        #[trigger] y[i],
        #[trigger] y[j],
    ) <= 0 by {
        assert(row_order(b[i + 1], b[j + 1]) <= 0);
    }
    assert(a.remove(0) =~= x);
    assert(b.remove(0) =~= y);
    assert(x.to_multiset() =~= a.to_multiset().remove(a[0]));
    assert(y.to_multiset() =~= b.to_multiset().remove(b[0]));
}

/// The first keys of the same rows are the same, however they were sorted.
proof fn lemma_same_first_key(a: Seq<RowView>, b: Seq<RowView>)
    requires
        in_order(a),
        in_order(b),
        same_rows(a, b),
        a.len() > 0,
    ensures
        b.len() == a.len(),
        a[0].key == b[0].key,
{
    lemma_same_rows_len(a, b);
    lemma_same_rows_contains(b, a, b[0]);
    lemma_same_rows_contains(a, b, a[0]);
    let k = choose|k: int| 0 <= k < a.len() && a[k] == b[0];
    let j = choose|j: int| 0 <= j < b.len() && b[j] == a[0];
    assert(row_order(b[0], b[j]) <= 0);
    assert(row_order(a[0], a[k]) <= 0);
    law_byte_order_total(a[0].key, b[0].key);
}

/// A scan that finds the same rows on both sides and does not fail finds no
/// difference, whether or not it is stopped, and however the rows were sorted.
pub proof fn law_scan_of_same_rows_finds_nothing(
    rules: KeyedRules,
    left: SourceView,
    right: SourceView,
    found: Found,
)
    requires
        left.rest == right.rest || (in_order(left.rest) && in_order(right.rest) && same_rows(
            left.rest,
            right.rest,
        )),
        forall|i: int| 0 <= i < rules.cols.len() ==> (#[trigger] rules.cols[i]).left == rules.cols[i].right,
        differences(rules, found) == 0,
    ensures
        keyed_walk(rules, left, right, found) matches KeyedEnd::Done { left: x, right: y, found: f, .. } ==> {
            &&& differences(rules, f) == 0
            &&& left.consumed == right.consumed && left.total_hint == right.total_hint ==> row_total(x)
                == row_total(y)
        },
    decreases left.rest.len() + right.rest.len(),
{
    let l = left.rest;
    let r = right.rest;
    if l != r {
        lemma_same_rows_len(l, r);
    }
    if l.len() > 0 {
        if l != r {
            lemma_same_first_key(l, r);
        }
        law_byte_order_total(l[0].key, r[0].key);
        match keyed_step(rules, left, right, found) {
            KeyedStep::More { left: x, right: y, found: f } => {
                assert(advance_error(left) is None);
                if l != r {
                    lemma_same_first(l, r);
                }
                assert(l.skip(1) =~= l.drop_first());
                assert(r.skip(1) =~= r.drop_first());
                lemma_matching_itself(rules, found, l[0]);
                assert(f == (Found { matched: found.matched.push((l[0], l[0])), ..found }));
                law_scan_of_same_rows_finds_nothing(rules, x, y, f);
            },
            _ => {},
        }
    }
}

/// Where no pair of rows is modified, no column is counted.
pub proof fn lemma_unmodified_tally(rules: KeyedRules, matched: Seq<(RowView, RowView)>)
    requires
        matched.filter(is_modified(rules)).len() == 0,
    ensures
        column_tally(rules, matched) == Seq::<CountView>::empty(),
    decreases matched.len(),
{
    reveal(Seq::filter);
    if matched.len() > 0 {
        lemma_unmodified_tally(rules, matched.drop_last());
    }
}

/// The order of the rows in a table has no part in what a keyed diff may come
/// to, unless the tables are taken to be sorted.
pub proof fn law_row_order_does_not_matter(
    left: BatchIter,
    right: BatchIter,
    other_left: BatchIter,
    other_right: BatchIter,
    key: Seq<Seq<char>>,
    inferred: bool,
    schema: SchemaDiffView,
    cfg: DiffConfig,
    comparator: Comparator,
    r: Result<ReportView, ErrorView>,
)
    requires
        keyed_result(left, right, key, inferred, schema, cfg, comparator, r),
        !cfg.assume_sorted,
        other_left.schema@ == left.schema@,
        other_right.schema@ == right.schema@,
        ({
            let setup = keyed_setup(key, left.schema@, right.schema@, schema, comparator, cfg.fail_fast);
            &&& same_rows(
                stream_rows(setup.left, left.batches@),
                stream_rows(setup.left, other_left.batches@),
            )
            &&& same_rows(
                stream_rows(setup.right, right.batches@),
                stream_rows(setup.right, other_right.batches@),
            )
            &&& stream_follows_values(setup.left, other_left.batches@)
            &&& stream_follows_values(setup.right, other_right.batches@)
        }),
    ensures
        keyed_result(other_left, other_right, key, inferred, schema, cfg, comparator, r),
{
    if keyed_missing(key, left.schema@, right.schema@, schema) is None {
        let setup = keyed_setup(key, left.schema@, right.schema@, schema, comparator, cfg.fail_fast);
        let (x, y) = choose|x: Seq<RowView>, y: Seq<RowView>|
            {
                &&& #[trigger] arranged(cfg.assume_sorted, x, stream_rows(setup.left, left.batches@))
                &&& #[trigger] arranged(cfg.assume_sorted, y, stream_rows(setup.right, right.batches@))
                &&& r == keyed_diff(setup, schema, inferred, cfg, x, y)
            };
        assert(arranged(cfg.assume_sorted, x, stream_rows(setup.left, other_left.batches@)));
        assert(arranged(cfg.assume_sorted, y, stream_rows(setup.right, other_right.batches@)));
    }
}

/// A report shows as many examples as there are, up to the number asked for.
pub proof fn law_samples_are_capped(
    setup: KeyedSetup,
    schema: SchemaDiffView,
    inferred: bool,
    cfg: DiffConfig,
    left: Seq<RowView>,
    right: Seq<RowView>,
)
    ensures
        keyed_diff(setup, schema, inferred, cfg, left, right) matches Ok(report) ==> {
            let max = cfg.max_samples as nat;
            &&& report.samples.added.len() == (if report.added < max {
                report.added
            } else {
                max
            })
            &&& report.samples.removed.len() == (if report.removed < max {
                report.removed
            } else {
                max
            })
            &&& report.samples.modified.len() == (if report.modified < max {
                report.modified
            } else {
                max
            })
        },
{
}

/// A row is found at most once.
proof fn lemma_found_bounded(rules: KeyedRules, left: SourceView, right: SourceView, found: Found)
    ensures
        keyed_walk(rules, left, right, found) matches KeyedEnd::Done { found: f, .. } ==> {
            &&& f.removed.len() + f.matched.len() <= found.removed.len() + found.matched.len()
                + left.rest.len()
            &&& f.added.len() + f.matched.len() <= found.added.len() + found.matched.len()
                + right.rest.len()
        },
    decreases left.rest.len() + right.rest.len(),
{
    match keyed_step(rules, left, right, found) {
        KeyedStep::More { left: l, right: r, found: f } => {
            lemma_step_shrinks(rules, left, right, found);
            lemma_found_bounded(rules, l, r, f);
        },
        _ => {},
    }
}

/// Examples that stand for one row each.
proof fn lemma_single_rows(samples: Seq<SampleView>)
    requires
        forall|i: int| 0 <= i < samples.len() ==> (#[trigger] samples[i]).count == 1,
    ensures
        sampled_rows(samples) == samples.len(),
    decreases samples.len(),
{
    if samples.len() > 0 {
        lemma_single_rows(samples.drop_last());
    }
}

/// No more rows are removed or modified than the left has, nor added or
/// modified than the right has, and the examples show no more than that.
pub proof fn law_counts_are_bounded(
    setup: KeyedSetup,
    schema: SchemaDiffView,
    inferred: bool,
    cfg: DiffConfig,
    left: Seq<RowView>,
    right: Seq<RowView>,
)
    ensures
        keyed_diff(setup, schema, inferred, cfg, left, right) matches Ok(report) ==> {
            &&& report.removed + report.modified <= left.len()
            &&& report.added + report.modified <= right.len()
            &&& shown_rows(report.samples) <= row_differences(report)
        },
{
    let l = begin(setup.left, cfg.left@, left, cfg.assume_sorted);
    let r = begin(setup.right, cfg.right@, right, cfg.assume_sorted);
    lemma_found_bounded(setup.rules, l, r, nothing_found());
    match keyed_walk(setup.rules, l, r, nothing_found()) {
        KeyedEnd::Done { left: x, right: y, found, truncated } => {
            let report = keyed_diff(setup, schema, inferred, cfg, left, right)->Ok_0;
            lemma_filter_shorter(found.matched, is_modified(setup.rules));
            lemma_single_rows(report.samples.added);
            lemma_single_rows(report.samples.removed);
        },
        _ => {},
    }
}

/// A step of a scan looks at no more than the current row of either side and
/// the row after it.
pub proof fn law_step_looks_one_row_ahead(
    rules: KeyedRules,
    left: SourceView,
    right: SourceView,
    whole_left: Seq<RowView>,
    whole_right: Seq<RowView>,
    found: Found,
)
    requires
        agree_on(left.rest, whole_left, 2),
        agree_on(right.rest, whole_right, 2),
    ensures
        match (
            keyed_step(rules, left, right, found),
            keyed_step(
                rules,
                SourceView { rest: whole_left, ..left },
                SourceView { rest: whole_right, ..right },
                found,
            ),
        ) {
            (
                KeyedStep::More { left: l, right: r, found: f },
                KeyedStep::More { left: x, right: y, found: g },
            ) => {
                &&& f == g
                &&& x.rest == whole_left.skip(left.rest.len() - l.rest.len())
                &&& y.rest == whole_right.skip(right.rest.len() - r.rest.len())
                &&& x.consumed == l.consumed
                &&& y.consumed == r.consumed
            },
            (KeyedStep::Done { truncated: a }, KeyedStep::Done { truncated: b }) => a == b,
            (KeyedStep::Failed(a), KeyedStep::Failed(b)) => a == b,
            _ => false,
        },
{
    lemma_agree_two(left.rest, whole_left);
    lemma_agree_two(right.rest, whole_right);
    assert(whole_left.skip(0) =~= whole_left);
    assert(whole_right.skip(0) =~= whole_right);
}

proof fn lemma_agree_two(a: Seq<RowView>, b: Seq<RowView>)
    requires
        agree_on(a, b, 2),
    ensures
        a.len() == 0 <==> b.len() == 0,
        a.len() > 0 ==> a[0] == b[0],
        a.len() > 1 <==> b.len() > 1,
        a.len() > 1 ==> a[1] == b[1],
{
    if a != b {
        assert(a.take(2)[0] == b.take(2)[0]);
        assert(a.take(2)[1] == b.take(2)[1]);
    }
}

} // verus!
