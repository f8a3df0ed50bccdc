//! What the messages of errors say.

use crate::error::{error_message, full_message, ErrorView};
use crate::text::joined;
use vstd::prelude::*;

verus! {

/// A text has another one in it, at the given place.
pub open spec fn stands_at(text: Seq<char>, part: Seq<char>, at: int) -> bool {
    0 <= at && at + part.len() <= text.len() && text.subrange(at, at + part.len()) == part
}

/// A text has another one in it.
pub open spec fn mentions(text: Seq<char>, part: Seq<char>) -> bool {
    exists|at: int| #[trigger] stands_at(text, part, at)
}

/// A text has two others in it, one behind the other.
pub open spec fn mentions_in_order(text: Seq<char>, first: Seq<char>, second: Seq<char>) -> bool {
    exists|a: int, b: int|
        #[trigger] stands_at(text, first, a) && #[trigger] stands_at(text, second, b) && a + first.len() <= b
}

proof fn lemma_mentions(text: Seq<char>, before: Seq<char>, part: Seq<char>, behind: Seq<char>)
    requires
        text == before + part + behind,
    ensures
        stands_at(text, part, before.len() as int),
        mentions(text, part),
{
    let at = before.len() as int;
    assert(text.subrange(at, at + part.len()) =~= part);
    assert(stands_at(text, part, at));
}

/// Joined texts mention each of them.
proof fn lemma_joined_mentions(parts: Seq<Seq<char>>, sep: Seq<char>, i: int)
    requires
        0 <= i < parts.len(),
    ensures
        mentions(joined(parts, sep), parts[i]),
    decreases parts.len(),
{
    let text = joined(parts, sep);
    if parts.len() == 1 {
        assert(text =~= seq![] + parts[0] + seq![]);
        lemma_mentions(text, seq![], parts[0], seq![]);
    } else if i == parts.len() - 1 {
        let before = joined(parts.drop_last(), sep) + sep;
        assert(text =~= before + parts[i] + seq![]);
        lemma_mentions(text, before, parts[i], seq![]);
    } else {
        let head = joined(parts.drop_last(), sep);
        lemma_joined_mentions(parts.drop_last(), sep, i);
        assert(text =~= seq![] + head + (sep + parts.last()));
        lemma_mentioned_within(text, seq![], head, sep + parts.last(), parts[i]);
    }
}

/// A text mentions what a part of it does.
proof fn lemma_mentioned_within(
    text: Seq<char>,
    before: Seq<char>,
    whole: Seq<char>,
    behind: Seq<char>,
    part: Seq<char>,
)
    requires
        text == before + whole + behind,
        mentions(whole, part),
    ensures
        mentions(text, part),
{
    let at = choose|at: int| #[trigger] stands_at(whole, part, at);
    let n = before.len() + at;
    assert(text.subrange(n, n + part.len()) =~= whole.subrange(at, at + part.len()));
    assert(stands_at(text, part, n));
}

/// A message names the column, the extension or the rows that an error is about.
pub proof fn law_messages_name_their_subject(name: Seq<char>, list: Seq<Seq<char>>, label: Seq<char>, row: Seq<char>, i: int)
    requires
        0 <= i < list.len(),
    ensures
        mentions(error_message(ErrorView::MissingColumn { column: name }), name),
        mentions(error_message(ErrorView::FilterColumn { column: name }), name),
        mentions(error_message(ErrorView::UnsupportedExtension { extension: name }), name),
        ({
            let text = error_message(ErrorView::KeyNotShared { column: name, shared: list });
            mentions(text, name) && mentions(text, list[i])
        }),
        ({
            let text = error_message(ErrorView::NotUnique { columns: list, label, example: row });
            mentions(text, list[i]) && mentions_in_order(text, label, row)
        }),
        ({
            let text = error_message(ErrorView::NotSorted { label, row: name, after: row });
            stands_at(text, label, 0) && mentions_in_order(text, name, row)
        }),
{
    lemma_mentions(
        error_message(ErrorView::MissingColumn { column: name }),
        "column `"@,
        name,
        "` missing"@,
    );
    lemma_mentions(
        error_message(ErrorView::FilterColumn { column: name }),
        "--where column `"@,
        name,
        "` not found"@,
    );
    lemma_mentions(
        error_message(ErrorView::UnsupportedExtension { extension: name }),
        "unsupported file extension `"@,
        name,
        "` (expected .csv or .parquet)"@,
    );
    let all = joined(list, ", "@);
    lemma_joined_mentions(list, ", "@, i);
    let text = error_message(ErrorView::KeyNotShared { column: name, shared: list });
    let (a, b) = ("key column `"@, "` is not present in both tables (shared columns: "@);
    assert(text =~= a + name + (b + all + ")"@));
    lemma_mentions(text, a, name, b + all + ")"@);
    assert(text =~= (a + name + b) + all + ")"@);
    lemma_mentioned_within(text, a + name + b, all, ")"@, list[i]);
    lemma_not_unique(list, label, row, i);
    lemma_not_sorted(label, name, row);
}

proof fn lemma_not_unique(list: Seq<Seq<char>>, label: Seq<char>, row: Seq<char>, i: int)
    requires
        0 <= i < list.len(),
    ensures
        ({
            let text = error_message(ErrorView::NotUnique { columns: list, label, example: row });
            mentions(text, list[i]) && mentions_in_order(text, label, row)
        }),
{
    let text = error_message(ErrorView::NotUnique { columns: list, label, example: row });
    let all = joined(list, ", "@);
    let (a, b, c) = ("key ("@, ") is not unique in "@, ": e.g. "@);
    let d = "; pick a different --key or use --keyless"@;
    lemma_joined_mentions(list, ", "@, i);
    assert(text =~= a + all + (b + label + c + row + d));
    lemma_mentioned_within(text, a, all, b + label + c + row + d, list[i]);
    assert(text =~= (a + all + b) + label + (c + row + d));
    lemma_mentions(text, a + all + b, label, c + row + d);
    assert(text =~= (a + all + b + label + c) + row + d);
    lemma_mentions(text, a + all + b + label + c, row, d);
}

proof fn lemma_not_sorted(label: Seq<char>, row: Seq<char>, after: Seq<char>)
    ensures
        ({
            let text = error_message(ErrorView::NotSorted { label, row, after });
            stands_at(text, label, 0) && mentions_in_order(text, row, after)
        }),
{
    let text = error_message(ErrorView::NotSorted { label, row, after });
    let (a, b) = (" is not sorted by the key (row with "@, " arrived after "@);
    let c = "); drop --assume-sorted"@;
    assert(text =~= seq![] + label + (a + row + b + after + c));
    lemma_mentions(text, seq![], label, a + row + b + after + c);
    assert(text =~= (label + a) + row + (b + after + c));
    lemma_mentions(text, label + a, row, b + after + c);
    assert(text =~= (label + a + row + b) + after + c);
    lemma_mentions(text, label + a + row + b, after, c);
}

/// The full message of an error starts with its message; only where a key could
/// not be inferred and there is a tolerance does it go on, with why.
pub proof fn law_full_messages_give_the_cause(e: ErrorView)
    ensures
        stands_at(full_message(e), error_message(e), 0),
        e is NoKeyForTolerances ==> mentions_in_order(
            full_message(e),
            error_message(e),
            error_message(ErrorView::NoKeyFound),
        ),
        !(e is NoKeyForTolerances) ==> full_message(e).len() == error_message(e).len(),
{
    let (m, cause) = (error_message(e), error_message(ErrorView::NoKeyFound));
    if e is NoKeyForTolerances {
        assert(full_message(e) =~= seq![] + m + (": "@ + cause));
        lemma_mentions(full_message(e), seq![], m, ": "@ + cause);
        assert(full_message(e) =~= (m + ": "@) + cause + seq![]);
        lemma_mentions(full_message(e), m + ": "@, cause, seq![]);
    } else {
        assert(m =~= seq![] + m + seq![]);
        lemma_mentions(full_message(e), seq![], m, seq![]);
    }
}

} // verus!
