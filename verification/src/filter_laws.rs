//! What holds of row filters: what expressions mean, and which rows they keep.

use crate::filter::{all_digits, clause_holds, clauses_of, digits_value, escaped, first_clause, in_name, in_numeral, integer_value, is_and, is_digit, is_filtered, known_float, law_filter_keeps_matching_rows, lemma_next_token, literal, marked, next_token, parsed, passing, row_passes, span, tokens, unicode_alphanumeric, value_of, ClauseView, Numeral, Op, ParseErrorView, TokenView};
use crate::float::{magnitude, signed_units};
use crate::infer_laws::lemma_reads_lowered;
use crate::input::Batch;
use crate::report::lemma_text_order_total;
use crate::text::{decimal, decimal_int, lowered};
use crate::value::{cell_order, CellView};
use crate::value_laws::law_cells_are_ordered_by_value;
use vstd::prelude::*;

verus! {

/// The sign of a comparison.
pub open spec fn sign(op: Op) -> Seq<char> {
    match op {
        Op::Eq => seq!['='],
        Op::Ne => seq!['!', '='],
        Op::Lt => seq!['<'],
        Op::Le => seq!['<', '='],
        Op::Gt => seq!['>'],
        Op::Ge => seq!['>', '='],
    }
}

/// A value as it is written in an expression: a word, digits, or a string in
/// quotes with the quotes inside it doubled.
pub open spec fn written(v: CellView) -> Seq<char> {
    match v {
        CellView::Null => seq!['n', 'u', 'l', 'l'],
        CellView::Bool(true) => seq!['t', 'r', 'u', 'e'],
        CellView::Bool(false) => seq!['f', 'a', 'l', 's', 'e'],
        CellView::Int(i) => decimal_int(i as int),
        CellView::Float { bits: _, text } => text,
        CellView::Str(s) => seq!['\''] + escaped(s) + seq!['\''],
    }
}

/// A name that can be written without quotes.
pub open spec fn is_name(s: Seq<char>) -> bool {
    &&& s.len() > 0
    &&& 'a' <= s[0] <= 'z' || 'A' <= s[0] <= 'Z' || s[0] == '_'
    &&& forall|i: int|
        0 <= i < s.len() ==> {
            ||| 'a' <= #[trigger] s[i] <= 'z'
            ||| 'A' <= s[i] <= 'Z'
            ||| '0' <= s[i] <= '9'
            ||| s[i] == '_'
            ||| s[i] == '.'
            ||| s[i] > '\u{7f}' && unicode_alphanumeric(s[i])
        }
}

/// A clause as it is written: a name, a sign and a value.
pub open spec fn clause_text(c: ClauseView) -> Seq<char> {
    c.column + seq![' '] + sign(c.op) + seq![' '] + written(c.value)
}

/// Clauses as they are written: with AND between them.
pub open spec fn expression(clauses: Seq<ClauseView>) -> Seq<char>
    decreases clauses.len(),
{
    if clauses.len() == 0 {
        seq![]
    } else if clauses.len() == 1 {
        clause_text(clauses[0])
    } else {
        clause_text(clauses[0]) + seq![' ', 'A', 'N', 'D', ' '] + expression(clauses.drop_first())
    }
}

/// Nothing follows, or a space.
spec fn ends(rest: Seq<char>) -> bool {
    rest.len() == 0 || rest[0] == ' '
}

/// What comes of tokens with one more in front.
spec fn with_token(t: TokenView, r: Result<Seq<TokenView>, ParseErrorView>) -> Result<
    Seq<TokenView>,
    ParseErrorView,
> {
    match r {
        Ok(ts) => Ok(seq![t] + ts),
        Err(e) => Err(e),
    }
}

proof fn lemma_starts(s: Seq<char>, rest: Seq<char>, known: Seq<Numeral>, t: TokenView)
    requires
        s.len() > 0,
        next_token(s + rest, known) == Ok::<(Option<TokenView>, nat), ParseErrorView>(
            (Some(t), s.len()),
        ),
    ensures
        tokens(s + rest, known) == with_token(t, tokens(rest, known)),
{
    lemma_next_token(s + rest, known);
    assert((s + rest).skip(s.len() as int) =~= rest);
}

proof fn lemma_space(rest: Seq<char>, known: Seq<Numeral>)
    ensures
        tokens(seq![' '] + rest, known) == tokens(rest, known),
{
    lemma_next_token(seq![' '] + rest, known);
    assert((seq![' '] + rest).skip(1) =~= rest);
}

/// A span takes in what is accepted, up to what is not.
proof fn lemma_span_ends(s: Seq<char>, rest: Seq<char>, accepts: spec_fn(char) -> bool)
    requires
        forall|i: int| 0 <= i < s.len() ==> accepts(#[trigger] s[i]),
        rest.len() == 0 || !accepts(rest[0]),
    ensures
        span(s + rest, accepts) == s.len(),
        (s + rest).take(s.len() as int) == s,
    decreases s.len(),
{
    if s.len() > 0 {
        let less = s.drop_first();
        assert forall|i: int| 0 <= i < less.len() implies accepts(#[trigger] less[i]) by {
            assert(less[i] == s[i + 1]);
        }
        lemma_span_ends(less, rest, accepts);
        assert((s + rest).drop_first() =~= less + rest);
        assert(accepts(s[0]));
    } else {
        assert(s + rest =~= rest);
    }
    assert((s + rest).take(s.len() as int) =~= s);
}

proof fn lemma_word(w: Seq<char>, rest: Seq<char>, known: Seq<Numeral>)
    requires
        is_name(w),
        ends(rest),
    ensures
        tokens(w + rest, known) == with_token(TokenView::Ident(w), tokens(rest, known)),
{
    assert forall|i: int| 0 <= i < w.len() implies in_name()(#[trigger] w[i]) by {}
    lemma_span_ends(w, rest, in_name());
    assert((w + rest)[0] == w[0]);
    lemma_starts(w, rest, known, TokenView::Ident(w));
}

proof fn lemma_sign(op: Op, rest: Seq<char>, known: Seq<Numeral>)
    requires
        rest.len() > 0,
        rest[0] == ' ',
    ensures
        tokens(sign(op) + rest, known) == with_token(TokenView::Op(op), tokens(rest, known)),
{
    let s = sign(op);
    assert((s + rest)[0] == s[0]);
    assert((s + rest)[1] == if s.len() > 1 { s[1] } else { rest[0] });
    lemma_starts(s, rest, known, TokenView::Op(op));
}

/// The digits of a number stand for it.
proof fn lemma_decimal_reads_back(n: nat)
    ensures
        all_digits(decimal(n)),
        digits_value(decimal(n)) == n,
    decreases n,
{
    let s = decimal(n);
    if n >= 10 {
        lemma_decimal_reads_back(n / 10);
        let less = decimal(n / 10);
        assert(s.drop_last() =~= less);
        assert forall|i: int| 0 <= i < s.len() implies is_digit(#[trigger] s[i]) by {
            if i < less.len() {
                assert(s[i] == less[i]);
            }
        }
    } else {
        assert(s.drop_last() =~= seq![]);
        assert(digits_value(s.drop_last()) == 0);
    }
}

/// An integer is read back from the digits that it is shown in.
pub proof fn law_integers_read_back(i: i64)
    ensures
        integer_value(decimal_int(i as int)) == Some(i),
{
    let s = decimal_int(i as int);
    if i < 0 {
        lemma_decimal_reads_back((-(i as int)) as nat);
        assert(s.drop_first() =~= decimal((-(i as int)) as nat));
    } else {
        lemma_decimal_reads_back(i as nat);
        assert(is_digit(decimal(i as nat)[0]));
    }
}

proof fn lemma_integer(i: i64, rest: Seq<char>, known: Seq<Numeral>)
    requires
        ends(rest),
    ensures
        tokens(decimal_int(i as int) + rest, known) == with_token(
            TokenView::Value(CellView::Int(i)),
            tokens(rest, known),
        ),
{
    let s = decimal_int(i as int);
    law_integers_read_back(i);
    let digits = decimal((if i < 0 {
        -(i as int)
    } else {
        i as int
    }) as nat);
    lemma_decimal_reads_back((if i < 0 {
        -(i as int)
    } else {
        i as int
    }) as nat);
    assert forall|j: int| 0 <= j < s.len() implies in_numeral()(#[trigger] s[j]) by {
        if i < 0 && j > 0 {
            assert(s[j] == digits[j - 1]);
        } else if i >= 0 {
            assert(s[j] == digits[j]);
        }
    }
    lemma_span_ends(s, rest, in_numeral());
    assert((s + rest)[0] == s[0]);
    assert(i >= 0 ==> is_digit(digits[0]));
    lemma_starts(s, rest, known, TokenView::Value(CellView::Int(i)));
}

/// A literal ends at its closing quote, whatever follows.
proof fn lemma_literal_ends(s: Seq<char>, rest: Seq<char>)
    requires
        ends(rest),
    ensures
        literal(escaped(s) + seq!['\''] + rest) == Some((s, escaped(s).len() + 1)),
    decreases s.len(),
{
    let all = escaped(s) + seq!['\''] + rest;
    if s.len() == 0 {
        assert(all =~= seq!['\''] + rest);
        assert(s =~= seq![]);
    } else {
        let less = s.drop_first();
        lemma_literal_ends(less, rest);
        assert(s =~= seq![s[0]] + less);
        if s[0] == '\'' {
            assert(all.skip(2) =~= escaped(less) + seq!['\''] + rest);
            assert(all[0] == '\'' && all[1] == '\'');
        } else {
            assert(all.drop_first() =~= escaped(less) + seq!['\''] + rest);
            assert(all[0] == s[0]);
        }
    }
}

proof fn lemma_string(s: Seq<char>, rest: Seq<char>, known: Seq<Numeral>)
    requires
        ends(rest),
    ensures
        tokens(written(CellView::Str(s)) + rest, known) == with_token(
            TokenView::Value(CellView::Str(s)),
            tokens(rest, known),
        ),
{
    let w = written(CellView::Str(s));
    lemma_literal_ends(s, rest);
    assert((w + rest)[0] == '\'');
    assert((w + rest).drop_first() =~= escaped(s) + seq!['\''] + rest);
    lemma_starts(w, rest, known, TokenView::Value(CellView::Str(s)));
}

/// True for a word that reads like another, but that it may have capitals.
pub open spec fn reads(word: Seq<char>, small: Seq<char>) -> bool {
    &&& word.len() == small.len()
    &&& forall|i: int|
        0 <= i < small.len() ==> {
            ||| #[trigger] word[i] == small[i]
            ||| 'a' <= small[i] <= 'z' && word[i] as int + 32 == small[i] as int
        }
}

proof fn lemma_reads(word: Seq<char>, small: Seq<char>)
    requires
        reads(word, small),
        small.len() > 0,
        forall|i: int| 0 <= i < small.len() ==> 'a' <= #[trigger] small[i] <= 'z',
    ensures
        lowered(word) == small,
        is_name(word),
{
    assert forall|i: int| 0 <= i < word.len() implies #[trigger] lowered(word)[i] == small[i] && ('a'
        <= word[i] <= 'z' || 'A' <= word[i] <= 'Z') by {
        assert('a' <= small[i] <= 'z');
        assert(word[i] == small[i] || word[i] as int + 32 == small[i] as int);
    }
    assert(lowered(word) =~= small);
    assert forall|i: int| 0 <= i < word.len() implies ('a' <= #[trigger] word[i] <= 'z' || 'A' <= word[i]
        <= 'Z') by {
        assert(lowered(word)[i] == small[i]);
    }
}

/// The words for values, in whatever case they are.
proof fn lemma_value_words(word: Seq<char>)
    ensures
        reads(word, seq!['t', 'r', 'u', 'e']) ==> is_name(word) && value_of(
            Some(TokenView::Ident(word)),
        ) == Ok::<CellView, ParseErrorView>(CellView::Bool(true)),
        reads(word, seq!['f', 'a', 'l', 's', 'e']) ==> is_name(word) && value_of(
            Some(TokenView::Ident(word)),
        ) == Ok::<CellView, ParseErrorView>(CellView::Bool(false)),
        reads(word, seq!['n', 'u', 'l', 'l']) ==> is_name(word) && value_of(
            Some(TokenView::Ident(word)),
        ) == Ok::<CellView, ParseErrorView>(CellView::Null),
        reads(word, seq!['a', 'n', 'd']) ==> is_name(word) && is_and(
            TokenView::Ident(word),
        ),
{
    reveal_strlit("true");
    reveal_strlit("false");
    reveal_strlit("null");
    reveal_strlit("and");
    let t = seq!['t', 'r', 'u', 'e'];
    let f = seq!['f', 'a', 'l', 's', 'e'];
    let n = seq!['n', 'u', 'l', 'l'];
    let a = seq!['a', 'n', 'd'];
    assert(t =~= "true"@ && f =~= "false"@ && n =~= "null"@ && a =~= "and"@);
    assert(t[0] != n[0] && t.len() != f.len());
    if reads(word, t) {
        lemma_reads(word, t);
    }
    if reads(word, f) {
        lemma_reads(word, f);
    }
    if reads(word, n) {
        lemma_reads(word, n);
    }
    if reads(word, a) {
        lemma_reads(word, a);
    }
}

/// The tokens of a clause whose value is written in a given way.
proof fn lemma_clause_tokens(
    column: Seq<char>,
    op: Op,
    value: Seq<char>,
    t: TokenView,
    rest: Seq<char>,
    known: Seq<Numeral>,
)
    requires
        is_name(column),
        tokens(value + rest, known) == with_token(t, tokens(rest, known)),
    ensures
        tokens(column + seq![' '] + sign(op) + seq![' '] + value + rest, known) == with_token(
            TokenView::Ident(column),
            with_token(TokenView::Op(op), with_token(t, tokens(rest, known))),
        ),
{
    let three = value + rest;
    let two = sign(op) + (seq![' '] + three);
    lemma_space(three, known);
    lemma_sign(op, seq![' '] + three, known);
    lemma_space(two, known);
    lemma_word(column, seq![' '] + two, known);
    assert(column + seq![' '] + sign(op) + seq![' '] + value + rest =~= column + (seq![' '] + two));
}

/// The token of a written value.
spec fn value_token(v: CellView) -> TokenView {
    match v {
        CellView::Null | CellView::Bool(_) => TokenView::Ident(written(v)),
        _ => TokenView::Value(v),
    }
}

proof fn lemma_written(v: CellView, rest: Seq<char>, known: Seq<Numeral>)
    requires
        !(v is Float),
        ends(rest),
    ensures
        tokens(written(v) + rest, known) == with_token(value_token(v), tokens(rest, known)),
        value_of(Some(value_token(v))) == Ok::<CellView, ParseErrorView>(v),
{
    lemma_value_words(written(v));
    match v {
        CellView::Null => {
            assert(reads(written(v), seq!['n', 'u', 'l', 'l']));
            lemma_word(written(v), rest, known);
        },
        CellView::Bool(b) => {
            assert(b ==> reads(written(v), seq!['t', 'r', 'u', 'e']));
            assert(!b ==> reads(written(v), seq!['f', 'a', 'l', 's', 'e']));
            lemma_word(written(v), rest, known);
        },
        CellView::Int(i) => lemma_integer(i, rest, known),
        CellView::Str(s) => lemma_string(s, rest, known),
        CellView::Float { .. } => {},
    }
}

/// An expression means what is written in it: clauses of a column's name, one of
/// the six signs and a value (null, a boolean, an integer or any string), with
/// AND between them, are read as those clauses in that order.
pub proof fn law_expressions_mean_what_is_written(clauses: Seq<ClauseView>, known: Seq<Numeral>)
    requires
        clauses.len() > 0,
        forall|i: int|
            0 <= i < clauses.len() ==> is_name((#[trigger] clauses[i]).column) && !(clauses[i].value is Float),
    ensures
        parsed(expression(clauses), known) == Ok::<Seq<ClauseView>, ParseErrorView>(clauses),
    decreases clauses.len(),
{
    let c = clauses[0];
    let none: Seq<char> = seq![];
    let t = value_token(c.value);
    if clauses.len() == 1 {
        lemma_written(c.value, none, known);
        lemma_clause_tokens(c.column, c.op, written(c.value), t, none, known);
        assert(clause_text(c) + none =~= clause_text(c));
        let ts = seq![TokenView::Ident(c.column), TokenView::Op(c.op), t];
        assert(tokens(none, known) == Ok::<Seq<TokenView>, ParseErrorView>(seq![]));
        assert(seq![TokenView::Ident(c.column)] + (seq![TokenView::Op(c.op)] + (seq![t] + seq![])) =~= ts);
        assert(first_clause(ts) == Ok::<ClauseView, ParseErrorView>(c));
        assert(clauses =~= seq![c]);
    } else {
        let others = clauses.drop_first();
        law_expressions_mean_what_is_written(others, known);
        let and = seq!['A', 'N', 'D'];
        let tail = expression(others);
        let after = and + (seq![' '] + tail);
        let rest = seq![' '] + after;
        lemma_value_words(and);
        assert(reads(and, seq!['a', 'n', 'd']));
        lemma_space(tail, known);
        lemma_word(and, seq![' '] + tail, known);
        lemma_space(after, known);
        lemma_written(c.value, rest, known);
        lemma_clause_tokens(c.column, c.op, written(c.value), t, rest, known);
        assert(expression(clauses) =~= clause_text(c) + rest);
        let more = tokens(tail, known)->Ok_0;
        let ts = seq![TokenView::Ident(c.column), TokenView::Op(c.op), t, TokenView::Ident(and)] + more;
        assert(seq![TokenView::Ident(c.column)] + (seq![TokenView::Op(c.op)] + (seq![t] + (seq![
            TokenView::Ident(and),
        ] + more))) =~= ts);
        assert(tokens(expression(clauses), known) == Ok::<Seq<TokenView>, ParseErrorView>(ts));
        assert(first_clause(ts) == Ok::<ClauseView, ParseErrorView>(c));
        assert(ts.skip(4) =~= more);
        assert(clauses =~= seq![c] + others);
    }
}

/// `true`, `false` and `null` are read in any case, after any sign.
pub proof fn law_value_words_are_read_in_any_case(
    column: Seq<char>,
    op: Op,
    word: Seq<char>,
    known: Seq<Numeral>,
)
    requires
        is_name(column),
    ensures
        ({
            let expr = column + seq![' '] + sign(op) + seq![' '] + word;
            let read = parsed(expr, known);
            &&& reads(word, seq!['t', 'r', 'u', 'e']) ==> read == Ok::<Seq<ClauseView>, ParseErrorView>(
                seq![ClauseView { column, op, value: CellView::Bool(true) }],
            )
            &&& reads(word, seq!['f', 'a', 'l', 's', 'e']) ==> read == Ok::<
                Seq<ClauseView>,
                ParseErrorView,
            >(seq![ClauseView { column, op, value: CellView::Bool(false) }])
            &&& reads(word, seq!['n', 'u', 'l', 'l']) ==> read == Ok::<Seq<ClauseView>, ParseErrorView>(
                seq![ClauseView { column, op, value: CellView::Null }],
            )
        }),
{
    let none: Seq<char> = seq![];
    let expr = column + seq![' '] + sign(op) + seq![' '] + word;
    let t = TokenView::Ident(word);
    lemma_value_words(word);
    if is_name(word) {
        lemma_word(word, none, known);
        lemma_clause_tokens(column, op, word, t, none, known);
        assert(expr + none =~= expr);
        let ts = seq![TokenView::Ident(column), TokenView::Op(op), t];
        assert(tokens(none, known) == Ok::<Seq<TokenView>, ParseErrorView>(seq![]));
        assert(seq![TokenView::Ident(column)] + (seq![TokenView::Op(op)] + (seq![t] + seq![])) =~= ts);
        assert(clauses_of(ts) == match first_clause(ts) {
            Ok(c) => Ok::<Seq<ClauseView>, ParseErrorView>(seq![c]),
            Err(e) => Err(e),
        });
    }
}

/// Clauses are joined by AND in any case, and by no other word: an expression
/// with another one there is refused, and the word is named.
pub proof fn law_clauses_are_joined_by_and(
    c: ClauseView,
    word: Seq<char>,
    others: Seq<ClauseView>,
    known: Seq<Numeral>,
)
    requires
        is_name(c.column),
        !(c.value is Float),
        is_name(word),
        others.len() > 0,
        forall|i: int|
            0 <= i < others.len() ==> is_name((#[trigger] others[i]).column) && !(others[i].value is Float),
    ensures
        ({
            let expr = clause_text(c) + seq![' '] + word + seq![' '] + expression(others);
            if reads(word, seq!['a', 'n', 'd']) {
                parsed(expr, known) == Ok::<Seq<ClauseView>, ParseErrorView>(seq![c] + others)
            } else {
                parsed(expr, known) == Err::<Seq<ClauseView>, ParseErrorView>(
                    ParseErrorView::ExpectedAnd(TokenView::Ident(word)),
                )
            }
        }),
{
    let tail = expression(others);
    let after = word + (seq![' '] + tail);
    let rest = seq![' '] + after;
    let t = value_token(c.value);
    let expr = clause_text(c) + seq![' '] + word + seq![' '] + tail;
    law_expressions_mean_what_is_written(others, known);
    lemma_value_words(word);
    lemma_space(tail, known);
    lemma_word(word, seq![' '] + tail, known);
    lemma_space(after, known);
    lemma_written(c.value, rest, known);
    lemma_clause_tokens(c.column, c.op, written(c.value), t, rest, known);
    assert(expr =~= clause_text(c) + rest);
    let more = tokens(tail, known)->Ok_0;
    let ts = seq![TokenView::Ident(c.column), TokenView::Op(c.op), t, TokenView::Ident(word)] + more;
    assert(seq![TokenView::Ident(c.column)] + (seq![TokenView::Op(c.op)] + (seq![t] + (seq![
        TokenView::Ident(word),
    ] + more))) =~= ts);
    assert(tokens(expr, known) == Ok::<Seq<TokenView>, ParseErrorView>(ts));
    assert(first_clause(ts) == Ok::<ClauseView, ParseErrorView>(c));
    assert(ts.skip(4) =~= more);
    reveal_strlit("and");
    lemma_reads_lowered(word, seq!['a', 'n', 'd']);
    assert("and"@ =~= seq!['a', 'n', 'd']);
}

/// A word that is no value is refused where a value is due, and is named.
pub proof fn law_unquoted_words_are_refused(column: Seq<char>, op: Op, word: Seq<char>, known: Seq<Numeral>)
    requires
        is_name(column),
        is_name(word),
        !reads(word, seq!['t', 'r', 'u', 'e']),
        !reads(word, seq!['f', 'a', 'l', 's', 'e']),
        !reads(word, seq!['n', 'u', 'l', 'l']),
    ensures
        parsed(column + seq![' '] + sign(op) + seq![' '] + word, known) == Err::<
            Seq<ClauseView>,
            ParseErrorView,
        >(ParseErrorView::UnquotedValue(word)),
{
    let none: Seq<char> = seq![];
    let expr = column + seq![' '] + sign(op) + seq![' '] + word;
    let t = TokenView::Ident(word);
    reveal_strlit("true");
    reveal_strlit("false");
    reveal_strlit("null");
    lemma_reads_lowered(word, seq!['t', 'r', 'u', 'e']);
    lemma_reads_lowered(word, seq!['f', 'a', 'l', 's', 'e']);
    lemma_reads_lowered(word, seq!['n', 'u', 'l', 'l']);
    assert("true"@ =~= seq!['t', 'r', 'u', 'e']);
    assert("false"@ =~= seq!['f', 'a', 'l', 's', 'e']);
    assert("null"@ =~= seq!['n', 'u', 'l', 'l']);
    lemma_word(word, none, known);
    lemma_clause_tokens(column, op, word, t, none, known);
    assert(expr + none =~= expr);
    let ts = seq![TokenView::Ident(column), TokenView::Op(op), t];
    assert(tokens(none, known) == Ok::<Seq<TokenView>, ParseErrorView>(seq![]));
    assert(seq![TokenView::Ident(column)] + (seq![TokenView::Op(op)] + (seq![t] + seq![])) =~= ts);
    assert(tokens(expr, known) == Ok::<Seq<TokenView>, ParseErrorView>(ts));
}

/// An expression that stops before a clause is complete is refused: for want of a
/// column, of a sign or of a value.
pub proof fn law_incomplete_clauses_are_refused(column: Seq<char>, op: Op, known: Seq<Numeral>)
    requires
        is_name(column),
    ensures
        parsed(seq![], known) == Err::<Seq<ClauseView>, ParseErrorView>(ParseErrorView::ExpectedColumn(None)),
        parsed(column, known) == Err::<Seq<ClauseView>, ParseErrorView>(
            ParseErrorView::ExpectedOperator(column, None),
        ),
        parsed(column + seq![' '] + sign(op) + seq![' '], known) == Err::<Seq<ClauseView>, ParseErrorView>(
            ParseErrorView::ExpectedValue(None),
        ),
{
    let none: Seq<char> = seq![];
    let (name, comparison) = (TokenView::Ident(column), TokenView::Op(op));
    assert(tokens(none, known) == Ok::<Seq<TokenView>, ParseErrorView>(seq![]));
    lemma_word(column, none, known);
    assert(column + none =~= column);
    assert(seq![name] + seq![] =~= seq![name]);
    lemma_space(none, known);
    let two = sign(op) + (seq![' '] + none);
    lemma_sign(op, seq![' '] + none, known);
    lemma_space(two, known);
    lemma_word(column, seq![' '] + two, known);
    assert(column + seq![' '] + sign(op) + seq![' '] =~= column + (seq![' '] + two));
    assert(seq![name] + (seq![comparison] + seq![]) =~= seq![name, comparison]);
}

/// White space between the parts of an expression does not matter, nor which it
/// is.
pub proof fn law_white_space_is_skipped(c: char, rest: Seq<char>, known: Seq<Numeral>)
    requires
        c == ' ' || c == '\t' || c == '\n' || c == '\r' || c == '\u{a0}' || c == '\u{3000}',
    ensures
        parsed(seq![c] + rest, known) == parsed(rest, known),
{
    lemma_next_token(seq![c] + rest, known);
    assert((seq![c] + rest).skip(1) =~= rest);
}

/// A numeral that is no integer stands for the double that it is listed with, and
/// one that is listed with none is refused.
pub proof fn law_numerals_stand_for_listed_doubles(
    column: Seq<char>,
    op: Op,
    numeral: Seq<char>,
    known: Seq<Numeral>,
    k: int,
)
    requires
        is_name(column),
        numeral.contains('.'),
        '0' <= numeral[0] <= '9' || numeral[0] == '-' || numeral[0] == '.',
        forall|i: int|
            0 <= i < numeral.len() ==> {
                ||| '0' <= #[trigger] numeral[i] <= '9'
                ||| numeral[i] == '.'
                ||| numeral[i] == '-'
                ||| numeral[i] == 'e'
                ||| numeral[i] == 'E'
            },
        0 <= k < known.len(),
        known[k].text@ == numeral,
        forall|i: int| 0 <= i < k ==> (#[trigger] known[i]).text@ != numeral,
    ensures
        ({
            let read = parsed(column + seq![' '] + sign(op) + seq![' '] + numeral, known);
            match known[k].value {
                Some(f) => read == Ok::<Seq<ClauseView>, ParseErrorView>(
                    seq![ClauseView { column, op, value: CellView::Float { bits: f.bits, text: f.text@ } }],
                ),
                None => read == Err::<Seq<ClauseView>, ParseErrorView>(ParseErrorView::InvalidNumber(numeral)),
            }
        }),
{
    let none: Seq<char> = seq![];
    let expr = column + seq![' '] + sign(op) + seq![' '] + numeral;
    let two = sign(op) + (seq![' '] + numeral);
    let dot = choose|i: int| 0 <= i < numeral.len() && numeral[i] == '.';
    assert forall|i: int| 0 <= i < numeral.len() implies in_numeral()(#[trigger] numeral[i]) by {}
    lemma_span_ends(numeral, none, in_numeral());
    assert(numeral + none =~= numeral);
    if numeral[0] == '-' {
        assert(numeral.drop_first()[dot - 1] == '.');
    }
    assert(integer_value(numeral) is None);
    lemma_listed(known, numeral, k);
    lemma_space(numeral, known);
    lemma_sign(op, seq![' '] + numeral, known);
    lemma_space(two, known);
    lemma_word(column, seq![' '] + two, known);
    assert(expr =~= column + (seq![' '] + two));
    lemma_next_token(numeral, known);
    assert(numeral.skip(numeral.len() as int) =~= none);
    assert(tokens(none, known) == Ok::<Seq<TokenView>, ParseErrorView>(seq![]));
    if let Some(f) = known[k].value {
        let t = TokenView::Value(CellView::Float { bits: f.bits, text: f.text@ });
        let ts = seq![TokenView::Ident(column), TokenView::Op(op), t];
        assert(seq![t] + seq![] =~= seq![t]);
        assert(tokens(numeral, known) == Ok::<Seq<TokenView>, ParseErrorView>(seq![t]));
        assert(seq![TokenView::Ident(column)] + (seq![TokenView::Op(op)] + seq![t]) =~= ts);
        assert(tokens(expr, known) == Ok::<Seq<TokenView>, ParseErrorView>(ts));
    }
}

proof fn lemma_listed(known: Seq<Numeral>, s: Seq<char>, k: int)
    requires
        0 <= k < known.len(),
        known[k].text@ == s,
        forall|i: int| 0 <= i < k ==> (#[trigger] known[i]).text@ != s,
    ensures
        known_float(known, s) == match known[k].value {
            Some(f) => Some(CellView::Float { bits: f.bits, text: f.text@ }),
            None => None,
        },
    decreases k,
{
    if k > 0 {
        let rest = known.drop_first();
        assert(known[0].text@ != s);
        assert forall|i: int| 0 <= i < k - 1 implies (#[trigger] rest[i]).text@ != s by {
            assert(rest[i] == known[i + 1]);
        }
        lemma_listed(rest, s, k - 1);
    }
}

/// Integers, strings, booleans and nulls meet `=` exactly where they are the
/// same as the value, and `!=` exactly where they are not.
pub proof fn law_equality_clauses_compare_values(column: Seq<char>, value: CellView, cell: CellView)
    requires
        !(value is Float),
        !(cell is Float),
    ensures
        clause_holds(ClauseView { column, op: Op::Eq, value }, cell) <==> cell == value,
        clause_holds(ClauseView { column, op: Op::Ne, value }, cell) <==> cell != value,
{
}

/// Integers meet the ordering signs as integers are ordered.
pub proof fn law_ordering_clauses_compare_integers(column: Seq<char>, i: i64, j: i64)
    ensures
        ({
            let value = CellView::Int(j);
            let cell = CellView::Int(i);
            &&& clause_holds(ClauseView { column, op: Op::Lt, value }, cell) <==> i < j
            &&& clause_holds(ClauseView { column, op: Op::Le, value }, cell) <==> i <= j
            &&& clause_holds(ClauseView { column, op: Op::Gt, value }, cell) <==> i > j
            &&& clause_holds(ClauseView { column, op: Op::Ge, value }, cell) <==> i >= j
        }),
{
}

/// Finite doubles of different values meet the ordering signs as their values
/// are ordered.
pub proof fn law_ordering_clauses_compare_doubles(column: Seq<char>, x: u64, y: u64, s: Seq<char>, t: Seq<char>)
    requires
        magnitude(x) < 0x7ff0_0000_0000_0000,
        magnitude(y) < 0x7ff0_0000_0000_0000,
        signed_units(x) != signed_units(y),
    ensures
        ({
            let value = CellView::Float { bits: y, text: t };
            let cell = CellView::Float { bits: x, text: s };
            let less = signed_units(x) < signed_units(y);
            &&& clause_holds(ClauseView { column, op: Op::Lt, value }, cell) <==> less
            &&& clause_holds(ClauseView { column, op: Op::Le, value }, cell) <==> less
            &&& clause_holds(ClauseView { column, op: Op::Gt, value }, cell) <==> !less
            &&& clause_holds(ClauseView { column, op: Op::Ge, value }, cell) <==> !less
        }),
{
    law_cells_are_ordered_by_value(0, 0, false, false, x, y, s, t);
    law_cells_are_ordered_by_value(0, 0, false, false, y, x, t, s);
}

/// Strings meet the ordering signs in one consistent way: `<=` is `<` or the same
/// string, `>=` is `>` or the same string, and of two different strings exactly
/// one is less.
pub proof fn law_ordering_clauses_order_strings(column: Seq<char>, s: Seq<char>, t: Seq<char>)
    ensures
        ({
            let value = CellView::Str(t);
            let cell = CellView::Str(s);
            let lt = clause_holds(ClauseView { column, op: Op::Lt, value }, cell);
            let gt = clause_holds(ClauseView { column, op: Op::Gt, value }, cell);
            &&& clause_holds(ClauseView { column, op: Op::Le, value }, cell) <==> lt || s == t
            &&& clause_holds(ClauseView { column, op: Op::Ge, value }, cell) <==> gt || s == t
            &&& s == t ==> !lt && !gt
            &&& s != t ==> lt != gt
            &&& lt == clause_holds(ClauseView { column, op: Op::Gt, value: cell }, value)
            &&& lt <==> cell_order(cell, value) < 0
        }),
{
    lemma_text_order_total(s, t);
}

/// The ordering signs are met by numbers against numbers and strings against
/// strings alone.
pub proof fn law_ordering_clauses_need_like_values(c: ClauseView, cell: CellView)
    requires
        c.op != Op::Eq,
        c.op != Op::Ne,
        clause_holds(c, cell),
    ensures
        (cell is Str && c.value is Str) || ((cell is Int || cell is Float) && (c.value is Int || c.value is Float)),
{
}

/// A filtered batch has exactly the rows that meet each of the clauses, in the
/// order in which they were.
pub proof fn law_filter_keeps_rows_that_meet_each_clause(
    batch: Batch,
    from: Batch,
    clauses: Seq<ClauseView>,
    idx: Seq<usize>,
)
    requires
        is_filtered(batch, from, clauses, idx),
    ensures
        Seq::new(batch.rows as nat, |i: int| batch.row(i)) == Seq::new(
            from.rows as nat,
            |i: int| from.row(i),
        ).filter(
            |cells: Seq<CellView>|
                forall|k: int|
                    0 <= k < clauses.len() ==> clause_holds(#[trigger] clauses[k], cells[idx[k] as int]),
        ),
{
    let p = |cells: Seq<CellView>|
        forall|k: int|
            0 <= k < clauses.len() ==> clause_holds(#[trigger] clauses[k], cells[idx[k] as int]);
    let all = Seq::new(from.rows as nat, |i: int| from.row(i));
    let mask = passing(clauses, idx, from);
    law_filter_keeps_matching_rows(batch, from, clauses, idx);
    assert forall|i: int| 0 <= i < all.len() implies mask[i] == p(#[trigger] all[i]) by {
        assert(row_passes(clauses, idx, all[i]) == p(all[i]));
    }
    lemma_marked_is_filter(all, mask, p);
    assert(marked(mask).map_values(|i: int| all[i]) =~= Seq::new(batch.rows as nat, |i: int| batch.row(i)));
}

/// What a mask marks is what a filter keeps.
proof fn lemma_marked_is_filter<A>(s: Seq<A>, mask: Seq<bool>, p: spec_fn(A) -> bool)
    requires
        s.len() == mask.len(),
        forall|i: int| 0 <= i < s.len() ==> mask[i] == p(#[trigger] s[i]),
    ensures
        marked(mask).map_values(|i: int| s[i]) == s.filter(p),
        forall|i: int| 0 <= i < marked(mask).len() ==> 0 <= #[trigger] marked(mask)[i] < mask.len(),
    decreases s.len(),
{
    reveal(Seq::filter);
    if s.len() > 0 {
        let (x, m) = (s.drop_last(), mask.drop_last());
        assert forall|i: int| 0 <= i < x.len() implies m[i] == p(#[trigger] x[i]) by {
            assert(x[i] == s[i]);
        }
        lemma_marked_is_filter(x, m, p);
        assert(s[s.len() - 1] == s.last());
        assert forall|i: int| 0 <= i < marked(m).len() implies x[#[trigger] marked(m)[i]] == s[marked(m)[i]] by {}
        assert(marked(m).map_values(|i: int| x[i]) =~= marked(m).map_values(|i: int| s[i]));
        assert(marked(mask).map_values(|i: int| s[i]) =~= s.filter(p));
    } else {
        assert(marked(mask).map_values(|i: int| s[i]) =~= s.filter(p));
    }
}

/// A filter of more clauses keeps no row that one of fewer drops.
pub proof fn law_more_clauses_keep_fewer_rows(clauses: Seq<ClauseView>, idx: Seq<usize>, n: int, cells: Seq<CellView>)
    requires
        0 <= n <= clauses.len(),
        row_passes(clauses, idx, cells),
    ensures
        row_passes(clauses.take(n), idx, cells),
{
    assert forall|k: int| 0 <= k < n implies clause_holds(
        #[trigger] clauses.take(n)[k],
        cells[idx[k] as int],
    ) by {
        assert(clauses.take(n)[k] == clauses[k]);
    }
}

} // verus!
