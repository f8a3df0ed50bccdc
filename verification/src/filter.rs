//! Row filtering: a small conjunctive predicate language,
//! `col OP value [AND col OP value ...]` with OP in = != < <= > >=.
//! Values are numbers, 'single-quoted strings' ('' escapes a quote),
//! true/false, or NULL. Deliberately not SQL: no parens, no OR.

use crate::error::{Error, ErrorView};
use crate::input::{row_count, Batch, BatchIter};
use crate::key::{key_part, KeyColumn};
use crate::schema::{first_missing, places, Schema, TypeShape};
use crate::text::{characters, equals, lowered, to_lower, views};
use crate::value::{cell_order, cells_match, compare_cells, extract, quote, quoted, shown_typed, Array, Cell, CellView, Comparator, Float, OtherArray};
use vstd::prelude::*;
use vstd::string::StringExecFns;

verus! {

#[derive(Debug, Clone, Copy, PartialEq, Eq, Structural)]
pub enum Op {
    Eq,
    Ne,
    Lt,
    Le,
    Gt,
    Ge,
}

/// A numeral with the double that it stands for, or none where it stands for
/// no number, and the name of that double in messages.
#[derive(Debug)]
pub struct Numeral {
    pub text: String,
    pub value: Option<Float>,
    pub name: String,
}

/// A piece of an expression.
#[derive(Debug)]
pub enum Token {
    Ident(String),
    Op(Op),
    Value(Cell),
}

/// A piece of an expression, as plain data.
pub enum TokenView {
    Ident(Seq<char>),
    Op(Op),
    Value(CellView),
}

impl View for Token {
    type V = TokenView;

    open spec fn view(&self) -> TokenView {
        match self {
            Token::Ident(s) => TokenView::Ident(s@),
            Token::Op(op) => TokenView::Op(*op),
            Token::Value(c) => TokenView::Value(c@),
        }
    }
}

pub open spec fn token_views(v: Seq<Token>) -> Seq<TokenView> {
    v.map_values(|t: Token| t@)
}

/// Why an expression was refused.
#[derive(Debug)]
pub enum ParseError {
    UnterminatedString,
    ExpectedNotEqual,
    InvalidNumber(String),
    UnexpectedCharacter(char),
    ExpectedColumn(Option<Token>),
    ExpectedOperator(String, Option<Token>),
    UnquotedValue(String),
    ExpectedValue(Option<Token>),
    ExpectedAnd(Token),
}

/// Why an expression was refused, as plain data.
pub enum ParseErrorView {
    UnterminatedString,
    ExpectedNotEqual,
    InvalidNumber(Seq<char>),
    UnexpectedCharacter(char),
    ExpectedColumn(Option<TokenView>),
    ExpectedOperator(Seq<char>, Option<TokenView>),
    UnquotedValue(Seq<char>),
    ExpectedValue(Option<TokenView>),
    ExpectedAnd(TokenView),
}

pub open spec fn found_view(t: Option<Token>) -> Option<TokenView> {
    match t {
        Some(t) => Some(t@),
        None => None,
    }
}

impl View for ParseError {
    type V = ParseErrorView;

    open spec fn view(&self) -> ParseErrorView {
        match self {
            ParseError::UnterminatedString => ParseErrorView::UnterminatedString,
            ParseError::ExpectedNotEqual => ParseErrorView::ExpectedNotEqual,
            ParseError::InvalidNumber(s) => ParseErrorView::InvalidNumber(s@),
            ParseError::UnexpectedCharacter(c) => ParseErrorView::UnexpectedCharacter(*c),
            ParseError::ExpectedColumn(t) => ParseErrorView::ExpectedColumn(found_view(*t)),
            ParseError::ExpectedOperator(s, t) => ParseErrorView::ExpectedOperator(s@, found_view(*t)),
            ParseError::UnquotedValue(s) => ParseErrorView::UnquotedValue(s@),
            ParseError::ExpectedValue(t) => ParseErrorView::ExpectedValue(found_view(*t)),
            ParseError::ExpectedAnd(t) => ParseErrorView::ExpectedAnd(t@),
        }
    }
}

/// A character beyond ASCII that Unicode counts as a letter or a number.
pub uninterp spec fn unicode_alphanumeric(c: char) -> bool;

/// True for white space: the characters with the Unicode property
/// `White_Space`.
pub open spec fn is_space(c: char) -> bool {
    ||| '\u{9}' <= c <= '\u{d}'
    ||| c == ' ' || c == '\u{85}' || c == '\u{a0}' || c == '\u{1680}'
    ||| '\u{2000}' <= c <= '\u{200a}'
    ||| c == '\u{2028}' || c == '\u{2029}' || c == '\u{202f}' || c == '\u{205f}' || c == '\u{3000}'
}

/// True for letters and numbers.
pub open spec fn is_alphanumeric(c: char) -> bool {
    if c <= '\u{7f}' {
        is_digit(c) || 'a' <= c <= 'z' || 'A' <= c <= 'Z'
    } else {
        unicode_alphanumeric(c)
    }
}

pub open spec fn is_digit(c: char) -> bool {
    '0' <= c <= '9'
}

fn whitespace(c: char) -> (r: bool)
    ensures
        r == is_space(c),
{
    ('\u{9}' <= c && c <= '\u{d}') || c == ' ' || c == '\u{85}' || c == '\u{a0}' || c == '\u{1680}' || (
    '\u{2000}' <= c && c <= '\u{200a}') || c == '\u{2028}' || c == '\u{2029}' || c == '\u{202f}' || c
        == '\u{205f}' || c == '\u{3000}'
}

/// Calls `char::is_alphanumeric`: in ASCII the digits and the letters, and
/// beyond it a function of the character.
#[verifier::external_body]
fn alphanumeric(c: char) -> (r: bool)
    ensures
        c <= '\u{7f}' ==> r == (is_digit(c) || 'a' <= c <= 'z' || 'A' <= c <= 'Z'),
        c > '\u{7f}' ==> r == unicode_alphanumeric(c),
{
    c.is_alphanumeric()
}

/// True for a character that goes on a numeral.
pub open spec fn in_numeral() -> spec_fn(char) -> bool {
    |c: char| is_digit(c) || c == '.' || c == '-' || c == 'e' || c == 'E'
}

/// True for a character that goes on a name.
pub open spec fn in_name() -> spec_fn(char) -> bool {
    |c: char| is_alphanumeric(c) || c == '_' || c == '.'
}

/// How many characters from the start are accepted.
pub open spec fn span(s: Seq<char>, accepts: spec_fn(char) -> bool) -> nat
    decreases s.len(),
{
    if s.len() == 0 || !accepts(s[0]) {
        0
    } else {
        1 + span(s.drop_first(), accepts)
    }
}

/// What digits stand for, the last one last.
pub open spec fn digits_value(s: Seq<char>) -> nat
    decreases s.len(),
{
    if s.len() == 0 {
        0
    } else {
        digits_value(s.drop_last()) * 10 + digit_value(s.last())
    }
}

pub open spec fn digit_value(c: char) -> nat {
    (c as int - '0' as int) as nat
}

pub open spec fn all_digits(s: Seq<char>) -> bool {
    s.len() > 0 && forall|i: int| 0 <= i < s.len() ==> is_digit(#[trigger] s[i])
}

/// The 64-bit integer that a numeral stands for: digits, after a minus sign
/// where there is one.
pub open spec fn integer_value(s: Seq<char>) -> Option<i64> {
    let negative = s.len() > 0 && s[0] == '-';
    let digits = if negative {
        s.drop_first()
    } else {
        s
    };
    let n = digits_value(digits) as int;
    if !all_digits(digits) {
        None
    } else if negative && n <= 0x8000_0000_0000_0000 {
        Some((-n) as i64)
    } else if !negative && n <= 0x7fff_ffff_ffff_ffff {
        Some(n as i64)
    } else {
        None
    }
}

/// A numeral that is in a list, with its value there.
pub open spec fn known_float(known: Seq<Numeral>, s: Seq<char>) -> Option<CellView>
    decreases known.len(),
{
    if known.len() == 0 {
        None
    } else if known[0].text@ == s {
        match known[0].value {
            Some(f) => Some(CellView::Float { bits: f.bits, text: f.text@ }),
            None => None,
        }
    } else {
        known_float(known.drop_first(), s)
    }
}

/// What a numeral stands for: an integer, or else the double it is listed
/// with.
pub open spec fn numeral_value(known: Seq<Numeral>, s: Seq<char>) -> Option<CellView> {
    match integer_value(s) {
        Some(i) => Some(CellView::Int(i)),
        None => known_float(known, s),
    }
}

/// A string literal after its opening quote: what it holds and how many
/// characters it takes, up to and with its closing quote. Two quotes in a row
/// stand for one.
pub open spec fn literal(s: Seq<char>) -> Option<(Seq<char>, nat)>
    decreases s.len(),
{
    if s.len() == 0 {
        None
    } else if s[0] != '\'' {
        match literal(s.drop_first()) {
            Some((text, n)) => Some((seq![s[0]] + text, n + 1)),
            None => None,
        }
    } else if s.len() > 1 && s[1] == '\'' {
        match literal(s.skip(2)) {
            Some((text, n)) => Some((seq!['\''] + text, n + 2)),
            None => None,
        }
    } else {
        Some((seq![], 1))
    }
}

/// What comes next in an expression: a token, if any, and how many characters
/// it takes.
pub open spec fn next_token(s: Seq<char>, known: Seq<Numeral>) -> Result<
    (Option<TokenView>, nat),
    ParseErrorView,
> {
    let c = s[0];
    let follows = s.len() > 1 && s[1] == '=';
    if is_space(c) {
        Ok((None, 1))
    } else if c == '\'' {
        match literal(s.drop_first()) {
            Some((text, n)) => Ok((Some(TokenView::Value(CellView::Str(text))), n + 1)),
            None => Err(ParseErrorView::UnterminatedString),
        }
    } else if c == '=' {
        Ok((Some(TokenView::Op(Op::Eq)), 1))
    } else if c == '!' {
        if follows {
            Ok((Some(TokenView::Op(Op::Ne)), 2))
        } else {
            Err(ParseErrorView::ExpectedNotEqual)
        }
    } else if c == '<' {
        if follows {
            Ok((Some(TokenView::Op(Op::Le)), 2))
        } else {
            Ok((Some(TokenView::Op(Op::Lt)), 1))
        }
    } else if c == '>' {
        if follows {
            Ok((Some(TokenView::Op(Op::Ge)), 2))
        } else {
            Ok((Some(TokenView::Op(Op::Gt)), 1))
        }
    } else if is_digit(c) || c == '-' || c == '.' {
        let n = span(s, in_numeral());
        match numeral_value(known, s.take(n as int)) {
            Some(v) => Ok((Some(TokenView::Value(v)), n)),
            None => Err(ParseErrorView::InvalidNumber(s.take(n as int))),
        }
    } else if is_alphanumeric(c) || c == '_' {
        let n = span(s, in_name());
        Ok((Some(TokenView::Ident(s.take(n as int))), n))
    } else {
        Err(ParseErrorView::UnexpectedCharacter(c))
    }
}

/// A span is within the text, and takes in its first character where that is
/// accepted.
pub proof fn lemma_span(s: Seq<char>, accepts: spec_fn(char) -> bool)
    ensures
        span(s, accepts) <= s.len(),
        s.len() > 0 && accepts(s[0]) ==> span(s, accepts) > 0,
    decreases s.len(),
{
    if s.len() > 0 && accepts(s[0]) {
        lemma_span(s.drop_first(), accepts);
    }
}

/// A literal ends within the text.
pub proof fn lemma_literal(s: Seq<char>)
    ensures
        literal(s) matches Some((text, n)) ==> 0 < n <= s.len(),
    decreases s.len(),
{
    if s.len() > 0 && s[0] != '\'' {
        lemma_literal(s.drop_first());
    } else if s.len() > 1 && s[1] == '\'' {
        lemma_literal(s.skip(2));
    }
}

/// A token takes at least one character, and no more than there are.
pub proof fn lemma_next_token(s: Seq<char>, known: Seq<Numeral>)
    requires
        s.len() > 0,
    ensures
        next_token(s, known) matches Ok((t, n)) ==> 0 < n <= s.len(),
{
    lemma_span(s, in_numeral());
    lemma_span(s, in_name());
    lemma_literal(s.drop_first());
}

/// The tokens of an expression.
pub open spec fn tokens(s: Seq<char>, known: Seq<Numeral>) -> Result<Seq<TokenView>, ParseErrorView>
    decreases s.len(),
{
    if s.len() == 0 {
        Ok(seq![])
    } else {
        match next_token(s, known) {
            Err(e) => Err(e),
            Ok((t, n)) => {
                proof {
                    lemma_next_token(s, known);
                }
                match tokens(s.skip(n as int), known) {
                    Err(e) => Err(e),
                    Ok(rest) => Ok(
                        match t {
                            Some(t) => seq![t] + rest,
                            None => rest,
                        },
                    ),
                }
            },
        }
    }
}

/// The characters from one place to another, as a string.
fn text_between(chars: &Vec<char>, from: usize, to: usize) -> (r: String)
    requires
        from <= to <= chars@.len(),
    ensures
        r@ == chars@.subrange(from as int, to as int),
{
    let mut r = String::new();
    assert(r@ =~= chars@.subrange(from as int, from as int));
    for i in from..to
        invariant
            from <= to <= chars@.len(),
            r@ == chars@.subrange(from as int, i as int),
    {
        r.push(chars[i]);
        assert(chars@.subrange(from as int, i + 1) =~= chars@.subrange(from as int, i as int).push(
            chars@[i as int],
        ));
    }
    r
}

fn digit_char(c: char) -> (r: bool)
    ensures
        r == is_digit(c),
{
    '0' <= c && c <= '9'
}

fn numeral_char(c: char) -> (r: bool)
    ensures
        r == in_numeral()(c),
{
    digit_char(c) || c == '.' || c == '-' || c == 'e' || c == 'E'
}

fn name_char(c: char) -> (r: bool)
    ensures
        r == in_name()(c),
{
    alphanumeric(c) || c == '_' || c == '.'
}

/// Where a numeral (or else a name) that starts at a place ends.
fn span_end(chars: &Vec<char>, from: usize, numeral: bool) -> (r: usize)
    requires
        from <= chars@.len(),
    ensures
        from <= r <= chars@.len(),
        r - from == span(
            chars@.skip(from as int),
            if numeral {
                in_numeral()
            } else {
                in_name()
            },
        ),
{
    let ghost p = if numeral {
        in_numeral()
    } else {
        in_name()
    };
    let ghost s = chars@.skip(from as int);
    let mut i = from;
    while i < chars.len()
        invariant
            from <= i <= chars@.len(),
            s == chars@.skip(from as int),
            p == if numeral {
                in_numeral()
            } else {
                in_name()
            },
            span(s, p) == (i - from) + span(chars@.skip(i as int), p),
        decreases chars@.len() - i,
    {
        let ghost rest = chars@.skip(i as int);
        assert(rest[0] == chars@[i as int]);
        assert(rest.drop_first() =~= chars@.skip(i + 1));
        let goes_on = if numeral {
            numeral_char(chars[i])
        } else {
            name_char(chars[i])
        };
        if !goes_on {
            return i;
        }
        i = i + 1;
    }
    assert(chars@.skip(i as int) =~= seq![]);
    i
}

/// Reads a string literal after its opening quote: what it holds, and where it
/// ends.
fn read_literal(chars: &Vec<char>, from: usize) -> (r: Option<(String, usize)>)
    requires
        from <= chars@.len(),
    ensures
        match r {
            Some((text, end)) => {
                &&& from <= end <= chars@.len()
                &&& literal(chars@.skip(from as int)) == Some((text@, (end - from) as nat))
            },
            None => literal(chars@.skip(from as int)) is None,
        },
{
    let ghost s = chars@.skip(from as int);
    let mut out = String::new();
    let mut i = from;
    proof {
        if let Some((text, n)) = literal(s) {
            assert(out@ + text =~= text);
        }
    }
    while i < chars.len()
        invariant
            from <= i <= chars@.len(),
            s == chars@.skip(from as int),
            match literal(chars@.skip(i as int)) {
                Some((text, n)) => literal(s) == Some((out@ + text, (i - from) as nat + n)),
                None => literal(s) is None,
            },
        decreases chars@.len() - i,
    {
        let ghost rest = chars@.skip(i as int);
        let ghost before = out@;
        proof {
            assert(rest[0] == chars@[i as int]);
            assert(rest.drop_first() =~= chars@.skip(i + 1));
            if i + 1 < chars@.len() {
                assert(rest[1] == chars@[i + 1]);
                assert(rest.skip(2) =~= chars@.skip(i + 2));
            }
        }
        if chars[i] != '\'' {
            let c = chars[i];
            out.push(c);
            i = i + 1;
            proof {
                if let Some((text, n)) = literal(chars@.skip(i as int)) {
                    assert(before + (seq![c] + text) =~= out@ + text);
                }
            }
        } else if i + 1 < chars.len() && chars[i + 1] == '\'' {
            out.push('\'');
            i = i + 2;
            proof {
                if let Some((text, n)) = literal(chars@.skip(i as int)) {
                    assert(before + (seq!['\''] + text) =~= out@ + text);
                }
            }
        } else {
            assert(out@ + seq![] =~= out@);
            return Some((out, i + 1));
        }
    }
    assert(chars@.skip(i as int) =~= seq![]);
    None
}

/// One more than the largest magnitude of an integer.
const TOO_LARGE: u128 = 0x8000_0000_0000_0001;

/// A number, or one that is too large where it is larger.
spec fn capped(n: nat) -> nat {
    if n > 0x8000_0000_0000_0000 {
        0x8000_0000_0000_0001
    } else {
        n
    }
}

/// Appends a digit to a number.
fn append_digit(v: u128, c: char, Ghost(n): Ghost<nat>) -> (r: u128)
    requires
        is_digit(c),
        v == capped(n),
    ensures
        r == capped(n * 10 + digit_value(c)),
{
    if v == TOO_LARGE {
        v
    } else {
        let w: u128 = v * 10 + (c as u32 - '0' as u32) as u128;
        if w >= TOO_LARGE {
            TOO_LARGE
        } else {
            w
        }
    }
}

/// Reads digits from a place on: what they stand for, unless something else
/// is among them or there are none.
fn read_digits(chars: &Vec<char>, start: usize) -> (r: Option<u128>)
    requires
        start <= chars@.len(),
    ensures
        match r {
            Some(v) => all_digits(chars@.skip(start as int)) && v == capped(
                digits_value(chars@.skip(start as int)),
            ),
            None => !all_digits(chars@.skip(start as int)),
        },
{
    let ghost digits = chars@.skip(start as int);
    let mut v: u128 = 0;
    assert(digits.take(0) =~= seq![]);
    for i in start..chars.len()
        invariant
            start <= chars@.len(),
            digits == chars@.skip(start as int),
            forall|j: int| 0 <= j < i - start ==> is_digit(#[trigger] digits[j]),
            v == capped(digits_value(digits.take(i - start))),
    {
        let c = chars[i];
        assert(digits[i - start] == c);
        if !digit_char(c) {
            return None;
        }
        proof {
            let next = digits.take(i - start + 1);
            assert(next.drop_last() =~= digits.take(i - start));
            assert(next.last() == c);
        }
        v = append_digit(v, c, Ghost(digits_value(digits.take(i - start))));
    }
    assert(digits.take(digits.len() as int) =~= digits);
    if start == chars.len() {
        None
    } else {
        Some(v)
    }
}

/// Reads an integer.
fn read_integer(s: &String) -> (r: Option<i64>)
    ensures
        r == integer_value(s@),
{
    let chars = characters(s.as_str());
    let negative = chars.len() > 0 && chars[0] == '-';
    proof {
        assert(s@.skip(0) =~= s@);
        if negative {
            assert(s@.skip(1) =~= s@.drop_first());
        }
    }
    match read_digits(&chars, if negative { 1 } else { 0 }) {
        None => None,
        Some(v) => if negative && v <= 0x8000_0000_0000_0000 {
            Some((-(v as i128)) as i64)
        } else if !negative && v <= 0x7fff_ffff_ffff_ffff {
            Some(v as i64)
        } else {
            None
        },
    }
}

/// Looks up a numeral.
fn find_float(known: &Vec<Numeral>, s: &String) -> (r: Option<Cell>)
    ensures
        match r {
            Some(c) => known_float(known@, s@) == Some(c@),
            None => known_float(known@, s@) is None,
        },
{
    assert(known@.skip(0) =~= known@);
    for i in 0..known.len()
        invariant
            known_float(known@, s@) == known_float(known@.skip(i as int), s@),
    {
        assert(known@.skip(i as int)[0] == known@[i as int]);
        assert(known@.skip(i as int).drop_first() =~= known@.skip(i + 1));
        if known[i].text == *s {
            return match &known[i].value {
                Some(f) => Some(Cell::Float(f.clone())),
                None => None,
            };
        }
    }
    assert(known@.skip(known@.len() as int) =~= seq![]);
    None
}

/// Reads what comes next in an expression: a token, if any, and where it ends.
fn read_token(chars: &Vec<char>, at: usize, known: &Vec<Numeral>) -> (r: Result<
    (Option<Token>, usize),
    ParseError,
>)
    requires
        at < chars@.len(),
    ensures
        match r {
            Ok((t, end)) => {
                &&& at < end <= chars@.len()
                &&& next_token(chars@.skip(at as int), known@) == Ok::<
                    (Option<TokenView>, nat),
                    ParseErrorView,
                >((found_view(t), (end - at) as nat))
            },
            Err(e) => next_token(chars@.skip(at as int), known@) == Err::<
                (Option<TokenView>, nat),
                ParseErrorView,
            >(e@),
        },
{
    let ghost s = chars@.skip(at as int);
    let c = chars[at];
    let follows = at < chars.len() - 1 && chars[at + 1] == '=';
    proof {
        assert(s[0] == c);
        assert(s.drop_first() =~= chars@.skip(at + 1));
        if at + 1 < chars@.len() {
            assert(s[1] == chars@[at + 1]);
        }
        lemma_next_token(s, known@);
    }
    if whitespace(c) {
        Ok((None, at + 1))
    } else if c == '\'' {
        match read_literal(chars, at + 1) {
            Some((text, end)) => Ok((Some(Token::Value(Cell::Str(text))), end)),
            None => Err(ParseError::UnterminatedString),
        }
    } else if c == '=' {
        Ok((Some(Token::Op(Op::Eq)), at + 1))
    } else if c == '!' {
        if follows {
            Ok((Some(Token::Op(Op::Ne)), at + 2))
        } else {
            Err(ParseError::ExpectedNotEqual)
        }
    } else if c == '<' {
        if follows {
            Ok((Some(Token::Op(Op::Le)), at + 2))
        } else {
            Ok((Some(Token::Op(Op::Lt)), at + 1))
        }
    } else if c == '>' {
        if follows {
            Ok((Some(Token::Op(Op::Ge)), at + 2))
        } else {
            Ok((Some(Token::Op(Op::Gt)), at + 1))
        }
    } else if digit_char(c) || c == '-' || c == '.' {
        let end = span_end(chars, at, true);
        let text = text_between(chars, at, end);
        assert(text@ =~= s.take(end - at));
        match read_integer(&text) {
            Some(i) => Ok((Some(Token::Value(Cell::Int(i))), end)),
            None => match find_float(known, &text) {
                Some(cell) => Ok((Some(Token::Value(cell)), end)),
                None => Err(ParseError::InvalidNumber(text)),
            },
        }
    } else if alphanumeric(c) || c == '_' {
        let end = span_end(chars, at, false);
        let text = text_between(chars, at, end);
        assert(text@ =~= s.take(end - at));
        Ok((Some(Token::Ident(text)), end))
    } else {
        Err(ParseError::UnexpectedCharacter(c))
    }
}

/// Splits an expression into tokens. The numerals that are no integers are
/// looked up among the known ones.
pub fn tokenize(expr: &str, known: &Vec<Numeral>) -> (r: Result<Vec<Token>, ParseError>)
    ensures
        match r {
            Ok(list) => tokens(expr@, known@) == Ok::<Seq<TokenView>, ParseErrorView>(
                token_views(list@),
            ),
            Err(e) => tokens(expr@, known@) == Err::<Seq<TokenView>, ParseErrorView>(e@),
        },
{
    let chars = characters(expr);
    let ghost all = tokens(expr@, known@);
    let mut list: Vec<Token> = Vec::new();
    let mut at: usize = 0;
    proof {
        assert(chars@.skip(0) =~= expr@);
        if let Ok(rest) = all {
            assert(token_views(list@) + rest =~= rest);
        }
    }
    while at < chars.len()
        invariant
            at <= chars@.len(),
            all == tokens(expr@, known@),
            match tokens(chars@.skip(at as int), known@) {
                Ok(rest) => all == Ok::<Seq<TokenView>, ParseErrorView>(token_views(list@) + rest),
                Err(e) => all == Err::<Seq<TokenView>, ParseErrorView>(e),
            },
        decreases chars@.len() - at,
    {
        let ghost s = chars@.skip(at as int);
        let ghost before = token_views(list@);
        match read_token(&chars, at, known) {
            Ok((t, end)) => {
                assert(s.skip(end - at) =~= chars@.skip(end as int));
                if let Some(token) = t {
                    let ghost view = token@;
                    list.push(token);
                    proof {
                        assert(token_views(list@) =~= before.push(view));
                        if let Ok(rest) = tokens(chars@.skip(end as int), known@) {
                            assert(before + (seq![view] + rest) =~= token_views(list@) + rest);
                        }
                    }
                }
                at = end;
            },
            Err(e) => {
                return Err(e);
            },
        }
    }
    proof {
        assert(chars@.skip(at as int) =~= seq![]);
        assert(token_views(list@) + seq![] =~= token_views(list@));
    }
    Ok(list)
}

/// A comparison of a column with a value.
#[derive(Debug)]
pub struct Clause {
    pub column: String,
    pub op: Op,
    pub value: Cell,
}

/// A comparison, as plain data.
pub struct ClauseView {
    pub column: Seq<char>,
    pub op: Op,
    pub value: CellView,
}

impl View for Clause {
    type V = ClauseView;

    open spec fn view(&self) -> ClauseView {
        ClauseView { column: self.column@, op: self.op, value: self.value@ }
    }
}

pub open spec fn clause_views(v: Seq<Clause>) -> Seq<ClauseView> {
    v.map_values(|c: Clause| c@)
}

/// Rows in which every clause holds.
#[derive(Debug)]
pub struct Predicate {
    pub clauses: Vec<Clause>,
}

/// The token at a place, if there is one.
pub open spec fn token_at(ts: Seq<TokenView>, i: int) -> Option<TokenView> {
    if 0 <= i < ts.len() {
        Some(ts[i])
    } else {
        None
    }
}

/// The value that a token stands for: a literal, or a keyword in any case.
pub open spec fn value_of(t: Option<TokenView>) -> Result<CellView, ParseErrorView> {
    match t {
        Some(TokenView::Value(v)) => Ok(v),
        Some(TokenView::Ident(w)) => if lowered(w) == "true"@ {
            Ok(CellView::Bool(true))
        } else if lowered(w) == "false"@ {
            Ok(CellView::Bool(false))
        } else if lowered(w) == "null"@ {
            Ok(CellView::Null)
        } else {
            Err(ParseErrorView::UnquotedValue(w))
        },
        other => Err(ParseErrorView::ExpectedValue(other)),
    }
}

/// The clause that tokens start with.
pub open spec fn first_clause(ts: Seq<TokenView>) -> Result<ClauseView, ParseErrorView> {
    match token_at(ts, 0) {
        Some(TokenView::Ident(column)) => match token_at(ts, 1) {
            Some(TokenView::Op(op)) => match value_of(token_at(ts, 2)) {
                Ok(value) => Ok(ClauseView { column, op, value }),
                Err(e) => Err(e),
            },
            other => Err(ParseErrorView::ExpectedOperator(column, other)),
        },
        other => Err(ParseErrorView::ExpectedColumn(other)),
    }
}

/// True for the word that joins clauses.
pub open spec fn is_and(t: TokenView) -> bool {
    t matches TokenView::Ident(w) && lowered(w) == "and"@
}

/// The clauses of an expression: one, or more with AND between them.
pub open spec fn clauses_of(ts: Seq<TokenView>) -> Result<Seq<ClauseView>, ParseErrorView>
    decreases ts.len(),
{
    match first_clause(ts) {
        Err(e) => Err(e),
        Ok(c) => if ts.len() <= 3 {
            Ok(seq![c])
        } else if !is_and(ts[3]) {
            Err(ParseErrorView::ExpectedAnd(ts[3]))
        } else {
            match clauses_of(ts.skip(4)) {
                Ok(rest) => Ok(seq![c] + rest),
                Err(e) => Err(e),
            }
        },
    }
}

/// What an expression means.
pub open spec fn parsed(expr: Seq<char>, known: Seq<Numeral>) -> Result<Seq<ClauseView>, ParseErrorView> {
    match tokens(expr, known) {
        Ok(ts) => clauses_of(ts),
        Err(e) => Err(e),
    }
}

/// Reads the value that a token stands for.
fn read_value(t: Option<Token>) -> (r: Result<Cell, ParseError>)
    ensures
        match r {
            Ok(c) => value_of(found_view(t)) == Ok::<CellView, ParseErrorView>(c@),
            Err(e) => value_of(found_view(t)) == Err::<CellView, ParseErrorView>(e@),
        },
{
    match t {
        Some(Token::Value(v)) => Ok(v),
        Some(Token::Ident(w)) => {
            let l = to_lower(w.as_str());
            if equals(&l, "true") {
                Ok(Cell::Bool(true))
            } else if equals(&l, "false") {
                Ok(Cell::Bool(false))
            } else if equals(&l, "null") {
                Ok(Cell::Null)
            } else {
                Err(ParseError::UnquotedValue(w))
            }
        },
        other => Err(ParseError::ExpectedValue(other)),
    }
}

/// Takes the next token from tokens that come last one first.
fn take_token(left: &mut Vec<Token>, Ghost(ts): Ghost<Seq<TokenView>>) -> (t: Option<Token>)
    requires
        token_views(old(left)@).reverse() == ts,
    ensures
        found_view(t) == token_at(ts, 0),
        token_views(final(left)@).reverse() == (if ts.len() > 0 {
            ts.drop_first()
        } else {
            ts
        }),
{
    let ghost v = token_views(left@);
    let t = left.pop();
    proof {
        if v.len() > 0 {
            assert(ts[0] == v.last());
            assert(token_views(left@) =~= v.drop_last());
            assert(token_views(left@).reverse() =~= ts.drop_first());
        } else {
            assert(token_views(left@) =~= v);
        }
    }
    t
}

impl Predicate {
    /// Parses an expression. The numerals that are no integers are looked up
    /// among the known ones.
    pub fn parse(expr: &str, known: &Vec<Numeral>) -> (r: Result<Self, ParseError>)
        ensures
            match r {
                Ok(p) => parsed(expr@, known@) == Ok::<Seq<ClauseView>, ParseErrorView>(
                    clause_views(p.clauses@),
                ),
                Err(e) => parsed(expr@, known@) == Err::<Seq<ClauseView>, ParseErrorView>(e@),
            },
    {
        let list = match tokenize(expr, known) {
            Ok(list) => list,
            Err(e) => {
                return Err(e);
            },
        };
        let ghost all = clauses_of(token_views(list@));
        let ghost mut ts = token_views(list@);
        let mut left = crate::sort::reversed(list);
        let mut clauses: Vec<Clause> = Vec::new();
        proof {
            assert(token_views(left@).reverse() =~= ts);
            if let Ok(rest) = all {
                assert(clause_views(clauses@) + rest =~= rest);
            }
        }
        loop
            invariant
                token_views(left@).reverse() == ts,
                parsed(expr@, known@) == all,
                match clauses_of(ts) {
                    Ok(rest) => all == Ok::<Seq<ClauseView>, ParseErrorView>(
                        clause_views(clauses@) + rest,
                    ),
                    Err(e) => all == Err::<Seq<ClauseView>, ParseErrorView>(e),
                },
            decreases left@.len(),
        {
            let ghost start = ts;
            let ghost before = clause_views(clauses@);
            let column = match take_token(&mut left, Ghost(ts)) {
                Some(Token::Ident(c)) => c,
                other => {
                    return Err(ParseError::ExpectedColumn(other));
                },
            };
            proof {
                ts = ts.drop_first();
                assert(token_at(ts, 0) == token_at(start, 1));
            }
            let op = match take_token(&mut left, Ghost(ts)) {
                Some(Token::Op(op)) => op,
                other => {
                    return Err(ParseError::ExpectedOperator(column, other));
                },
            };
            proof {
                ts = ts.drop_first();
                assert(token_at(ts, 0) == token_at(start, 2));
            }
            let token = take_token(&mut left, Ghost(ts));
            let value = match read_value(token) {
                Ok(value) => value,
                Err(e) => {
                    return Err(e);
                },
            };
            proof {
                assert(ts.len() > 0);
                ts = ts.drop_first();
                assert(token_at(ts, 0) == token_at(start, 3));
            }
            let clause = Clause { column, op, value };
            let ghost c = clause@;
            assert(first_clause(start) == Ok::<ClauseView, ParseErrorView>(c));
            clauses.push(clause);
            assert(clause_views(clauses@) =~= before.push(c));
            match take_token(&mut left, Ghost(ts)) {
                None => {
                    assert(start.len() == 3);
                    assert(before + seq![c] =~= before.push(c));
                    return Ok(Predicate { clauses });
                },
                Some(t) => {
                    let joins = match &t {
                        Token::Ident(w) => equals(&to_lower(w.as_str()), "and"),
                        _ => false,
                    };
                    assert(joins == is_and(start[3]));
                    if !joins {
                        return Err(ParseError::ExpectedAnd(t));
                    }
                    proof {
                        ts = ts.drop_first();
                        assert(ts =~= start.skip(4));
                        if let Ok(rest) = clauses_of(ts) {
                            assert(before + (seq![c] + rest) =~= clause_views(clauses@) + rest);
                        }
                    }
                },
            }
        }
    }

    /// The columns that the clauses are about.
    pub fn columns(&self) -> (r: Vec<String>)
        ensures
            views(r@) == clause_views(self.clauses@).map_values(|c: ClauseView| c.column),
    {
        let mut r: Vec<String> = Vec::new();
        for i in 0..self.clauses.len()
            invariant
                r.len() == i,
                forall|j: int| 0 <= j < i ==> (#[trigger] r@[j])@ == self.clauses@[j].column@,
        {
            r.push(self.clauses[i].column.clone());
        }
        assert(views(r@) =~= clause_views(self.clauses@).map_values(|c: ClauseView| c.column));
        r
    }
}

/// Ordering needs comparable classes: numeric vs numeric or string vs string.
/// Anything else (incl. NULL) never matches.
pub open spec fn can_be_ordered(a: CellView, b: CellView) -> bool {
    ||| (a is Int || a is Float) && (b is Int || b is Float)
    ||| a is Str && b is Str
}

/// True where a cell meets a clause.
pub open spec fn clause_holds(c: ClauseView, cell: CellView) -> bool {
    let exact = Comparator { tol_abs: None, tol_rel: None };
    let order = cell_order(cell, c.value);
    match c.op {
        Op::Eq => cells_match(exact, cell, c.value),
        Op::Ne => !cells_match(exact, cell, c.value),
        Op::Lt => can_be_ordered(cell, c.value) && order < 0,
        Op::Le => can_be_ordered(cell, c.value) && order <= 0,
        Op::Gt => can_be_ordered(cell, c.value) && order > 0,
        Op::Ge => can_be_ordered(cell, c.value) && order >= 0,
    }
}

fn ord_compatible(a: &Cell, b: &Cell) -> (r: bool)
    ensures
        r == can_be_ordered(a@, b@),
{
    match (a, b) {
        (Cell::Int(_), Cell::Int(_)) => true,
        (Cell::Int(_), Cell::Float(_)) => true,
        (Cell::Float(_), Cell::Int(_)) => true,
        (Cell::Float(_), Cell::Float(_)) => true,
        (Cell::Str(_), Cell::Str(_)) => true,
        _ => false,
    }
}

impl Clause {
    /// True where a cell meets the clause.
    pub fn matches(&self, cell: &Cell) -> (r: bool)
        ensures
            r == clause_holds(self@, cell@),
    {
        let exact = Comparator::default();
        match self.op {
            Op::Eq => exact.eq(cell, &self.value),
            Op::Ne => !exact.eq(cell, &self.value),
            Op::Lt => ord_compatible(cell, &self.value) && compare_cells(cell, &self.value) < 0,
            Op::Le => ord_compatible(cell, &self.value) && compare_cells(cell, &self.value) <= 0,
            Op::Gt => ord_compatible(cell, &self.value) && compare_cells(cell, &self.value) > 0,
            Op::Ge => ord_compatible(cell, &self.value) && compare_cells(cell, &self.value) >= 0,
        }
    }
}

/// The places that a mask marks.
pub open spec fn marked(mask: Seq<bool>) -> Seq<int>
    decreases mask.len(),
{
    if mask.len() == 0 {
        seq![]
    } else if mask.last() {
        marked(mask.drop_last()).push(mask.len() - 1)
    } else {
        marked(mask.drop_last())
    }
}

proof fn lemma_marked(mask: Seq<bool>)
    ensures
        marked(mask).len() <= mask.len(),
        forall|i: int| 0 <= i < marked(mask).len() ==> 0 <= #[trigger] marked(mask)[i] < mask.len(),
    decreases mask.len(),
{
    if mask.len() > 0 {
        lemma_marked(mask.drop_last());
    }
}

/// Keeps the marked elements.
fn kept<T>(v: Vec<T>, mask: &Vec<bool>) -> (r: Vec<T>)
    requires
        v@.len() == mask@.len(),
    ensures
        r@.len() == marked(mask@).len(),
        forall|i: int| 0 <= i < r@.len() ==> #[trigger] r@[i] == v@[marked(mask@)[i]],
{
    let ghost all = v@;
    let mut left = crate::sort::reversed(v);
    let n = left.len();
    let mut r: Vec<T> = Vec::new();
    for i in 0..n
        invariant
            n == all.len(),
            mask@.len() == n,
            left@ == all.skip(i as int).reverse(),
            r@.len() == marked(mask@.take(i as int)).len(),
            forall|j: int|
                0 <= j < r@.len() ==> #[trigger] r@[j] == all[marked(mask@.take(i as int))[j]],
    {
        let ghost here = left@;
        assert(mask@.take(i + 1).drop_last() =~= mask@.take(i as int));
        match left.pop() {
            Some(x) => {
                assert(here.last() == all[i as int]);
                if mask[i] {
                    r.push(x);
                }
            },
            None => {},
        }
        assert(left@ =~= all.skip(i + 1).reverse());
    }
    assert(mask@.take(n as int) =~= mask@);
    r
}

/// One column holds the values that another has at the given places.
pub open spec fn picks(col: Array, from: Array, at: Seq<int>) -> bool {
    &&& col.wf()
    &&& col.spec_len() == at.len()
    &&& col.type_shape() == from.type_shape()
    &&& forall|i: int| 0 <= i < at.len() ==> #[trigger] col.cell(i) == from.cell(at[i])
    &&& forall|t: TypeShape, i: int|
        0 <= i < at.len() ==> #[trigger] key_part(col, t, i) == key_part(from, t, at[i])
}

fn keep_key_column(col: KeyColumn, mask: &Vec<bool>) -> (r: KeyColumn)
    requires
        col.spec_len() == mask@.len(),
    ensures
        r.spec_len() == marked(mask@).len(),
        r.kind() == col.kind(),
        forall|i: int| 0 <= i < r.spec_len() ==> #[trigger] r.part(i) == col.part(marked(mask@)[i]),
{
    match col {
        KeyColumn::Ints(v) => KeyColumn::Ints(kept(v, mask)),
        KeyColumn::Texts(v) => KeyColumn::Texts(kept(v, mask)),
        KeyColumn::Bytes(v) => KeyColumn::Bytes(kept(v, mask)),
    }
}

/// Keeps the marked rows of a column.
fn keep_column(col: Array, mask: &Vec<bool>) -> (r: Array)
    requires
        col.wf(),
        col.spec_len() == mask@.len(),
    ensures
        picks(r, col, marked(mask@)),
{
    proof {
        lemma_marked(mask@);
    }
    match col {
        Array::Boolean(v) => Array::Boolean(kept(v, mask)),
        Array::Int8(v) => Array::Int8(kept(v, mask)),
        Array::Int16(v) => Array::Int16(kept(v, mask)),
        Array::Int32(v) => Array::Int32(kept(v, mask)),
        Array::Int64(v) => Array::Int64(kept(v, mask)),
        Array::UInt8(v) => Array::UInt8(kept(v, mask)),
        Array::UInt16(v) => Array::UInt16(kept(v, mask)),
        Array::UInt32(v) => Array::UInt32(kept(v, mask)),
        Array::UInt64(v) => Array::UInt64(kept(v, mask)),
        Array::Float32(v) => Array::Float32(kept(v, mask)),
        Array::Float64(v) => Array::Float64(kept(v, mask)),
        Array::Utf8(v) => Array::Utf8(kept(v, mask)),
        Array::LargeUtf8(v) => Array::LargeUtf8(kept(v, mask)),
        Array::Utf8View(v) => Array::Utf8View(kept(v, mask)),
        Array::RowHash(v) => Array::RowHash(kept(v, mask)),
        Array::Other(a) => Array::Other(
            OtherArray {
                data_type: a.data_type,
                shown: kept(a.shown, mask),
                text: kept(a.text, mask),
                wide: kept(a.wide, mask),
                native: keep_key_column(a.native, mask),
            },
        ),
    }
}

/// True where a row meets every clause.
pub open spec fn row_passes(clauses: Seq<ClauseView>, idx: Seq<usize>, cells: Seq<CellView>) -> bool {
    forall|k: int|
        0 <= k < clauses.len() ==> clause_holds(#[trigger] clauses[k], cells[idx[k] as int])
}

/// Which rows of a batch meet every clause.
pub open spec fn passing(clauses: Seq<ClauseView>, idx: Seq<usize>, batch: Batch) -> Seq<bool> {
    Seq::new(batch.rows as nat, |row: int| row_passes(clauses, idx, batch.row(row)))
}

/// A batch holds the rows of another that meet every clause. The sizes of its
/// columns are another matter.
pub open spec fn is_filtered(batch: Batch, from: Batch, clauses: Seq<ClauseView>, idx: Seq<usize>) -> bool {
    let at = marked(passing(clauses, idx, from));
    &&& batch.wf()
    &&& batch.rows == at.len()
    &&& batch.rows <= from.rows
    &&& batch.columns@.len() == from.columns@.len()
    &&& forall|c: int|
        0 <= c < from.columns@.len() ==> picks(#[trigger] batch.columns@[c], from.columns@[c], at)
}

impl Predicate {
    /// Marks the rows of a batch that meet every clause.
    pub fn mask(&self, batch: &Batch, idx: &Vec<usize>) -> (mask: Vec<bool>)
        requires
            batch.wf(),
            idx@.len() == self.clauses@.len(),
            forall|i: int| 0 <= i < idx@.len() ==> #[trigger] idx@[i] < batch.columns@.len(),
        ensures
            mask@ == passing(clause_views(self.clauses@), idx@, *batch),
    {
        let ghost clauses = clause_views(self.clauses@);
        let mut mask: Vec<bool> = Vec::new();
        for row in 0..batch.rows
            invariant
                batch.wf(),
                clauses == clause_views(self.clauses@),
                idx@.len() == self.clauses@.len(),
                forall|i: int| 0 <= i < idx@.len() ==> #[trigger] idx@[i] < batch.columns@.len(),
                mask.len() == row,
                forall|j: int|
                    0 <= j < row ==> #[trigger] mask@[j] == row_passes(clauses, idx@, batch.row(j)),
        {
            let ghost cells = batch.row(row as int);
            let mut keep = true;
            let mut k: usize = 0;
            while keep && k < self.clauses.len()
                invariant
                    batch.wf(),
                    row < batch.rows,
                    clauses == clause_views(self.clauses@),
                    cells == batch.row(row as int),
                    idx@.len() == self.clauses@.len(),
                    forall|i: int| 0 <= i < idx@.len() ==> #[trigger] idx@[i] < batch.columns@.len(),
                    k <= self.clauses@.len(),
                    keep ==> forall|i: int|
                        0 <= i < k ==> clause_holds(#[trigger] clauses[i], cells[idx@[i] as int]),
                    !keep ==> !row_passes(clauses, idx@, cells),
                decreases self.clauses@.len() - k,
            {
                assert(idx@[k as int] < batch.columns@.len());
                let col = &batch.columns[idx[k]];
                assert(batch.columns@[idx@[k as int] as int].wf());
                let cell = extract(col, row);
                assert(clauses[k as int] == self.clauses@[k as int]@);
                assert(cells[idx@[k as int] as int] == cell@);
                if !self.clauses[k].matches(&cell) {
                    keep = false;
                }
                k = k + 1;
            }
            mask.push(keep);
        }
        assert(mask@ =~= passing(clauses, idx@, *batch));
        mask
    }

    /// Keeps the rows of a batch that meet every clause. How much memory its
    /// columns then take is measured by the caller, who learns from [`Self::mask`]
    /// which rows are kept.
    pub fn filter_batch(&self, batch: Batch, idx: &Vec<usize>, sizes: Vec<usize>) -> (r: Batch)
        requires
            batch.wf(),
            sizes@.len() == batch.columns@.len(),
            idx@.len() == self.clauses@.len(),
            forall|i: int| 0 <= i < idx@.len() ==> #[trigger] idx@[i] < batch.columns@.len(),
        ensures
            is_filtered(r, batch, clause_views(self.clauses@), idx@),
            r.sizes == sizes,
    {
        let mask = self.mask(&batch, idx);
        let ghost at = marked(mask@);
        let mut rows: usize = 0;
        assert(marked(mask@.take(0)).len() == 0);
        for i in 0..mask.len()
            invariant
                rows == marked(mask@.take(i as int)).len(),
                rows <= i,
        {
            assert(mask@.take(i + 1).drop_last() =~= mask@.take(i as int));
            if mask[i] {
                rows = rows + 1;
            }
        }
        assert(mask@.take(mask@.len() as int) =~= mask@);
        let ghost all = batch.columns@;
        let ghost height = batch.rows;
        proof {
            lemma_marked(mask@);
        }
        let mut left = crate::sort::reversed(batch.columns);
        let n = left.len();
        let mut columns: Vec<Array> = Vec::new();
        for c in 0..n
            invariant
                n == all.len(),
                mask@.len() == height,
                at == marked(mask@),
                forall|j: int|
                    0 <= j < all.len() ==> (#[trigger] all[j]).wf() && all[j].spec_len() == height,
                left@ == all.skip(c as int).reverse(),
                columns.len() == c,
                forall|j: int| 0 <= j < c ==> picks(#[trigger] columns@[j], all[j], at),
        {
            let ghost here = left@;
            match left.pop() {
                Some(col) => {
                    assert(here.last() == all[c as int]);
                    assert(all[c as int].wf());
                    columns.push(keep_column(col, &mask));
                },
                None => {},
            }
            assert(left@ =~= all.skip(c + 1).reverse());
        }
        let r = Batch { columns, rows, sizes };
        assert forall|c: int| 0 <= c < r.columns@.len() implies (#[trigger] r.columns@[c]).wf()
            && r.columns@[c].spec_len() == r.rows by {
            assert(picks(r.columns@[c], all[c], at));
        }
        r
    }

    /// Finds the columns that the clauses are about.
    pub fn bind(&self, schema: &Schema) -> (r: Result<Vec<usize>, Error>)
        ensures
            ({
                let names = clause_views(self.clauses@).map_values(|c: ClauseView| c.column);
                match r {
                    Ok(idx) => {
                        &&& first_missing(schema@, names) is None
                        &&& idx@ == places(schema@, names)
                        &&& idx@.len() == self.clauses@.len()
                        &&& forall|i: int| 0 <= i < idx@.len() ==> #[trigger] idx@[i] < schema@.len()
                    },
                    Err(e) => first_missing(schema@, names) matches Some(name) && e@
                        == (ErrorView::FilterColumn { column: name }),
                }
            }),
    {
        let names = self.columns();
        match schema.indices_of(&names) {
            Ok(idx) => Ok(idx),
            Err(Error::MissingColumn { column }) => Err(Error::FilterColumn { column }),
            Err(e) => Err(e),
        }
    }

    /// Filters a batch stream, keeping only matching rows. The memory that the
    /// columns of each batch then take is measured by the caller.
    pub fn apply(&self, src: BatchIter, sizes: Vec<Vec<usize>>) -> (r: Result<BatchIter, Error>)
        requires
            src.wf(),
            sizes@.len() == src.batches@.len(),
            forall|i: int| 0 <= i < sizes@.len() ==> (#[trigger] sizes@[i])@.len() == src.schema@.len(),
        ensures
            ({
                let clauses = clause_views(self.clauses@);
                let names = clauses.map_values(|c: ClauseView| c.column);
                match r {
                    Ok(out) => {
                        &&& first_missing(src.schema@, names) is None
                        &&& out.wf()
                        &&& out.schema == src.schema
                        &&& out.batches@.len() == src.batches@.len()
                        &&& forall|i: int|
                            0 <= i < out.batches@.len() ==> is_filtered(
                                #[trigger] out.batches@[i],
                                src.batches@[i],
                                clauses,
                                places(src.schema@, names),
                            ) && out.batches@[i].sizes == sizes@[i]
                    },
                    Err(e) => first_missing(src.schema@, names) matches Some(name) && e@
                        == (ErrorView::FilterColumn { column: name }),
                }
            }),
    {
        let idx = match self.bind(&src.schema) {
            Ok(idx) => idx,
            Err(e) => {
                return Err(e);
            },
        };
        let ghost clauses = clause_views(self.clauses@);
        let ghost all = src.batches@;
        let ghost width = src.schema@.len();
        let ghost measured = sizes@;
        let mut left = crate::sort::reversed(src.batches);
        let mut sizes = crate::sort::reversed(sizes);
        let n = left.len();
        let mut batches: Vec<Batch> = Vec::new();
        for i in 0..n
            invariant
                n == all.len(),
                n == measured.len(),
                forall|j: int| 0 <= j < n ==> (#[trigger] measured[j])@.len() == width,
                sizes@ == measured.skip(i as int).reverse(),
                clauses == clause_views(self.clauses@),
                idx@.len() == self.clauses@.len(),
                forall|j: int| 0 <= j < idx@.len() ==> #[trigger] idx@[j] < width,
                forall|j: int|
                    0 <= j < all.len() ==> (#[trigger] all[j]).wf() && all[j].columns@.len() == width,
                left@ == all.skip(i as int).reverse(),
                batches.len() == i,
                forall|j: int|
                    0 <= j < i ==> is_filtered(#[trigger] batches@[j], all[j], clauses, idx@)
                        && batches@[j].sizes == measured[j],
        {
            let ghost here = left@;
            let ghost there = sizes@;
            match (left.pop(), sizes.pop()) {
                (Some(batch), Some(size)) => {
                    assert(here.last() == all[i as int]);
                    assert(there.last() == measured[i as int]);
                    assert(all[i as int].wf());
                    batches.push(self.filter_batch(batch, &idx, size));
                },
                _ => {},
            }
            assert(left@ =~= all.skip(i + 1).reverse());
            assert(sizes@ =~= measured.skip(i + 1).reverse());
        }
        proof {
            lemma_filtered_counts(batches@, all, clauses, idx@);
        }
        let out = BatchIter { schema: src.schema, batches };
        assert forall|i: int| 0 <= i < out.batches@.len() implies (#[trigger] out.batches@[i]).wf()
            && out.batches@[i].columns@.len() == out.schema@.len() by {
            assert(is_filtered(batches@[i], all[i], clauses, idx@));
            assert(all[i].wf());
        }
        Ok(out)
    }
}

/// Filtering adds no rows.
proof fn lemma_filtered_counts(
    batches: Seq<Batch>,
    from: Seq<Batch>,
    clauses: Seq<ClauseView>,
    idx: Seq<usize>,
)
    requires
        batches.len() == from.len(),
        forall|i: int|
            0 <= i < from.len() ==> is_filtered(#[trigger] batches[i], from[i], clauses, idx),
    ensures
        row_count(batches) <= row_count(from),
    decreases from.len(),
{
    if from.len() > 0 {
        let b = batches.drop_last();
        let f = from.drop_last();
        assert forall|i: int| 0 <= i < f.len() implies is_filtered(
            #[trigger] b[i],
            f[i],
            clauses,
            idx,
        ) by {
            assert(is_filtered(batches[i], from[i], clauses, idx));
        }
        lemma_filtered_counts(b, f, clauses, idx);
        assert(is_filtered(batches[from.len() - 1], from[from.len() - 1], clauses, idx));
    }
}

pub open spec fn op_name(op: Op) -> Seq<char> {
    match op {
        Op::Eq => "Eq"@,
        Op::Ne => "Ne"@,
        Op::Lt => "Lt"@,
        Op::Le => "Le"@,
        Op::Gt => "Gt"@,
        Op::Ge => "Ge"@,
    }
}

/// The name of a double: the one it is listed with, or else its text.
pub open spec fn float_name(known: Seq<Numeral>, bits: u64, text: Seq<char>) -> Seq<char>
    decreases known.len(),
{
    if known.len() == 0 {
        text
    } else if known[0].value matches Some(f) && f.bits == bits {
        known[0].name@
    } else {
        float_name(known.drop_first(), bits, text)
    }
}

fn name_float(known: &Vec<Numeral>, f: &Float) -> (r: String)
    ensures
        r@ == float_name(known@, f.bits, f.text@),
{
    assert(known@.skip(0) =~= known@);
    for i in 0..known.len()
        invariant
            float_name(known@, f.bits, f.text@) == float_name(known@.skip(i as int), f.bits, f.text@),
    {
        proof {
            assert(known@.skip(i as int)[0] == known@[i as int]);
            assert(known@.skip(i as int).drop_first() =~= known@.skip(i + 1));
        }
        if let Some(value) = &known[i].value {
            if value.bits == f.bits {
                return known[i].name.clone();
            }
        }
    }
    assert(known@.skip(known@.len() as int) =~= seq![]);
    f.text.clone()
}

/// A value as it is named in messages.
pub open spec fn value_name(known: Seq<Numeral>, c: CellView) -> Seq<char> {
    match c {
        CellView::Null => "Null"@,
        CellView::Bool(b) => "Bool("@ + shown_typed(c) + ")"@,
        CellView::Int(i) => "Int("@ + shown_typed(c) + ")"@,
        CellView::Float { bits, text } => "Float("@ + float_name(known, bits, text) + ")"@,
        CellView::Str(s) => "Str("@ + shown_typed(c) + ")"@,
    }
}

/// A token as it is named in messages.
pub open spec fn token_name(known: Seq<Numeral>, t: TokenView) -> Seq<char> {
    match t {
        TokenView::Ident(s) => "Ident("@ + quoted(s) + ")"@,
        TokenView::Op(op) => "Op("@ + op_name(op) + ")"@,
        TokenView::Value(c) => "Value("@ + value_name(known, c) + ")"@,
    }
}

/// A token that was found, or none, as it is named in messages.
pub open spec fn found_name(known: Seq<Numeral>, t: Option<TokenView>) -> Seq<char> {
    match t {
        Some(t) => "Some("@ + token_name(known, t) + ")"@,
        None => "None"@,
    }
}

/// The message for an expression that was refused.
pub open spec fn parse_message(expr: Seq<char>, known: Seq<Numeral>, e: ParseErrorView) -> Seq<char> {
    let unread = "cannot parse --where `"@ + expr + "`: "@;
    match e {
        ParseErrorView::UnterminatedString => unread + "unterminated string literal"@,
        ParseErrorView::ExpectedNotEqual => unread + "expected `!=`"@,
        ParseErrorView::InvalidNumber(s) => unread + "invalid number `"@ + s + "`"@,
        ParseErrorView::UnexpectedCharacter(c) => unread + "unexpected character `"@ + seq![c] + "`"@,
        ParseErrorView::ExpectedColumn(t) => "expected a column name, found "@ + found_name(known, t)
            + " in --where `"@ + expr + "`"@,
        ParseErrorView::ExpectedOperator(c, t) => "expected an operator after `"@ + c + "`, found "@
            + found_name(known, t),
        ParseErrorView::UnquotedValue(w) => "unquoted value `"@ + w
            + "`; string literals need 'single quotes'"@,
        ParseErrorView::ExpectedValue(t) => "expected a value after the operator, found "@
            + found_name(known, t),
        ParseErrorView::ExpectedAnd(t) => "expected AND or end of expression, found "@ + found_name(
            known,
            Some(t),
        ),
    }
}

fn name_value(known: &Vec<Numeral>, c: &Cell) -> (r: String)
    ensures
        r@ == value_name(known@, c@),
{
    let mut s = match c {
        Cell::Null => {
            return "Null".to_owned();
        },
        Cell::Bool(_) => "Bool(".to_owned(),
        Cell::Int(_) => "Int(".to_owned(),
        Cell::Float(f) => {
            let mut s = "Float(".to_owned();
            s.append(name_float(known, f).as_str());
            s.append(")");
            return s;
        },
        Cell::Str(_) => "Str(".to_owned(),
    };
    s.append(c.render_typed().as_str());
    s.append(")");
    s
}

fn name_token(known: &Vec<Numeral>, t: &Token) -> (r: String)
    ensures
        r@ == token_name(known@, t@),
{
    match t {
        Token::Ident(name) => {
            let mut s = "Ident(".to_owned();
            s.append(quote(name.as_str()).as_str());
            s.append(")");
            s
        },
        Token::Op(op) => {
            let mut s = "Op(".to_owned();
            s.append(
                match op {
                    Op::Eq => "Eq",
                    Op::Ne => "Ne",
                    Op::Lt => "Lt",
                    Op::Le => "Le",
                    Op::Gt => "Gt",
                    Op::Ge => "Ge",
                },
            );
            s.append(")");
            s
        },
        Token::Value(c) => {
            let mut s = "Value(".to_owned();
            s.append(name_value(known, c).as_str());
            s.append(")");
            s
        },
    }
}

fn name_some(known: &Vec<Numeral>, t: &Token) -> (r: String)
    ensures
        r@ == found_name(known@, Some(t@)),
{
    let mut s = "Some(".to_owned();
    s.append(name_token(known, t).as_str());
    s.append(")");
    s
}

fn name_found(known: &Vec<Numeral>, t: &Option<Token>) -> (r: String)
    ensures
        r@ == found_name(known@, found_view(*t)),
{
    match t {
        Some(t) => name_some(known, t),
        None => "None".to_owned(),
    }
}

impl ParseError {
    /// The message for an expression that was refused.
    pub fn message(&self, expr: &str, known: &Vec<Numeral>) -> (r: String)
        ensures
            r@ == parse_message(expr@, known@, self@),
    {
        let mut unread = "cannot parse --where `".to_owned();
        unread.append(expr);
        unread.append("`: ");
        match self {
            ParseError::UnterminatedString => {
                unread.append("unterminated string literal");
                unread
            },
            ParseError::ExpectedNotEqual => {
                unread.append("expected `!=`");
                unread
            },
            ParseError::InvalidNumber(n) => {
                unread.append("invalid number `");
                unread.append(n.as_str());
                unread.append("`");
                unread
            },
            ParseError::UnexpectedCharacter(c) => {
                unread.append("unexpected character `");
                let ghost before = unread@;
                unread.push(*c);
                assert(unread@ =~= before + seq![*c]);
                unread.append("`");
                unread
            },
            ParseError::ExpectedColumn(t) => {
                let mut s = "expected a column name, found ".to_owned();
                s.append(name_found(known, t).as_str());
                s.append(" in --where `");
                s.append(expr);
                s.append("`");
                s
            },
            ParseError::ExpectedOperator(c, t) => {
                let mut s = "expected an operator after `".to_owned();
                s.append(c.as_str());
                s.append("`, found ");
                s.append(name_found(known, t).as_str());
                s
            },
            ParseError::UnquotedValue(w) => {
                let mut s = "unquoted value `".to_owned();
                s.append(w.as_str());
                s.append("`; string literals need 'single quotes'");
                s
            },
            ParseError::ExpectedValue(t) => {
                let mut s = "expected a value after the operator, found ".to_owned();
                s.append(name_found(known, t).as_str());
                s
            },
            ParseError::ExpectedAnd(t) => {
                let mut s = "expected AND or end of expression, found ".to_owned();
                s.append(name_some(known, t).as_str());
                s
            },
        }
    }
}

/// A NULL is never less than, greater than or between anything.
pub proof fn law_null_is_never_ordered(c: ClauseView, cell: CellView)
    requires
        c.op != Op::Eq,
        c.op != Op::Ne,
        cell is Null || c.value is Null,
    ensures
        !clause_holds(c, cell),
{
}

/// A cell meets `!=` exactly where it does not meet `=`.
pub proof fn law_unequal_negates_equal(column: Seq<char>, value: CellView, cell: CellView)
    ensures
        clause_holds(ClauseView { column, op: Op::Ne, value }, cell) <==> !clause_holds(
            ClauseView { column, op: Op::Eq, value },
            cell,
        ),
{
}

/// NULL equals NULL and nothing else.
pub proof fn law_null_equals_null(column: Seq<char>, cell: CellView)
    ensures
        clause_holds(ClauseView { column, op: Op::Eq, value: CellView::Null }, cell) <==> cell is Null,
{
}

/// A string with its quotes doubled.
pub open spec fn escaped(s: Seq<char>) -> Seq<char>
    decreases s.len(),
{
    if s.len() == 0 {
        seq![]
    } else if s[0] == '\'' {
        seq!['\'', '\''] + escaped(s.drop_first())
    } else {
        seq![s[0]] + escaped(s.drop_first())
    }
}

/// Any string can be written as a literal: with its quotes doubled, and in
/// quotes.
pub proof fn law_literals_read_back(s: Seq<char>)
    ensures
        literal(escaped(s).push('\'')) == Some((s, escaped(s).len() + 1)),
    decreases s.len(),
{
    let all = escaped(s).push('\'');
    if s.len() == 0 {
        assert(all =~= seq!['\'']);
        assert(s =~= seq![]);
    } else {
        let rest = s.drop_first();
        law_literals_read_back(rest);
        assert(s =~= seq![s[0]] + rest);
        if s[0] == '\'' {
            assert(all.skip(2) =~= escaped(rest).push('\''));
            assert(all[0] == '\'' && all[1] == '\'');
        } else {
            assert(all.drop_first() =~= escaped(rest).push('\''));
            assert(all[0] == s[0]);
        }
    }
}

proof fn lemma_marked_places(mask: Seq<bool>)
    ensures
        forall|i: int|
            0 <= i < marked(mask).len() ==> 0 <= #[trigger] marked(mask)[i] < mask.len()
                && mask[marked(mask)[i]],
        forall|i: int, j: int|
            0 <= i < j < marked(mask).len() ==> #[trigger] marked(mask)[i] < #[trigger] marked(mask)[j],
        forall|k: int| 0 <= k < mask.len() && mask[k] ==> #[trigger] marked(mask).contains(k),
    decreases mask.len(),
{
    if mask.len() > 0 {
        let less = mask.drop_last();
        lemma_marked_places(less);
        let m = marked(mask);
        assert forall|k: int| 0 <= k < mask.len() && mask[k] implies #[trigger] m.contains(k) by {
            if k < less.len() {
                assert(less[k]);
                assert(marked(less).contains(k));
                let j = choose|j: int| 0 <= j < marked(less).len() && marked(less)[j] == k;
                assert(m[j] == k);
            } else {
                assert(m[m.len() - 1] == k);
            }
        }
        assert forall|i: int| 0 <= i < m.len() implies 0 <= #[trigger] m[i] < mask.len() && mask[m[i]] by {
            if i < marked(less).len() {
                assert(m[i] == marked(less)[i]);
                assert(less[marked(less)[i]]);
            }
        }
    }
}

/// Every row that a filter keeps meets the clauses, every row that meets them
/// is kept, and the kept rows stay in order.
pub proof fn law_filter_keeps_matching_rows(
    batch: Batch,
    from: Batch,
    clauses: Seq<ClauseView>,
    idx: Seq<usize>,
)
    requires
        is_filtered(batch, from, clauses, idx),
    ensures
        ({
            let at = marked(passing(clauses, idx, from));
            &&& forall|i: int|
                0 <= i < batch.rows ==> {
                    &&& 0 <= #[trigger] at[i] < from.rows
                    &&& batch.row(i) == from.row(at[i])
                    &&& row_passes(clauses, idx, batch.row(i))
                }
            &&& forall|i: int, j: int|
                0 <= i < j < batch.rows ==> #[trigger] at[i] < #[trigger] at[j]
            &&& forall|row: int|
                0 <= row < from.rows && row_passes(clauses, idx, from.row(row)) ==> #[trigger] at.contains(
                    row,
                )
        }),
{
    let mask = passing(clauses, idx, from);
    let at = marked(mask);
    lemma_marked_places(mask);
    assert forall|i: int| 0 <= i < batch.rows implies {
        &&& 0 <= #[trigger] at[i] < from.rows
        &&& batch.row(i) == from.row(at[i])
        &&& row_passes(clauses, idx, batch.row(i))
    } by {
        assert forall|c: int| 0 <= c < from.columns@.len() implies #[trigger] batch.columns@[c].cell(i)
            == from.columns@[c].cell(at[i]) by {
            assert(picks(batch.columns@[c], from.columns@[c], at));
        }
        assert(batch.row(i) =~= from.row(at[i]));
        assert(mask[at[i]]);
    }
    assert forall|row: int|
        0 <= row < from.rows && row_passes(clauses, idx, from.row(row)) implies #[trigger] at.contains(
        row,
    ) by {
        assert(mask[row]);
    }
}

} // verus!
