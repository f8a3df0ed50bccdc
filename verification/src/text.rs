//! Strings as sequences of characters: decimal numbers, joining, ASCII case,
//! and the byte order of strings and keys.

use vstd::prelude::*;
use vstd::string::StringExecFns;
use vstd::utf8::encode_utf8;

verus! {

broadcast use vstd::string::group_string_axioms;

/// `String::push`: the character goes to the end.
pub assume_specification[ String::push ](s: &mut String, c: char)
    ensures
        final(s)@ == old(s)@.push(c),
;

/// The character of a decimal digit.
pub open spec fn digit(d: nat) -> char {
    (48 + d) as char
}

/// A natural number in decimal, without leading zeros.
pub open spec fn decimal(n: nat) -> Seq<char>
    decreases n,
{
    if n < 10 {
        seq![digit(n)]
    } else {
        decimal(n / 10).push(digit(n % 10))
    }
}

/// An integer in decimal, with a leading minus sign where it is negative.
pub open spec fn decimal_int(i: int) -> Seq<char> {
    if i < 0 {
        seq!['-'] + decimal((-i) as nat)
    } else {
        decimal(i as nat)
    }
}

/// Writes a natural number in decimal.
pub fn number(n: u128) -> (s: String)
    ensures
        s@ == decimal(n as nat),
    decreases n,
{
    if n < 10 {
        let mut s = String::new();
        s.push((48 + n as u8) as char);
        assert(s@ =~= seq![digit(n as nat)]);
        s
    } else {
        let mut s = number(n / 10);
        s.push((48 + (n % 10) as u8) as char);
        s
    }
}

/// Writes an integer in decimal.
pub fn integer(i: i64) -> (s: String)
    ensures
        s@ == decimal_int(i as int),
{
    if i < 0 {
        let mut s = String::new();
        s.push('-');
        let n = number((-(i as i128)) as u128);
        s.append(n.as_str());
        assert(s@ =~= decimal_int(i as int));
        s
    } else {
        number(i as u128)
    }
}

/// The character of a hexadecimal digit.
pub open spec fn hex_digit(d: nat) -> char {
    if d < 10 {
        (48 + d) as char
    } else {
        (87 + d) as char
    }
}

/// The last `width` hexadecimal digits of a number.
pub open spec fn hexadecimal(n: nat, width: nat) -> Seq<char>
    decreases width,
{
    if width == 0 {
        seq![]
    } else {
        hexadecimal(n / 16, (width - 1) as nat).push(hex_digit(n % 16))
    }
}

/// Writes the last `width` hexadecimal digits of a number.
pub fn hex(n: u128, width: usize) -> (s: String)
    ensures
        s@ == hexadecimal(n as nat, width as nat),
    decreases width,
{
    if width == 0 {
        let s = String::new();
        assert(s@ =~= hexadecimal(n as nat, 0));
        s
    } else {
        let mut s = hex(n / 16, width - 1);
        let d = (n % 16) as u8;
        s.push(if d < 10 { (48 + d) as char } else { (87 + d) as char });
        s
    }
}

/// The characters of a string.
pub fn characters(s: &str) -> (v: Vec<char>)
    ensures
        v@ == s@,
{
    let mut v: Vec<char> = Vec::new();
    for c in it: s.chars()
        invariant
            v@ == it.seq().take(it.index()),
    {
        v.push(c);
        assert(it.seq().take(it.index() + 1) =~= it.seq().take(it.index()).push(c));
    }
    assert(v@ =~= s@);
    v
}

/// The contents of strings.
pub open spec fn views(v: Seq<String>) -> Seq<Seq<char>> {
    v.map_values(|s: String| s@)
}

/// Strings one after the other, with `sep` between them.
pub open spec fn joined(parts: Seq<Seq<char>>, sep: Seq<char>) -> Seq<char>
    decreases parts.len(),
{
    if parts.len() == 0 {
        seq![]
    } else if parts.len() == 1 {
        parts[0]
    } else {
        joined(parts.drop_last(), sep) + sep + parts.last()
    }
}

/// Joins strings with a separator.
pub fn join(parts: &Vec<String>, sep: &str) -> (r: String)
    ensures
        r@ == joined(views(parts@), sep@),
{
    let mut r = String::new();
    let ghost all = views(parts@);
    for i in 0..parts.len()
        invariant
            all == views(parts@),
            r@ == joined(all.take(i as int), sep@),
    {
        if i > 0 {
            r.append(sep);
        }
        r.append(parts[i].as_str());
        proof {
            let next = all.take(i + 1);
            assert(next.drop_last() =~= all.take(i as int));
            assert(next.last() == parts@[i as int]@);
            assert(joined(next, sep@) =~= r@);
        }
    }
    assert(all.take(parts.len() as int) =~= all);
    r
}

/// Strings one after the other, with nothing between them.
pub open spec fn glued(parts: Seq<Seq<char>>) -> Seq<char>
    decreases parts.len(),
{
    if parts.len() == 0 {
        seq![]
    } else {
        glued(parts.drop_last()) + parts.last()
    }
}

/// Puts strings one after the other.
pub fn glue(parts: &Vec<String>) -> (r: String)
    ensures
        r@ == glued(views(parts@)),
{
    let mut r = String::new();
    let ghost all = views(parts@);
    assert(r@ =~= glued(all.take(0)));
    for i in 0..parts.len()
        invariant
            all == views(parts@),
            r@ == glued(all.take(i as int)),
    {
        r.append(parts[i].as_str());
        assert(all.take(i + 1).drop_last() =~= all.take(i as int));
        assert(all.take(i + 1).last() == parts@[i as int]@);
    }
    assert(all.take(parts.len() as int) =~= all);
    r
}

/// Copies strings.
pub fn copy_all(v: &Vec<String>) -> (r: Vec<String>)
    ensures
        r@ == v@,
{
    let mut r: Vec<String> = Vec::new();
    for i in 0..v.len()
        invariant
            r@ == v@.take(i as int),
    {
        r.push(v[i].clone());
        assert(v@.take(i + 1) =~= v@.take(i as int).push(v@[i as int]));
    }
    assert(v@.take(v@.len() as int) =~= v@);
    r
}

/// The first place of an element in a list, or the length of the list.
pub open spec fn place<A>(list: Seq<A>, s: A) -> int
    decreases list.len(),
{
    if list.len() == 0 {
        0
    } else if list[0] == s {
        0
    } else {
        1 + place(list.drop_first(), s)
    }
}

/// What the first place is.
pub proof fn lemma_place<A>(list: Seq<A>, s: A)
    ensures
        0 <= place(list, s) <= list.len(),
        place(list, s) < list.len() <==> list.contains(s),
        place(list, s) < list.len() ==> list[place(list, s)] == s,
        forall|i: int| 0 <= i < place(list, s) ==> list[i] != s,
    decreases list.len(),
{
    if list.len() > 0 && list[0] != s {
        let rest = list.drop_first();
        lemma_place(rest, s);
        assert forall|i: int| 0 <= i < place(list, s) implies list[i] != s by {
            if i > 0 {
                assert(rest[i - 1] == list[i]);
            }
        }
        if list.contains(s) {
            let i = choose|i: int| 0 <= i < list.len() && list[i] == s;
            assert(rest[i - 1] == s);
        }
        if rest.contains(s) {
            let i = choose|i: int| 0 <= i < rest.len() && rest[i] == s;
            assert(list[i + 1] == s);
        }
    }
}

/// A place that holds the element, with none before it, is the first one.
pub proof fn lemma_place_is<A>(list: Seq<A>, s: A, i: int)
    requires
        0 <= i <= list.len(),
        forall|j: int| 0 <= j < i ==> list[j] != s,
        i < list.len() ==> list[i] == s,
    ensures
        place(list, s) == i,
{
    lemma_place(list, s);
}

/// Finds a string in a list.
pub fn find(list: &Vec<String>, s: &str) -> (r: Option<usize>)
    ensures
        match r {
            Some(i) => i == place(views(list@), s@) && i < list.len(),
            None => !views(list@).contains(s@),
        },
{
    let wanted = s.to_owned();
    for i in 0..list.len()
        invariant
            wanted@ == s@,
            forall|j: int| 0 <= j < i ==> views(list@)[j] != s@,
    {
        if list[i] == wanted {
            proof {
                lemma_place_is(views(list@), s@, i as int);
            }
            return Some(i);
        }
    }
    proof {
        lemma_place_is(views(list@), s@, list@.len() as int);
        lemma_place(views(list@), s@);
    }
    None
}

/// True where a list holds a string.
pub fn contains(list: &Vec<String>, s: &str) -> (r: bool)
    ensures
        r == views(list@).contains(s@),
{
    proof {
        lemma_place(views(list@), s@);
    }
    match find(list, s) {
        Some(_) => true,
        None => false,
    }
}

/// An ASCII capital as its small letter; every other character as it is.
pub open spec fn lower(c: char) -> char {
    if 'A' <= c <= 'Z' {
        (c as u32 + 32) as char
    } else {
        c
    }
}

pub open spec fn lowered(s: Seq<char>) -> Seq<char> {
    s.map_values(|c: char| lower(c))
}

/// The lower-case form of an ASCII letter; any other character as it is.
pub fn lower_char(c: char) -> (r: char)
    ensures
        r == lower(c),
{
    if 'A' <= c && c <= 'Z' {
        (c as u8 + 32) as char
    } else {
        c
    }
}

/// The string with ASCII capitals made small.
pub fn to_lower(s: &str) -> (r: String)
    ensures
        r@ == lowered(s@),
{
    let v = characters(s);
    let mut r = String::new();
    for i in 0..v.len()
        invariant
            v@ == s@,
            r@ == lowered(s@).take(i as int),
    {
        r.push(lower_char(v[i]));
        assert(lowered(s@).take(i + 1) =~= lowered(s@).take(i as int).push(lower(s@[i as int])));
    }
    assert(lowered(s@).take(s@.len() as int) =~= lowered(s@));
    r
}

/// True where a string equals a literal.
pub fn equals(s: &String, literal: &str) -> (r: bool)
    ensures
        r == (s@ == literal@),
{
    *s == literal.to_owned()
}

/// -1, 0 or 1 as `x` is less than, equal to or greater than `y`.
pub open spec fn int_order(x: int, y: int) -> int {
    if x < y {
        -1
    } else if x > y {
        1
    } else {
        0
    }
}

/// The order of two byte strings: at the first byte in which they differ, or
/// the shorter one first. Negative, zero or positive.
pub open spec fn byte_order(a: Seq<u8>, b: Seq<u8>) -> int
    decreases a.len(),
{
    if a.len() == 0 {
        if b.len() == 0 {
            0
        } else {
            -1
        }
    } else if b.len() == 0 {
        1
    } else if a[0] < b[0] {
        -1
    } else if a[0] > b[0] {
        1
    } else {
        byte_order(a.drop_first(), b.drop_first())
    }
}

/// Compares two byte strings.
pub fn compare_bytes(a: &[u8], b: &[u8]) -> (r: i8)
    ensures
        r == byte_order(a@, b@),
{
    let mut i: usize = 0;
    assert(a@.skip(0) =~= a@);
    assert(b@.skip(0) =~= b@);
    while i < a.len() && i < b.len()
        invariant
            i <= a.len(),
            i <= b.len(),
            byte_order(a@.skip(i as int), b@.skip(i as int)) == byte_order(a@, b@),
        decreases a.len() - i,
    {
        proof {
            let x = a@.skip(i as int);
            let y = b@.skip(i as int);
            assert(x.drop_first() =~= a@.skip(i + 1));
            assert(y.drop_first() =~= b@.skip(i + 1));
        }
        if a[i] < b[i] {
            return -1;
        }
        if a[i] > b[i] {
            return 1;
        }
        i = i + 1;
    }
    if i < a.len() {
        1
    } else if i < b.len() {
        -1
    } else {
        0
    }
}

/// Byte strings are totally ordered.
pub proof fn law_byte_order_total(a: Seq<u8>, b: Seq<u8>)
    ensures
        -1 <= byte_order(a, b) <= 1,
        byte_order(a, b) == -byte_order(b, a),
        byte_order(a, b) == 0 <==> a == b,
    decreases a.len(),
{
    if a.len() > 0 && b.len() > 0 && a[0] == b[0] {
        law_byte_order_total(a.drop_first(), b.drop_first());
        if a.drop_first() == b.drop_first() {
            assert(a =~= seq![a[0]] + a.drop_first());
            assert(b =~= seq![b[0]] + b.drop_first());
        }
    } else if a.len() == 0 && b.len() == 0 {
        assert(a =~= b);
    }
}

/// The order of byte strings is transitive.
pub proof fn law_byte_order_transitive(a: Seq<u8>, b: Seq<u8>, c: Seq<u8>)
    requires
        byte_order(a, b) <= 0,
        byte_order(b, c) <= 0,
    ensures
        byte_order(a, c) <= 0,
        byte_order(a, b) < 0 || byte_order(b, c) < 0 ==> byte_order(a, c) < 0,
    decreases a.len(),
{
    if a.len() > 0 && b.len() > 0 && c.len() > 0 && a[0] == b[0] && b[0] == c[0] {
        law_byte_order_transitive(a.drop_first(), b.drop_first(), c.drop_first());
    }
}

/// The order of two strings: that of their UTF-8 bytes.
pub open spec fn text_order(a: Seq<char>, b: Seq<char>) -> int {
    byte_order(encode_utf8(a), encode_utf8(b))
}

/// Compares two strings.
pub fn compare_text(a: &str, b: &str) -> (r: i8)
    ensures
        r == text_order(a@, b@),
{
    compare_bytes(a.as_bytes(), b.as_bytes())
}

} // verus!
