//! What holds of cells: which match, how they are ordered, and how they are shown.

use crate::filter::integer_value;
use crate::filter_laws::law_integers_read_back;
use crate::float::{abs, from_int, larger, law_small_integers_keep_their_value, lemma_gap_beyond, lemma_gap_within, lemma_gap_within_product, lemma_product_bounds, lemma_rank_follows_units, lemma_units_tell_apart, lemma_zero_is_exact, lemma_zero_product, magnitude, signed_units, total_rank, units};
use crate::text::{byte_order, law_byte_order_total};
use crate::value::{cell_order, cells_match, law_exact_by_default, law_matching_is_symmetric, quoted, shown, shown_typed, CellView, Comparator};
use vstd::arithmetic::power2::{lemma_pow2_pos, pow2};
use vstd::prelude::*;
use vstd::utf8::encode_utf8;

verus! {

/// Whatever the tolerances, a null matches nothing but a null, a boolean nothing
/// but a boolean, a string nothing but a string, and a number nothing but a
/// number.
pub proof fn law_only_like_cells_match(c: Comparator, a: CellView, b: CellView)
    requires
        cells_match(c, a, b),
    ensures
        a is Null <==> b is Null,
        a is Bool <==> b is Bool,
        a is Str <==> b is Str,
        (a is Int || a is Float) <==> (b is Int || b is Float),
{
}

/// Whatever the tolerances, booleans match where they are the same, strings where
/// they have the same characters, and integers where they are equal; two nulls
/// always match.
pub proof fn law_equal_values_match(c: Comparator, p: bool, q: bool, i: i64, j: i64, s: Seq<char>, t: Seq<char>)
    ensures
        cells_match(c, CellView::Null, CellView::Null),
        cells_match(c, CellView::Bool(p), CellView::Bool(q)) <==> p == q,
        cells_match(c, CellView::Int(i), CellView::Int(j)) <==> i == j,
        cells_match(c, CellView::Str(s), CellView::Str(t)) <==> s == t,
{
}

/// Without tolerances two doubles match where they have the same bits, where
/// both are zero, whatever their signs, and where both are NaN.
pub proof fn law_doubles_match_by_bits(x: u64, y: u64, s: Seq<char>, t: Seq<char>)
    ensures
        ({
            let zero = 0x8000_0000_0000_0000u64;
            let infinity = 0x7ff0_0000_0000_0000u64;
            cells_match(
                Comparator { tol_abs: None, tol_rel: None },
                CellView::Float { bits: x, text: s },
                CellView::Float { bits: y, text: t },
            ) <==> {
                ||| x == y
                ||| (x == 0 || x == zero) && (y == 0 || y == zero)
                ||| (x % zero > infinity && y % zero > infinity)
            }
        }),
{
    law_exact_by_default(x, y);
}

/// Two finite doubles whose exact values are no further apart than the absolute
/// tolerance match, whatever the relative one is.
pub proof fn law_numbers_within_absolute_tolerance_match(
    c: Comparator,
    x: u64,
    y: u64,
    tol: u64,
    s: Seq<char>,
    t: Seq<char>,
)
    requires
        c.tol_abs == Some(tol),
        0 < tol < 0x7ff0_0000_0000_0000,
        magnitude(x) < 0x7ff0_0000_0000_0000,
        magnitude(y) < 0x7ff0_0000_0000_0000,
        abs(signed_units(x) - signed_units(y)) <= units(tol),
    ensures
        cells_match(c, CellView::Float { bits: x, text: s }, CellView::Float { bits: y, text: t }),
{
    lemma_gap_within(x, y, tol);
}

/// Two finite doubles whose exact values are no further apart than the relative
/// tolerance times the larger of their magnitudes match, whatever the absolute
/// one is.
pub proof fn law_numbers_within_relative_tolerance_match(
    c: Comparator,
    x: u64,
    y: u64,
    tol: u64,
    s: Seq<char>,
    t: Seq<char>,
)
    requires
        c.tol_rel == Some(tol),
        0 < tol < 0x7ff0_0000_0000_0000,
        magnitude(x) < 0x7ff0_0000_0000_0000,
        magnitude(y) < 0x7ff0_0000_0000_0000,
        abs(signed_units(x) - signed_units(y)) * pow2(1074) <= units(tol) * units(magnitude(x)) || abs(
            signed_units(x) - signed_units(y),
        ) * pow2(1074) <= units(tol) * units(magnitude(y)),
    ensures
        cells_match(c, CellView::Float { bits: x, text: s }, CellView::Float { bits: y, text: t }),
{
    let most = larger(magnitude(x), magnitude(y));
    lemma_units_tell_apart(x, y);
    lemma_larger_units(magnitude(x), magnitude(y));
    lemma_scale_up(units(tol), units(magnitude(x)), units(most));
    lemma_scale_up(units(tol), units(magnitude(y)), units(most));
    if abs(signed_units(x) - signed_units(y)) > 0 {
        lemma_gap_within_product(x, y, tol, most);
    }
}

proof fn lemma_scale_up(a: nat, b: nat, c: nat)
    ensures
        b <= c ==> a * b <= a * c,
{
    assert(b <= c ==> a * b <= a * c) by (nonlinear_arith);
}

/// The larger of two magnitudes stands for no fewer units.
proof fn lemma_larger_units(x: u64, y: u64)
    requires
        x < 0x7ff0_0000_0000_0000,
        y < 0x7ff0_0000_0000_0000,
    ensures
        larger(x, y) == (if x >= y { x } else { y }),
        units(x) <= units(larger(x, y)),
        units(y) <= units(larger(x, y)),
{
    if x < y {
        lemma_rank_follows_units(x, y);
    } else if y < x {
        lemma_rank_follows_units(y, x);
    }
}

/// Two finite doubles do not match that are further apart than a double which is
/// no less than either tolerance: than the absolute one, and than the relative
/// one times each of their magnitudes.
pub proof fn law_numbers_beyond_tolerance_differ(
    c: Comparator,
    x: u64,
    y: u64,
    most: u64,
    s: Seq<char>,
    t: Seq<char>,
)
    requires
        magnitude(x) < 0x7ff0_0000_0000_0000,
        magnitude(y) < 0x7ff0_0000_0000_0000,
        most + 1 < 0x7ff0_0000_0000_0000,
        c.tol_abs matches Some(tol) ==> tol <= most,
        c.tol_rel matches Some(tol) ==> {
            &&& tol < 0x7ff0_0000_0000_0000
            &&& units(tol) * units(magnitude(x)) <= units(most) * pow2(1074)
            &&& units(tol) * units(magnitude(y)) <= units(most) * pow2(1074)
        },
        units((most + 1) as u64) <= abs(signed_units(x) - signed_units(y)),
    ensures
        !cells_match(c, CellView::Float { bits: x, text: s }, CellView::Float { bits: y, text: t }),
{
    let large = larger(magnitude(x), magnitude(y));
    lemma_larger_units(magnitude(x), magnitude(y));
    lemma_gap_beyond(x, y, (most + 1) as u64);
    lemma_units_tell_apart(x, y);
    lemma_rank_follows_units(most, (most + 1) as u64);
    match c.tol_rel {
        Some(tol) => lemma_product_bounds(tol, large, most),
        None => lemma_zero_product(large),
    }
}

/// An integer of at most 53 bits matches a double as the double of its value
/// does.
pub proof fn law_integers_match_as_numbers(c: Comparator, i: i64, x: u64, y: u64, s: Seq<char>, t: Seq<char>)
    requires
        -0x20_0000_0000_0000 <= i <= 0x20_0000_0000_0000,
        i != 0 || x == 0,
        magnitude(x) < 0x7ff0_0000_0000_0000,
        signed_units(x) == i * pow2(1074),
    ensures
        ({
            let float = CellView::Float { bits: y, text: t };
            let same = CellView::Float { bits: x, text: s };
            &&& cells_match(c, CellView::Int(i), float) == cells_match(c, same, float)
            &&& cells_match(c, float, CellView::Int(i)) == cells_match(c, float, same)
        }),
{
    law_small_integers_keep_their_value(i as int);
    lemma_units_tell_apart(x, from_int(i as int));
    lemma_zero_is_exact();
    lemma_pow2_pos(1074);
    assert(i != 0 ==> i * pow2(1074) != 0) by (nonlinear_arith)
        requires
            pow2(1074) > 0,
    ;
    lemma_zero_has_no_units(x);
    law_matching_is_symmetric(
        c,
        CellView::Float { bits: x, text: s },
        CellView::Float { bits: y, text: t },
    );
}

proof fn lemma_zero_has_no_units(x: u64)
    ensures
        magnitude(x) == 0 ==> signed_units(x) == 0,
{
    if magnitude(x) == 0 {
        lemma_units_tell_apart(x, 0);
        assert(units(0) == 0) by (nonlinear_arith)
            requires
                units(0) == 0 * pow2(0),
        ;
    }
}

/// Integers are ordered by value, booleans with `false` first, and finite doubles
/// by value.
pub proof fn law_cells_are_ordered_by_value(i: i64, j: i64, p: bool, q: bool, x: u64, y: u64, s: Seq<char>, t: Seq<char>)
    requires
        magnitude(x) < 0x7ff0_0000_0000_0000,
        magnitude(y) < 0x7ff0_0000_0000_0000,
    ensures
        cell_order(CellView::Int(i), CellView::Int(j)) < 0 <==> i < j,
        cell_order(CellView::Int(i), CellView::Int(j)) == 0 <==> i == j,
        cell_order(CellView::Bool(p), CellView::Bool(q)) < 0 <==> !p && q,
        cell_order(CellView::Bool(p), CellView::Bool(q)) == 0 <==> p == q,
        signed_units(x) < signed_units(y) ==> cell_order(
            CellView::Float { bits: x, text: s },
            CellView::Float { bits: y, text: t },
        ) < 0,
        x == y ==> cell_order(
            CellView::Float { bits: x, text: s },
            CellView::Float { bits: y, text: t },
        ) == 0,
        i * pow2(1074) < signed_units(x) ==> cell_order(
            CellView::Int(i),
            CellView::Float { bits: x, text: s },
        ) < 0,
        i * pow2(1074) > signed_units(x) ==> cell_order(
            CellView::Int(i),
            CellView::Float { bits: x, text: s },
        ) > 0,
        i * pow2(1074) == signed_units(x) && i != 0 ==> cell_order(
            CellView::Int(i),
            CellView::Float { bits: x, text: s },
        ) == 0,
{
    if total_rank(y) < total_rank(x) {
        lemma_rank_follows_units(y, x);
    }
    assert(i == 0 ==> i * pow2(1074) == 0) by (nonlinear_arith);
    lemma_zero_has_no_units(x);
}

/// Strings are ordered at the first byte of their UTF-8 form in which they
/// differ, and a string comes before those that it is the start of.
pub proof fn law_strings_are_ordered_by_bytes(a: Seq<char>, b: Seq<char>, n: int)
    requires
        0 <= n <= encode_utf8(a).len(),
        n < encode_utf8(b).len(),
        encode_utf8(a).take(n) == encode_utf8(b).take(n),
        n < encode_utf8(a).len() ==> encode_utf8(a)[n] < encode_utf8(b)[n],
    ensures
        cell_order(CellView::Str(a), CellView::Str(b)) < 0,
        cell_order(CellView::Str(b), CellView::Str(a)) > 0,
{
    lemma_first_difference(encode_utf8(a), encode_utf8(b), n);
    law_byte_order_total(encode_utf8(a), encode_utf8(b));
}

/// Byte strings are ordered at the first byte in which they differ.
proof fn lemma_first_difference(a: Seq<u8>, b: Seq<u8>, n: int)
    requires
        0 <= n <= a.len(),
        n < b.len(),
        a.take(n) == b.take(n),
        n < a.len() ==> a[n] < b[n],
    ensures
        byte_order(a, b) < 0,
    decreases n,
{
    if n > 0 {
        assert(a[0] == a.take(n)[0] && b[0] == b.take(n)[0]);
        let (x, y) = (a.drop_first(), b.drop_first());
        assert(x.take(n - 1) =~= a.take(n).drop_first());
        assert(y.take(n - 1) =~= b.take(n).drop_first());
        lemma_first_difference(x, y, n - 1);
    }
}

/// A cell is shown by its value: a null and booleans by a word, an integer by
/// digits that read back as it, a float by its own text, and a string as it is, or
/// in quotes where kinds are to be told apart.
pub proof fn law_cells_are_shown_by_value(b: bool, i: i64, bits: u64, s: Seq<char>)
    ensures
        shown(CellView::Null) == seq!['N', 'U', 'L', 'L'],
        shown(CellView::Bool(b)) == if b {
            seq!['t', 'r', 'u', 'e']
        } else {
            seq!['f', 'a', 'l', 's', 'e']
        },
        integer_value(shown(CellView::Int(i))) == Some(i),
        shown(CellView::Float { bits, text: s }) == s,
        shown(CellView::Str(s)) == s,
        shown_typed(CellView::Null) == shown(CellView::Null),
        shown_typed(CellView::Bool(b)) == shown(CellView::Bool(b)),
        shown_typed(CellView::Int(i)) == shown(CellView::Int(i)),
        shown_typed(CellView::Float { bits, text: s }) == s,
        shown_typed(CellView::Str(s)) == quoted(s),
{
    reveal_strlit("NULL");
    reveal_strlit("true");
    reveal_strlit("false");
    assert("NULL"@ =~= seq!['N', 'U', 'L', 'L']);
    assert("true"@ =~= seq!['t', 'r', 'u', 'e']);
    assert("false"@ =~= seq!['f', 'a', 'l', 's', 'e']);
    law_integers_read_back(i);
}

} // verus!
