//! What holds of texts: of numbers that are written down, of parts, and of the order.
use crate::text::{
    all_digits, bytes_before, decimal, digit, digits_value, has_text, is_digit,
    lemma_decimal_digits, lower, lowered, pieces,
    signed_decimal, stands_at, trimmed, unsigned_part, unsigned_value, white,
};
use vstd::prelude::*;

verus! {

proof fn lemma_digits_value(n: nat)
    ensures
        digits_value(decimal(n)) == n,
    decreases n,
{
    if n < 10 {
        assert(decimal(n).drop_last() =~= Seq::empty());
        assert(digits_value(decimal(n).drop_last()) == 0);
        assert(decimal(n).last() == digit(n));
    } else {
        lemma_digits_value(n / 10);
        assert(decimal(n).drop_last() =~= decimal(n / 10));
        assert(decimal(n).last() == digit(n % 10));
        assert((n / 10) * 10 + n % 10 == n);
    }
}

/// A number that is written down reads as itself, unless it is too high.
pub proof fn a_number_reads_as_itself(n: nat, max: int)
    ensures
        n <= max ==> unsigned_value(decimal(n), max) == Some(n as int),
        n > max ==> unsigned_value(decimal(n), max) is None,
        n <= max ==> unsigned_value(seq!['+'] + decimal(n), max) == Some(n as int),
{
    let s = decimal(n);
    lemma_digits_value(n);
    lemma_decimal_digits(n);
    assert('0' <= s[0] <= '9');
    assert(s[0] != '+');
    assert(unsigned_part(s) == s);
    assert forall|i: int| 0 <= i < s.len() implies is_digit(#[trigger] s[i]) by {}
    assert(all_digits(s));
    let t = seq!['+'] + s;
    assert(t[0] == '+');
    assert(t.skip(1) =~= s);
}

/// Nothing but digits, with or without a plus sign before them, reads as a number.
pub proof fn only_digits_read_as_a_number(s: Seq<char>, max: int, i: int)
    requires
        unsigned_value(s, max) is Some,
        0 <= i < s.len(),
    ensures
        '0' <= s[i] <= '9' || (i == 0 && s[0] == '+' && s.len() > 1),
        0 <= unsigned_value(s, max)->0 <= max,
{
    let d = unsigned_part(s);
    lemma_value_is_positive(d);
    if s[0] == '+' {
        if i > 0 {
            assert(is_digit(d[i - 1]));
        }
    } else {
        assert(is_digit(d[i]));
    }
}

proof fn lemma_value_is_positive(s: Seq<char>)
    requires
        all_digits(s),
    ensures
        digits_value(s) >= 0,
    decreases s.len(),
{
    if s.len() > 0 {
        let n = s.len() - 1;
        assert(is_digit(s[n]));
        assert forall|i: int| 0 <= i < s.drop_last().len() implies is_digit(
            #[trigger] s.drop_last()[i],
        ) by {
            assert(is_digit(s[i]));
        }
        lemma_value_is_positive(s.drop_last());
    }
}

/// A negative number is its opposite with a minus sign before it.
pub proof fn a_minus_sign_stands_before_a_negative_number(n: nat)
    ensures
        signed_decimal(n as int) == decimal(n),
        n > 0 ==> signed_decimal(-(n as int)) == seq!['-'] + decimal(n),
{
}

/// White space at either end does not count, whatever it is, and what lies between stays as it is.
pub proof fn white_space_around_does_not_count(before: Seq<char>, s: Seq<char>, after: Seq<char>)
    requires
        forall|i: int| 0 <= i < before.len() ==> white(#[trigger] before[i]),
        forall|i: int| 0 <= i < after.len() ==> white(#[trigger] after[i]),
        s.len() > 0 ==> !white(s.first()) && !white(s.last()),
    ensures
        trimmed(before + s + after) == s,
    decreases before.len() + after.len(),
{
    let all = before + s + after;
    if before.len() > 0 {
        assert(white(before[0]));
        assert(all.first() == before[0]);
        let rest = before.skip(1);
        assert(all.skip(1) =~= rest + s + after);
        assert forall|i: int| 0 <= i < rest.len() implies white(#[trigger] rest[i]) by {
            assert(white(before[i + 1]));
        }
        white_space_around_does_not_count(rest, s, after);
    } else if after.len() > 0 {
        if s.len() == 0 {
            assert(white(after[0]));
            assert(all.first() == after[0]);
            let rest = after.skip(1);
            assert(all.skip(1) =~= before + s + rest);
            assert forall|i: int| 0 <= i < rest.len() implies white(#[trigger] rest[i]) by {
                assert(white(after[i + 1]));
            }
            white_space_around_does_not_count(before, s, rest);
        } else {
            assert(all.first() == s.first());
            assert(white(after[after.len() - 1]));
            assert(all.last() == after.last());
            assert(all.drop_last() =~= before + s + after.drop_last());
            assert forall|i: int| 0 <= i < after.drop_last().len() implies white(
                #[trigger] after.drop_last()[i],
            ) by {
                assert(white(after[i]));
            }
            white_space_around_does_not_count(before, s, after.drop_last());
        }
    } else {
        assert(all =~= s);
    }
}

/// A text without white space at its ends stays as it is.
pub proof fn nothing_to_trim(s: Seq<char>)
    requires
        s.len() > 0 ==> !white(s.first()) && !white(s.last()),
    ensures
        trimmed(s) == s,
{
}

/// There is no white space about a number that is written down.
pub proof fn a_number_is_not_trimmed(n: nat)
    ensures
        trimmed(decimal(n)) == decimal(n),
{
    let s = decimal(n);
    lemma_decimal_digits(n);
    assert('0' <= s[0] <= '9');
    assert('0' <= s[s.len() - 1] <= '9');
    nothing_to_trim(s);
}

/// Parts with a separator between them.
pub open spec fn joined(parts: Seq<Seq<char>>, sep: char) -> Seq<char>
    decreases parts.len(),
{
    if parts.len() == 0 {
        Seq::empty()
    } else if parts.len() == 1 {
        parts[0]
    } else {
        joined(parts.drop_last(), sep).push(sep) + parts.last()
    }
}

/// The pieces of a text, with the separators put back, are the text, and no piece has a separator
/// in it.
pub proof fn pieces_make_up_the_text(s: Seq<char>, sep: char)
    ensures
        joined(pieces(s, sep), sep) == s,
        forall|i: int|
            0 <= i < pieces(s, sep).len() ==> !(#[trigger] pieces(s, sep)[i]).contains(sep),
        pieces(s, sep).len() > 0,
    decreases s.len(),
{
    let all = pieces(s, sep);
    if s.len() == 0 {
        assert(all.len() == 1);
        assert(all[0] =~= Seq::empty());
        assert(joined(all, sep) =~= s);
    } else {
        let less = s.drop_last();
        pieces_make_up_the_text(less, sep);
        let before = pieces(less, sep);
        if s.last() == sep {
            assert(all.drop_last() =~= before);
            assert(all.len() > 1);
            assert(joined(all, sep) =~= less.push(sep));
            assert(less.push(sep) =~= s);
        } else {
            assert(all.drop_last() =~= before.drop_last());
            assert(all.last() == before.last().push(s.last()));
            if before.len() > 1 {
                assert(joined(all, sep) =~= joined(before, sep).push(s.last()));
            } else {
                assert(joined(all, sep) =~= joined(before, sep).push(s.last()));
            }
            assert(less.push(s.last()) =~= s);
            let n = before.len() - 1;
            assert(!before[n].contains(sep));
            assert forall|i: int| 0 <= i < all.len() implies !(#[trigger] all[i]).contains(
                sep,
            ) by {
                if i == n {
                    if all[n].contains(sep) {
                        let k = choose|k: int| 0 <= k < all[n].len() && all[n][k] == sep;
                        assert(k < before[n].len());
                        assert(before[n][k] == sep);
                    }
                } else {
                    assert(all[i] == before[i]);
                }
            }
        }
    }
}

/// Capitals do not count: a text is as long in small letters, each of its ASCII capitals is the
/// letter thirty-two places on, and every other character stays.
pub proof fn capitals_become_small_letters(s: Seq<char>, i: int)
    requires
        0 <= i < s.len(),
    ensures
        lowered(s).len() == s.len(),
        'A' <= s[i] <= 'Z' ==> lowered(s)[i] as u32 == s[i] as u32 + 32,
        !('A' <= s[i] <= 'Z') ==> lowered(s)[i] == s[i],
        lowered(lowered(s)) == lowered(s),
{
    let once = lowered(s);
    assert forall|k: int| 0 <= k < s.len() implies lower(#[trigger] once[k]) == once[k] by {
        assert(once[k] == lower(s[k]));
    }
    assert(lowered(once) =~= once);
}

/// A text stands in another if and only if that is made up of something, the text, and something.
pub proof fn a_text_is_found_where_it_stands(
    before: Seq<char>,
    t: Seq<char>,
    after: Seq<char>,
    s: Seq<char>,
)
    ensures
        has_text(before + t + after, t),
        has_text(s, t) ==> exists|i: int|
            0 <= i && i + t.len() <= s.len() && s == #[trigger] s.take(i) + t + s.skip(
                i + t.len(),
            ),
{
    let all = before + t + after;
    let i = before.len() as int;
    assert(all.subrange(i, i + t.len()) =~= t);
    assert(stands_at(all, t, i));
    if has_text(s, t) {
        let k = choose|k: int| stands_at(s, t, k);
        assert(s =~= s.take(k) + t + s.skip(k + t.len()));
    }
}

/// Of two texts in bytes, the one with the lower byte at the first difference comes first, and a
/// beginning comes before the whole.
pub proof fn the_first_difference_decides(common: Seq<u8>, a: Seq<u8>, b: Seq<u8>)
    ensures
        a.len() > 0 && b.len() > 0 && a[0] < b[0] ==> bytes_before(common + a, common + b),
        a.len() == 0 && b.len() > 0 ==> bytes_before(common + a, common + b),
        !bytes_before(common, common),
    decreases common.len(),
{
    if common.len() == 0 {
        assert(common + a =~= a);
        assert(common + b =~= b);
    } else {
        let rest = common.skip(1);
        the_first_difference_decides(rest, a, b);
        assert((common + a).skip(1) =~= rest + a);
        assert((common + b).skip(1) =~= rest + b);
        assert((common + a)[0] == common[0]);
        assert((common + b)[0] == common[0]);
    }
}

} // verus!
