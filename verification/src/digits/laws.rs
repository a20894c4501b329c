//! What holds of the conversions taken together.

use crate::digits::converting::{
    converted_decimal, converted_fractional, converted_parts, converted_whole, decimal_of_digits,
    decimal_text, digits_of_decimal, fractional_text, lemma_decimal_round_trip, mantissa_count,
    whole_text, DIGITMASK,
};
use crate::digits::decimal::{decimal_reading, lemma_shifted_digits, shifted};
use crate::digits::fraction::{
    fraction_digits, lemma_fraction_digits_value, lemma_fraction_of_digits,
    lemma_trailing_zeros_padding, zeros,
};
use crate::digits::notation::{
    all_digits, digit_below, digit_char, digit_value, is_digit, lemma_numeral,
    lemma_numeral_of_value, lemma_value_bounds, lemma_without_trailing_zeros, lemma_zero_text,
    numeral, positional_value, valid_in_base, without_leading_zeros, without_trailing_zeros,
};
use crate::text::{lemma_position_found, lemma_position_of, position_of};
use vstd::arithmetic::div_mod::{
    lemma_basic_div, lemma_fundamental_div_mod, lemma_mod_bound, lemma_small_mod,
};
use vstd::arithmetic::power::{lemma_pow_positive, pow};
use vstd::prelude::*;

verus! {

/// The alphabet holds the 36 digits in the order of their values.
pub proof fn law_alphabet()
    ensures
        DIGITMASK@.len() == 36,
        forall|v: int| 0 <= v < 36 ==> #[trigger] DIGITMASK@[v] == digit_char(v),
        forall|v: int| 0 <= v < 36 ==> digit_value(#[trigger] DIGITMASK@[v]) == Some(v),
{
    reveal_strlit("0123456789ABCDEFGHIJKLMNOPQRSTUVWXYZ");
    assert forall|v: int| 0 <= v < 36 implies #[trigger] DIGITMASK@[v] == digit_char(v) by {
        let s = DIGITMASK@;
        assert(s[0] == '0' && s[1] == '1' && s[2] == '2' && s[3] == '3' && s[4] == '4' && s[5]
            == '5' && s[6] == '6' && s[7] == '7' && s[8] == '8' && s[9] == '9');
        assert(s[10] == 'A' && s[11] == 'B' && s[12] == 'C' && s[13] == 'D' && s[14] == 'E'
            && s[15] == 'F' && s[16] == 'G' && s[17] == 'H' && s[18] == 'I' && s[19] == 'J');
        assert(s[20] == 'K' && s[21] == 'L' && s[22] == 'M' && s[23] == 'N' && s[24] == 'O'
            && s[25] == 'P' && s[26] == 'Q' && s[27] == 'R' && s[28] == 'S' && s[29] == 'T');
        assert(s[30] == 'U' && s[31] == 'V' && s[32] == 'W' && s[33] == 'X' && s[34] == 'Y'
            && s[35] == 'Z');
    }
}

/// Digits of a base are digits of the alphabet.
pub proof fn lemma_valid_digits(s: Seq<char>, base: int)
    requires
        valid_in_base(s, base),
    ensures
        all_digits(s),
{
    assert forall|i: int| 0 <= i < s.len() implies is_digit(#[trigger] s[i]) by {
        assert(digit_below(s[i], base));
    }
}

/// The digits of a number in one base, evaluated to decimal and written out
/// again in another base, are the digits of that number in the other base.
/// Zero, which has no digits, is no exception.
pub proof fn law_round_trip_through_decimal(n: int, from: int, to: int)
    requires
        0 <= n <= i128::MAX,
        2 <= from <= 36,
        2 <= to <= 36,
    ensures
        decimal_of_digits(numeral(n, from), from) == Some(decimal_text(n)),
        digits_of_decimal(decimal_text(n), to) == Some(numeral(n, to)),
{
    lemma_numeral(n, from);
    lemma_valid_digits(numeral(n, from), from);
    lemma_decimal_round_trip(n);
}

/// A whole number as one base reads it, converted to another base, is that
/// number as the other base reads it.
pub proof fn law_whole_conversion(n: int, from: int, to: int)
    requires
        0 <= n <= i128::MAX,
        2 <= from <= 36,
        2 <= to <= 36,
    ensures
        converted_whole(whole_text(n, from), from, to) == Some(whole_text(n, to)),
{
    let s = whole_text(n, from);
    if n == 0 {
        lemma_zero_text(from);
    } else {
        lemma_numeral(n, from);
        lemma_valid_digits(s, from);
    }
}

/// Converting a whole number is evaluating it to decimal and writing that
/// decimal out in the target base, with `0` in place of no digit at all.
pub proof fn law_whole_conversion_goes_through_decimal(num: Seq<char>, from: int, to: int)
    requires
        2 <= from <= 36,
        2 <= to <= 36,
    ensures
        converted_whole(num, from, to) == match decimal_of_digits(num, from) {
            None => None,
            Some(decimal) => match digits_of_decimal(decimal, to) {
                None => None,
                Some(digits) => Some(
                    if digits.len() == 0 {
                        seq!['0']
                    } else {
                        digits
                    },
                ),
            },
        },
{
    let n = positional_value(num, from);
    lemma_value_bounds(num, from);
    if all_digits(num) && n <= i128::MAX {
        lemma_decimal_round_trip(n);
        lemma_numeral(n, to);
    }
}

/// A decimal number written with a point and at least one digit is converted
/// as any number of base ten is.
pub proof fn law_decimal_is_base_ten(num: Seq<char>, to: int, mantissa_length: Option<i32>)
    requires
        position_of(num, '.') < num.len(),
        num.len() > 1,
        valid_in_base(num.take(position_of(num, '.')), 10),
        valid_in_base(num.skip(position_of(num, '.') + 1), 10),
    ensures
        converted_decimal(num, to, mantissa_length) == converted_fractional(
            num,
            10,
            to,
            mantissa_length,
        ),
{
    lemma_position_found(num, '.');
    let dot = position_of(num, '.');
    let whole = num.take(dot);
    let fraction = num.skip(dot + 1);
    assert forall|j: int| 0 <= j < num.len() implies num[j] != 'e' && num[j] != 'E' && (j == 0
        ==> num[j] != '-' && num[j] != '+') by {
        if j < dot {
            assert(digit_below(whole[j], 10));
        } else if j > dot {
            assert(digit_below(fraction[j - dot - 1], 10));
        }
    }
    lemma_position_of(num, 'e', num.len() as int);
    lemma_position_of(num, 'E', num.len() as int);
    assert(num.take(num.len() as int) =~= num);
    let all = whole + fraction;
    assert(shifted(all, dot).0 =~= whole);
    assert(shifted(all, dot).1 =~= fraction);
}

/// What a whole number is converted to is written in digits of the target
/// base and writes the number that the input writes.
pub proof fn law_whole_conversion_keeps_the_number(num: Seq<char>, from: int, to: int)
    requires
        2 <= from <= 36,
        2 <= to <= 36,
    ensures
        converted_whole(num, from, to) matches Some(text) ==> valid_in_base(text, to)
            && positional_value(text, to) == positional_value(num, from),
{
    let n = positional_value(num, from);
    lemma_value_bounds(num, from);
    if n == 0 {
        lemma_zero_text(to);
    } else {
        lemma_numeral(n, to);
    }
}

/// What a number with a point is converted to: before the point stands its
/// whole part, in digits of the target base; after the point stand digits of
/// the target base that, read as a whole number, are the part below one times
/// the target base raised to their count, cut to a whole number. The zeros
/// that these digits end with are then dropped.
pub proof fn law_fractional_conversion_keeps_the_number(
    whole: Seq<char>,
    fraction: Seq<char>,
    from: int,
    to: int,
    count: nat,
)
    requires
        2 <= from <= 36,
        2 <= to <= 36,
    ensures
        converted_parts(whole, fraction, from, to, count) matches Some(text) ==> {
            let place = pow(from, fraction.len());
            let above = positional_value(whole, from) + positional_value(fraction, from) / place;
            let below = positional_value(fraction, from) % place;
            let before = numeral(above, to);
            let after = fraction_digits(below, place, to, count);
            &&& text == fractional_text(before, after)
            &&& valid_in_base(before, to)
            &&& positional_value(before, to) == above
            &&& after.len() == count
            &&& valid_in_base(after, to)
            &&& positional_value(after, to) == below * pow(to, count) / place
        },
{
    let place = pow(from, fraction.len());
    let above = positional_value(whole, from) + positional_value(fraction, from) / place;
    let below = positional_value(fraction, from) % place;
    lemma_pow_positive(from, fraction.len());
    lemma_value_bounds(whole, from);
    lemma_value_bounds(fraction, from);
    lemma_mod_bound(positional_value(fraction, from), place);
    lemma_fundamental_div_mod(positional_value(fraction, from), place);
    assert(0 <= positional_value(fraction, from) / place) by (nonlinear_arith)
        requires
            positional_value(fraction, from) == place * (positional_value(fraction, from) / place)
                + positional_value(fraction, from) % place,
            0 <= positional_value(fraction, from),
            0 <= positional_value(fraction, from) % place < place,
    ;
    lemma_numeral(above, to);
    lemma_fraction_digits_value(below, place, to, count);
}

/// A whole number converted to the base it is written in comes back as it
/// was, less its leading zeros; a number of zeros alone comes back as `0`.
pub proof fn law_same_base_whole(s: Seq<char>, base: int)
    requires
        2 <= base <= 36,
        valid_in_base(s, base),
        positional_value(s, base) <= i128::MAX,
    ensures
        converted_whole(s, base, base) == Some(
            if without_leading_zeros(s).len() == 0 {
                seq!['0']
            } else {
                without_leading_zeros(s)
            },
        ),
        s.len() > 0 && s[0] != '0' ==> converted_whole(s, base, base) == Some(s),
{
    lemma_valid_digits(s, base);
    lemma_numeral_of_value(s, base);
    lemma_value_bounds(s, base);
    lemma_numeral(positional_value(s, base), base);
}

/// The text `whole`, a point and `fraction` is split at that point where
/// `whole` holds digits only.
pub proof fn lemma_split_at_point(whole: Seq<char>, fraction: Seq<char>)
    requires
        all_digits(whole),
    ensures
        position_of(whole + seq!['.'] + fraction, '.') == whole.len(),
        (whole + seq!['.'] + fraction).take(whole.len() as int) == whole,
        (whole + seq!['.'] + fraction).skip(whole.len() as int + 1) == fraction,
{
    let text = whole + seq!['.'] + fraction;
    assert forall|j: int| 0 <= j < whole.len() implies text[j] != '.' by {
        assert(is_digit(whole[j]));
    }
    lemma_position_of(text, '.', whole.len() as int);
    assert(text.take(whole.len() as int) =~= whole);
    assert(text.skip(whole.len() as int + 1) =~= fraction);
}

/// A number with a point, converted to the base it is written in, comes back
/// digit for digit: before the point less its leading zeros, after the point
/// cut to the count of digits asked for, or filled up to it with zeros, which
/// the result then drops again with any zeros that the digits end with.
pub proof fn law_same_base_fractional_digits(
    whole: Seq<char>,
    fraction: Seq<char>,
    base: int,
    mantissa_length: Option<i32>,
)
    requires
        2 <= base <= 36,
        valid_in_base(whole, base),
        valid_in_base(fraction, base),
        positional_value(whole, base) <= i128::MAX,
    ensures
        converted_fractional(whole + seq!['.'] + fraction, base, base, mantissa_length) == Some(
            fractional_text(
                without_leading_zeros(whole),
                (fraction + zeros(mantissa_count(mantissa_length))).take(
                    mantissa_count(mantissa_length) as int,
                ),
            ),
        ),
{
    let count = mantissa_count(mantissa_length);
    let place = pow(base, fraction.len());
    let below = positional_value(fraction, base);
    lemma_valid_digits(whole, base);
    lemma_valid_digits(fraction, base);
    lemma_split_at_point(whole, fraction);
    lemma_value_bounds(fraction, base);
    lemma_pow_positive(base, fraction.len());
    lemma_basic_div(below, place);
    lemma_small_mod(below as nat, place as nat);
    lemma_numeral_of_value(whole, base);
    lemma_fraction_of_digits(fraction, base, count);
}

/// A number with a point, converted to the base it is written in with room
/// for all its digits after the point, comes back as it was, less the zeros it
/// starts and ends with; before the point stands `0` where nothing else is left.
pub proof fn law_same_base_fractional(
    whole: Seq<char>,
    fraction: Seq<char>,
    base: int,
    mantissa_length: Option<i32>,
)
    requires
        2 <= base <= 36,
        valid_in_base(whole, base),
        valid_in_base(fraction, base),
        positional_value(whole, base) <= i128::MAX,
        fraction.len() <= mantissa_count(mantissa_length),
    ensures
        converted_fractional(whole + seq!['.'] + fraction, base, base, mantissa_length) == Some(
            fractional_text(without_leading_zeros(whole), fraction),
        ),
{
    let count = mantissa_count(mantissa_length);
    law_same_base_fractional_digits(whole, fraction, base, mantissa_length);
    let extra = (count - fraction.len()) as nat;
    assert((fraction + zeros(count)).take(count as int) =~= fraction + zeros(extra));
    lemma_trailing_zeros_padding(fraction, extra);
}

/// With no digit asked for after the point, or fewer than none, the result
/// ends with the point: it is the whole part of the number, `0` where that is
/// zero, and the point.
pub proof fn law_no_mantissa(
    whole: Seq<char>,
    fraction: Seq<char>,
    from: int,
    to: int,
    mantissa_length: Option<i32>,
)
    requires
        2 <= to <= 36,
        mantissa_length matches Some(len) && len <= 0,
    ensures
        mantissa_count(mantissa_length) == 0,
        converted_parts(whole, fraction, from, to, mantissa_count(mantissa_length)) matches Some(
            text,
        ) ==> text == whole_text(
            positional_value(whole, from) + positional_value(fraction, from) / pow(
                from,
                fraction.len(),
            ),
            to,
        ) + seq!['.'],
{
    let place = pow(from, fraction.len());
    let above = positional_value(whole, from) + positional_value(fraction, from) / place;
    let below = positional_value(fraction, from) % place;
    let digits = numeral(above, to);
    assert(fraction_digits(below, place, to, 0) =~= Seq::<char>::empty());
    if above <= 0 {
        assert(seq!['0'] + seq!['.'] + Seq::<char>::empty() =~= seq!['0'] + seq!['.']);
    } else {
        assert(digits == numeral(above / to, to).push(digit_char(above % to)));
        assert(digits.len() > 0);
        assert(digits + seq!['.'] + Seq::<char>::empty() =~= digits + seq!['.']);
    }
}

/// The shape of every number with a point that a conversion gives: it has
/// one point; before the point stands the whole part in digits of the target
/// base, with no zero in front, or `0` alone; after the point stand at most as
/// many digits of the target base as were asked for, the last of them no zero.
pub proof fn law_shape_of_a_fractional_result(
    whole: Seq<char>,
    fraction: Seq<char>,
    from: int,
    to: int,
    count: nat,
)
    requires
        2 <= from <= 36,
        2 <= to <= 36,
    ensures
        converted_parts(whole, fraction, from, to, count) matches Some(text) ==> {
            let dot = position_of(text, '.');
            let before = text.take(dot);
            let after = text.skip(dot + 1);
            &&& 0 < dot < text.len()
            &&& valid_in_base(before, to)
            &&& valid_in_base(after, to)
            &&& before == whole_text(
                positional_value(whole, from) + positional_value(fraction, from) / pow(
                    from,
                    fraction.len(),
                ),
                to,
            )
            &&& before[0] != '0' || before == seq!['0']
            &&& after.len() <= count
            &&& after.len() > 0 ==> after.last() != '0'
        },
{
    if converted_parts(whole, fraction, from, to, count) is Some {
        let place = pow(from, fraction.len());
        let above = positional_value(whole, from) + positional_value(fraction, from) / place;
        let below = positional_value(fraction, from) % place;
        let digits = fraction_digits(below, place, to, count);
        let before = whole_text(above, to);
        let after = without_trailing_zeros(digits);
        law_fractional_conversion_keeps_the_number(whole, fraction, from, to, count);
        lemma_without_trailing_zeros(digits);
        if above <= 0 {
            lemma_zero_text(to);
        } else {
            lemma_numeral(above, to);
        }
        assert(valid_in_base(after, to)) by {
            assert forall|i: int| 0 <= i < after.len() implies digit_below(
                #[trigger] after[i],
                to,
            ) by {
                assert(digit_below(digits[i], to));
            }
        }
        lemma_valid_digits(before, to);
        lemma_split_at_point(before, after);
    }
}

/// Every decimal number that is not below zero and whose whole part fits in
/// 128 bits with a sign has a conversion, whatever its sign and its exponent.
pub proof fn law_decimal_number_has_a_result(
    num: Seq<char>,
    to: int,
    mantissa_length: Option<i32>,
)
    requires
        decimal_reading(num) matches Some(reading) && reading.parts() matches Some(
            (whole, fraction),
        ) && positional_value(whole, 10) + positional_value(fraction, 10) / pow(
            10,
            fraction.len(),
        ) <= i128::MAX,
    ensures
        converted_decimal(num, to, mantissa_length) is Some,
{
    let reading = decimal_reading(num).unwrap();
    let digits = reading.whole + reading.fraction;
    assert forall|i: int| 0 <= i < digits.len() implies digit_below(#[trigger] digits[i], 10) by {
        if i < reading.whole.len() {
            assert(digit_below(reading.whole[i], 10));
        } else {
            assert(digit_below(reading.fraction[i - reading.whole.len()], 10));
        }
    }
    lemma_shifted_digits(digits, reading.whole.len() + reading.exponent);
    let (whole, fraction) = reading.parts().unwrap();
    lemma_valid_digits(whole, 10);
    lemma_valid_digits(fraction, 10);
}

} // verus!
