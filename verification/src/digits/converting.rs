//! Conversions of whole and fractional numbers between bases 2 to 36.

use crate::digits::decimal::{convert_decimal, decimal_parts, read_signed_digits, signed_digits};
use crate::digits::fraction::{expand, fraction_digits, scale, trim_trailing_zeros};
use crate::digits::notation::{
    all_digits, char_of, digit_below, digit_char, digit_of, digit_weight, is_digit, lemma_numeral,
    lemma_value_bounds, lemma_value_prefix, lemma_value_push, lemma_zero_text, numeral,
    positional_value, valid_in_base, without_trailing_zeros,
};
use crate::text::{chars_of, find_char, part_of, position_of, string_of};
use vstd::arithmetic::div_mod::{
    lemma_div_decreases, lemma_div_pos_is_pos, lemma_fundamental_div_mod, lemma_mod_bound,
};
use vstd::arithmetic::power::{lemma_pow_positive, pow};
use vstd::prelude::*;

verus! {

/// Why a conversion gave no result.
#[derive(Clone, Copy, Debug, PartialEq, Eq, Structural)]
pub enum ConversionError {
    /// The input is no number in the notation asked for, or the number is too
    /// large to be worked on.
    InvalidData,
}

/// The digits of every supported base, in order of their value.
pub const DIGITMASK: &'static str = "0123456789ABCDEFGHIJKLMNOPQRSTUVWXYZ";

/// What a conversion gave, as plain text: `None` where it failed.
pub open spec fn outcome(r: Result<String, ConversionError>) -> Option<Seq<char>> {
    match r {
        Ok(text) => Some(text@),
        Err(_) => None,
    }
}

/// How a whole number that is not negative reads in base `base`: its digits,
/// and the single digit `0` for zero.
pub open spec fn whole_text(n: int, base: int) -> Seq<char> {
    if n <= 0 {
        seq!['0']
    } else {
        numeral(n, base)
    }
}

/// The decimal text of a number that is not negative.
pub open spec fn decimal_text(n: int) -> Seq<char> {
    whole_text(n, 10)
}

/// What `any_whole_to_decimal` gives for the digits `num` in base `base`.
pub open spec fn decimal_of_digits(num: Seq<char>, base: int) -> Option<Seq<char>> {
    if all_digits(num) && positional_value(num, base) <= i128::MAX {
        Some(decimal_text(positional_value(num, base)))
    } else {
        None
    }
}

/// What `decimal_whole_to_any` gives for the decimal text `num` and the base `base`.
pub open spec fn digits_of_decimal(num: Seq<char>, base: int) -> Option<Seq<char>> {
    match integer_of_text(num) {
        Some(v) => Some(numeral(v, base)),
        None => None,
    }
}

/// What `any_whole_to_any` gives for the digits `num` in base `from` and the base `to`.
pub open spec fn converted_whole(num: Seq<char>, from: int, to: int) -> Option<Seq<char>> {
    if all_digits(num) && positional_value(num, from) <= i128::MAX {
        Some(whole_text(positional_value(num, from), to))
    } else {
        None
    }
}

/// The integer that the text `s` writes in decimal: an optional sign, then at
/// least one digit `0` to `9`, and a value that 128 bits with a sign can hold.
pub open spec fn integer_of_text(s: Seq<char>) -> Option<int> {
    match signed_digits(s) {
        Some(value) => if i128::MIN <= value <= i128::MAX {
            Some(value)
        } else {
            None
        },
        None => None,
    }
}

/// How many digits are given after the point: as many as asked for, none
/// where a negative count is asked for, and ten where nothing is asked for.
pub open spec fn mantissa_count(mantissa_length: Option<i32>) -> nat {
    match mantissa_length {
        Some(len) => if len < 0 {
            0
        } else {
            len as nat
        },
        None => 10,
    }
}

/// A number with a point, as text: the digits before the point, or `0` where
/// there are none, then the point, then the digits after it without the zeros
/// that they end with.
pub open spec fn fractional_text(whole: Seq<char>, fraction: Seq<char>) -> Seq<char> {
    let before = if whole.len() == 0 {
        seq!['0']
    } else {
        whole
    };
    before + seq!['.'] + without_trailing_zeros(fraction)
}

/// The number that `whole` and `fraction` write in base `from`, before and
/// after the point, as it reads in base `to` with `count` digits after the point.
///
/// The number is `whole` plus `fraction` over the place of its last digit. There
/// is a result where both hold digits only and the whole part of the number
/// fits in 128 bits with a sign.
pub open spec fn converted_parts(
    whole: Seq<char>,
    fraction: Seq<char>,
    from: int,
    to: int,
    count: nat,
) -> Option<Seq<char>> {
    let place = pow(from, fraction.len());
    let above = positional_value(whole, from) + positional_value(fraction, from) / place;
    let below = positional_value(fraction, from) % place;
    if all_digits(whole) && all_digits(fraction) && above <= i128::MAX {
        Some(fractional_text(numeral(above, to), fraction_digits(below, place, to, count)))
    } else {
        None
    }
}

/// What `any_fractional_to_any` gives: the text is split at its first point.
pub open spec fn converted_fractional(
    num: Seq<char>,
    from: int,
    to: int,
    mantissa_length: Option<i32>,
) -> Option<Seq<char>> {
    let dot = position_of(num, '.');
    if dot < num.len() {
        converted_parts(
            num.take(dot),
            num.skip(dot + 1),
            from,
            to,
            mantissa_count(mantissa_length),
        )
    } else {
        None
    }
}

/// What `decimal_fractional_to_any` gives: the text is read as a decimal
/// number, exactly, and converted from base ten.
pub open spec fn converted_decimal(num: Seq<char>, to: int, mantissa_length: Option<i32>) -> Option<
    Seq<char>,
> {
    match decimal_parts(num) {
        Some((whole, fraction)) => converted_parts(
            whole,
            fraction,
            10,
            to,
            mantissa_count(mantissa_length),
        ),
        None => None,
    }
}

/// The number that `digits` write in base `base`, where every character is a
/// digit and the number is at most `limit`.
pub fn evaluate(digits: &Vec<char>, base: u32, limit: u128) -> (r: Option<u128>)
    requires
        2 <= base <= 36,
    ensures
        match r {
            Some(v) => all_digits(digits@) && v == positional_value(digits@, base as int) && v
                <= limit,
            None => !all_digits(digits@) || positional_value(digits@, base as int) > limit,
        },
{
    let radix = base as u128;
    let mut acc: u128 = 0;
    let mut i: usize = 0;
    while i < digits.len()
        invariant
            2 <= base <= 36,
            radix == base,
            i <= digits.len(),
            all_digits(digits@.take(i as int)),
            acc <= limit,
            acc == positional_value(digits@.take(i as int), base as int),
        decreases digits.len() - i,
    {
        let c = digits[i];
        let d: u128 = match digit_of(c) {
            Some(v) => v as u128,
            None => {
                assert(!is_digit(digits@[i as int]));
                return None;
            },
        };
        proof {
            assert(digits@.take(i + 1) =~= digits@.take(i as int).push(c));
            lemma_value_push(digits@.take(i as int), c, base as int);
            assert forall|k: int| 0 <= k < i + 1 implies is_digit(
                #[trigger] digits@.take(i + 1)[k],
            ) by {
                if k < i {
                    assert(is_digit(digits@.take(i as int)[k]));
                }
            }
            lemma_value_prefix(digits@, i + 1, base as int);
            assert(0 <= acc * base) by (nonlinear_arith)
                requires
                    0 <= acc,
                    0 <= base,
            ;
        }
        if d > limit {
            return None;
        }
        proof {
            lemma_fundamental_div_mod(limit - d, base as int);
            lemma_mod_bound(limit - d, base as int);
        }
        if acc > (limit - d) / radix {
            proof {
                let room = (limit - d) / (base as int);
                assert(acc * base + d > limit) by (nonlinear_arith)
                    requires
                        acc >= room + 1,
                        base >= 2,
                        limit - d == base * room + (limit - d) % (base as int),
                        (limit - d) % (base as int) < base,
                ;
            }
            return None;
        }
        proof {
            let room = (limit - d) / (base as int);
            assert(acc * base + d <= limit) by (nonlinear_arith)
                requires
                    0 <= acc <= room,
                    base >= 2,
                    limit - d == base * room + (limit - d) % (base as int),
                    0 <= (limit - d) % (base as int),
            ;
        }
        acc = acc * radix + d;
        i += 1;
    }
    proof {
        assert(digits@.take(i as int) =~= digits@);
    }
    Some(acc)
}

/// Whether every character of `digits` is a digit that base `base` uses.
pub fn digits_below(digits: &Vec<char>, base: u32) -> (r: bool)
    ensures
        r == valid_in_base(digits@, base as int),
{
    let mut i: usize = 0;
    while i < digits.len()
        invariant
            i <= digits.len(),
            valid_in_base(digits@.take(i as int), base as int),
        decreases digits.len() - i,
    {
        let fits = match digit_of(digits[i]) {
            Some(v) => (v as u32) < base,
            None => false,
        };
        if !fits {
            assert(!digit_below(digits@[i as int], base as int));
            return false;
        }
        proof {
            assert forall|k: int| 0 <= k < i + 1 implies digit_below(
                #[trigger] digits@.take(i + 1)[k],
                base as int,
            ) by {
                if k < i {
                    assert(digit_below(digits@.take(i as int)[k], base as int));
                }
            }
        }
        i += 1;
    }
    proof {
        assert(digits@.take(i as int) =~= digits@);
    }
    true
}

/// The digits that write `n` in base `base`; none for a number that is not positive.
pub fn write_numeral(n: i128, base: u32) -> (digits: Vec<char>)
    requires
        2 <= base <= 36,
    ensures
        digits@ == numeral(n as int, base as int),
{
    let radix = base as i128;
    let mut reversed: Vec<char> = Vec::new();
    let mut rest: i128 = n;
    while rest > 0
        invariant
            2 <= base <= 36,
            radix == base,
            numeral(n as int, base as int) == numeral(rest as int, base as int)
                + reversed@.reverse(),
        decreases rest,
    {
        let r = rest % radix;
        let q = rest / radix;
        proof {
            lemma_div_decreases(rest as int, base as int);
            lemma_div_pos_is_pos(rest as int, base as int);
            lemma_mod_bound(rest as int, base as int);
            let c = digit_char(r as int);
            assert(reversed@.push(c).reverse() =~= seq![c] + reversed@.reverse());
            assert(numeral(rest as int, base as int) == numeral(q as int, base as int).push(c));
            assert(numeral(q as int, base as int).push(c) + reversed@.reverse() =~= numeral(
                q as int,
                base as int,
            ) + (seq![c] + reversed@.reverse()));
        }
        reversed.push(char_of(r as u8));
        rest = q;
    }
    let mut digits: Vec<char> = Vec::new();
    let mut k: usize = reversed.len();
    proof {
        assert(numeral(rest as int, base as int) =~= Seq::<char>::empty());
        assert(numeral(n as int, base as int) =~= reversed@.reverse());
    }
    while k > 0
        invariant
            k <= reversed.len(),
            digits@ == reversed@.reverse().take(reversed.len() - k),
        decreases k,
    {
        k -= 1;
        digits.push(reversed[k]);
        proof {
            let full = reversed@.reverse();
            let done = reversed.len() - k;
            assert(full.take(done) =~= full.take(done - 1).push(full[done - 1]));
        }
    }
    proof {
        assert(reversed@.reverse().take(reversed.len() as int) =~= reversed@.reverse());
    }
    digits
}

/// How the whole number `n` reads in base `base`.
pub fn write_whole(n: i128, base: u32) -> (digits: Vec<char>)
    requires
        2 <= base <= 36,
    ensures
        digits@ == whole_text(n as int, base as int),
{
    if n <= 0 {
        let mut digits: Vec<char> = Vec::new();
        digits.push('0');
        assert(digits@ =~= seq!['0']);
        digits
    } else {
        write_numeral(n, base)
    }
}

/// The integer that `text` writes in decimal, as `str::parse::<i128>` reads it.
pub fn parse_integer(text: &Vec<char>) -> (r: Option<i128>)
    ensures
        match r {
            Some(v) => integer_of_text(text@) == Some(v as int),
            None => integer_of_text(text@) is None,
        },
{
    let lowest: u128 = 0x8000_0000_0000_0000_0000_0000_0000_0000;
    match read_signed_digits(text, lowest) {
        Some((minus, Some(size))) => {
            if size < lowest {
                if minus {
                    Some(-(size as i128))
                } else {
                    Some(size as i128)
                }
            } else if minus {
                Some(i128::MIN)
            } else {
                None
            }
        },
        _ => None,
    }
}

/// Evaluates the digits `num` of base `num_base` and gives the number in decimal.
///
/// Fails where a character of `num` is no digit of the alphabet, and where the
/// number does not fit in 128 bits with a sign.
pub fn any_whole_to_decimal(num: &str, num_base: i128) -> (r: Result<String, ConversionError>)
    requires
        2 <= num_base <= 36,
    ensures
        outcome(r) == decimal_of_digits(num@, num_base as int),
{
    let digits = chars_of(num);
    match evaluate(&digits, num_base as u32, 0x7fff_ffff_ffff_ffff_ffff_ffff_ffff_ffff) {
        None => Err(ConversionError::InvalidData),
        Some(value) => {
            let text = write_whole(value as i128, 10);
            Ok(string_of(&text))
        },
    }
}

/// Writes the integer that the decimal text `num` holds in base `base_to`.
///
/// Fails where `num` is no integer that 128 bits with a sign can hold. An
/// integer that is not positive has no digits: the result is empty.
pub fn decimal_whole_to_any(num: &str, base_to: i32) -> (r: Result<String, ConversionError>)
    requires
        2 <= base_to <= 36,
    ensures
        outcome(r) == digits_of_decimal(num@, base_to as int),
{
    let text = chars_of(num);
    match parse_integer(&text) {
        None => Err(ConversionError::InvalidData),
        Some(value) => {
            let digits = write_numeral(value, base_to as u32);
            Ok(string_of(&digits))
        },
    }
}

/// Converts the digits `num` of base `num_base` to base `base_to`, through
/// their decimal text. Zero reads `0`.
///
/// Fails where a character of `num` is no digit of the alphabet, and where the
/// number does not fit in 128 bits with a sign.
pub fn any_whole_to_any(num: &str, num_base: i32, base_to: i32) -> (r: Result<
    String,
    ConversionError,
>)
    requires
        2 <= num_base <= 36,
        2 <= base_to <= 36,
    ensures
        outcome(r) == converted_whole(num@, num_base as int, base_to as int),
{
    let decimal = match any_whole_to_decimal(num, num_base as i128) {
        Ok(text) => text,
        Err(_) => {
            return Err(ConversionError::InvalidData);
        },
    };
    proof {
        lemma_value_bounds(num@, num_base as int);
        lemma_decimal_round_trip(positional_value(num@, num_base as int));
    }
    match decimal_whole_to_any(decimal.as_str(), base_to) {
        Ok(digits) => {
            if digits.as_str().unicode_len() == 0 {
                let mut zero: Vec<char> = Vec::new();
                zero.push('0');
                proof {
                    assert(zero@ =~= seq!['0']);
                    lemma_numeral(positional_value(num@, num_base as int), base_to as int);
                }
                Ok(string_of(&zero))
            } else {
                proof {
                    lemma_numeral(positional_value(num@, num_base as int), base_to as int);
                }
                Ok(digits)
            }
        },
        Err(_) => Err(ConversionError::InvalidData),
    }
}

/// What `r` holds, as plain text: `None` where it holds an error.
pub open spec fn outcome_of_chars(r: Result<Vec<char>, ConversionError>) -> Option<Seq<char>> {
    match r {
        Ok(text) => Some(text@),
        Err(_) => None,
    }
}

/// How many digits after the point `mantissa_length` asks for.
pub fn count_of(mantissa_length: Option<i32>) -> (count: u32)
    ensures
        count == mantissa_count(mantissa_length),
{
    match mantissa_length {
        Some(len) => if len < 0 {
            0
        } else {
            len as u32
        },
        None => 10,
    }
}

/// Converts the number that `whole` and `fraction` write in base `from`,
/// before and after the point, to base `to` with `count` digits after the point.
pub fn convert_parts(whole: &Vec<char>, fraction: Vec<char>, from: u32, to: u32, count: u32) -> (r:
    Result<Vec<char>, ConversionError>)
    requires
        2 <= from <= 36,
        2 <= to <= 36,
    ensures
        outcome_of_chars(r) == converted_parts(
            whole@,
            fraction@,
            from as int,
            to as int,
            count as nat,
        ),
{
    let ghost place = pow(from as int, fraction@.len());
    let ghost below_all = positional_value(fraction@, from as int);
    proof {
        lemma_pow_positive(from as int, fraction@.len());
        lemma_value_bounds(whole@, from as int);
        lemma_value_bounds(fraction@, from as int);
        lemma_div_pos_is_pos(below_all, place);
    }
    let limit: u128 = 0x7fff_ffff_ffff_ffff_ffff_ffff_ffff_ffff;
    let above = match evaluate(whole, from, limit) {
        Some(v) => v,
        None => {
            return Err(ConversionError::InvalidData);
        },
    };
    if !digits_below(&fraction, 36) {
        proof {
            if all_digits(fraction@) {
                assert forall|k: int| 0 <= k < fraction@.len() implies digit_below(
                    #[trigger] fraction@[k],
                    36,
                ) by {
                    assert(is_digit(fraction@[k]));
                }
            }
        }
        return Err(ConversionError::InvalidData);
    }
    proof {
        assert forall|k: int| 0 <= k < fraction@.len() implies is_digit(
            #[trigger] fraction@[k],
        ) by {
            assert(digit_below(fraction@[k], 36));
        }
    }
    let mut rest = fraction;
    let carry = scale(&mut rest, from, 1);
    proof {
        assert(below_all * 1 == below_all) by (nonlinear_arith);
    }
    if above > limit - carry as u128 {
        return Err(ConversionError::InvalidData);
    }
    let above = above + carry as u128;
    let mut text = write_numeral(above as i128, to);
    if text.len() == 0 {
        text.push('0');
    }
    text.push('.');
    let mut digits = expand(rest, from, to, count);
    trim_trailing_zeros(&mut digits);
    let ghost head = text@;
    text.append(&mut digits);
    proof {
        let n = numeral(above as int, to as int);
        if n.len() == 0 {
            assert(head =~= seq!['0'] + seq!['.']);
        } else {
            assert(head =~= n + seq!['.']);
        }
    }
    Ok(text)
}

/// The characters of `num` before and after its first point; `None` where
/// it has no point.
pub fn split_at_point(num: &str) -> (r: Option<(Vec<char>, Vec<char>)>)
    ensures
        match r {
            Some((whole, fraction)) => {
                &&& position_of(num@, '.') < num@.len()
                &&& whole@ == num@.take(position_of(num@, '.'))
                &&& fraction@ == num@.skip(position_of(num@, '.') + 1)
            },
            None => position_of(num@, '.') >= num@.len(),
        },
{
    let text = chars_of(num);
    let dot = find_char(&text, '.');
    if dot >= text.len() {
        return None;
    }
    let whole = part_of(&text, 0, dot);
    let fraction = part_of(&text, dot + 1, text.len());
    proof {
        assert(whole@ =~= num@.take(dot as int));
        assert(fraction@ =~= num@.skip(dot + 1));
    }
    Some((whole, fraction))
}

/// What each of `digits` is worth, in order; `None` where one of them is no digit.
pub fn digit_values(digits: &Vec<char>) -> (r: Option<Vec<u8>>)
    ensures
        match r {
            Some(values) => {
                &&& all_digits(digits@)
                &&& values@.len() == digits@.len()
                &&& forall|i: int|
                    0 <= i < digits@.len() ==> #[trigger] values@[i] as int == digit_weight(
                        digits@[i],
                    )
            },
            None => !all_digits(digits@),
        },
{
    let mut values: Vec<u8> = Vec::new();
    let mut i: usize = 0;
    while i < digits.len()
        invariant
            i <= digits.len(),
            values@.len() == i,
            forall|k: int| 0 <= k < i ==> is_digit(#[trigger] digits@[k]),
            forall|k: int| 0 <= k < i ==> #[trigger] values@[k] as int == digit_weight(digits@[k]),
        decreases digits.len() - i,
    {
        match digit_of(digits[i]) {
            Some(v) => {
                values.push(v);
            },
            None => {
                assert(!is_digit(digits@[i as int]));
                return None;
            },
        }
        i += 1;
    }
    Some(values)
}

/// Converts `num`, a number of base `num_base` written with a point, to base
/// `base_to`. After the point stand `mantissa_length` digits, or ten where none
/// is given, less the zeros that they end with; before it stands `0` where the
/// number is below one.
///
/// Fails where `num` has no point, where a character beside the first point
/// is no digit of the alphabet, and where the whole part does not fit in 128
/// bits with a sign.
pub fn any_fractional_to_any(
    num: &str,
    num_base: i32,
    base_to: i32,
    mantissa_length: Option<i32>,
) -> (r: Result<String, ConversionError>)
    requires
        2 <= num_base <= 36,
        2 <= base_to <= 36,
    ensures
        outcome(r) == converted_fractional(num@, num_base as int, base_to as int, mantissa_length),
{
    let (whole, fraction) = match split_at_point(num) {
        Some(parts) => parts,
        None => {
            return Err(ConversionError::InvalidData);
        },
    };
    let count = count_of(mantissa_length);
    match convert_parts(&whole, fraction, num_base as u32, base_to as u32, count) {
        Ok(converted) => Ok(string_of(&converted)),
        Err(_) => Err(ConversionError::InvalidData),
    }
}

/// Converts the decimal number `num` to base `base_to`, as
/// `any_fractional_to_any` converts a number of base ten. The number may have
/// a sign before it and an exponent after it (`e` or `E`, an optional sign and
/// digits), which moves the point, and the point may be left out. It is read
/// exactly, digit for digit.
///
/// Fails where `num` is no such number, where the number is below zero, and
/// where its whole part does not fit in 128 bits with a sign.
pub fn decimal_fractional_to_any(num: &str, base_to: i32, mantissa_length: Option<i32>) -> (r:
    Result<String, ConversionError>)
    requires
        2 <= base_to <= 36,
    ensures
        outcome(r) == converted_decimal(num@, base_to as int, mantissa_length),
{
    let text = chars_of(num);
    match convert_decimal(&text, base_to as u32, count_of(mantissa_length)) {
        Ok(converted) => Ok(string_of(&converted)),
        Err(_) => Err(ConversionError::InvalidData),
    }
}

/// Reading the decimal text of a number gives the number back.
pub proof fn lemma_decimal_round_trip(n: int)
    requires
        0 <= n <= i128::MAX,
    ensures
        integer_of_text(decimal_text(n)) == Some(n),
{
    let s = decimal_text(n);
    if n == 0 {
        lemma_zero_text(10);
    } else {
        lemma_numeral(n, 10);
        assert(digit_below(s[0], 10));
    }
}

} // verus!
