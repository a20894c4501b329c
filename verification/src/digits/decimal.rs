//! Decimal numbers as text: an optional sign, digits around an optional point,
//! and an optional exponent that moves the point. The text is read exactly.

use crate::digits::converting::{
    convert_parts, converted_parts, digits_below, evaluate, outcome_of_chars, ConversionError,
};
use crate::digits::fraction::{
    fraction_digits, lemma_trailing_zeros_padding, lemma_zero_fraction, zeros,
};
use crate::digits::notation::{
    all_digits, digit_below, is_digit, lemma_value_bounds, lemma_value_concat, numeral,
    positional_value, valid_in_base,
};
use crate::text::{find_char, part_of, position_of};
use vstd::arithmetic::div_mod::{lemma_basic_div, lemma_small_mod};
use vstd::arithmetic::power::{
    lemma_pow1, lemma_pow_adds, lemma_pow_increases, lemma_pow_positive, pow,
};
use vstd::prelude::*;

verus! {

/// Every character of `s` is the digit `0`.
pub open spec fn only_zeros(s: Seq<char>) -> bool {
    forall|i: int| 0 <= i < s.len() ==> s[i] == '0'
}

/// The integer that `s` writes in decimal, however large: an optional sign,
/// then at least one digit `0` to `9`.
pub open spec fn signed_digits(s: Seq<char>) -> Option<int> {
    let signed = s.len() > 0 && (s[0] == '-' || s[0] == '+');
    let body = if signed {
        s.drop_first()
    } else {
        s
    };
    if body.len() > 0 && valid_in_base(body, 10) {
        Some(
            if signed && s[0] == '-' {
                -positional_value(body, 10)
            } else {
                positional_value(body, 10)
            },
        )
    } else {
        None
    }
}

/// The digits `digits` with the point set before position `point`: what then
/// stands before the point and what after it. A point beyond either end is
/// reached with zeros.
pub open spec fn shifted(digits: Seq<char>, point: int) -> (Seq<char>, Seq<char>) {
    if point >= digits.len() {
        (digits + zeros((point - digits.len()) as nat), Seq::empty())
    } else if point <= 0 {
        (Seq::empty(), zeros((-point) as nat) + digits)
    } else {
        (digits.take(point), digits.skip(point))
    }
}

/// Where the exponent of a decimal number starts: at its first `e` or `E`.
pub open spec fn exponent_mark(s: Seq<char>) -> int {
    if position_of(s, 'e') <= position_of(s, 'E') {
        position_of(s, 'e')
    } else {
        position_of(s, 'E')
    }
}

/// A decimal number as its text gives it.
pub struct DecimalReading {
    /// A minus sign stands before the number.
    pub minus: bool,
    /// The digits before the point.
    pub whole: Seq<char>,
    /// The digits after the point.
    pub fraction: Seq<char>,
    /// By how many places the exponent moves the point to the right.
    pub exponent: int,
}

impl DecimalReading {
    /// Both sides of the point hold decimal digits, and there is a digit.
    pub open spec fn wf(self) -> bool {
        &&& self.whole.len() + self.fraction.len() > 0
        &&& valid_in_base(self.whole, 10)
        &&& valid_in_base(self.fraction, 10)
    }

    /// The digits before and after the point, once the exponent has moved
    /// it: `None` for a number below zero.
    pub open spec fn parts(self) -> Option<(Seq<char>, Seq<char>)> {
        if self.minus && positional_value(self.whole + self.fraction, 10) != 0 {
            None
        } else {
            Some(shifted(self.whole + self.fraction, self.whole.len() + self.exponent))
        }
    }
}

/// What the text `num` gives, read as a decimal number: `None` where it is none.
///
/// The text is an optional sign, then decimal digits with at most one point
/// among them and at least one digit, then optionally `e` or `E`, an optional
/// sign and at least one decimal digit.
pub open spec fn decimal_reading(num: Seq<char>) -> Option<DecimalReading> {
    let signed = num.len() > 0 && (num[0] == '-' || num[0] == '+');
    let body = if signed {
        num.drop_first()
    } else {
        num
    };
    let mark = exponent_mark(body);
    let mantissa = body.take(mark);
    let dot = position_of(mantissa, '.');
    let whole = mantissa.take(dot);
    let fraction = if dot < mantissa.len() {
        mantissa.skip(dot + 1)
    } else {
        Seq::empty()
    };
    let exponent = if mark < body.len() {
        signed_digits(body.skip(mark + 1))
    } else {
        Some(0int)
    };
    let reading = DecimalReading {
        minus: signed && num[0] == '-',
        whole,
        fraction,
        exponent: exponent.unwrap(),
    };
    if reading.wf() && exponent is Some {
        Some(reading)
    } else {
        None
    }
}

/// The digits that the decimal number `num` writes before and after its point,
/// once the exponent has moved the point by as many places as it says, to the
/// right where it is positive: `None` where `num` is no decimal number, and
/// for a number below zero.
pub open spec fn decimal_parts(num: Seq<char>) -> Option<(Seq<char>, Seq<char>)> {
    match decimal_reading(num) {
        Some(reading) => reading.parts(),
        None => None,
    }
}

/// Zeros alone are digits and write zero.
pub proof fn lemma_zeros_write_zero(s: Seq<char>, base: int)
    requires
        only_zeros(s),
    ensures
        all_digits(s),
        positional_value(s, base) == 0,
    decreases s.len(),
{
    assert forall|i: int| 0 <= i < s.len() implies is_digit(#[trigger] s[i]) by {
        assert(s[i] == '0');
    }
    if s.len() > 0 {
        let t = s.drop_last();
        assert forall|i: int| 0 <= i < t.len() implies t[i] == '0' by {
            assert(t[i] == s[i]);
        }
        lemma_zeros_write_zero(t, base);
        assert(s.last() == '0');
        assert(0 * base == 0) by (nonlinear_arith);
    }
}

/// Digits of a base that write zero are zeros alone.
pub proof fn lemma_zero_is_written_in_zeros(s: Seq<char>, base: int)
    requires
        base >= 1,
        valid_in_base(s, base),
        positional_value(s, base) == 0,
    ensures
        only_zeros(s),
    decreases s.len(),
{
    if s.len() > 0 {
        let t = s.drop_last();
        assert(valid_in_base(t, base)) by {
            assert forall|i: int| 0 <= i < t.len() implies digit_below(#[trigger] t[i], base) by {
                assert(t[i] == s[i]);
            }
        }
        lemma_value_bounds(t, base);
        assert(digit_below(s.last(), base));
        let v = positional_value(t, base);
        assert(v == 0) by (nonlinear_arith)
            requires
                v >= 0,
                base >= 1,
                v * base <= 0,
        ;
        lemma_zero_is_written_in_zeros(t, base);
        assert forall|i: int| 0 <= i < s.len() implies s[i] == '0' by {
            if i < t.len() {
                assert(t[i] == s[i]);
            }
        }
    }
}

/// A number written in zeros alone is converted to `0.`.
pub proof fn lemma_zero_is_converted_to_zero(
    whole: Seq<char>,
    fraction: Seq<char>,
    from: int,
    to: int,
    count: nat,
)
    requires
        from >= 1,
        only_zeros(whole),
        only_zeros(fraction),
    ensures
        converted_parts(whole, fraction, from, to, count) == Some(seq!['0', '.']),
{
    let place = pow(from, fraction.len());
    lemma_pow_positive(from, fraction.len());
    lemma_zeros_write_zero(whole, from);
    lemma_zeros_write_zero(fraction, from);
    lemma_basic_div(0, place);
    lemma_small_mod(0, place as nat);
    lemma_zero_fraction(place, to, count);
    lemma_trailing_zeros_padding(Seq::<char>::empty(), count);
    assert(Seq::<char>::empty() + zeros(count) =~= zeros(count));
    assert(numeral(0, to) =~= Seq::<char>::empty());
    assert(seq!['0'] + seq!['.'] + Seq::<char>::empty() =~= seq!['0', '.']);
}

/// Moving the point of zeros leaves zeros on both sides.
pub proof fn lemma_shifted_zeros(digits: Seq<char>, point: int)
    requires
        only_zeros(digits),
    ensures
        only_zeros(shifted(digits, point).0),
        only_zeros(shifted(digits, point).1),
{
}

/// Moving the point of decimal digits leaves decimal digits on both sides.
pub proof fn lemma_shifted_digits(digits: Seq<char>, point: int)
    requires
        valid_in_base(digits, 10),
    ensures
        valid_in_base(shifted(digits, point).0, 10),
        valid_in_base(shifted(digits, point).1, 10),
{
    let (before, after) = shifted(digits, point);
    assert forall|i: int| 0 <= i < before.len() implies digit_below(#[trigger] before[i], 10) by {
        if i < digits.len() {
            assert(digit_below(digits[i], 10));
        }
    }
    assert forall|i: int| 0 <= i < after.len() implies digit_below(#[trigger] after[i], 10) by {
        if point <= 0 {
            if i >= -point {
                assert(digit_below(digits[i + point], 10));
            }
        } else {
            assert(digit_below(digits[i + point], 10));
        }
    }
}

/// Where fewer digits are asked for than the fraction has zeros in front, in
/// the measure of the base, every digit given is a zero.
pub proof fn lemma_fraction_out_of_reach(num: int, den: int, base: int, count: nat)
    requires
        0 <= num,
        base >= 1,
        num * pow(base, count) < den,
    ensures
        fraction_digits(num, den, base, count) == zeros(count),
    decreases count,
{
    reveal(pow);
    if count == 0 {
        assert(zeros(0) =~= Seq::<char>::empty());
    } else {
        let rest = pow(base, (count - 1) as nat);
        lemma_pow_positive(base, (count - 1) as nat);
        assert(num * base <= num * (base * rest) && num * (base * rest) == (num * base) * rest
            && 0 <= num * base) by (nonlinear_arith)
            requires
                0 <= num,
                base >= 1,
                rest >= 1,
        ;
        lemma_basic_div(num * base, den);
        lemma_small_mod((num * base) as nat, den as nat);
        lemma_fraction_out_of_reach(num * base, den, base, (count - 1) as nat);
        assert(seq!['0'] + zeros((count - 1) as nat) =~= zeros(count));
    }
}

/// No base up to 100 raised to a power exceeds ten raised to twice that power.
pub proof fn lemma_reach_of_a_base(base: int, count: nat)
    requires
        1 <= base <= 100,
    ensures
        1 <= pow(base, count) <= pow(10, 2 * count),
    decreases count,
{
    reveal(pow);
    if count > 0 {
        lemma_reach_of_a_base(base, (count - 1) as nat);
        let a = pow(base, (count - 1) as nat);
        let b = pow(10, (2 * (count - 1)) as nat);
        assert(pow(10, 2 * count) == 10 * pow(10, (2 * count - 1) as nat));
        assert(pow(10, (2 * count - 1) as nat) == 10 * b);
        assert(1 <= base * a <= 10 * (10 * b)) by (nonlinear_arith)
            requires
                1 <= base <= 100,
                1 <= a <= b,
        ;
    }
}

/// Ten raised to 39 is more than 128 bits with a sign hold.
pub proof fn lemma_ten_to_39()
    ensures
        pow(10, 39) == 1_000_000_000_000_000_000_000_000_000_000_000_000_000int,
        pow(10, 39) > i128::MAX,
{
    lemma_pow1(10);
    lemma_pow_adds(10, 1, 1);
    assert(pow(10, 2) == 100);
    lemma_pow_adds(10, 2, 2);
    assert(pow(10, 4) == 10_000);
    lemma_pow_adds(10, 4, 4);
    assert(pow(10, 8) == 100_000_000);
    lemma_pow_adds(10, 8, 8);
    assert(pow(10, 16) == 10_000_000_000_000_000);
    lemma_pow_adds(10, 16, 16);
    assert(pow(10, 32) == 100_000_000_000_000_000_000_000_000_000_000int);
    lemma_pow_adds(10, 32, 4);
    lemma_pow_adds(10, 36, 2);
    lemma_pow_adds(10, 38, 1);
}

/// A number that is not zero, followed by 39 zeros or more, is more than 128
/// bits with a sign hold.
pub proof fn lemma_padded_number_is_too_large(digits: Seq<char>, zeros_after: nat)
    requires
        positional_value(digits, 10) >= 1,
        zeros_after >= 39,
    ensures
        positional_value(digits + zeros(zeros_after), 10) > i128::MAX,
{
    let pad = zeros(zeros_after);
    lemma_value_concat(digits, pad, 10);
    lemma_zeros_write_zero(pad, 10);
    lemma_ten_to_39();
    lemma_pow_increases(10, 39, zeros_after);
    let v = positional_value(digits, 10);
    let p = pow(10, zeros_after);
    assert(v * p >= p) by (nonlinear_arith)
        requires
            v >= 1,
            p >= 0,
    ;
}

/// A number below one whose digits start after at least twice as many zeros
/// as digits are asked for is converted to `0.`.
pub proof fn lemma_tiny_number_is_converted_to_zero(
    digits: Seq<char>,
    zeros_before: nat,
    to: int,
    count: nat,
)
    requires
        valid_in_base(digits, 10),
        zeros_before >= 2 * count,
        2 <= to <= 36,
    ensures
        converted_parts(Seq::empty(), zeros(zeros_before) + digits, 10, to, count) == Some(
            seq!['0', '.'],
        ),
{
    let pad = zeros(zeros_before);
    let fraction = pad + digits;
    let num = positional_value(fraction, 10);
    let place = pow(10, fraction.len());
    lemma_value_concat(pad, digits, 10);
    lemma_zeros_write_zero(pad, 10);
    lemma_value_bounds(digits, 10);
    assert(0 * pow(10, digits.len()) == 0) by (nonlinear_arith);
    assert(num == positional_value(digits, 10));
    lemma_pow_adds(10, zeros_before, digits.len());
    assert(fraction.len() == zeros_before + digits.len());
    lemma_reach_of_a_base(to, count);
    lemma_pow_increases(10, 2 * count, zeros_before);
    lemma_pow_positive(10, digits.len());
    let reach = pow(to, count);
    let far = pow(10, zeros_before);
    let near = pow(10, digits.len());
    assert(num * reach < far * near && num < far * near) by (nonlinear_arith)
        requires
            0 <= num < near,
            1 <= reach <= far,
    ;
    lemma_fraction_out_of_reach(num, place, to, count);
    lemma_basic_div(num, place);
    lemma_small_mod(num as nat, place as nat);
    assert forall|i: int| 0 <= i < fraction.len() implies is_digit(#[trigger] fraction[i]) by {
        if i >= zeros_before {
            assert(digit_below(digits[i - zeros_before], 10));
        }
    }
    assert(positional_value(Seq::<char>::empty(), 10) == 0);
    lemma_trailing_zeros_padding(Seq::<char>::empty(), count);
    assert(Seq::<char>::empty() + zeros(count) =~= zeros(count));
    assert(numeral(0, to) =~= Seq::<char>::empty());
    assert(seq!['0'] + seq!['.'] + Seq::<char>::empty() =~= seq!['0', '.']);
}

/// Beyond this size an exponent is only told to be large.
pub const FAR: u128 = 0x10_0000_0000_0000_0000_0000_0000;

/// `count` zeros.
pub fn zeros_of(count: u64) -> (v: Vec<char>)
    ensures
        v@ == zeros(count as nat),
{
    let mut v: Vec<char> = Vec::new();
    let mut i: u64 = 0;
    while i < count
        invariant
            i <= count,
            v@ == zeros(i as nat),
        decreases count - i,
    {
        v.push('0');
        i += 1;
        assert(v@ =~= zeros(i as nat));
    }
    assert(v@ =~= zeros(count as nat));
    v
}

/// The sign and the size of the integer that `text` writes in decimal: whether
/// a minus sign stands before it, and how large it is without the sign, where
/// that is at most `limit`.
pub fn read_signed_digits(text: &Vec<char>, limit: u128) -> (r: Option<(bool, Option<u128>)>)
    ensures
        match signed_digits(text@) {
            None => r is None,
            Some(v) => r matches Some((minus, size)) && match size {
                Some(m) => m <= limit && v == if minus {
                    -(m as int)
                } else {
                    m as int
                },
                None => if minus {
                    v < -(limit as int)
                } else {
                    v > limit
                },
            },
        },
{
    if text.len() == 0 {
        return None;
    }
    let minus = text[0] == '-';
    let signed = minus || text[0] == '+';
    let body = if signed {
        part_of(text, 1, text.len())
    } else {
        part_of(text, 0, text.len())
    };
    proof {
        if signed {
            assert(body@ =~= text@.drop_first());
        } else {
            assert(body@ =~= text@);
        }
    }
    if body.len() == 0 || !digits_below(&body, 10) {
        return None;
    }
    proof {
        assert forall|k: int| 0 <= k < body@.len() implies is_digit(#[trigger] body@[k]) by {
            assert(digit_below(body@[k], 10));
        }
    }
    Some((minus, evaluate(&body, 10, limit)))
}

/// A decimal number as read from text, with the exponent as its sign and its
/// size.
pub struct Decimal {
    /// A minus sign stands before the number.
    pub minus: bool,
    /// The digits before the point.
    pub whole: Vec<char>,
    /// The digits after the point.
    pub fraction: Vec<char>,
    /// The exponent moves the point to the left.
    pub down: bool,
    /// By how many places the exponent moves the point, where that is at
    /// most `FAR`.
    pub size: Option<u128>,
}

impl Decimal {
    /// This is the reading `reading`, as far as it goes.
    pub open spec fn reads(&self, reading: DecimalReading) -> bool {
        &&& self.minus == reading.minus
        &&& self.whole@ == reading.whole
        &&& self.fraction@ == reading.fraction
        &&& match self.size {
            Some(m) => m <= FAR && reading.exponent == if self.down {
                -(m as int)
            } else {
                m as int
            },
            None => if self.down {
                reading.exponent < -(FAR as int)
            } else {
                reading.exponent > FAR
            },
        }
    }
}

/// Reads the text `num` as a decimal number.
pub fn read_decimal(num: &Vec<char>) -> (r: Option<Decimal>)
    ensures
        match decimal_reading(num@) {
            Some(reading) => r matches Some(decimal) && decimal.reads(reading),
            None => r is None,
        },
{
    if num.len() == 0 {
        return None;
    }
    let minus = num[0] == '-';
    let signed = minus || num[0] == '+';
    let body = if signed {
        part_of(num, 1, num.len())
    } else {
        part_of(num, 0, num.len())
    };
    proof {
        if signed {
            assert(body@ =~= num@.drop_first());
        } else {
            assert(body@ =~= num@);
        }
    }
    let small = find_char(&body, 'e');
    let capital = find_char(&body, 'E');
    let mark = if small <= capital {
        small
    } else {
        capital
    };
    let mantissa = part_of(&body, 0, mark);
    let dot = find_char(&mantissa, '.');
    let whole = part_of(&mantissa, 0, dot);
    let fraction = if dot < mantissa.len() {
        part_of(&mantissa, dot + 1, mantissa.len())
    } else {
        Vec::new()
    };
    proof {
        assert(mantissa@ =~= body@.take(mark as int));
        assert(whole@ =~= mantissa@.take(dot as int));
        if dot < mantissa.len() {
            assert(fraction@ =~= mantissa@.skip(dot + 1));
        } else {
            assert(fraction@ =~= Seq::<char>::empty());
        }
    }
    if whole.len() == 0 && fraction.len() == 0 {
        return None;
    }
    if !digits_below(&whole, 10) || !digits_below(&fraction, 10) {
        return None;
    }
    if mark < body.len() {
        let tail = part_of(&body, mark + 1, body.len());
        proof {
            assert(tail@ =~= body@.skip(mark + 1));
        }
        match read_signed_digits(&tail, FAR) {
            Some((down, size)) => Some(Decimal { minus, whole, fraction, down, size }),
            None => None,
        }
    } else {
        Some(Decimal { minus, whole, fraction, down: false, size: Some(0) })
    }
}

/// Sets the point of the digits `digits`, which write a number that is not
/// zero, where the exponent puts it, and converts the number.
fn convert_shifted(
    digits: Vec<char>,
    whole_len: usize,
    down: bool,
    size: Option<u128>,
    Ghost(point): Ghost<int>,
    to: u32,
    count: u32,
) -> (r: Result<Vec<char>, ConversionError>)
    requires
        2 <= to <= 36,
        whole_len <= digits@.len(),
        valid_in_base(digits@, 10),
        positional_value(digits@, 10) >= 1,
        match size {
            Some(m) => m <= FAR && point == whole_len + if down {
                -(m as int)
            } else {
                m as int
            },
            None => if down {
                point < whole_len - FAR
            } else {
                point > whole_len + FAR
            },
        },
    ensures
        outcome_of_chars(r) == converted_parts(
            shifted(digits@, point).0,
            shifted(digits@, point).1,
            10,
            to as int,
            count as nat,
        ),
{
    let fraction_len = digits.len() - whole_len;
    let ghost all = digits@;
    let mut digits = digits;
    let before: Vec<char>;
    let after: Vec<char>;
    if !down {
        let near = match size {
            Some(m) => m <= fraction_len as u128 || m - (fraction_len as u128) < 39,
            None => false,
        };
        if !near {
            proof {
                lemma_padded_number_is_too_large(all, (point - all.len()) as nat);
                lemma_overflow_is_refused(shifted(all, point).0, to as int, count as nat);
            }
            return Err(ConversionError::InvalidData);
        }
        let m = size.unwrap();
        if m <= fraction_len as u128 {
            let at = whole_len + m as usize;
            before = part_of(&digits, 0, at);
            after = part_of(&digits, at, digits.len());
        } else {
            let mut pad = zeros_of((m - fraction_len as u128) as u64);
            digits.append(&mut pad);
            before = digits;
            after = Vec::new();
        }
    } else {
        let near = match size {
            Some(m) => m <= whole_len as u128 || m - (whole_len as u128) < 2 * (count as u128),
            None => false,
        };
        if !near {
            proof {
                lemma_tiny_number_is_converted_to_zero(
                    all,
                    (-point) as nat,
                    to as int,
                    count as nat,
                );
            }
            return Ok(zero_point());
        }
        let m = size.unwrap();
        if m <= whole_len as u128 {
            let at = whole_len - m as usize;
            before = part_of(&digits, 0, at);
            after = part_of(&digits, at, digits.len());
        } else {
            let mut pad = zeros_of((m - whole_len as u128) as u64);
            pad.append(&mut digits);
            before = Vec::new();
            after = pad;
        }
    }
    proof {
        assert(before@ =~= shifted(all, point).0);
        assert(after@ =~= shifted(all, point).1);
    }
    convert_parts(&before, after, 10, to, count)
}

/// Converts the decimal number `num` to base `to` with `count` digits after
/// the point.
pub fn convert_decimal(num: &Vec<char>, to: u32, count: u32) -> (r: Result<
    Vec<char>,
    ConversionError,
>)
    requires
        2 <= to <= 36,
    ensures
        outcome_of_chars(r) == match decimal_parts(num@) {
            Some((whole, fraction)) => converted_parts(
                whole,
                fraction,
                10,
                to as int,
                count as nat,
            ),
            None => None,
        },
{
    let decimal = match read_decimal(num) {
        Some(decimal) => decimal,
        None => {
            return Err(ConversionError::InvalidData);
        },
    };
    let ghost reading = decimal_reading(num@).unwrap();
    let ghost point: int = reading.whole.len() + reading.exponent;
    let whole_len = decimal.whole.len();
    let mut digits = decimal.whole;
    let mut rest = decimal.fraction;
    digits.append(&mut rest);
    proof {
        assert(digits@ =~= reading.whole + reading.fraction);
        assert forall|i: int| 0 <= i < digits@.len() implies digit_below(
            #[trigger] digits@[i],
            10,
        ) by {
            if i < reading.whole.len() {
                assert(digit_below(reading.whole[i], 10));
            } else {
                assert(digit_below(reading.fraction[i - reading.whole.len()], 10));
            }
        }
        lemma_value_bounds(digits@, 10);
    }
    let is_zero = match evaluate(&digits, 10, 0) {
        Some(_) => true,
        None => false,
    };
    if is_zero {
        proof {
            lemma_zero_is_written_in_zeros(digits@, 10);
            lemma_shifted_zeros(digits@, point);
            lemma_zero_is_converted_to_zero(
                shifted(digits@, point).0,
                shifted(digits@, point).1,
                10,
                to as int,
                count as nat,
            );
        }
        return Ok(zero_point());
    }
    if decimal.minus {
        return Err(ConversionError::InvalidData);
    }
    convert_shifted(digits, whole_len, decimal.down, decimal.size, Ghost(point), to, count)
}

/// The text `0.`.
pub fn zero_point() -> (text: Vec<char>)
    ensures
        text@ == seq!['0', '.'],
{
    let mut text: Vec<char> = Vec::new();
    text.push('0');
    text.push('.');
    assert(text@ =~= seq!['0', '.']);
    text
}

/// A number whose whole part is more than 128 bits with a sign hold has no
/// conversion.
pub proof fn lemma_overflow_is_refused(whole: Seq<char>, to: int, count: nat)
    requires
        positional_value(whole, 10) > i128::MAX,
    ensures
        converted_parts(whole, Seq::empty(), 10, to, count) is None,
{
    reveal(pow);
    assert(positional_value(Seq::<char>::empty(), 10) == 0);
    assert(pow(10, 0) == 1);
}

} // verus!
