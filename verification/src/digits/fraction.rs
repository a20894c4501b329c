//! The part of a number after the point, held as exact digits: no rounding
//! takes place, so every digit given is a digit of the true expansion.

use crate::digits::notation::{
    char_of, digit_below, digit_char, digit_of, digit_weight, lemma_digit_char_value,
    lemma_digit_value_char, lemma_value_bounds, lemma_value_leading_digit, positional_value,
    valid_in_base, without_trailing_zeros,
};
use vstd::arithmetic::div_mod::{
    lemma_basic_div, lemma_fundamental_div_mod, lemma_fundamental_div_mod_converse,
    lemma_mod_bound,
};
use vstd::arithmetic::power::{lemma_pow_positive, pow};
use vstd::prelude::*;

verus! {

/// The first `count` digits, in base `base`, of the fraction `num / den`: each
/// step multiplies what remains by the base, gives the whole part of that as
/// the next digit and keeps the rest.
pub open spec fn fraction_digits(num: int, den: int, base: int, count: nat) -> Seq<char>
    decreases count,
{
    if count == 0 {
        Seq::empty()
    } else {
        seq![digit_char(num * base / den)] + fraction_digits(
            num * base % den,
            den,
            base,
            (count - 1) as nat,
        )
    }
}

/// Multiplies the fraction that `frac` writes after the point in base `base`
/// by `by`. What then stands before the point is returned, what stands after
/// it is left in `frac`, written with digits of the base. A character that is
/// no digit counts as zero.
pub fn scale(frac: &mut Vec<char>, base: u32, by: u32) -> (carry: u32)
    requires
        2 <= base <= 36,
        1 <= by <= 36,
    ensures
        final(frac)@.len() == old(frac)@.len(),
        valid_in_base(final(frac)@, base as int),
        positional_value(old(frac)@, base as int) * by == carry * pow(
            base as int,
            old(frac)@.len(),
        ) + positional_value(final(frac)@, base as int),
        carry == positional_value(old(frac)@, base as int) * by / pow(
            base as int,
            old(frac)@.len(),
        ),
        positional_value(final(frac)@, base as int) == positional_value(old(frac)@, base as int)
            * by % pow(base as int, old(frac)@.len()),
        carry <= 1260,
{
    let ghost orig = frac@;
    let ghost b = base as int;
    let len = frac.len();
    let mut carry: u32 = 0;
    let mut k: usize = len;
    proof {
        assert(orig.skip(k as int) =~= Seq::<char>::empty());
        reveal(pow);
    }
    while k > 0
        invariant
            2 <= base <= 36,
            1 <= by <= 36,
            b == base as int,
            len == orig.len(),
            frac@.len() == len,
            k <= len,
            forall|j: int| 0 <= j < k ==> frac@[j] == orig[j],
            valid_in_base(frac@.skip(k as int), b),
            positional_value(orig.skip(k as int), b) * by == carry * pow(b, (len - k) as nat)
                + positional_value(frac@.skip(k as int), b),
            carry <= 1260,
        decreases k,
    {
        let j = k - 1;
        let c = frac[j];
        let d: u32 = match digit_of(c) {
            Some(v) => v as u32,
            None => 0,
        };
        assert(d * by <= 1260) by (nonlinear_arith)
            requires
                d <= 35,
                by <= 36,
        ;
        let t = d * by + carry;
        let nd = t % base;
        let nc = t / base;
        let ghost before = frac@;
        frac.set(j, char_of(nd as u8));
        proof {
            let place = pow(b, (len - k) as nat);
            let tail_old = positional_value(orig.skip(k as int), b);
            let tail_new = positional_value(before.skip(k as int), b);
            assert(frac@.skip(k as int) =~= before.skip(k as int));
            assert(orig.skip(j as int).drop_first() =~= orig.skip(k as int));
            assert(frac@.skip(j as int).drop_first() =~= frac@.skip(k as int));
            lemma_value_leading_digit(orig.skip(j as int), b);
            lemma_value_leading_digit(frac@.skip(j as int), b);
            lemma_digit_char_value(nd as int);
            lemma_fundamental_div_mod(t as int, b);
            lemma_mod_bound(t as int, b);
            assert(nc <= 1260) by (nonlinear_arith)
                requires
                    t == b * nc + nd,
                    0 <= nd,
                    t <= 2520,
                    b >= 2,
            ;
            reveal(pow);
            assert(pow(b, (len - j) as nat) == b * place);
            assert(digit_weight(orig.skip(j as int)[0]) == d);
            assert(digit_weight(frac@.skip(j as int)[0]) == nd);
            let lhs = positional_value(orig.skip(j as int), b);
            let rhs = positional_value(frac@.skip(j as int), b);
            assert(lhs == d * place + tail_old);
            assert(rhs == nd * place + tail_new);
            assert(lhs * by == nc * (b * place) + rhs) by (nonlinear_arith)
                requires
                    lhs == d * place + tail_old,
                    rhs == nd * place + tail_new,
                    tail_old * by == carry * place + tail_new,
                    d * by + carry == b * nc + nd,
            ;
            assert forall|i: int| 0 <= i < frac@.skip(j as int).len() implies digit_below(
                #[trigger] frac@.skip(j as int)[i],
                b,
            ) by {
                if i > 0 {
                    assert(digit_below(before.skip(k as int)[i - 1], b));
                }
            }
        }
        carry = nc;
        k = j;
    }
    proof {
        assert(orig.skip(0) =~= orig);
        assert(frac@.skip(0) =~= frac@);
        lemma_value_bounds(frac@, b);
        lemma_pow_positive(b, len as nat);
        lemma_fundamental_div_mod_converse(
            positional_value(orig, b) * by,
            pow(b, len as nat),
            carry as int,
            positional_value(frac@, b),
        );
    }
    carry
}

/// The first `count` digits in base `to` of the fraction that `frac` writes
/// after the point in base `from`.
pub fn expand(frac: Vec<char>, from: u32, to: u32, count: u32) -> (digits: Vec<char>)
    requires
        valid_in_base(frac@, from as int),
        2 <= from <= 36,
        2 <= to <= 36,
    ensures
        digits@ == fraction_digits(
            positional_value(frac@, from as int),
            pow(from as int, frac@.len()),
            to as int,
            count as nat,
        ),
{
    let ghost start = positional_value(frac@, from as int);
    let ghost den = pow(from as int, frac@.len());
    let mut rest = frac;
    let mut digits: Vec<char> = Vec::new();
    let mut i: u32 = 0;
    proof {
        assert(digits@ + fraction_digits(start, den, to as int, count as nat) =~= fraction_digits(
            start,
            den,
            to as int,
            count as nat,
        ));
    }
    while i < count
        invariant
            2 <= from <= 36,
            2 <= to <= 36,
            i <= count,
            valid_in_base(rest@, from as int),
            den == pow(from as int, rest@.len()),
            fraction_digits(start, den, to as int, count as nat) == digits@ + fraction_digits(
                positional_value(rest@, from as int),
                den,
                to as int,
                (count - i) as nat,
            ),
        decreases count - i,
    {
        let ghost before = positional_value(rest@, from as int);
        proof {
            lemma_value_bounds(rest@, from as int);
        }
        let carry = scale(&mut rest, from, to);
        proof {
            lemma_value_bounds(rest@, from as int);
            assert(carry < to) by (nonlinear_arith)
                requires
                    before * to == carry * den + positional_value(rest@, from as int),
                    0 <= before < den,
                    0 <= positional_value(rest@, from as int),
                    0 < to,
            ;
            let tail = fraction_digits(
                positional_value(rest@, from as int),
                den,
                to as int,
                (count - i - 1) as nat,
            );
            let c = digit_char(carry as int);
            assert(fraction_digits(before, den, to as int, (count - i) as nat) == seq![c] + tail);
            assert(digits@.push(c) + tail =~= digits@ + (seq![c] + tail));
        }
        digits.push(char_of(carry as u8));
        i += 1;
    }
    proof {
        assert(digits@ + Seq::<char>::empty() =~= digits@);
    }
    digits
}

/// Drops the zeros that `digits` end with.
pub fn trim_trailing_zeros(digits: &mut Vec<char>)
    ensures
        final(digits)@ == without_trailing_zeros(old(digits)@),
{
    while digits.len() > 0 && digits[digits.len() - 1] == '0'
        invariant
            without_trailing_zeros(digits@) == without_trailing_zeros(old(digits)@),
        decreases digits.len(),
    {
        proof {
            assert(digits@.last() == '0');
        }
        let ghost before = digits@;
        digits.pop();
        proof {
            assert(digits@ =~= before.drop_last());
        }
    }
}

/// The digits of a fraction below one are digits of the base, and read as a
/// whole number they are the fraction times the base raised to their count,
/// cut to a whole number: the expansion is cut off, never rounded.
pub proof fn lemma_fraction_digits_value(num: int, den: int, base: int, count: nat)
    requires
        0 <= num < den,
        2 <= base <= 36,
    ensures
        fraction_digits(num, den, base, count).len() == count,
        valid_in_base(fraction_digits(num, den, base, count), base),
        positional_value(fraction_digits(num, den, base, count), base) == num * pow(base, count)
            / den,
    decreases count,
{
    reveal(pow);
    let digits = fraction_digits(num, den, base, count);
    if count == 0 {
        assert(num * 1 == num) by (nonlinear_arith);
        lemma_basic_div(num, den);
    } else {
        let d = num * base / den;
        let r = num * base % den;
        let rest = fraction_digits(r, den, base, (count - 1) as nat);
        let place = pow(base, (count - 1) as nat);
        lemma_fundamental_div_mod(num * base, den);
        lemma_mod_bound(num * base, den);
        assert(0 <= d < base) by (nonlinear_arith)
            requires
                num * base == den * d + r,
                0 <= r < den,
                0 <= num < den,
                base >= 2,
        ;
        lemma_fraction_digits_value(r, den, base, (count - 1) as nat);
        lemma_digit_char_value(d);
        assert(digits.drop_first() =~= rest);
        lemma_value_leading_digit(digits, base);
        assert forall|i: int| 0 <= i < digits.len() implies digit_below(
            #[trigger] digits[i],
            base,
        ) by {
            if i > 0 {
                assert(digit_below(rest[i - 1], base));
            }
        }
        let q2 = r * place / den;
        let r2 = r * place % den;
        lemma_fundamental_div_mod(r * place, den);
        lemma_mod_bound(r * place, den);
        assert(num * (base * place) == (d * place + q2) * den + r2) by (nonlinear_arith)
            requires
                num * base == den * d + r,
                r * place == den * q2 + r2,
        ;
        lemma_fundamental_div_mod_converse(num * (base * place), den, d * place + q2, r2);
    }
}

/// `count` zeros.
pub open spec fn zeros(count: nat) -> Seq<char> {
    Seq::new(count, |i: int| '0')
}

/// A fraction keeps its digits where numerator and denominator are multiplied
/// by the same positive number.
pub proof fn lemma_fraction_scaled(num: int, den: int, k: int, base: int, count: nat)
    requires
        den > 0,
        k > 0,
    ensures
        fraction_digits(num * k, den * k, base, count) == fraction_digits(num, den, base, count),
    decreases count,
{
    if count > 0 {
        let q = num * base / den;
        let r = num * base % den;
        lemma_fundamental_div_mod(num * base, den);
        lemma_mod_bound(num * base, den);
        assert(num * k * base == q * (den * k) + r * k && 0 <= r * k < den * k)
            by (nonlinear_arith)
            requires
                num * base == den * q + r,
                0 <= r < den,
                k > 0,
        ;
        lemma_fundamental_div_mod_converse(num * k * base, den * k, q, r * k);
        lemma_fraction_scaled(r, den, k, base, (count - 1) as nat);
    }
}

/// The fraction zero has zeros for digits.
pub proof fn lemma_zero_fraction(den: int, base: int, count: nat)
    requires
        den > 0,
    ensures
        fraction_digits(0, den, base, count) == zeros(count),
    decreases count,
{
    if count > 0 {
        assert(0 * base == 0) by (nonlinear_arith);
        lemma_fundamental_div_mod_converse(0, den, 0, 0);
        lemma_zero_fraction(den, base, (count - 1) as nat);
        assert(seq!['0'] + zeros((count - 1) as nat) =~= zeros(count));
    } else {
        assert(zeros(0) =~= Seq::<char>::empty());
    }
}

/// Digits of a base, read as a fraction and expanded in that base, come out
/// as they are: cut off where fewer are asked for, followed by zeros where more are.
pub proof fn lemma_fraction_of_digits(f: Seq<char>, base: int, count: nat)
    requires
        2 <= base <= 36,
        valid_in_base(f, base),
    ensures
        fraction_digits(positional_value(f, base), pow(base, f.len()), base, count) == (f + zeros(
            count,
        )).take(count as int),
    decreases count,
{
    reveal(pow);
    if count == 0 {
        assert((f + zeros(count)).take(0) =~= Seq::<char>::empty());
    } else if f.len() == 0 {
        lemma_zero_fraction(1, base, count);
        assert((f + zeros(count)).take(count as int) =~= zeros(count));
    } else {
        let g = f.drop_first();
        let d = digit_weight(f[0]);
        let place = pow(base, g.len());
        let rest = positional_value(g, base);
        assert(digit_below(f[0], base));
        assert(valid_in_base(g, base)) by {
            assert forall|i: int| 0 <= i < g.len() implies digit_below(#[trigger] g[i], base) by {
                assert(g[i] == f[i + 1]);
            }
        }
        lemma_value_leading_digit(f, base);
        lemma_value_bounds(g, base);
        lemma_pow_positive(base, g.len());
        assert(pow(base, f.len()) == base * place);
        let num = positional_value(f, base);
        assert(num * base == d * (base * place) + rest * base && 0 <= rest * base < base * place)
            by (nonlinear_arith)
            requires
                num == d * place + rest,
                0 <= rest < place,
                base >= 2,
        ;
        lemma_fundamental_div_mod_converse(num * base, base * place, d, rest * base);
        lemma_digit_value_char(f[0]);
        assert(place * base == base * place) by (nonlinear_arith);
        lemma_fraction_scaled(rest, place, base, base, (count - 1) as nat);
        lemma_fraction_of_digits(g, base, (count - 1) as nat);
        assert(seq![f[0]] + (g + zeros((count - 1) as nat)).take(count - 1) =~= (f + zeros(
            count,
        )).take(count as int));
    }
}

/// Zeros written after digits are dropped with the zeros that the digits end with.
pub proof fn lemma_trailing_zeros_padding(f: Seq<char>, count: nat)
    ensures
        without_trailing_zeros(f + zeros(count)) == without_trailing_zeros(f),
    decreases count,
{
    if count == 0 {
        assert(f + zeros(count) =~= f);
    } else {
        let padded = f + zeros(count);
        assert(padded.last() == '0');
        assert(padded.drop_last() =~= f + zeros((count - 1) as nat));
        lemma_trailing_zeros_padding(f, (count - 1) as nat);
    }
}

} // verus!
