//! Positional notation: what a string of digits is worth in a base, and which
//! digits write a given number.

use vstd::arithmetic::div_mod::{
    lemma_div_decreases, lemma_div_pos_is_pos, lemma_fundamental_div_mod,
    lemma_fundamental_div_mod_converse, lemma_mod_bound,
};
use vstd::arithmetic::power::pow;
use vstd::prelude::*;

verus! {

/// What the digit `c` is worth: `0` to `9` count 0 to 9, `A` to `Z` count 10 to 35.
/// Any other character is no digit.
pub open spec fn digit_value(c: char) -> Option<int> {
    if '0' <= c <= '9' {
        Some(c as int - '0' as int)
    } else if 'A' <= c <= 'Z' {
        Some(c as int - 'A' as int + 10)
    } else {
        None
    }
}

/// The digit that is worth `v`, for `v` from 0 to 35.
pub open spec fn digit_char(v: int) -> char
    recommends
        0 <= v < 36,
{
    if v < 10 {
        ('0' as int + v) as char
    } else {
        ('A' as int + (v - 10)) as char
    }
}

/// `c` is a digit of the alphabet.
pub open spec fn is_digit(c: char) -> bool {
    digit_value(c) is Some
}

/// What `c` adds to a number: its value, or nothing where it is no digit.
pub open spec fn digit_weight(c: char) -> int {
    match digit_value(c) {
        Some(v) => v,
        None => 0,
    }
}

/// Every character of `s` is a digit of the alphabet.
pub open spec fn all_digits(s: Seq<char>) -> bool {
    forall|i: int| 0 <= i < s.len() ==> is_digit(#[trigger] s[i])
}

/// `c` is a digit that base `base` uses.
pub open spec fn digit_below(c: char, base: int) -> bool {
    digit_value(c) matches Some(v) && v < base
}

/// Every character of `s` is a digit that base `base` uses.
pub open spec fn valid_in_base(s: Seq<char>, base: int) -> bool {
    forall|i: int| 0 <= i < s.len() ==> digit_below(#[trigger] s[i], base)
}

/// The number that the digits `s` write in base `base`, most significant digit first.
pub open spec fn positional_value(s: Seq<char>, base: int) -> int
    decreases s.len(),
{
    if s.len() == 0 {
        0
    } else {
        positional_value(s.drop_last(), base) * base + digit_weight(s.last())
    }
}

/// The digits that write `n` in base `base`, most significant first and without
/// a leading zero. Zero is written with no digit at all.
pub open spec fn numeral(n: int, base: int) -> Seq<char>
    decreases n,
    via numeral_decreases
{
    if n <= 0 || base < 2 {
        Seq::empty()
    } else {
        numeral(n / base, base).push(digit_char(n % base))
    }
}

#[via_fn]
proof fn numeral_decreases(n: int, base: int) {
    if !(n <= 0 || base < 2) {
        lemma_div_decreases(n, base);
        lemma_div_pos_is_pos(n, base);
    }
}

/// `s` without the zeros it starts with.
pub open spec fn without_leading_zeros(s: Seq<char>) -> Seq<char>
    decreases s.len(),
{
    if s.len() > 0 && s[0] == '0' {
        without_leading_zeros(s.drop_first())
    } else {
        s
    }
}

/// `s` without the zeros it ends with.
pub open spec fn without_trailing_zeros(s: Seq<char>) -> Seq<char>
    decreases s.len(),
{
    if s.len() > 0 && s.last() == '0' {
        without_trailing_zeros(s.drop_last())
    } else {
        s
    }
}

/// The value of the digit `c`, if it is one.
pub fn digit_of(c: char) -> (r: Option<u8>)
    ensures
        match r {
            Some(v) => digit_value(c) == Some(v as int),
            None => digit_value(c) is None,
        },
{
    if '0' <= c && c <= '9' {
        Some((c as u32 - '0' as u32) as u8)
    } else if 'A' <= c && c <= 'Z' {
        Some((c as u32 - 'A' as u32 + 10) as u8)
    } else {
        None
    }
}

/// The digit that is worth `v`.
pub fn char_of(v: u8) -> (c: char)
    requires
        v < 36,
    ensures
        c == digit_char(v as int),
{
    if v < 10 {
        ('0' as u8 + v) as char
    } else {
        ('A' as u8 + (v - 10)) as char
    }
}

/// The digit that is worth `v` is worth `v`.
pub proof fn lemma_digit_char_value(v: int)
    requires
        0 <= v < 36,
    ensures
        digit_value(digit_char(v)) == Some(v),
        digit_weight(digit_char(v)) == v,
{
}

/// A digit is the digit that is worth what it is worth.
pub proof fn lemma_digit_value_char(c: char)
    requires
        is_digit(c),
    ensures
        0 <= digit_value(c).unwrap() < 36,
        digit_char(digit_value(c).unwrap()) == c,
{
}

/// A digit written after others shifts them by one place.
pub proof fn lemma_value_push(s: Seq<char>, c: char, base: int)
    ensures
        positional_value(s.push(c), base) == positional_value(s, base) * base + digit_weight(c),
{
    assert(s.push(c).drop_last() =~= s);
}

/// The text `0` is written in a digit of every base and writes zero.
pub proof fn lemma_zero_text(base: int)
    requires
        base >= 1,
    ensures
        all_digits(seq!['0']),
        valid_in_base(seq!['0'], base),
        positional_value(seq!['0'], base) == 0,
{
    let s = seq!['0'];
    assert(s.drop_last() =~= Seq::<char>::empty());
    assert(positional_value(s, base) == positional_value(s.drop_last(), base) * base
        + digit_weight('0'));
    assert(positional_value(Seq::<char>::empty(), base) == 0);
    assert forall|i: int| 0 <= i < s.len() implies digit_below(#[trigger] s[i], base) by {}
    assert forall|i: int| 0 <= i < s.len() implies is_digit(#[trigger] s[i]) by {}
}

/// Digits never write a negative number, and digits of the base write a number
/// below the base raised to their count.
pub proof fn lemma_value_bounds(s: Seq<char>, base: int)
    requires
        base >= 1,
    ensures
        0 <= positional_value(s, base),
        valid_in_base(s, base) ==> positional_value(s, base) < pow(base, s.len()),
    decreases s.len(),
{
    reveal(pow);
    if s.len() > 0 {
        let t = s.drop_last();
        lemma_value_bounds(t, base);
        let v = positional_value(t, base);
        assert(0 <= v * base) by (nonlinear_arith)
            requires
                0 <= v,
                base >= 1,
        ;
        if valid_in_base(s, base) {
            assert(valid_in_base(t, base)) by {
                assert forall|i: int| 0 <= i < t.len() implies digit_below(
                    #[trigger] t[i],
                    base,
                ) by {
                    assert(t[i] == s[i]);
                }
            }
            assert(digit_below(s.last(), base));
            let p = pow(base, t.len());
            assert(pow(base, s.len()) == base * p);
            assert(v * base + digit_weight(s.last()) < base * p) by (nonlinear_arith)
                requires
                    0 <= v < p,
                    0 <= digit_weight(s.last()) < base,
            ;
        }
    }
}

/// A number is never smaller than what its leading digits alone write.
pub proof fn lemma_value_prefix(s: Seq<char>, k: int, base: int)
    requires
        base >= 1,
        0 <= k <= s.len(),
    ensures
        positional_value(s.take(k), base) <= positional_value(s, base),
    decreases s.len() - k,
{
    if k == s.len() {
        assert(s.take(k) =~= s);
    } else {
        lemma_value_prefix(s, k + 1, base);
        let t = s.take(k + 1);
        assert(t.drop_last() =~= s.take(k));
        let v = positional_value(s.take(k), base);
        lemma_value_bounds(s.take(k), base);
        assert(v <= v * base) by (nonlinear_arith)
            requires
                0 <= v,
                base >= 1,
        ;
    }
}

/// Digits written after other digits shift those by one place each.
pub proof fn lemma_value_concat(a: Seq<char>, b: Seq<char>, base: int)
    ensures
        positional_value(a + b, base) == positional_value(a, base) * pow(base, b.len())
            + positional_value(b, base),
    decreases b.len(),
{
    reveal(pow);
    if b.len() == 0 {
        assert(a + b =~= a);
    } else {
        let t = b.drop_last();
        lemma_value_concat(a, t, base);
        assert((a + b).drop_last() =~= a + t);
        assert((a + b).last() == b.last());
        let va = positional_value(a, base);
        let p = pow(base, t.len());
        assert(pow(base, b.len()) == base * p);
        assert((va * p + positional_value(t, base)) * base == va * (base * p) + positional_value(
            t,
            base,
        ) * base) by (nonlinear_arith);
    }
}

/// The number written is the leading digit times its place plus what the
/// remaining digits write.
pub proof fn lemma_value_leading_digit(s: Seq<char>, base: int)
    requires
        s.len() > 0,
    ensures
        positional_value(s, base) == digit_weight(s[0]) * pow(base, (s.len() - 1) as nat)
            + positional_value(s.drop_first(), base),
{
    let head = seq![s[0]];
    assert(head + s.drop_first() =~= s);
    lemma_value_concat(head, s.drop_first(), base);
    assert(head.drop_last() =~= Seq::<char>::empty());
    assert(positional_value(head, base) == positional_value(Seq::<char>::empty(), base) * base
        + digit_weight(s[0]));
}

/// The digits of a number are digits of the base, they write that number, and
/// the first of them is no zero.
pub proof fn lemma_numeral(n: int, base: int)
    requires
        0 <= n,
        2 <= base <= 36,
    ensures
        valid_in_base(numeral(n, base), base),
        positional_value(numeral(n, base), base) == n,
        n > 0 ==> numeral(n, base).len() > 0 && numeral(n, base)[0] != '0',
        n == 0 ==> numeral(n, base).len() == 0,
    decreases n,
{
    if n > 0 {
        lemma_div_decreases(n, base);
        lemma_div_pos_is_pos(n, base);
        lemma_fundamental_div_mod(n, base);
        lemma_mod_bound(n, base);
        let q = n / base;
        let r = n % base;
        lemma_numeral(q, base);
        let t = numeral(q, base);
        let c = digit_char(r);
        lemma_digit_char_value(r);
        lemma_value_push(t, c, base);
        assert(q * base == base * q) by (nonlinear_arith);
        assert forall|i: int| 0 <= i < t.push(c).len() implies digit_below(
            #[trigger] t.push(c)[i],
            base,
        ) by {
            if i < t.len() {
                assert(digit_below(t[i], base));
            }
        }
        if q == 0 {
            assert(r > 0);
            assert(t.push(c)[0] == c);
        } else {
            assert(t.push(c)[0] == t[0]);
        }
    }
}

/// Appending a digit to `s` and then dropping the leading zeros.
pub proof fn lemma_leading_zeros_push(s: Seq<char>, c: char)
    ensures
        without_leading_zeros(s.push(c)) == if without_leading_zeros(s).len() == 0 && c == '0' {
            Seq::<char>::empty()
        } else {
            without_leading_zeros(s).push(c)
        },
    decreases s.len(),
{
    if s.len() == 0 {
        assert(s.push(c).drop_first() =~= Seq::<char>::empty());
        assert(without_leading_zeros(Seq::<char>::empty()) =~= Seq::<char>::empty());
        assert(s =~= Seq::<char>::empty());
        if c == '0' {
            assert(without_leading_zeros(s.push(c)) == without_leading_zeros(
                s.push(c).drop_first(),
            ));
        } else {
            assert(s.push(c)[0] == c);
        }
    } else {
        assert(s.push(c)[0] == s[0]);
        if s[0] == '0' {
            assert(s.push(c).drop_first() =~= s.drop_first().push(c));
            lemma_leading_zeros_push(s.drop_first(), c);
        }
    }
}

/// Writing the number that `s` writes gives `s` back, less its leading zeros.
pub proof fn lemma_numeral_of_value(s: Seq<char>, base: int)
    requires
        2 <= base <= 36,
        valid_in_base(s, base),
    ensures
        numeral(positional_value(s, base), base) == without_leading_zeros(s),
    decreases s.len(),
{
    if s.len() == 0 {
    } else {
        let t = s.drop_last();
        let c = s.last();
        assert(s =~= t.push(c));
        assert(valid_in_base(t, base)) by {
            assert forall|i: int| 0 <= i < t.len() implies digit_below(#[trigger] t[i], base) by {
                assert(t[i] == s[i]);
            }
        }
        assert(digit_below(c, base));
        lemma_numeral_of_value(t, base);
        lemma_leading_zeros_push(t, c);
        lemma_value_bounds(t, base);
        let q = positional_value(t, base);
        let d = digit_weight(c);
        let v = q * base + d;
        assert(0 <= q * base) by (nonlinear_arith)
            requires
                0 <= q,
                base >= 2,
        ;
        lemma_numeral(q, base);
        lemma_digit_value_char(c);
        if v == 0 {
            assert(q == 0) by (nonlinear_arith)
                requires
                    0 <= q,
                    base >= 2,
                    q * base + d == 0,
                    0 <= d,
            ;
            assert(d == 0);
            assert(c == '0');
        } else {
            lemma_fundamental_div_mod_converse(v, base, q, d);
            assert(numeral(v, base) == numeral(q, base).push(digit_char(d)));
            if without_leading_zeros(t).len() == 0 && c == '0' {
                assert(q == 0);
                assert(false);
            }
        }
    }
}

/// What is left of `s` without the zeros it ends with is the start of `s`
/// and ends with no zero.
pub proof fn lemma_without_trailing_zeros(s: Seq<char>)
    ensures
        without_trailing_zeros(s).len() <= s.len(),
        without_trailing_zeros(s) == s.take(without_trailing_zeros(s).len() as int),
        without_trailing_zeros(s).len() > 0 ==> without_trailing_zeros(s).last() != '0',
    decreases s.len(),
{
    if s.len() > 0 && s.last() == '0' {
        let t = s.drop_last();
        lemma_without_trailing_zeros(t);
        let kept = without_trailing_zeros(t).len() as int;
        assert(t.take(kept) =~= s.take(kept));
    } else {
        assert(s.take(s.len() as int) =~= s);
    }
}

} // verus!
