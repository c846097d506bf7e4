//! Decimal numbers with a unit, computed as with double precision.
//!
//! A number such as `1.5` and a unit such as a million are each taken as
//! doubles and multiplied, so there are two roundings: that of the number and
//! that of the product. Both are carried out here in whole numbers.
use vstd::arithmetic::div_mod::lemma_div_multiples_vanish_quotient;
use vstd::arithmetic::div_mod::lemma_fundamental_div_mod_converse;
use vstd::arithmetic::power2::{
    lemma2_to64, lemma_pow2_adds, lemma_pow2_pos, lemma_pow2_strictly_increases, lemma_pow2_unfold,
    pow2,
};
use vstd::prelude::*;

use crate::text;

verus! {

pub const TWO_52: u128 = 4_503_599_627_370_496;

pub const TWO_53: u128 = 9_007_199_254_740_992;

pub const TWO_64: u128 = 18_446_744_073_709_551_616;

pub const TWO_66: u128 = 73_786_976_294_838_206_464;

/// The value of a list of decimal digits.
pub open spec fn digits_value(digits: Seq<u8>) -> nat
    decreases digits.len(),
{
    if digits.len() == 0 {
        0
    } else {
        digits_value(digits.drop_last()) * 10 + digits.last() as nat
    }
}

pub open spec fn all_digits(digits: Seq<u8>) -> bool {
    forall|i: int| 0 <= i < digits.len() ==> #[trigger] digits[i] <= 9
}

/// The power of ten that goes with some digits behind the point.
pub open spec fn ten_to(count: nat) -> nat
    decreases count,
{
    if count == 0 {
        1
    } else {
        10 * ten_to((count - 1) as nat)
    }
}

/// The nearest whole number to a fraction; halfway it is the even one.
pub open spec fn round_even(num: nat, den: nat) -> nat {
    let quotient = num / den;
    let rest = num % den;
    if 2 * rest < den {
        quotient
    } else if 2 * rest > den {
        quotient + 1
    } else if quotient % 2 == 0 {
        quotient
    } else {
        quotient + 1
    }
}

/// A fraction times a power of two.
pub open spec fn shifted(num: nat, den: nat, scale: int) -> (nat, nat) {
    if scale >= 0 {
        (num * pow2(scale as nat), den)
    } else {
        (num, den * pow2((-scale) as nat))
    }
}

/// Whether a fraction, scaled by a power of two, has 53 binary digits before
/// the point: the precision of a double.
pub open spec fn is_scale(num: nat, den: nat, scale: int) -> bool {
    let (n, d) = shifted(num, den, scale);
    TWO_52 * d <= n && n < TWO_53 * d
}

pub open spec fn scale_of(num: nat, den: nat) -> int {
    choose|scale: int| is_scale(num, den, scale)
}

/// The double nearest to a positive fraction, as a fraction. (Doubles have a
/// smallest exponent; what lies below it rounds to zero in the end.)
pub open spec fn nearest(num: nat, den: nat) -> (nat, nat) {
    let scale = scale_of(num, den);
    let (n, d) = shifted(num, den, scale);
    let mantissa = round_even(n, d);
    if scale >= 0 {
        (mantissa, pow2(scale as nat))
    } else {
        (mantissa * pow2((-scale) as nat), 1)
    }
}

/// The nearest whole number to a fraction, halves rounded up; none where the
/// fraction is larger than two to the 64th.
pub open spec fn whole(num: nat, den: nat) -> Option<u64> {
    if num > TWO_64 * den {
        None
    } else {
        let rounded = (2 * num + den) / (2 * den);
        if rounded > u64::MAX {
            Some(u64::MAX)
        } else {
            Some(rounded as u64)
        }
    }
}

/// A fraction times a whole number, as with doubles, to the nearest whole
/// number; none where it is too large.
pub open spec fn product(num: nat, den: nat, factor: nat) -> Option<u64> {
    if num == 0 {
        Some(0)
    } else {
        let (n, d) = nearest(num, den);
        let (p, q) = nearest(n * factor, d);
        whole(p, q)
    }
}

proof fn lemma_ten_to(count: nat)
    ensures
        ten_to(count) > 0,
    decreases count,
{
    if count > 0 {
        lemma_ten_to((count - 1) as nat);
    }
}

proof fn lemma_digits_bound(digits: Seq<u8>)
    requires
        all_digits(digits),
    ensures
        digits_value(digits) < ten_to(digits.len()),
    decreases digits.len(),
{
    if digits.len() > 0 {
        let rest = digits.drop_last();
        assert forall|i: int| 0 <= i < rest.len() implies #[trigger] rest[i] <= 9 by {
            assert(digits[i] <= 9);
        }
        lemma_digits_bound(rest);
        assert(digits[digits.len() - 1] <= 9);
    }
}

/// At most one scale gives a fraction 53 binary digits.
proof fn lemma_scale_unique(num: nat, den: nat, low: int, high: int)
    requires
        den > 0,
        is_scale(num, den, low),
        low < high,
    ensures
        !is_scale(num, den, high),
{
    if is_scale(num, den, high) {
        lemma_two_scales(num, den, low, high);
    }
}

/// Of two scales, the larger one gives at least twice as much.
proof fn lemma_two_scales(num: nat, den: nat, low: int, high: int)
    requires
        den > 0,
        low < high,
        is_scale(num, den, low),
    ensures
        ({
            let (n, d) = shifted(num, den, high);
            n >= TWO_53 * d
        }),
{
    let (n1, d1) = shifted(num, den, low);
    let (n2, d2) = shifted(num, den, high);
    let step = (high - low) as nat;
    lemma_pow2_pos(step);
    lemma_pow2_unfold(step);
    lemma_pow2_pos((step - 1) as nat);
    assert(pow2(step) >= 2);
    // n2 / d2 is at least twice n1 / d1.
    if low >= 0 {
        lemma_pow2_adds(low as nat, step);
        assert(num * pow2(high as nat) == (num * pow2(low as nat)) * pow2(step))
            by (nonlinear_arith)
            requires
                pow2(high as nat) == pow2(low as nat) * pow2(step),
        ;
        assert(n2 >= 2 * n1) by (nonlinear_arith)
            requires
                n2 == n1 * pow2(step),
                pow2(step) >= 2,
                n1 >= 0,
        ;
    } else if high >= 0 {
        let down = (-low) as nat;
        let up = high as nat;
        lemma_pow2_adds(up, down);
        lemma_pow2_pos(up);
        lemma_pow2_pos(down);
        // n1 = num, d1 = den * 2^down; n2 = num * 2^up, d2 = den.
        assert(num * pow2(up) * pow2(down) >= 2 * num) by (nonlinear_arith)
            requires
                pow2(up) * pow2(down) >= 2,
                num >= 0,
        ;
        assert(num * pow2(up) * pow2(down) >= (TWO_53 * den) * pow2(down)) by (nonlinear_arith)
            requires
                num * pow2(up) * pow2(down) >= 2 * num,
                TWO_52 * (den * pow2(down)) <= num,
                TWO_53 == 2 * TWO_52,
        ;
        assert(num * pow2(up) >= TWO_53 * den) by (nonlinear_arith)
            requires
                num * pow2(up) * pow2(down) >= (TWO_53 * den) * pow2(down),
                pow2(down) > 0,
        ;
    } else {
        let down1 = (-low) as nat;
        let down2 = (-high) as nat;
        lemma_pow2_adds(down2, step);
        assert(d1 == d2 * pow2(step)) by (nonlinear_arith)
            requires
                d1 == den * pow2(down1),
                d2 == den * pow2(down2),
                pow2(down1) == pow2(down2) * pow2(step),
        ;
        assert(d1 >= 2 * d2) by (nonlinear_arith)
            requires
                d1 == d2 * pow2(step),
                pow2(step) >= 2,
                d2 >= 0,
        ;
        assert(n2 >= TWO_53 * d2);
    }
}

proof fn lemma_nearest(num: nat, den: nat, scale: int)
    requires
        den > 0,
        is_scale(num, den, scale),
    ensures
        scale_of(num, den) == scale,
{
    let found = scale_of(num, den);
    assert(is_scale(num, den, found));
    if found < scale {
        lemma_scale_unique(num, den, found, scale);
    } else if scale < found {
        lemma_scale_unique(num, den, scale, found);
    }
}

/// Rounding does not depend on how a fraction is written.
proof fn lemma_round_even_scaled(num: nat, den: nat, factor: nat)
    requires
        den > 0,
        factor > 0,
    ensures
        round_even(num * factor, den * factor) == round_even(num, den),
{
    let q = num / den;
    let r = num % den;
    assert(num == q * den + r) by (nonlinear_arith)
        requires
            q == num / den,
            r == num % den,
            den > 0,
    ;
    assert(r < den) by (nonlinear_arith)
        requires
            r == num % den,
            den > 0,
    ;
    assert(num * factor == q * (den * factor) + r * factor) by (nonlinear_arith)
        requires
            num == q * den + r,
    ;
    assert(r * factor < den * factor) by (nonlinear_arith)
        requires
            r < den,
            factor > 0,
    ;
    assert(r * factor >= 0) by (nonlinear_arith);
    lemma_fundamental_div_mod_converse(
        (num * factor) as int,
        (den * factor) as int,
        q as int,
        (r * factor) as int,
    );
    assert(2 * (r * factor) < den * factor <==> 2 * r < den) by (nonlinear_arith)
        requires
            factor > 0,
    ;
    assert(2 * (r * factor) > den * factor <==> 2 * r > den) by (nonlinear_arith)
        requires
            factor > 0,
    ;
}

/// Nor does the nearest whole number.
proof fn lemma_whole_scaled(num: nat, den: nat, factor: nat)
    requires
        den > 0,
        factor > 0,
    ensures
        whole(num * factor, den * factor) == whole(num, den),
{
    assert(num * factor > TWO_64 * (den * factor) <==> num > TWO_64 * den) by (nonlinear_arith)
        requires
            factor > 0,
    ;
    lemma_div_multiples_vanish_quotient(
        factor as int,
        (2 * num + den) as int,
        (2 * den) as int,
    );
    assert(factor * (2 * num + den) == 2 * (num * factor) + den * factor) by (nonlinear_arith);
    assert(factor * (2 * den) == 2 * (den * factor)) by (nonlinear_arith);
}

/// What rounding gives for a known quotient and rest.
proof fn lemma_round_even(num: nat, den: nat, quotient: nat, rest: nat)
    requires
        num == quotient * den + rest,
        rest < den,
    ensures
        round_even(num, den) == (if 2 * rest < den {
            quotient
        } else if 2 * rest > den {
            quotient + 1
        } else if quotient % 2 == 0 {
            quotient
        } else {
            quotient + 1
        }),
{
    lemma_fundamental_div_mod_converse(
        num as int,
        den as int,
        quotient as int,
        rest as int,
    );
}

/// Every positive fraction below a power of two has a scale.
proof fn lemma_scale_from(num: nat, den: nat, start: nat) -> (scale: nat)
    requires
        num > 0,
        den > 0,
        num * pow2(start) < TWO_53 * den,
    ensures
        scale >= start,
        is_scale(num, den, scale as int),
    decreases TWO_53 * den - num * pow2(start),
{
    if TWO_52 * den <= num * pow2(start) {
        start
    } else {
        lemma_pow2_unfold(start + 1);
        lemma_pow2_pos(start);
        assert(num * pow2(start + 1) == 2 * (num * pow2(start))) by (nonlinear_arith)
            requires
                pow2(start + 1) == 2 * pow2(start),
        ;
        assert(num * pow2(start) > 0) by (nonlinear_arith)
            requires
                num > 0,
                pow2(start) > 0,
        ;
        lemma_scale_from(num, den, start + 1)
    }
}

/// Rounding the product: a number of at most 53 binary digits is a double.
proof fn lemma_small_product(number: nat, scale: nat)
    requires
        0 < number < TWO_53,
    ensures
        ({
            let (n, d) = nearest(number, pow2(scale));
            whole(n, d)
        }) == whole(number, pow2(scale)),
{
    lemma2_to64();
    assert(number * pow2(0) == number);
    let j = lemma_scale_from(number, 1, 0);
    let f = pow2(j);
    let den = pow2(scale);
    lemma_pow2_pos(j);
    lemma_pow2_pos(scale);
    lemma_pow2_adds(scale, j);
    let total = (scale + j) as int;
    assert(number * pow2(scale + j) == (number * f) * den) by (nonlinear_arith)
        requires
            pow2(scale + j) == den * f,
    ;
    assert(TWO_52 * den <= (number * f) * den && (number * f) * den < TWO_53 * den)
        by (nonlinear_arith)
        requires
            TWO_52 <= number * f,
            number * f < TWO_53,
            den > 0,
    ;
    lemma_nearest(number, den, total);
    lemma_round_even_scaled(number * f, 1, den);
    lemma_round_even(number * f, 1, number * f, 0);
    assert(1 * den == den);
    lemma_whole_scaled(number, den, f);
}

/// Rounding the product: a longer number loses its last digits.
proof fn lemma_large_product(number: nat, scale: nat, drop: nat)
    requires
        drop > 0,
        TWO_52 * pow2(drop) <= number,
        number < TWO_53 * pow2(drop),
    ensures
        ({
            let (n, d) = nearest(number, pow2(scale));
            whole(n, d)
        }) == whole(round_even(number, pow2(drop)) * pow2(drop), pow2(scale)),
{
    lemma_pow2_pos(scale);
    lemma_pow2_pos(drop);
    let r = round_even(number, pow2(drop));
    if scale >= drop {
        let rest = (scale - drop) as nat;
        let f = pow2(rest);
        lemma_pow2_pos(rest);
        lemma_pow2_adds(drop, rest);
        assert(pow2(scale) == pow2(drop) * f);
        assert(TWO_52 * pow2(scale) <= number * f && number * f < TWO_53 * pow2(scale))
            by (nonlinear_arith)
            requires
                TWO_52 * pow2(drop) <= number,
                number < TWO_53 * pow2(drop),
                pow2(scale) == pow2(drop) * f,
                f > 0,
        ;
        lemma_nearest(number, pow2(scale), rest as int);
        lemma_round_even_scaled(number, pow2(drop), f);
        lemma_whole_scaled(r, f, pow2(drop));
        assert(f * pow2(drop) == pow2(scale)) by (nonlinear_arith)
            requires
                pow2(scale) == pow2(drop) * f,
        ;
    } else {
        let rest = (drop - scale) as nat;
        let f = pow2(rest);
        lemma_pow2_pos(rest);
        lemma_pow2_adds(scale, rest);
        assert(pow2(drop) == pow2(scale) * f);
        lemma_nearest(number, pow2(scale), scale - drop);
        lemma_whole_scaled(r * f, 1, pow2(scale));
        assert((r * f) * pow2(scale) == r * pow2(drop)) by (nonlinear_arith)
            requires
                pow2(drop) == pow2(scale) * f,
        ;
        assert(1 * pow2(scale) == pow2(scale));
    }
}

/// A fraction that is too small to count.
proof fn lemma_whole_zero(num: nat, den: nat)
    requires
        2 * num < den,
    ensures
        whole(num, den) == Some(0u64),
{
    lemma_fundamental_div_mod_converse(
        (2 * num + den) as int,
        (2 * den) as int,
        0,
        (2 * num + den) as int,
    );
}

/// The number of binary digits beyond 53.
proof fn lemma_extra_digits(number: nat) -> (drop: nat)
    requires
        number >= TWO_53,
    ensures
        drop > 0,
        TWO_52 * pow2(drop) <= number < TWO_53 * pow2(drop),
    decreases number,
{
    lemma2_to64();
    let half = number / 2;
    if half < TWO_53 {
        assert(pow2(1) == 2);
        1
    } else {
        let less = lemma_extra_digits(half);
        lemma_pow2_unfold(less + 1);
        assert(TWO_52 * pow2(less + 1) == 2 * (TWO_52 * pow2(less))) by (nonlinear_arith)
            requires
                pow2(less + 1) == 2 * pow2(less),
        ;
        assert(TWO_53 * pow2(less + 1) == 2 * (TWO_53 * pow2(less))) by (nonlinear_arith)
            requires
                pow2(less + 1) == 2 * pow2(less),
        ;
        less + 1
    }
}

/// Rounding at most doubles a number that has the digits which are dropped.
proof fn lemma_round_bound(number: nat, unit: nat)
    requires
        unit > 0,
        number >= unit,
    ensures
        round_even(number, unit) * unit <= 2 * number,
{
    let q = number / unit;
    assert(q * unit <= number && q >= 1) by (nonlinear_arith)
        requires
            q == number / unit,
            unit > 0,
            number >= unit,
    ;
    let r = round_even(number, unit);
    assert(r <= q + 1);
    assert(r * unit <= 2 * number) by (nonlinear_arith)
        requires
            r <= q + 1,
            q * unit <= number,
            unit <= number,
    ;
}

/// A product with a tiny fraction rounds to zero.
proof fn lemma_tiny_product(number: nat, scale: nat)
    requires
        number > 0,
        4 * number < pow2(scale),
    ensures
        ({
            let (n, d) = nearest(number, pow2(scale));
            whole(n, d)
        }) == Some(0u64),
{
    if number < TWO_53 {
        lemma_small_product(number, scale);
        lemma_whole_zero(number, pow2(scale));
    } else {
        let drop = lemma_extra_digits(number);
        lemma_large_product(number, scale, drop);
        lemma_pow2_pos(drop);
        assert(number >= pow2(drop)) by (nonlinear_arith)
            requires
                TWO_52 * pow2(drop) <= number,
                TWO_52 >= 1,
                pow2(drop) > 0,
        ;
        lemma_round_bound(number, pow2(drop));
        lemma_whole_zero(round_even(number, pow2(drop)) * pow2(drop), pow2(scale));
    }
}

/// The double nearest to a fraction below two to the 53rd.
proof fn lemma_fraction_part(num: nat, den: nat, quotient: nat, rest: nat, scale: nat)
    requires
        den > 0,
        num * pow2(scale) == quotient * den + rest,
        rest < den,
        TWO_52 <= quotient < TWO_53,
    ensures
        nearest(num, den) == (round_even(num * pow2(scale), den), pow2(scale)),
{
    assert(TWO_52 * den <= num * pow2(scale) && num * pow2(scale) < TWO_53 * den)
        by (nonlinear_arith)
        requires
            num * pow2(scale) == quotient * den + rest,
            rest < den,
            TWO_52 <= quotient,
            quotient + 1 <= TWO_53,
            den > 0,
    ;
    lemma_nearest(num, den, scale as int);
}

/// The double nearest to a number of at least two to the 53rd.
proof fn lemma_whole_part(
    num: nat,
    den: nat,
    big: nat,
    fraction: nat,
    drop: nat,
    quotient: nat,
    low: nat,
)
    requires
        den > 0,
        num == big * den + fraction,
        fraction < den,
        drop > 0,
        big == quotient * pow2(drop) + low,
        low < pow2(drop),
        TWO_52 <= quotient < TWO_53,
    ensures
        nearest(num, den) == (round_even(num, den * pow2(drop)) * pow2(drop), 1nat),
        num == quotient * (den * pow2(drop)) + (low * den + fraction),
        low * den + fraction < den * pow2(drop),
{
    let unit = pow2(drop);
    lemma_pow2_pos(drop);
    assert(num == quotient * (den * unit) + (low * den + fraction)) by (nonlinear_arith)
        requires
            num == big * den + fraction,
            big == quotient * unit + low,
    ;
    assert(low * den + fraction < den * unit) by (nonlinear_arith)
        requires
            low + 1 <= unit,
            fraction < den,
            den > 0,
    ;
    assert(den * unit > 0) by (nonlinear_arith)
        requires
            den > 0,
            unit > 0,
    ;
    assert(TWO_52 * (den * unit) <= num && num < TWO_53 * (den * unit)) by (nonlinear_arith)
        requires
            num == quotient * (den * unit) + (low * den + fraction),
            low * den + fraction < den * unit,
            low * den + fraction >= 0,
            TWO_52 <= quotient,
            quotient + 1 <= TWO_53,
            den * unit > 0,
    ;
    lemma_nearest(num, den, -(drop as int));
}

/// A number of at least two to the 66th is too large, whatever the unit.
proof fn lemma_huge(num: nat, den: nat, factor: nat)
    requires
        den > 0,
        factor > 0,
        num >= TWO_66 * den,
    ensures
        product(num, den, factor) is None,
{
    lemma2_to64();
    assert(num > 0) by (nonlinear_arith)
        requires
            num >= TWO_66 * den,
            den > 0,
    ;
    let big = num / den;
    let fraction = num % den;
    assert(num == big * den + fraction && fraction < den && big >= TWO_66) by (nonlinear_arith)
        requires
            big == num / den,
            fraction == num % den,
            den > 0,
            num >= TWO_66 * den,
    ;
    let drop = lemma_extra_digits(big);
    let unit = pow2(drop);
    lemma_pow2_pos(drop);
    let quotient = big / unit;
    let low = big % unit;
    assert(big == quotient * unit + low && low < unit && TWO_52 <= quotient && quotient < TWO_53)
        by (nonlinear_arith)
        requires
            quotient == big / unit,
            low == big % unit,
            unit > 0,
            TWO_52 * unit <= big,
            big < TWO_53 * unit,
    ;
    lemma_whole_part(num, den, big, fraction, drop, quotient, low);
    let r = round_even(num, den * unit);
    assert(den * unit > 0) by (nonlinear_arith)
        requires
            den > 0,
            unit > 0,
    ;
    lemma_round_even(num, den * unit, quotient, low * den + fraction);
    assert(r >= quotient);
    // The double is at least two to the 66th, and so is its multiple.
    assert(unit >= 8192) by {
        if unit < 8192 {
            assert(TWO_53 * unit <= TWO_66) by (nonlinear_arith)
                requires
                    unit <= 8192,
                    TWO_53 * 8192 == TWO_66,
            ;
        }
    }
    lemma_pow2_thirteen(drop);
    let n = r * unit;
    assert(n >= TWO_66) by (nonlinear_arith)
        requires
            n == r * unit,
            r >= TWO_52,
            unit >= 16384,
            TWO_52 * 16384 == TWO_66,
    ;
    let y = n * factor;
    assert(y >= TWO_66) by (nonlinear_arith)
        requires
            y == n * factor,
            n >= TWO_66,
            factor >= 1,
    ;
    let more = lemma_extra_digits(y);
    lemma_large_product(y, 0, more);
    lemma_pow2_pos(more);
    let q2 = y / pow2(more);
    assert(q2 >= TWO_52 && q2 * pow2(more) <= y && y < (q2 + 1) * pow2(more)) by (nonlinear_arith)
        requires
            q2 == y / pow2(more),
            pow2(more) > 0,
            TWO_52 * pow2(more) <= y,
    ;
    assert(pow2(more) >= 8192) by {
        if pow2(more) < 8192 {
            assert(TWO_53 * pow2(more) <= TWO_66) by (nonlinear_arith)
                requires
                    pow2(more) <= 8192,
                    TWO_53 * 8192 == TWO_66,
            ;
        }
    }
    assert(round_even(y, pow2(more)) >= q2);
    assert(round_even(y, pow2(more)) * pow2(more) > TWO_64) by (nonlinear_arith)
        requires
            round_even(y, pow2(more)) >= TWO_52,
            pow2(more) >= 8192,
            TWO_52 * 8192 > TWO_64,
    ;
    assert(pow2(0) == 1);
}

/// A power of two that is larger than 8191 and not 8192 is at least 16384.
proof fn lemma_pow2_thirteen(e: nat)
    requires
        pow2(e) >= 8192,
    ensures
        pow2(e) == 8192 || pow2(e) >= 16384,
{
    lemma2_to64();
    if e < 13 {
        lemma_pow2_strictly_increases(e, 13);
    } else if e > 14 {
        lemma_pow2_strictly_increases(14, e);
    }
}

/// The value of a decimal digit; other characters count as zero.
pub open spec fn digit_of(letter: char) -> u8 {
    if '0' <= letter && letter <= '9' {
        (letter as u32 - 48) as u8
    } else {
        0
    }
}

pub open spec fn digits_of(letters: Seq<char>) -> Seq<u8> {
    Seq::new(letters.len(), |i: int| digit_of(letters[i]))
}

pub open spec fn is_digit(letter: char) -> bool {
    '0' <= letter && letter <= '9'
}

pub open spec fn digits_only(letters: Seq<char>) -> bool {
    forall|i: int| 0 <= i < letters.len() ==> is_digit(#[trigger] letters[i])
}

/// Whether `at` is where the first point stands, or the end if there is none.
pub open spec fn is_point(letters: Seq<char>, at: int) -> bool {
    &&& 0 <= at <= letters.len()
    &&& at < letters.len() ==> letters[at] == '.'
    &&& forall|i: int| 0 <= i < at ==> #[trigger] letters[i] != '.'
}

pub open spec fn point_of(letters: Seq<char>) -> int {
    choose|at: int| is_point(letters, at)
}

/// The digits before and behind the point of a written number; none where the
/// text is no number: it holds no digit, a second point or anything else.
pub open spec fn number_of(letters: Seq<char>) -> Option<(Seq<u8>, Seq<u8>)> {
    let at = point_of(letters);
    let before = letters.take(at);
    let behind = if at < letters.len() {
        letters.skip(at + 1)
    } else {
        Seq::empty()
    };
    if digits_only(before) && digits_only(behind) && before.len() + behind.len() > 0 {
        Some((digits_of(before), digits_of(behind)))
    } else {
        None
    }
}

/// The smallest number that is no longer a finite double after rounding:
/// two to the 1024th less two to the 970th.
pub open spec fn infinite_from() -> nat {
    digits_value(digits_of("1797693134862315807937289714053034150799341327100378269361737789804449682927\
6475094664901797758720709633028641669288791094655554785194040263065748867150\
5820681908902000708383676273854845817711531764475730270069855571366959622842\
9148198608349364752927190741684443655107043427115596995080930428801779041744\
97792"@))
}

/// A decimal number, as it was written.
pub struct Decimal {
    whole: Vec<u8>,
    fraction: Vec<u8>,
}

impl Decimal {
    pub closed spec fn wf(self) -> bool {
        all_digits(self.whole@) && all_digits(self.fraction@)
    }

    /// The digits before the point.
    pub closed spec fn before(self) -> Seq<u8> {
        self.whole@
    }

    /// The digits behind the point.
    pub closed spec fn behind(self) -> Seq<u8> {
        self.fraction@
    }

    /// The number as a fraction.
    pub open spec fn num(self) -> nat {
        digits_value(self.before()) * ten_to(self.behind().len()) + digits_value(self.behind())
    }

    pub open spec fn den(self) -> nat {
        ten_to(self.behind().len())
    }
}

/// The digits of a part of a text that holds digits only, or none.
fn read_digits(letters: &Vec<char>, from: usize, to: usize) -> (digits: Option<Vec<u8>>)
    requires
        from <= to <= letters@.len(),
    ensures
        ({
            let part = letters@.subrange(from as int, to as int);
            match digits {
                Some(found) => digits_only(part) && found@ == digits_of(part) && all_digits(found@),
                None => !digits_only(part),
            }
        }),
{
    let ghost part = letters@.subrange(from as int, to as int);
    let mut found: Vec<u8> = Vec::new();
    let mut i: usize = from;
    while i < to
        invariant
            from <= i <= to <= letters@.len(),
            part == letters@.subrange(from as int, to as int),
            found@.len() == i - from,
            forall|j: int| 0 <= j < found@.len() ==> is_digit(#[trigger] part[j]),
            forall|j: int| 0 <= j < found@.len() ==> #[trigger] found@[j] == digit_of(part[j]),
        decreases to - i,
    {
        let letter = letters[i];
        assert(part[i - from] == letter);
        if '0' <= letter && letter <= '9' {
            let value: u32 = letter as u32;
            found.push((value - 48) as u8);
        } else {
            return None;
        }
        i = i + 1;
    }
    assert(found@ =~= digits_of(part));
    assert forall|j: int| 0 <= j < found@.len() implies #[trigger] found@[j] <= 9 by {
        assert(is_digit(part[j]));
    }
    Some(found)
}

proof fn lemma_point_unique(letters: Seq<char>, at: int)
    requires
        is_point(letters, at),
    ensures
        point_of(letters) == at,
{
    let found = point_of(letters);
    assert(is_point(letters, found));
    if found < at {
        assert(letters[found] != '.');
    } else if at < found {
        assert(letters[at] != '.');
    }
}

/// The value of digits that are put together.
proof fn lemma_digits_joined(first: Seq<u8>, second: Seq<u8>)
    ensures
        digits_value(first + second) == digits_value(first) * ten_to(second.len()) + digits_value(
            second,
        ),
    decreases second.len(),
{
    if second.len() == 0 {
        assert(first + second =~= first);
        assert(digits_value(first) * 1 == digits_value(first));
    } else {
        let rest = second.drop_last();
        lemma_digits_joined(first, rest);
        assert((first + second).drop_last() =~= first + rest);
        assert((first + second).last() == second.last());
        assert((digits_value(first) * ten_to(rest.len())) * 10 == digits_value(first) * ten_to(
            second.len(),
        )) by (nonlinear_arith)
            requires
                ten_to(second.len()) == 10 * ten_to(rest.len()),
        ;
    }
}

/// Digits put together are worth at least what the first ones are.
proof fn lemma_digits_grow(digits: Seq<u8>, count: int)
    requires
        0 <= count <= digits.len(),
    ensures
        digits_value(digits) >= digits_value(digits.take(count)),
{
    let first = digits.take(count);
    let rest = digits.skip(count);
    assert(first + rest =~= digits);
    lemma_digits_joined(first, rest);
    lemma_ten_to(rest.len());
    assert(digits_value(first) * ten_to(rest.len()) >= digits_value(first)) by (nonlinear_arith)
        requires
            ten_to(rest.len()) >= 1,
    ;
}

/// Doubles a number behind the point; what comes out before the point is the
/// result.
fn double(digits: &mut Vec<u8>) -> (carry: u8)
    requires
        all_digits(old(digits)@),
    ensures
        all_digits(final(digits)@),
        final(digits)@.len() == old(digits)@.len(),
        carry <= 1,
        2 * digits_value(old(digits)@) == carry * ten_to(old(digits)@.len()) + digits_value(
            final(digits)@,
        ),
{
    let ghost before = digits@;
    let mut carry: u8 = 0;
    let mut i: usize = digits.len();
    assert(before.skip(i as int) =~= Seq::<u8>::empty());
    while i > 0
        invariant
            i <= before.len(),
            digits@.len() == before.len(),
            all_digits(before),
            all_digits(digits@),
            carry <= 1,
            forall|j: int| 0 <= j < i ==> #[trigger] digits@[j] == before[j],
            2 * digits_value(before.skip(i as int)) == carry * ten_to((before.len() - i) as nat)
                + digits_value(digits@.skip(i as int)),
        decreases i,
    {
        let ghost suffix = digits@.skip(i as int);
        let ghost old_suffix = before.skip(i as int);
        let ghost old_carry = carry;
        i = i - 1;
        let digit: u8 = digits[i];
        assert(before[i as int] <= 9);
        let twice: u8 = 2 * digit + carry;
        let kept: u8 = twice % 10;
        digits.set(i, kept);
        carry = twice / 10;
        proof {
            let unit = ten_to(suffix.len());
            assert(digits@.skip(i as int) =~= seq![kept] + suffix);
            assert(before.skip(i as int) =~= seq![digit] + old_suffix);
            lemma_digits_joined(seq![kept], suffix);
            lemma_digits_joined(seq![digit], old_suffix);
            reveal_with_fuel(digits_value, 2);
            assert(seq![kept].drop_last() =~= Seq::<u8>::empty());
            assert(seq![digit].drop_last() =~= Seq::<u8>::empty());
            assert(digits_value(seq![kept]) == kept);
            assert(digits_value(seq![digit]) == digit);
            assert(ten_to((before.len() - i) as nat) == 10 * unit);
            assert(2 * (digit * unit) + old_carry * unit == carry * (10 * unit) + kept * unit)
                by (nonlinear_arith)
                requires
                    2 * digit + old_carry == 10 * carry + kept,
            ;
        }
    }
    assert(before.skip(0) =~= before);
    assert(digits@.skip(0) =~= digits@);
    carry
}

/// Whether all digits are zero.
fn all_zero(digits: &Vec<u8>) -> (zero: bool)
    requires
        all_digits(digits@),
    ensures
        zero == (digits_value(digits@) == 0),
{
    let mut i: usize = 0;
    while i < digits.len()
        invariant
            i <= digits@.len(),
            digits_value(digits@.take(i as int)) == 0,
        decreases digits@.len() - i,
    {
        assert(digits@.take(i + 1).drop_last() =~= digits@.take(i as int));
        if digits[i] != 0 {
            proof {
                lemma_digits_grow(digits@, i + 1);
            }
            return false;
        }
        i = i + 1;
    }
    assert(digits@.take(i as int) =~= digits@);
    true
}

proof fn lemma_pow2_128()
    ensures
        pow2(107) == TWO_53 * TWO_53 * 2,
        pow2(110) == TWO_53 * TWO_53 * 16,
{
    lemma2_to64();
    lemma_pow2_adds(32, 21);
    lemma_pow2_adds(53, 53);
    lemma_pow2_adds(106, 1);
    lemma_pow2_adds(106, 4);
}

/// Two to the power of a small number.
fn power_of_two(exponent: u32) -> (power: u128)
    requires
        exponent <= 110,
    ensures
        power == pow2(exponent as nat),
{
    let mut power: u128 = 1;
    let mut i: u32 = 0;
    proof {
        lemma2_to64();
        lemma_pow2_128();
    }
    while i < exponent
        invariant
            i <= exponent <= 110,
            power == pow2(i as nat),
            pow2(110) == TWO_53 * TWO_53 * 16,
        decreases exponent - i,
    {
        proof {
            lemma_pow2_unfold((i + 1) as nat);
            if i + 1 < 110 {
                lemma_pow2_strictly_increases((i + 1) as nat, 110);
            }
        }
        power = 2 * power;
        i = i + 1;
    }
    power
}

/// The number of binary digits of a number beyond 53, as a power of two.
fn extra_digits(number: u128) -> (found: (u128, Ghost<nat>))
    requires
        TWO_53 <= number < TWO_53 * TWO_53 * 2,
    ensures
        found.0 == pow2(found.1@),
        found.1@ > 0,
        TWO_52 * found.0 <= number < TWO_53 * found.0,
        found.0 <= TWO_53 * 4,
{
    let mut unit: u128 = 2;
    let ghost mut drop: nat = 1;
    proof {
        lemma2_to64();
    }
    while number / unit >= TWO_53
        invariant
            TWO_53 <= number < TWO_53 * TWO_53 * 2,
            unit == pow2(drop),
            drop > 0,
            unit > 0,
            TWO_52 * unit <= number,
            unit <= TWO_53 * 4,
        decreases TWO_53 * 8 - unit,
    {
        let ghost quotient = number / unit;
        proof {
            lemma_pow2_unfold(drop + 1);
            assert(TWO_53 * unit <= number) by (nonlinear_arith)
                requires
                    number / unit >= TWO_53,
                    unit > 0,
            ;
            drop = drop + 1;
        }
        assert(unit < TWO_53 * 2) by (nonlinear_arith)
            requires
                TWO_53 * unit <= number,
                number < TWO_53 * (TWO_53 * 2),
                TWO_53 > 0,
        ;
        unit = 2 * unit;
    }
    assert(number < TWO_53 * unit) by (nonlinear_arith)
        requires
            number / unit < TWO_53,
            unit > 0,
    ;
    (unit, Ghost(drop))
}

/// The nearest whole number to a double, halves rounded up.
fn settle(number: u128, scale: u32) -> (result: Option<u64>)
    requires
        number <= TWO_53 * TWO_53 * 4,
    ensures
        result == whole(number as nat, pow2(scale as nat)),
{
    proof {
        lemma_pow2_128();
        lemma2_to64();
    }
    if scale > 110 {
        proof {
            lemma_pow2_strictly_increases(110, scale as nat);
            lemma_whole_zero(number as nat, pow2(scale as nat));
        }
        return Some(0);
    }
    if scale == 0 {
        assert((2 * number + 1) / 2 == number) by (nonlinear_arith);
        if number > TWO_64 {
            return None;
        }
        if number > u64::MAX as u128 {
            return Some(u64::MAX);
        }
        return Some(number as u64);
    }
    let unit: u128 = power_of_two(scale);
    proof {
        lemma_pow2_unfold(scale as nat);
        lemma_pow2_pos((scale - 1) as nat);
        if scale < 110 {
            lemma_pow2_strictly_increases(scale as nat, 110);
        }
    }
    let quotient: u128 = number / unit;
    let rest: u128 = number % unit;
    assert(number == quotient * unit + rest && rest < unit) by (nonlinear_arith)
        requires
            quotient == number / unit,
            rest == number % unit,
            unit > 0,
    ;
    if quotient > TWO_64 || (quotient == TWO_64 && rest > 0) {
        assert(number > TWO_64 * unit) by (nonlinear_arith)
            requires
                number == quotient * unit + rest,
                quotient > TWO_64 || (quotient == TWO_64 && rest > 0),
                unit > 0,
                rest >= 0,
        ;
        return None;
    }
    assert(number <= TWO_64 * unit) by (nonlinear_arith)
        requires
            number == quotient * unit + rest,
            rest < unit,
            quotient < TWO_64 || (quotient == TWO_64 && rest == 0),
            unit > 0,
    ;
    let half: u128 = unit / 2;
    let rounded: u128 = if rest >= half {
        quotient + 1
    } else {
        quotient
    };
    proof {
        let top = 2 * number + unit;
        assert(2 * half == unit);
        if rest >= half {
            assert(top == rounded * (2 * unit) + (2 * rest - unit)) by (nonlinear_arith)
                requires
                    top == 2 * number + unit,
                    number == quotient * unit + rest,
                    rounded == quotient + 1,
            ;
            lemma_fundamental_div_mod_converse(
                top as int,
                (2 * unit) as int,
                rounded as int,
                2 * rest - unit,
            );
        } else {
            assert(top == rounded * (2 * unit) + (2 * rest + unit)) by (nonlinear_arith)
                requires
                    top == 2 * number + unit,
                    number == quotient * unit + rest,
                    rounded == quotient,
            ;
            lemma_fundamental_div_mod_converse(
                top as int,
                (2 * unit) as int,
                rounded as int,
                2 * rest + unit,
            );
        }
    }
    if rounded > u64::MAX as u128 {
        Some(u64::MAX)
    } else {
        Some(rounded as u64)
    }
}

/// The product as a double, and the nearest whole number to that.
fn round_product(number: u128, scale: u32) -> (result: Option<u64>)
    requires
        0 < number < TWO_53 * TWO_53 * 2,
    ensures
        ({
            let (n, d) = nearest(number as nat, pow2(scale as nat));
            result == whole(n, d)
        }),
{
    if number < TWO_53 {
        proof {
            lemma_small_product(number as nat, scale as nat);
        }
        return settle(number, scale);
    }
    let (unit, drop) = extra_digits(number);
    proof {
        lemma_pow2_unfold(drop@);
        lemma_large_product(number as nat, scale as nat, drop@);
    }
    let quotient: u128 = number / unit;
    let rest: u128 = number % unit;
    assert(number == quotient * unit + rest && rest < unit) by (nonlinear_arith)
        requires
            quotient == number / unit,
            rest == number % unit,
            unit > 0,
    ;
    assert(quotient * unit + unit <= TWO_53 * TWO_53 * 4) by (nonlinear_arith)
        requires
            number == quotient * unit + rest,
            rest >= 0,
            number < TWO_53 * TWO_53 * 2,
            unit <= TWO_53 * 4,
            TWO_53 > 100,
    ;
    proof {
        lemma_round_even(number as nat, unit as nat, quotient as nat, rest as nat);
    }
    let half: u128 = unit / 2;
    let up: bool = rest > half || (rest == half && quotient % 2 == 1);
    assert((quotient + 1) * unit == quotient * unit + unit) by (nonlinear_arith);
    if up {
        settle((quotient + 1) * unit, scale)
    } else {
        settle(quotient * unit, scale)
    }
}

impl Decimal {
    /// Reads a number that holds digits and points only.
    pub fn read(letters: &Vec<char>) -> (number: Option<Decimal>)
        ensures
            match number {
                Some(found) => found.wf() && number_of(letters@) == Some(
                    (found.before(), found.behind()),
                ),
                None => number_of(letters@) is None,
            },
    {
        let mut at: usize = 0;
        while at < letters.len() && letters[at] != '.'
            invariant
                at <= letters@.len(),
                forall|i: int| 0 <= i < at ==> #[trigger] letters@[i] != '.',
            decreases letters@.len() - at,
        {
            at = at + 1;
        }
        let ghost before = letters@.take(at as int);
        proof {
            lemma_point_unique(letters@, at as int);
            assert(before =~= letters@.subrange(0, at as int));
        }
        let whole = match read_digits(letters, 0, at) {
            Some(digits) => digits,
            None => {
                return None;
            },
        };
        let fraction = if at < letters.len() {
            proof {
                assert(letters@.skip(at + 1) =~= letters@.subrange(at + 1, letters@.len() as int));
            }
            match read_digits(letters, at + 1, letters.len()) {
                Some(digits) => digits,
                None => {
                    return None;
                },
            }
        } else {
            let none: Vec<u8> = Vec::new();
            assert(none@ =~= digits_of(Seq::<char>::empty()));
            none
        };
        if whole.len() == 0 && fraction.len() == 0 {
            return None;
        }
        Some(Decimal { whole, fraction })
    }

    /// Whether the number, taken as a double, is finite.
    pub fn is_finite(&self) -> (finite: bool)
        requires
            self.wf(),
        ensures
            finite == (digits_value(self.before()) < infinite_from()),
    {
        let limit = read_limit();
        let here: usize = self.whole.len();
        let there: usize = limit.len();
        let longest: usize = if here > there {
            here
        } else {
            there
        };
        let ghost a = self.whole@;
        let ghost b = limit@;
        let mut i: usize = 0;
        let mut less: bool = false;
        let mut more: bool = false;
        assert(a.take(0) =~= Seq::<u8>::empty());
        assert(b.take(0) =~= Seq::<u8>::empty());
        while i < longest
            invariant
                i <= longest,
                here == a.len(),
                there == b.len(),
                here <= longest,
                there <= longest,
                a == self.whole@,
                b == limit@,
                all_digits(a),
                all_digits(b),
                less == (digits_value(prefix(a, i - (longest - here))) < digits_value(
                    prefix(b, i - (longest - there)),
                )),
                more == (digits_value(prefix(a, i - (longest - here))) > digits_value(
                    prefix(b, i - (longest - there)),
                )),
            decreases longest - i,
        {
            let x: u8 = if i >= longest - here {
                self.whole[i - (longest - here)]
            } else {
                0
            };
            let y: u8 = if i >= longest - there {
                limit[i - (longest - there)]
            } else {
                0
            };
            proof {
                lemma_prefix_step(a, i - (longest - here));
                lemma_prefix_step(b, i - (longest - there));
                if i >= longest - here {
                    assert(a[i - (longest - here)] <= 9);
                }
                if i >= longest - there {
                    assert(b[i - (longest - there)] <= 9);
                }
            }
            if !less && !more {
                less = x < y;
                more = x > y;
            }
            i = i + 1;
        }
        assert(prefix(a, here as int) =~= a);
        assert(prefix(b, there as int) =~= b);
        less
    }

    /// The number times a unit, computed with doubles, to the nearest whole
    /// number; none where that is more than two to the 64th.
    #[verifier::rlimit(40)]
    pub fn times(&self, factor: u64) -> (result: Option<u64>)
        requires
            self.wf(),
            0 < factor <= 0x100_0000_0000,
        ensures
            result == product(self.num(), self.den(), factor as nat),
    {
        let ghost num = self.num();
        let ghost den = self.den();
        let ghost length = self.fraction@.len();
        proof {
            lemma_ten_to(length);
            lemma_digits_bound(self.fraction@);
        }
        let mut big: u128 = 0;
        let mut i: usize = 0;
        assert(self.whole@.take(0) =~= Seq::<u8>::empty());
        while i < self.whole.len()
            invariant
                i <= self.whole@.len(),
                self.wf(),
                big == digits_value(self.whole@.take(i as int)),
                big < TWO_66,
                num == self.num(),
                den == self.den(),
                den > 0,
                0 < factor <= 0x100_0000_0000,
            decreases self.whole@.len() - i,
        {
            assert(self.whole@.take(i + 1).drop_last() =~= self.whole@.take(i as int));
            assert(self.whole@[i as int] <= 9);
            big = big * 10 + self.whole[i] as u128;
            i = i + 1;
            if big >= TWO_66 {
                proof {
                    lemma_digits_grow(self.whole@, i as int);
                    let w = digits_value(self.whole@);
                    assert(num >= TWO_66 * den) by (nonlinear_arith)
                        requires
                            num == w * den + digits_value(self.fraction@),
                            w >= TWO_66,
                            den > 0,
                    ;
                    lemma_huge(num, den, factor as nat);
                }
                return None;
            }
        }
        assert(self.whole@.take(i as int) =~= self.whole@);
        let mut fraction: Vec<u8> = self.fraction.clone();
        let nothing: bool = all_zero(&fraction);
        let ghost rest = digits_value(self.fraction@);
        assert(num == big * den + rest);
        if big == 0 && nothing {
            assert(num == 0) by (nonlinear_arith)
                requires
                    num == big * den + rest,
                    big == 0,
                    rest == 0,
            ;
            return Some(0);
        }
        assert(num > 0) by (nonlinear_arith)
            requires
                num == big * den + rest,
                big > 0 || rest > 0,
                den > 0,
        ;
        if big >= TWO_53 {
            return self.times_large(big, nothing, factor);
        }
        let mut quotient: u128 = big;
        let mut scale: u32 = 0;
        proof {
            lemma2_to64();
            assert(num * pow2(0) == num);
        }
        while quotient < TWO_52 && scale < 200
            invariant
                all_digits(fraction@),
                fraction@.len() == length,
                den == ten_to(length),
                den > 0,
                num > 0,
                scale <= 200,
                quotient < TWO_53,
                digits_value(fraction@) < den,
                num * pow2(scale as nat) == quotient * den + digits_value(fraction@),
            decreases 200 - scale,
        {
            let ghost before = digits_value(fraction@);
            let ghost old_quotient = quotient;
            let carry: u8 = double(&mut fraction);
            quotient = 2 * quotient + carry as u128;
            proof {
                lemma_digits_bound(fraction@);
                lemma_pow2_unfold((scale + 1) as nat);
                let after = digits_value(fraction@);
                let p = pow2(scale as nat);
                let p2 = pow2((scale + 1) as nat);
                assert(num * p2 == quotient * den + after) by (nonlinear_arith)
                    requires
                        p2 == 2 * p,
                        num * p == old_quotient * den + before,
                        2 * before == carry * den + after,
                        quotient == 2 * old_quotient + carry,
                ;
            }
            scale = scale + 1;
        }
        let ghost remaining = digits_value(fraction@);
        if quotient < TWO_52 {
            proof {
                lemma_too_small(num, den, quotient as nat, remaining, scale as nat, factor as nat);
            }
            return Some(0);
        }
        let carry: u8 = double(&mut fraction);
        let more: bool = !all_zero(&fraction);
        proof {
            lemma_digits_bound(fraction@);
            lemma_fraction_part(num, den, quotient as nat, remaining, scale as nat);
            lemma_round_even(num * pow2(scale as nat), den, quotient as nat, remaining);
            let after = digits_value(fraction@);
            assert(2 * remaining == carry * den + after);
            if carry == 0 {
                assert(carry * den == 0) by (nonlinear_arith)
                    requires
                        carry == 0,
                ;
            } else {
                assert(carry * den == den) by (nonlinear_arith)
                    requires
                        carry == 1,
                ;
            }
        }
        let up: bool = carry == 1 && (more || quotient % 2 == 1);
        let mantissa: u128 = if up {
            quotient + 1
        } else {
            quotient
        };
        assert(mantissa == round_even(num * pow2(scale as nat), den));
        assert(0 < mantissa * factor < TWO_53 * TWO_53 * 2) by (nonlinear_arith)
            requires
                0 < mantissa <= TWO_53,
                0 < factor <= 0x100_0000_0000,
                TWO_53 > 0x100_0000_0000,
        ;
        round_product(mantissa * factor as u128, scale)
    }

    /// As `times`, where the number is at least two to the 53rd.
    fn times_large(&self, big: u128, nothing: bool, factor: u64) -> (result: Option<u64>)
        requires
            self.wf(),
            0 < factor <= 0x100_0000_0000,
            TWO_53 <= big < TWO_66,
            big == digits_value(self.before()),
            nothing == (digits_value(self.behind()) == 0),
        ensures
            result == product(self.num(), self.den(), factor as nat),
    {
        let ghost num = self.num();
        let ghost den = self.den();
        let ghost rest = digits_value(self.fraction@);
        proof {
            lemma_ten_to(self.fraction@.len());
            lemma_digits_bound(self.fraction@);
            assert(num > 0) by (nonlinear_arith)
                requires
                    num == big * den + rest,
                    big > 0,
                    den > 0,
            ;
        }
        let (unit, drop) = extra_digits(big);
        let quotient: u128 = big / unit;
        let low: u128 = big % unit;
        assert(big == quotient * unit + low && low < unit && TWO_52 <= quotient < TWO_53)
            by (nonlinear_arith)
            requires
                quotient == big / unit,
                low == big % unit,
                unit > 0,
                TWO_52 * unit <= big,
                big < TWO_53 * unit,
        ;
        assert(unit < 16384) by (nonlinear_arith)
            requires
                TWO_52 * unit <= big,
                big < TWO_52 * 16384,
        ;
        let half: u128 = unit / 2;
        let up: bool = low > half || (low == half && (!nothing || quotient % 2 == 1));
        let mantissa: u128 = if up {
            quotient + 1
        } else {
            quotient
        };
        proof {
            lemma_pow2_unfold(drop@);
            lemma_whole_part(num, den, big as nat, rest, drop@, quotient as nat, low as nat);
            let left = low * den + rest;
            let full = den * unit;
            lemma_round_even(num, full as nat, quotient as nat, left as nat);
            if low > half {
                assert(2 * left > full) by (nonlinear_arith)
                    requires
                        left == low * den + rest,
                        full == den * unit,
                        2 * low >= unit + 1,
                        den > 0,
                        rest >= 0,
                ;
            } else if low < half {
                assert(2 * left < full) by (nonlinear_arith)
                    requires
                        left == low * den + rest,
                        full == den * unit,
                        2 * low + 2 <= unit,
                        rest < den,
                ;
            } else {
                assert(2 * left == full + 2 * rest) by (nonlinear_arith)
                    requires
                        left == low * den + rest,
                        full == den * unit,
                        2 * low == unit,
                ;
            }
            assert(mantissa == round_even(num, full as nat));
        }
        assert(0 < mantissa * unit * factor < TWO_53 * TWO_53 * 2) by (nonlinear_arith)
            requires
                0 < mantissa <= TWO_53,
                0 < unit < 16384,
                0 < factor <= 0x100_0000_0000,
                16383 * 0x100_0000_0000 < TWO_53 * 2,
        ;
        assert(mantissa * unit <= TWO_53 * 16384) by (nonlinear_arith)
            requires
                0 < mantissa <= TWO_53,
                0 < unit <= 16384,
        ;
        proof {
            lemma2_to64();
        }
        round_product(mantissa * unit * factor as u128, 0)
    }
}

/// The first digits, or none where the count is negative.
pub open spec fn prefix(digits: Seq<u8>, count: int) -> Seq<u8> {
    if count <= 0 {
        Seq::empty()
    } else {
        digits.take(count)
    }
}

proof fn lemma_prefix_step(digits: Seq<u8>, count: int)
    requires
        count < digits.len(),
    ensures
        digits_value(prefix(digits, count + 1)) == digits_value(prefix(digits, count)) * 10 + (
        if count >= 0 {
            digits[count] as nat
        } else {
            0
        }),
{
    if count >= 0 {
        assert(prefix(digits, count + 1).drop_last() =~= prefix(digits, count));
    }
}

/// The digits of the smallest number that is no finite double.
fn read_limit() -> (digits: Vec<u8>)
    ensures
        digits_value(digits@) == infinite_from(),
        all_digits(digits@),
{
    let letters = text::chars_of(
        "1797693134862315807937289714053034150799341327100378269361737789804449682927\
6475094664901797758720709633028641669288791094655554785194040263065748867150\
5820681908902000708383676273854845817711531764475730270069855571366959622842\
9148198608349364752927190741684443655107043427115596995080930428801779041744\
97792",
    );
    let mut digits: Vec<u8> = Vec::new();
    let mut i: usize = 0;
    while i < letters.len()
        invariant
            i <= letters@.len(),
            digits@.len() == i,
            forall|j: int| 0 <= j < i ==> #[trigger] digits@[j] == digit_of(letters@[j]),
        decreases letters@.len() - i,
    {
        let letter = letters[i];
        if '0' <= letter && letter <= '9' {
            let value: u32 = letter as u32;
            digits.push((value - 48) as u8);
        } else {
            digits.push(0);
        }
        i = i + 1;
    }
    assert(digits@ =~= digits_of(letters@));
    digits
}

/// A number so small that its product is nothing.
proof fn lemma_too_small(
    num: nat,
    den: nat,
    quotient: nat,
    rest: nat,
    scale: nat,
    factor: nat,
)
    requires
        num > 0,
        den > 0,
        num * pow2(scale) == quotient * den + rest,
        rest < den,
        quotient < TWO_52,
        scale >= 200,
        0 < factor <= 0x100_0000_0000,
    ensures
        product(num, den, factor) == Some(0u64),
{
    assert(num * pow2(scale) < TWO_52 * den) by (nonlinear_arith)
        requires
            num * pow2(scale) == quotient * den + rest,
            rest < den,
            quotient + 1 <= TWO_52,
            den > 0,
    ;
    let found = lemma_scale_from(num, den, scale);
    lemma_nearest(num, den, found as int);
    let mantissa = round_even(num * pow2(found), den);
    let q = (num * pow2(found)) / den;
    assert(TWO_52 <= q < TWO_53) by (nonlinear_arith)
        requires
            q == (num * pow2(found)) / den,
            TWO_52 * den <= num * pow2(found),
            num * pow2(found) < TWO_53 * den,
            den > 0,
    ;
    assert(0 < mantissa <= TWO_53);
    assert(0 < mantissa * factor <= TWO_53 * 0x100_0000_0000) by (nonlinear_arith)
        requires
            0 < mantissa <= TWO_53,
            0 < factor <= 0x100_0000_0000,
    ;
    lemma_pow2_128();
    lemma_pow2_strictly_increases(110, found);
    lemma_tiny_product(mantissa * factor, found);
}

/// A fraction is rounded alike however it is written.
proof fn lemma_nearest_scaled(num: nat, den: nat, factor: nat, scale: nat)
    requires
        den > 0,
        factor > 0,
        is_scale(num, den, scale as int),
    ensures
        nearest(num * factor, den * factor) == nearest(num, den),
{
    let n = num * pow2(scale);
    assert((num * factor) * pow2(scale) == n * factor) by (nonlinear_arith)
        requires
            n == num * pow2(scale),
    ;
    assert(TWO_52 * (den * factor) <= n * factor && n * factor < TWO_53 * (den * factor))
        by (nonlinear_arith)
        requires
            TWO_52 * den <= n,
            n < TWO_53 * den,
            factor > 0,
    ;
    assert(den * factor > 0) by (nonlinear_arith)
        requires
            den > 0,
            factor > 0,
    ;
    lemma_nearest(num, den, scale as int);
    lemma_nearest(num * factor, den * factor, scale as int);
    lemma_round_even_scaled(n, den, factor);
}

/// A number of at most 53 binary digits in halves, quarters and so on is
/// multiplied exactly as long as the product has no more of them either; the
/// product is given to the nearest whole number, halves upwards.
pub proof fn short_numbers_are_multiplied_exactly(
    num: nat,
    den: nat,
    factor: nat,
    number: nat,
    places: nat,
)
    requires
        den > 0,
        factor > 0,
        number > 0,
        num * pow2(places) == number * den,
        number * factor < 9_007_199_254_740_992,
    ensures
        ({
            let parts = pow2(places);
            product(num, den, factor) == Some(
                ((2 * (number * factor) + parts) / (2 * parts)) as u64,
            )
        }),
{
    let parts = pow2(places);
    lemma_pow2_pos(places);
    lemma2_to64();
    let total = number * factor;
    assert(number <= total && total > 0) by (nonlinear_arith)
        requires
            factor > 0,
            number > 0,
            total == number * factor,
    ;
    assert(num > 0) by (nonlinear_arith)
        requires
            num * parts == number * den,
            number > 0,
            den > 0,
    ;
    assert(number * pow2(0) == number);
    let s = lemma_scale_from(number, 1, 0);
    let f = pow2(s);
    lemma_pow2_pos(s);
    lemma_pow2_adds(places, s);
    let up = pow2(places + s);
    assert(num * up == (number * f) * den) by (nonlinear_arith)
        requires
            num * parts == number * den,
            up == parts * f,
    ;
    assert(TWO_52 * den <= (number * f) * den && (number * f) * den < TWO_53 * den)
        by (nonlinear_arith)
        requires
            TWO_52 <= number * f,
            number * f < TWO_53,
            den > 0,
    ;
    lemma_nearest(num, den, (places + s) as int);
    lemma_round_even_scaled(number * f, 1, den);
    lemma_round_even(number * f, 1, number * f, 0);
    assert(1 * den == den);
    assert(nearest(num, den) == (number * f, up));
    assert((number * f) * factor == total * f) by (nonlinear_arith)
        requires
            total == number * factor,
    ;
    assert(total * pow2(0) == total);
    let t = lemma_scale_from(total, 1, 0);
    lemma_pow2_pos(t);
    lemma_pow2_adds(places, t);
    let high = pow2(places + t);
    assert(total * high == (total * pow2(t)) * parts) by (nonlinear_arith)
        requires
            high == parts * pow2(t),
    ;
    assert(TWO_52 * parts <= (total * pow2(t)) * parts && (total * pow2(t)) * parts < TWO_53
        * parts) by (nonlinear_arith)
        requires
            TWO_52 <= total * pow2(t),
            total * pow2(t) < TWO_53,
            parts > 0,
    ;
    lemma_nearest_scaled(total, parts, f, places + t);
    lemma_small_product(total, places);
    assert(total <= TWO_64 * parts) by (nonlinear_arith)
        requires
            total < TWO_53,
            parts > 0,
            TWO_53 <= TWO_64,
    ;
    let rounded = (2 * total + parts) / (2 * parts);
    assert(rounded <= 2 * total + 1) by (nonlinear_arith)
        requires
            parts > 0,
            rounded == (2 * total + parts) / (2 * parts),
            total >= 0,
    ;
}

/// Whole numbers are multiplied exactly while the product has at most 53 binary
/// digits.
pub proof fn whole_numbers_are_multiplied_exactly(number: nat, factor: nat)
    requires
        factor > 0,
        number * factor < 9_007_199_254_740_992,
    ensures
        product(number, 1, factor) == Some((number * factor) as u64),
{
    if number == 0 {
        assert(number * factor == 0) by (nonlinear_arith)
            requires
                number == 0,
        ;
    } else {
        lemma2_to64();
        assert(number * pow2(0) == number * 1);
        short_numbers_are_multiplied_exactly(number, 1, factor, number, 0);
        let total = number * factor;
        assert((2 * total + 1) / 2 == total);
        assert(2 * pow2(0) == 2);
    }
}

/// Numbers of up to 64 binary digits are far from what a double cannot hold.
pub proof fn short_numbers_are_finite()
    ensures
        infinite_from() > 18_446_744_073_709_551_616,
{
    let letters = "1797693134862315807937289714053034150799341327100378269361737789804449682927\
6475094664901797758720709633028641669288791094655554785194040263065748867150\
5820681908902000708383676273854845817711531764475730270069855571366959622842\
9148198608349364752927190741684443655107043427115596995080930428801779041744\
97792"@;
    reveal_strlit(
        "1797693134862315807937289714053034150799341327100378269361737789804449682927\
6475094664901797758720709633028641669288791094655554785194040263065748867150\
5820681908902000708383676273854845817711531764475730270069855571366959622842\
9148198608349364752927190741684443655107043427115596995080930428801779041744\
97792",
    );
    let digits = digits_of(letters);
    lemma_digits_grow(digits, 21);
    let first = digits.take(21);
    assert(first =~= seq![
        1u8, 7, 9, 7, 6, 9, 3, 1, 3, 4, 8, 6, 2, 3, 1, 5, 8, 0, 7, 9, 3,
    ]);
    reveal_with_fuel(digits_value, 22);
    assert(digits_value(first) == 179_769_313_486_231_580_793);
}

/// A text of digits is a whole number.
pub proof fn a_text_of_digits_is_a_whole_number(letters: Seq<char>)
    requires
        letters.len() > 0,
        digits_only(letters),
    ensures
        number_of(letters) == Some((digits_of(letters), Seq::<u8>::empty())),
{
    let end = letters.len() as int;
    assert forall|i: int| 0 <= i < end implies #[trigger] letters[i] != '.' by {
        assert(is_digit(letters[i]));
    }
    lemma_point_unique(letters, end);
    assert(letters.take(end) =~= letters);
    assert(digits_of(Seq::<char>::empty()) =~= Seq::<u8>::empty());
}

} // verus!
