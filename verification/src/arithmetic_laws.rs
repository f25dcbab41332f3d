//! Laws of rounding: every result of single-precision arithmetic is the single nearest to
//! the exact one.

use crate::grid::lemma_place_bounds;
use crate::rounding::{last_place, nearest_even, round_magnitude, INFINITY_BITS};
use crate::single::{magnitude_units, scale, significand, single_of_int, Single};
use vstd::arithmetic::div_mod::lemma_fundamental_div_mod;
use vstd::arithmetic::power2::{
    lemma2_to64, lemma_pow2_adds, lemma_pow2_pos, lemma_pow2_strictly_increases, lemma_pow2_unfold,
    pow2,
};
use vstd::prelude::*;

verus! {

/// The value of a single without its sign, by the eight bits of its exponent and the 23 bits
/// behind them, in units of 2^-149: with no exponent the bits alone, and else with a bit in
/// front of them, doubled as often as the exponent is above 1.
pub proof fn law_values(exponent: int, fraction: int)
    requires
        0 <= exponent <= 255,
        0 <= fraction < 0x80_0000,
    ensures
        exponent == 0 ==> magnitude_units(exponent * 0x80_0000 + fraction) == fraction,
        exponent > 0 ==> magnitude_units(exponent * 0x80_0000 + fraction) == (0x80_0000 + fraction)
            * pow2((exponent - 1) as nat),
{
    lemma2_to64();
    let mag = exponent * 0x80_0000 + fraction;
    assert(mag / 0x80_0000 == exponent && mag % 0x80_0000 == fraction);
    if exponent == 0 {
        assert(mag == fraction && scale(mag) == 0 && significand(mag) == fraction);
        assert(fraction * pow2(0) == fraction) by (nonlinear_arith)
            requires
                pow2(0) == 1,
        ;
    }
}

/// Whether a magnitude is the one nearest to `num / den` units, and the even one of two that
/// are equally near: the ratio is past the middle between it and the one below, and not
/// past the middle between it and the one above. Above the greatest finite one there is
/// infinity, with the value that comes next.
pub open spec fn is_nearest_to(mag: int, num: int, den: int) -> bool {
    &&& 0 <= mag <= 0x7f80_0000
    &&& mag < 0x7f80_0000 ==> 2 * num <= den * (magnitude_units(mag) + magnitude_units(mag + 1))
    &&& mag > 0 ==> 2 * num >= den * (magnitude_units(mag) + magnitude_units(mag - 1))
    &&& mag < 0x7f80_0000 && mag % 2 == 1 ==> 2 * num < den * (magnitude_units(mag)
        + magnitude_units(mag + 1))
    &&& mag > 0 && mag % 2 == 1 ==> 2 * num > den * (magnitude_units(mag) + magnitude_units(
        mag - 1,
    ))
}

/// The value of `n` steps at the place `k`.
proof fn lemma_steps(k: nat, n: int)
    requires
        0 <= n <= 0x100_0000,
        k > 0 ==> n >= 0x80_0000,
    ensures
        magnitude_units(k * 0x80_0000 + n) == n * pow2(k),
{
    lemma2_to64();
    let mag = k * 0x80_0000 + n;
    lemma_pow2_unfold(k + 1);
    if n == 0x100_0000 {
        assert(mag == (k + 2) * 0x80_0000);
        assert(mag / 0x80_0000 == k + 2 && mag % 0x80_0000 == 0);
        assert(0x80_0000 * (2 * pow2(k)) == 0x100_0000 * pow2(k));
    } else if n >= 0x80_0000 {
        assert(mag / 0x80_0000 == k + 1 && mag % 0x80_0000 == n - 0x80_0000);
    } else {
        assert(mag / 0x80_0000 == 0);
        assert(n * 1 == n);
    }
}

/// What rounding to an even integer means.
proof fn lemma_nearest(num: int, d: int)
    requires
        d > 0,
        num >= 0,
    ensures
        ({
            let n = nearest_even(num, d);
            &&& n >= 0
            &&& 2 * num <= (2 * n + 1) * d
            &&& 2 * num >= (2 * n - 1) * d
            &&& n % 2 == 1 ==> 2 * num < (2 * n + 1) * d && 2 * num > (2 * n - 1) * d
        }),
{
    lemma_fundamental_div_mod(num, d);
    let q = num / d;
    let r = num % d;
    let n = nearest_even(num, d);
    assert(q >= 0) by (nonlinear_arith)
        requires
            q == num / d,
            num >= 0,
            d > 0,
    ;
    assert(num == q * d + r) by (nonlinear_arith)
        requires
            num == d * q + r,
    ;
    assert((2 * n + 1) * d == 2 * (n * d) + d && (2 * n - 1) * d == 2 * (n * d) - d)
        by (nonlinear_arith);
    if n != q {
        assert(n == q + 1);
        assert(n * d == q * d + d) by (nonlinear_arith)
            requires
                n == q + 1,
        ;
    }
}

/// A ratio is rounded to the nearest magnitude, and to the even one of two.
pub proof fn law_rounds_to_nearest(num: int, den: int)
    requires
        num >= 0,
        den > 0,
    ensures
        is_nearest_to(round_magnitude(num, den), num, den),
{
    lemma2_to64();
    let k = last_place(num, den);
    let p = pow2(k) as int;
    lemma_pow2_pos(k);
    let d = den * p;
    assert(d > 0) by (nonlinear_arith)
        requires
            d == den * p,
            den > 0,
            p > 0,
    ;
    let n = nearest_even(num, d);
    lemma_nearest(num, d);
    lemma_place_bounds(num, den);
    lemma_pow2_adds(24, k);
    lemma_pow2_adds(23, k);
    assert(num < 0x100_0000 * d) by (nonlinear_arith)
        requires
            num < den * (0x100_0000 * p),
            d == den * p,
    ;
    assert(n <= 0x100_0000) by (nonlinear_arith)
        requires
            num < 0x100_0000 * d,
            2 * num >= (2 * n - 1) * d,
            d > 0,
    ;
    if k > 0 {
        assert(num >= 0x80_0000 * d) by (nonlinear_arith)
            requires
                num >= den * (0x80_0000 * p),
                d == den * p,
        ;
        assert(n >= 0x80_0000) by (nonlinear_arith)
            requires
                num >= 0x80_0000 * d,
                2 * num <= (2 * n + 1) * d,
                d > 0,
        ;
    }
    let bits = k * 0x80_0000 + n;
    let mag = round_magnitude(num, den);
    if bits < INFINITY_BITS {
        assert(mag == bits);
        assert(mag % 2 == n % 2);
        lemma_steps(k, n);
        lemma_above(num, den, k, n);
        lemma_below(num, den, k, n);
    } else {
        lemma_infinite(num, den, k, n);
    }
}

proof fn lemma_above(num: int, den: int, k: nat, n: int)
    requires
        den > 0,
        0 <= n <= 0x100_0000,
        k > 0 ==> n >= 0x80_0000,
        num < 0x100_0000 * (den * pow2(k)),
        2 * num <= (2 * n + 1) * (den * pow2(k)),
        n % 2 == 1 ==> 2 * num < (2 * n + 1) * (den * pow2(k)),
    ensures
        ({
            let mag = k * 0x80_0000 + n;
            let both = magnitude_units(mag) + magnitude_units(mag + 1);
            &&& 2 * num <= den * both
            &&& n % 2 == 1 ==> 2 * num < den * both
        }),
{
    let mag = k * 0x80_0000 + n;
    let p = pow2(k) as int;
    lemma_steps(k, n);
    if n < 0x100_0000 {
        lemma_steps(k, n + 1);
        assert(den * (n * p + (n + 1) * p) == (2 * n + 1) * (den * p)) by (nonlinear_arith);
    } else {
        lemma_pow2_unfold(k + 1);
        lemma_pow2_pos(k);
        lemma_steps((k + 1) as nat, 0x80_0001);
        assert((k + 1) * 0x80_0000 + 0x80_0001 == mag + 1);
        let q = pow2((k + 1) as nat) as int;
        assert(2 * num < den * (0x100_0000 * p + 0x80_0001 * q)) by (nonlinear_arith)
            requires
                num < 0x100_0000 * (den * p),
                q == 2 * p,
                den > 0,
                p > 0,
        ;
    }
}

proof fn lemma_below(num: int, den: int, k: nat, n: int)
    requires
        den > 0,
        0 <= n <= 0x100_0000,
        k > 0 ==> n >= 0x80_0000,
        k > 0 ==> num >= 0x80_0000 * (den * pow2(k)),
        2 * num >= (2 * n - 1) * (den * pow2(k)),
        n % 2 == 1 ==> 2 * num > (2 * n - 1) * (den * pow2(k)),
    ensures
        ({
            let mag = k * 0x80_0000 + n;
            let both = magnitude_units(mag) + magnitude_units(mag - 1);
            &&& mag > 0 ==> 2 * num >= den * both
            &&& mag > 0 && n % 2 == 1 ==> 2 * num > den * both
        }),
{
    let mag = k * 0x80_0000 + n;
    let p = pow2(k) as int;
    lemma_steps(k, n);
    if k == 0 || n > 0x80_0000 {
        if n > 0 {
            lemma_steps(k, n - 1);
            assert(den * (n * p + (n - 1) * p) == (2 * n - 1) * (den * p)) by (nonlinear_arith);
        }
    } else {
        let j = (k - 1) as nat;
        let q = pow2(j) as int;
        lemma_pow2_unfold(k);
        lemma_pow2_pos(j);
        lemma_steps(j, 0xff_ffff);
        assert(j * 0x80_0000 + 0xff_ffff == mag - 1);
        assert(2 * num >= den * (0x80_0000 * p + 0xff_ffff * q)) by (nonlinear_arith)
            requires
                num >= 0x80_0000 * (den * p),
                p == 2 * q,
                den > 0,
                q > 0,
        ;
    }
}

proof fn lemma_infinite(num: int, den: int, k: nat, n: int)
    requires
        den > 0,
        0 <= n <= 0x100_0000,
        k > 0 ==> n >= 0x80_0000,
        k > 0 ==> num >= 0x80_0000 * (den * pow2(k)),
        2 * num >= (2 * n - 1) * (den * pow2(k)),
        k * 0x80_0000 + n >= 0x7f80_0000,
    ensures
        2 * num >= den * (magnitude_units(0x7f80_0000) + magnitude_units(0x7f7f_ffff)),
{
    let p = pow2(253) as int;
    lemma_pow2_pos(253);
    lemma_steps(253, 0x100_0000);
    lemma_steps(253, 0xff_ffff);
    if k == 253 {
        assert(n == 0x100_0000);
        assert(den * (0x100_0000 * p + 0xff_ffff * p) == (2 * 0x100_0000 - 1) * (den * p))
            by (nonlinear_arith);
    } else {
        assert(k >= 254);
        lemma_pow2_unfold(254);
        if k > 254 {
            lemma_pow2_strictly_increases(254, k);
        }
        let q = pow2(k) as int;
        assert(2 * num >= den * (0x100_0000 * p + 0xff_ffff * p)) by (nonlinear_arith)
            requires
                num >= 0x80_0000 * (den * q),
                q >= 2 * p,
                den > 0,
                p > 0,
        ;
    }
}

/// Whether a single is the one nearest to `num / den` units, with the sign of `num`.
pub open spec fn is_single_nearest_to(x: Single, num: int, den: int) -> bool {
    &&& num > 0 ==> !x.is_negative() && is_nearest_to(x.mag(), num, den)
    &&& num < 0 ==> x.is_negative() && is_nearest_to(x.mag(), -num, den)
    &&& num == 0 ==> x.mag() == 0
}

proof fn lemma_rounded(num: int, den: int, negative: bool)
    requires
        num >= 0,
        den > 0,
    ensures
        ({
            let x = crate::single::signed(negative, round_magnitude(num, den));
            &&& x.is_negative() == negative
            &&& x.mag() == round_magnitude(num, den)
            &&& is_nearest_to(x.mag(), num, den)
        }),
{
    law_rounds_to_nearest(num, den);
}

/// Nothing is rounded to nothing.
proof fn lemma_nothing_rounded(den: int)
    requires
        den > 0,
    ensures
        round_magnitude(0, den) == 0,
{
    lemma2_to64();
    assert(0 < den * 0x100_0000) by (nonlinear_arith)
        requires
            den > 0,
    ;
    assert(last_place(0, den) == 0);
    assert(den * pow2(0) == den) by (nonlinear_arith)
        requires
            pow2(0) == 1,
    ;
    assert(0int / den == 0 && 0int % den == 0) by (nonlinear_arith)
        requires
            den > 0,
    ;
}

/// The sum of two numbers is the single nearest to their exact sum, and their difference
/// that nearest to the exact difference.
pub proof fn law_sums(x: Single, y: Single)
    requires
        x.is_finite(),
        y.is_finite(),
    ensures
        is_single_nearest_to(x.plus(y), x.units() + y.units(), 1),
        is_single_nearest_to(x.minus(y), x.units() - y.units(), 1),
        x.units() + y.units() == 0 ==> (x.plus(y).is_negative() <==> x.is_negative()
            && y.is_negative()),
{
    lemma_sum(x, y);
    assert(y.negated().mag() == y.mag());
    assert(y.negated().units() == -y.units());
    lemma_sum(x, y.negated());
}

proof fn lemma_sum(x: Single, y: Single)
    requires
        x.is_finite(),
        y.is_finite(),
    ensures
        is_single_nearest_to(x.plus(y), x.units() + y.units(), 1),
        x.units() + y.units() == 0 ==> (x.plus(y).is_negative() <==> x.is_negative()
            && y.is_negative()),
{
    reveal(Single::plus);
    let sum = x.units() + y.units();
    if sum > 0 {
        lemma_rounded(sum, 1, false);
    } else if sum < 0 {
        lemma_rounded(-sum, 1, true);
    }
}

/// The product of two numbers is the single nearest to their exact product, negative where
/// one of them is.
pub proof fn law_products(x: Single, y: Single)
    requires
        x.is_finite(),
        y.is_finite(),
    ensures
        x.times(y).is_negative() <==> x.is_negative() != y.is_negative(),
        is_nearest_to(x.times(y).mag(), x.abs_units() * y.abs_units(), pow2(149) as int),
{
    reveal(Single::times);
    lemma_pow2_pos(149);
    lemma_magnitudes(x, y);
    lemma_rounded(
        x.abs_units() * y.abs_units(),
        pow2(149) as int,
        x.is_negative() != y.is_negative(),
    );
}

proof fn lemma_magnitudes(x: Single, y: Single)
    ensures
        x.abs_units() >= 0,
        y.abs_units() >= 0,
        x.abs_units() * y.abs_units() >= 0,
{
    lemma_pow2_pos(scale(x.mag()));
    lemma_pow2_pos(scale(y.mag()));
    let a = x.abs_units();
    let b = y.abs_units();
    assert(a >= 0) by (nonlinear_arith)
        requires
            a == significand(x.mag()) * pow2(scale(x.mag())),
            significand(x.mag()) >= 0,
            pow2(scale(x.mag())) > 0,
    ;
    assert(b >= 0) by (nonlinear_arith)
        requires
            b == significand(y.mag()) * pow2(scale(y.mag())),
            significand(y.mag()) >= 0,
            pow2(scale(y.mag())) > 0,
    ;
    assert(a * b >= 0) by (nonlinear_arith)
        requires
            a >= 0,
            b >= 0,
    ;
}

/// The quotient of two numbers is the single nearest to their exact quotient, negative where
/// one of them is.
pub proof fn law_quotients(x: Single, y: Single)
    requires
        x.is_finite(),
        y.is_finite(),
        y.mag() != 0,
    ensures
        x.over(y).is_negative() <==> x.is_negative() != y.is_negative(),
        is_nearest_to(x.over(y).mag(), x.abs_units() * pow2(149), y.abs_units()),
{
    reveal(Single::over);
    lemma_pow2_pos(149);
    lemma_magnitudes(x, y);
    crate::single::lemma_zero_units(y);
    let a = x.abs_units();
    let p = pow2(149) as int;
    assert(a * p >= 0) by (nonlinear_arith)
        requires
            a >= 0,
            p > 0,
    ;
    lemma_rounded(a * p, y.abs_units(), x.is_negative() != y.is_negative());
}

/// An integer becomes the single nearest to it.
pub proof fn law_integers(n: int)
    ensures
        is_single_nearest_to(single_of_int(n), n * pow2(149), 1),
{
    reveal(single_of_int);
    lemma_pow2_pos(149);
    let p = pow2(149) as int;
    let m = if n < 0 {
        -n
    } else {
        n
    };
    assert(m * p >= 0) by (nonlinear_arith)
        requires
            m >= 0,
            p > 0,
    ;
    assert(n > 0 ==> n * p > 0) by (nonlinear_arith)
        requires
            p > 0,
    ;
    assert(n < 0 ==> n * p < 0) by (nonlinear_arith)
        requires
            p > 0,
    ;
    assert(-n * p == -(n * p)) by (nonlinear_arith);
    if n < 0 {
        lemma_rounded(-n * p, 1, true);
    } else {
        lemma_rounded(n * p, 1, false);
        if n == 0 {
            assert(n * p == 0) by (nonlinear_arith)
                requires
                    n == 0,
            ;
            lemma_nothing_rounded(1);
        }
    }
}

/// Numbers are compared by their values, where zeros of either sign are the same; nothing
/// holds of what is no number.
pub proof fn law_comparisons(x: Single, y: Single)
    ensures
        x.is_nan() || y.is_nan() ==> !x.less_than(y) && !x.at_least(y) && !x.same_number(y),
        x.is_finite() && y.is_finite() ==> {
            &&& x.less_than(y) <==> x.units() < y.units()
            &&& x.at_least(y) <==> x.units() >= y.units()
            &&& x.same_number(y) <==> x.units() == y.units()
        },
{
    reveal(Single::less_than);
    reveal(Single::at_least);
    reveal(Single::same_number);
}

/// The integer part of a number is the integer next to it towards zero, or the nearer bound
/// where it is out of bounds.
pub proof fn law_integer_parts(x: Single, lo: int, hi: int)
    requires
        lo <= 0 <= hi,
    ensures
        ({
            let n = x.integer_part(lo, hi);
            let one = pow2(149) as int;
            &&& lo <= n <= hi
            &&& x.is_nan() ==> n == 0
            &&& !x.is_nan() && lo < n < hi ==> {
                &&& x.units() >= 0 ==> n * one <= x.units() < (n + 1) * one
                &&& x.units() < 0 ==> (n - 1) * one < x.units() <= n * one
            }
            &&& !x.is_nan() && n == hi && hi > 0 ==> x.units() >= hi * one
            &&& !x.is_nan() && n == lo && lo < 0 ==> x.units() <= lo * one
        }),
{
    reveal(Single::integer_part);
    lemma_pow2_pos(149);
    lemma_magnitudes(x, x);
    let one = pow2(149) as int;
    let a = x.abs_units();
    let whole = a / one;
    lemma_fundamental_div_mod(a, one);
    assert(whole >= 0) by (nonlinear_arith)
        requires
            whole == a / one,
            a >= 0,
            one > 0,
    ;
    assert(whole * one <= a < (whole + 1) * one) by (nonlinear_arith)
        requires
            a == one * whole + a % one,
            0 <= a % one < one,
    ;
    assert((-whole) * one == -(whole * one) && (-whole - 1) * one == -((whole + 1) * one))
        by (nonlinear_arith);
    if !x.is_nan() {
        let t = if x.is_negative() {
            -whole
        } else {
            whole
        };
        if t > hi {
            assert(t * one >= hi * one) by (nonlinear_arith)
                requires
                    t >= hi,
                    one > 0,
            ;
        }
        if t < lo {
            assert(t * one <= lo * one) by (nonlinear_arith)
                requires
                    t <= lo,
                    one > 0,
            ;
        }
        if whole == 0 {
            assert(whole * one == 0) by (nonlinear_arith)
                requires
                    whole == 0,
            ;
        }
    }
}

/// Whether a single is infinite with a sign.
pub open spec fn is_endless(x: Single, negative: bool) -> bool {
    if negative {
        x.bits == 0xff80_0000
    } else {
        x.bits == 0x7f80_0000
    }
}

/// What is no number makes no number. Infinity stays what it is when a finite number is
/// added, and two of them with opposite signs make no number; times nothing it makes none
/// either, and times anything else it stays infinite. Divided by it, a finite number is
/// nothing; a number divided by nothing is infinite; nothing divided by nothing, and
/// infinity by infinity, are no numbers.
pub proof fn law_without_bounds(x: Single, y: Single)
    ensures
        x.is_nan() || y.is_nan() ==> x.plus(y).is_nan() && x.minus(y).is_nan() && x.times(
            y,
        ).is_nan() && x.over(y).is_nan(),
        x.is_infinite() && y.is_finite() ==> x.plus(y) == x && y.plus(x) == x,
        x.is_infinite() && y.is_infinite() && x.is_negative() == y.is_negative() ==> x.plus(y) == x
            && x.minus(y).is_nan(),
        x.is_infinite() && y.is_infinite() && x.is_negative() != y.is_negative() ==> x.plus(
            y,
        ).is_nan() && x.minus(y) == x,
        x.is_infinite() && y.mag() == 0 ==> x.times(y).is_nan() && y.times(x).is_nan(),
        x.is_infinite() && !y.is_nan() && y.mag() != 0 ==> is_endless(
            x.times(y),
            x.is_negative() != y.is_negative(),
        ) && is_endless(y.times(x), x.is_negative() != y.is_negative()),
        x.is_finite() && y.is_infinite() ==> x.over(y).mag() == 0,
        x.is_infinite() && y.is_infinite() ==> x.over(y).is_nan(),
        x.is_infinite() && y.is_finite() ==> is_endless(
            x.over(y),
            x.is_negative() != y.is_negative(),
        ),
        x.is_finite() && x.mag() != 0 && y.mag() == 0 ==> is_endless(
            x.over(y),
            x.is_negative() != y.is_negative(),
        ),
        x.mag() == 0 && y.mag() == 0 ==> x.over(y).is_nan(),
{
    reveal(Single::plus);
    reveal(Single::times);
    reveal(Single::over);
    let nan = Single { bits: crate::single::NAN };
    assert(nan.is_nan());
    assert(y.negated().mag() == y.mag());
    assert(y.negated().is_negative() != y.is_negative());
}

/// To turn a number around is to turn its sign bit, and its size is the number without it.
pub proof fn law_signs(x: Single)
    ensures
        x.negated().bits == (if x.bits >= 0x8000_0000 {
            x.bits - 0x8000_0000
        } else {
            x.bits + 0x8000_0000
        }),
        x.absolute().bits == (if x.bits >= 0x8000_0000 {
            x.bits - 0x8000_0000
        } else {
            x.bits as int
        }),
        x.negated().units() == -x.units(),
        x.absolute().units() == (if x.units() < 0 {
            -x.units()
        } else {
            x.units()
        }),
{
    lemma_magnitudes(x, x);
    assert(x.negated().mag() == x.mag());
    assert(x.absolute().mag() == x.mag());
}

/// The lesser and the greater of two numbers are among them, and neither is less, or greater,
/// than they are. Where one is no number, it is the other one.
pub proof fn law_lesser_and_greater(x: Single, y: Single)
    ensures
        x.is_nan() ==> x.lesser(y) == y && x.greater(y) == y,
        !x.is_nan() && y.is_nan() ==> x.lesser(y) == x && x.greater(y) == x,
        !x.is_nan() && !y.is_nan() ==> {
            &&& x.lesser(y) == x || x.lesser(y) == y
            &&& x.lesser(y).units() <= x.units() && x.lesser(y).units() <= y.units()
            &&& x.greater(y) == x || x.greater(y) == y
            &&& x.greater(y).units() >= x.units() && x.greater(y).units() >= y.units()
        },
{
    reveal(Single::less_than);
}

proof fn lemma_ordered(a: int, b: int)
    requires
        0 <= a <= b <= 0x7f80_0000,
    ensures
        0 <= magnitude_units(a) <= magnitude_units(b),
        a < b ==> magnitude_units(a) < magnitude_units(b),
{
    lemma_pow2_pos(scale(a));
    assert(significand(a) * pow2(scale(a)) >= 0) by (nonlinear_arith)
        requires
            significand(a) >= 0,
            pow2(scale(a)) > 0,
    ;
    if a < b {
        crate::single::lemma_magnitude_monotone(a, b);
    }
}

/// Rounding keeps the order: what is not less is not rounded to less.
pub proof fn law_rounding_keeps_order(n: int, m: int, den: int)
    requires
        0 <= n <= m,
        den > 0,
    ensures
        round_magnitude(n, den) <= round_magnitude(m, den),
{
    law_rounds_to_nearest(n, den);
    law_rounds_to_nearest(m, den);
    let a = round_magnitude(n, den);
    let b = round_magnitude(m, den);
    if a > b {
        lemma_ordered(b, a - 1);
        lemma_ordered(b + 1, a);
        let low = magnitude_units(b) + magnitude_units(b + 1);
        let high = magnitude_units(a) + magnitude_units(a - 1);
        assert(den * low <= den * high) by (nonlinear_arith)
            requires
                low <= high,
                den > 0,
        ;
        if a > b + 1 {
            lemma_ordered(b, a - 1);
            assert(low < high);
            assert(den * low < den * high) by (nonlinear_arith)
                requires
                    low < high,
                    den > 0,
            ;
        }
    }
}

/// Whether a single is a finite number that is not negative.
pub open spec fn is_amount(x: Single) -> bool {
    !x.is_negative() && x.is_finite()
}

/// Products of amounts keep the order of their factors.
pub proof fn law_products_keep_order(x: Single, y: Single, u: Single, v: Single)
    requires
        is_amount(x),
        is_amount(y),
        is_amount(u),
        is_amount(v),
        x.mag() <= u.mag(),
        y.mag() <= v.mag(),
    ensures
        x.times(y).mag() <= u.times(v).mag(),
        !x.times(y).is_negative(),
        !u.times(v).is_negative(),
{
    reveal(Single::times);
    lemma_pow2_pos(149);
    lemma_ordered(x.mag(), u.mag());
    lemma_ordered(y.mag(), v.mag());
    let a = x.abs_units();
    let b = y.abs_units();
    let c = u.abs_units();
    let d = v.abs_units();
    assert(0 <= a * b <= c * d) by (nonlinear_arith)
        requires
            0 <= a <= c,
            0 <= b <= d,
    ;
    law_rounding_keeps_order(a * b, c * d, pow2(149) as int);
    lemma_rounded(a * b, pow2(149) as int, false);
    lemma_rounded(c * d, pow2(149) as int, false);
}

/// Quotients of amounts by the same one keep their order.
pub proof fn law_quotients_keep_order(x: Single, u: Single, y: Single)
    requires
        is_amount(x),
        is_amount(u),
        is_amount(y),
        y.mag() != 0,
        x.mag() <= u.mag(),
    ensures
        x.over(y).mag() <= u.over(y).mag(),
        !x.over(y).is_negative(),
        !u.over(y).is_negative(),
{
    reveal(Single::over);
    lemma_pow2_pos(149);
    lemma_ordered(x.mag(), u.mag());
    lemma_ordered(0, y.mag());
    let a = x.abs_units();
    let c = u.abs_units();
    let p = pow2(149) as int;
    assert(0 <= a * p <= c * p) by (nonlinear_arith)
        requires
            0 <= a <= c,
            p > 0,
    ;
    law_rounding_keeps_order(a * p, c * p, y.abs_units());
    lemma_rounded(a * p, y.abs_units(), false);
    lemma_rounded(c * p, y.abs_units(), false);
}

/// The more is taken from an amount, up to all of it, the less is left.
pub proof fn law_differences_turn_order(w: Single, x: Single, u: Single)
    requires
        is_amount(w),
        is_amount(x),
        is_amount(u),
        x.mag() <= u.mag() <= w.mag(),
    ensures
        is_amount(w.minus(x)),
        is_amount(w.minus(u)),
        w.minus(u).mag() <= w.minus(x).mag() <= w.mag(),
{
    lemma_difference(w, x);
    lemma_difference(w, u);
    lemma_ordered(x.mag(), u.mag());
    lemma_ordered(u.mag(), w.mag());
    let a = w.units() - x.units();
    let b = w.units() - u.units();
    law_rounding_keeps_order(b, a, 1);
    lemma_ordered(0, x.mag());
    law_rounding_keeps_order(a, w.units(), 1);
    crate::single_laws::lemma_round_exact(w.mag());
}

proof fn lemma_difference(w: Single, x: Single)
    requires
        is_amount(w),
        is_amount(x),
        x.mag() <= w.mag(),
    ensures
        w.minus(x).mag() == round_magnitude(w.units() - x.units(), 1),
        !w.minus(x).is_negative(),
{
    reveal(Single::plus);
    lemma_ordered(x.mag(), w.mag());
    assert(x.negated().mag() == x.mag() && x.negated().is_negative());
    let d = w.units() - x.units();
    lemma_rounded(d, 1, false);
    if d == 0 {
        lemma_nothing_rounded(1);
    }
}

/// Integer parts keep the order of amounts.
pub proof fn law_integer_parts_keep_order(x: Single, u: Single, hi: int)
    requires
        is_amount(x),
        is_amount(u),
        x.mag() <= u.mag(),
        hi >= 0,
    ensures
        x.integer_part(0, hi) <= u.integer_part(0, hi),
{
    reveal(Single::integer_part);
    lemma_ordered(x.mag(), u.mag());
    lemma_pow2_pos(149);
    let p = pow2(149) as int;
    let a = x.abs_units();
    let c = u.abs_units();
    assert(a / p <= c / p) by {
        vstd::arithmetic::div_mod::lemma_div_is_ordered(a, c, p);
    }
}

} // verus!
