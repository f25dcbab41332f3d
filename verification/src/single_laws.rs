//! Laws of single-precision arithmetic.

use crate::grid::lemma_place_bounds;
use crate::rounding::{
    last_place, lemma_last_place, nearest_even, round_magnitude, INFINITY_BITS,
};
use crate::single::{magnitude_units, scale, significand, Single};
use vstd::arithmetic::div_mod::{lemma_fundamental_div_mod, lemma_fundamental_div_mod_converse};
use vstd::arithmetic::power2::{lemma2_to64, lemma_pow2_adds, lemma_pow2_pos, pow2};
use vstd::prelude::*;

verus! {

/// Sums do not depend on the order of their terms.
pub proof fn law_plus_commutes(x: Single, y: Single)
    ensures
        x.plus(y) == y.plus(x),
{
    reveal(Single::plus);
    if x.is_infinite() && y.is_infinite() && x.is_negative() == y.is_negative() {
        assert(x == y);
    }
}

/// Products do not depend on the order of their factors.
pub proof fn law_times_commutes(x: Single, y: Single)
    ensures
        x.times(y) == y.times(x),
{
    reveal(Single::times);
    let a = x.abs_units();
    let b = y.abs_units();
    assert(a * b == b * a) by (nonlinear_arith);
}

/// No number is both less than another and at least as great.
pub proof fn law_order_decides(x: Single, y: Single)
    ensures
        !(x.less_than(y) && x.at_least(y)),
        !x.is_nan() && !y.is_nan() ==> x.less_than(y) || x.at_least(y),
{
    reveal(Single::less_than);
    reveal(Single::at_least);
}

/// What is a single is not rounded.
pub proof fn lemma_round_exact(mag: int)
    requires
        0 <= mag < INFINITY_BITS,
    ensures
        round_magnitude(magnitude_units(mag), 1) == mag,
{
    lemma2_to64();
    let m = significand(mag);
    let s = scale(mag);
    let p = pow2(s) as int;
    let num = m * p;
    lemma_pow2_pos(s);
    lemma_pow2_adds(24, s);
    assert(num < 1 * pow2(s + 24)) by (nonlinear_arith)
        requires
            num == m * p,
            m < 0x100_0000,
            p > 0,
            pow2(s + 24) == 0x100_0000 * p,
    ;
    if s > 0 {
        lemma_pow2_adds(23, s);
        assert(num >= 1 * pow2((s + 23) as nat)) by (nonlinear_arith)
            requires
                num == m * p,
                m >= 0x80_0000,
                p > 0,
                pow2((s + 23) as nat) == 0x80_0000 * p,
        ;
    }
    lemma_last_place(num, 1, s);
    assert(1 * pow2(s) == p);
    lemma_fundamental_div_mod_converse(num, p, m, 0);
    assert(nearest_even(num, p) == m);
    assert(s * 0x80_0000 + m == mag);
}

/// Adding nothing to a number that is not zero gives it back.
pub proof fn law_nothing_added(x: Single, zero: Single)
    requires
        zero.mag() == 0,
        x.mag() != 0,
        !x.is_nan(),
    ensures
        x.plus(zero) == x,
        zero.plus(x) == x,
        x.minus(zero) == x,
{
    reveal(Single::plus);
    crate::single::lemma_zero_units(x);
    crate::single::lemma_zero_units(zero);
    crate::single::lemma_zero_units(zero.negated());
    assert(zero.negated().mag() == 0);
    if x.is_finite() {
        lemma_round_exact(x.mag());
        assert(x.abs_units() > 0) by {
            lemma_pow2_pos(scale(x.mag()));
            assert(significand(x.mag()) > 0);
            assert(significand(x.mag()) * pow2(scale(x.mag())) > 0) by (nonlinear_arith)
                requires
                    significand(x.mag()) > 0,
                    pow2(scale(x.mag())) > 0,
            ;
        }
    }
}

/// A width that is counted from nothing is the width, whatever it is scaled by.
pub proof fn lemma_zero_sum(w: Single, scale: Single)
    ensures
        Single::from_bits(0).plus(w).minus(Single::from_bits(0)).times(scale).absolute()
            == w.times(scale).absolute(),
{
    let zero = Single { bits: 0 };
    assert(zero.mag() == 0);
    let sum = zero.plus(w).minus(zero);
    if w.is_nan() {
        assert(sum.is_nan()) by {
            reveal(Single::plus);
        }
        assert(sum.times(scale) == w.times(scale)) by {
            reveal(Single::times);
        }
    } else if w.mag() == 0 {
        lemma_nothing_summed(w);
        lemma_sign_dropped(sum, w, scale);
    } else {
        law_nothing_added(w, zero);
    }
}

proof fn lemma_nothing_summed(w: Single)
    requires
        w.mag() == 0,
    ensures
        Single::from_bits(0).plus(w).minus(Single::from_bits(0)).mag() == 0,
{
    reveal(Single::plus);
    let zero = Single { bits: 0 };
    assert(zero.mag() == 0 && zero.negated().mag() == 0);
    crate::single::lemma_zero_units(w);
    crate::single::lemma_zero_units(zero);
    crate::single::lemma_zero_units(zero.negated());
    let one = zero.plus(w);
    assert(one.mag() == 0);
    crate::single::lemma_zero_units(one);
}

/// The size of a product does not depend on the signs of its factors.
proof fn lemma_sign_dropped(x: Single, y: Single, scale: Single)
    requires
        x.mag() == y.mag(),
    ensures
        x.times(scale).absolute() == y.times(scale).absolute(),
{
    reveal(Single::times);
    lemma_product_range(x.abs_units() * scale.abs_units());
}

/// The magnitude of a rounded product is one of a single.
proof fn lemma_product_range(num: int)
    ensures
        num >= 0 ==> 0 <= round_magnitude(num, pow2(149) as int) <= INFINITY_BITS,
{
    let den = pow2(149) as int;
    lemma_pow2_pos(149);
    let k = last_place(num, den);
    lemma_pow2_pos(k);
    let d = den * pow2(k);
    if num >= 0 {
        assert(d > 0 && num / d >= 0) by (nonlinear_arith)
            requires
                d == den * pow2(k),
                den > 0,
                pow2(k) > 0,
                num >= 0,
        ;
    }
}

/// A ratio does not depend on what both its sides are multiplied by.
proof fn lemma_round_cancels(n: int, d: int)
    requires
        n >= 0,
        d > 0,
    ensures
        round_magnitude(n * d, d) == round_magnitude(n, 1),
{
    let k = last_place(n, 1);
    lemma_place_bounds(n, 1);
    let hi = pow2(k + 24) as int;
    assert(n * d < d * hi) by (nonlinear_arith)
        requires
            n < 1 * hi,
            d > 0,
    ;
    if k > 0 {
        let lo = pow2((k + 23) as nat) as int;
        assert(n * d >= d * lo) by (nonlinear_arith)
            requires
                n >= 1 * lo,
                d > 0,
        ;
    }
    lemma_last_place(n * d, d, k);
    let p = pow2(k) as int;
    lemma_pow2_pos(k);
    let q = n / p;
    let r = n % p;
    lemma_fundamental_div_mod(n, p);
    assert(n * d == (d * p) * q + d * r) by (nonlinear_arith)
        requires
            n == p * q + r,
    ;
    assert(0 <= d * r < d * p) by (nonlinear_arith)
        requires
            0 <= r < p,
            d > 0,
    ;
    assert(n * d == q * (d * p) + d * r) by (nonlinear_arith)
        requires
            n * d == (d * p) * q + d * r,
    ;
    lemma_fundamental_div_mod_converse(n * d, d * p, q, d * r);
    assert(2 * (d * r) < d * p <==> 2 * r < p) by (nonlinear_arith)
        requires
            d > 0,
    ;
    assert(2 * (d * r) == d * p <==> 2 * r == p) by (nonlinear_arith)
        requires
            d > 0,
    ;
    assert(1 * p == p);
}

/// A finite number times one is itself.
pub proof fn law_times_one(x: Single)
    requires
        x.is_finite(),
    ensures
        x.times(Single::from_bits(0x3f80_0000)) == x,
{
    reveal(Single::times);
    let one = Single { bits: 0x3f80_0000 };
    let p = pow2(149) as int;
    lemma_pow2_pos(149);
    lemma2_to64();
    lemma_pow2_adds(23, 126);
    assert(one.mag() == 0x3f80_0000);
    assert(significand(0x3f80_0000int) == 0x80_0000 && scale(0x3f80_0000int) == 126);
    assert(one.abs_units() == p);
    crate::single::lemma_zero_units(x);
    lemma_pow2_pos(scale(x.mag()));
    assert(x.abs_units() >= 0) by (nonlinear_arith)
        requires
            x.abs_units() == significand(x.mag()) * pow2(scale(x.mag())),
            significand(x.mag()) >= 0,
            pow2(scale(x.mag())) > 0,
    ;
    lemma_round_cancels(x.abs_units(), p);
    lemma_round_exact(x.mag());
}

/// A finite number that is not zero, divided by itself, is one.
pub proof fn law_over_itself(x: Single)
    requires
        x.is_finite(),
        x.mag() != 0,
    ensures
        x.over(x) == Single::from_bits(0x3f80_0000),
{
    reveal(Single::over);
    let a = x.abs_units();
    let p = pow2(149) as int;
    lemma_pow2_pos(149);
    lemma2_to64();
    lemma_pow2_adds(23, 126);
    crate::single::lemma_zero_units(x);
    lemma_pow2_pos(scale(x.mag()));
    assert(a >= 0) by (nonlinear_arith)
        requires
            a == significand(x.mag()) * pow2(scale(x.mag())),
            significand(x.mag()) >= 0,
            pow2(scale(x.mag())) > 0,
    ;
    assert(a > 0);
    assert(a * p == p * a) by (nonlinear_arith);
    lemma_round_cancels(p, a);
    assert(significand(0x3f80_0000int) == 0x80_0000 && scale(0x3f80_0000int) == 126);
    assert(magnitude_units(0x3f80_0000int) == p);
    lemma_round_exact(0x3f80_0000int);
}

/// Nothing, times anything, has the integer part 0.
pub proof fn lemma_nothing_times(zero: Single, x: Single, hi: int)
    requires
        zero.mag() == 0,
        hi >= 0,
    ensures
        zero.times(x).integer_part(0, hi) == 0,
        x.times(zero).integer_part(0, hi) == 0,
        zero.times(x).mag() == 0 || zero.times(x).is_nan(),
        x.times(zero).mag() == 0 || x.times(zero).is_nan(),
{
    reveal(Single::times);
    reveal(Single::integer_part);
    lemma2_to64();
    let p = pow2(149) as int;
    lemma_pow2_pos(149);
    crate::single::lemma_zero_units(zero);
    assert(zero.abs_units() == 0);
    let a = x.abs_units();
    assert(0 * a == 0 && a * 0 == 0) by (nonlinear_arith);
    lemma_round_cancels(0, p);
    assert(0 * p == 0) by (nonlinear_arith);
    lemma_round_exact(0);
    assert(magnitude_units(0) == 0) by {
        assert(significand(0) == 0);
        assert(0 * pow2(0) == 0) by (nonlinear_arith);
    }
    assert(round_magnitude(0, p) == 0);
    assert(0int / p == 0) by (nonlinear_arith)
        requires
            p > 0,
    ;
    let one = zero.times(x);
    let other = x.times(zero);
    crate::single::lemma_zero_units(one);
    crate::single::lemma_zero_units(other);
}

} // verus!
