//! Coordinates on a grid of half points: near ones lie in the same cell or in
//! neighbouring ones.

use crate::rounding::{
    last_place, lemma_last_place, nearest_even, round_magnitude, INFINITY_BITS,
};
use crate::single::{
    lemma_magnitude_monotone, magnitude_units, scale, signed, significand, Single, HALF, TWO,
};
use vstd::arithmetic::div_mod::{lemma_fundamental_div_mod, lemma_fundamental_div_mod_converse};
use vstd::arithmetic::power2::{
    lemma2_to64, lemma_pow2_adds, lemma_pow2_pos, lemma_pow2_strictly_increases,
    lemma_pow2_unfold, pow2,
};
use vstd::prelude::*;

verus! {

/// A coordinate on a grid of half points.
pub open spec fn grid(x: Single) -> i32 {
    x.times(Single { bits: TWO }).integer_part(i32::MIN as int, i32::MAX as int) as i32
}

/// Whether two coordinates are less than half a point apart.
pub open spec fn near(a: Single, b: Single) -> bool {
    a.minus(b).absolute().less_than(Single { bits: HALF })
}

/// The cell of a coordinate on the grid.
pub fn to_grid(x: Single) -> (r: i32)
    ensures
        r == grid(x),
{
    x.mul(Single::from_bits(TWO)).to_i32()
}

/// Whether two coordinates are less than half a point apart.
pub fn is_near(a: Single, b: Single) -> (r: bool)
    ensures
        r == near(a, b),
{
    a.sub(b).abs().lt(Single::from_bits(HALF))
}

/// The ratio lies below 2^(24 + k) for its last place `k`, and, where that is
/// positive, not below 2^(23 + k).
pub proof fn lemma_place_bounds(num: int, den: int)
    requires
        den > 0,
    ensures
        num < den * pow2(last_place(num, den) + 24),
        last_place(num, den) > 0 ==> num >= den * pow2((last_place(num, den) + 23) as nat),
    decreases num - den,
{
    lemma2_to64();
    let k = last_place(num, den);
    if num >= den * 0x100_0000 {
        lemma_place_bounds(num, den * 2);
        let j = last_place(num, den * 2);
        lemma_pow2_unfold(j + 25);
        assert((den * 2) * pow2(j + 24) == den * pow2(j + 25)) by (nonlinear_arith)
            requires
                pow2(j + 25) == 2 * pow2(j + 24),
        ;
        if j > 0 {
            lemma_pow2_unfold(j + 24);
            assert((den * 2) * pow2((j + 23) as nat) == den * pow2(j + 24)) by (nonlinear_arith)
                requires
                    pow2(j + 24) == 2 * pow2((j + 23) as nat),
            ;
        }
    }
}

/// What is not below a half is not rounded below it.
proof fn lemma_half_stays(num: int)
    requires
        num >= pow2(148),
    ensures
        HALF <= round_magnitude(num, 1) <= INFINITY_BITS,
{
    lemma2_to64();
    let k = last_place(num, 1);
    lemma_place_bounds(num, 1);
    if k + 24 < 148 {
        lemma_pow2_strictly_increases(k + 24, 148);
    }
    assert(k >= 125);
    lemma_pow2_pos(k);
    lemma_pow2_adds(23, k);
    let p = pow2(k) as int;
    assert(num / p >= 0x80_0000) by (nonlinear_arith)
        requires
            p > 0,
            num >= 0x80_0000 * p,
    ;
    assert(1 * p == p);
}

/// The units of a half.
proof fn lemma_half_units()
    ensures
        (Single { bits: HALF }).units() == pow2(148),
{
    lemma2_to64();
    lemma_pow2_adds(23, 125);
    let half = Single { bits: HALF };
    assert(half.mag() == 0x3f00_0000);
    assert(significand(0x3f00_0000int) == 0x80_0000);
    assert(scale(0x3f00_0000int) == 125);
}

/// The units of infinity.
proof fn lemma_infinity_units()
    ensures
        magnitude_units(INFINITY_BITS as int) == pow2(277),
        pow2(277) >= pow2(148),
{
    lemma2_to64();
    lemma_pow2_adds(23, 254);
    lemma_pow2_strictly_increases(148, 277);
    assert(significand(0x7f80_0000int) == 0x80_0000);
    assert(scale(0x7f80_0000int) == 254);
}

/// Near coordinates are finite, and less than half a point apart without rounding.
proof fn lemma_near_units(a: Single, b: Single)
    requires
        near(a, b),
    ensures
        a.is_finite() && b.is_finite(),
        -pow2(148) < a.units() - b.units() < pow2(148),
{
    reveal(Single::plus);
    reveal(Single::less_than);
    lemma_half_units();
    lemma_infinity_units();
    let c = b.negated();
    assert(c.mag() == b.mag() && c.is_negative() != b.is_negative());
    let d = a.minus(b);
    assert(d.absolute().mag() == d.mag());
    if a.is_finite() && b.is_finite() {
        let sum = a.units() + c.units();
        if sum >= pow2(148) {
            lemma_half_stays(sum);
            let r = round_magnitude(sum, 1);
            assert(d.mag() == r);
            if r > HALF {
                lemma_magnitude_monotone(HALF as int, r);
            }
        } else if -sum >= pow2(148) {
            lemma_half_stays(-sum);
            let r = round_magnitude(-sum, 1);
            assert(d.mag() == r);
            if r > HALF {
                lemma_magnitude_monotone(HALF as int, r);
            }
        }
    }
}

/// Doubling is exact, up to infinity.
proof fn lemma_doubled(mag: int)
    requires
        0 <= mag < INFINITY_BITS,
    ensures
        ({
            let u = magnitude_units(mag);
            let d = round_magnitude(u * pow2(150), pow2(149) as int);
            &&& 0 <= u
            &&& 0 <= d <= INFINITY_BITS
            &&& d < INFINITY_BITS ==> magnitude_units(d) == 2 * u
            &&& d == INFINITY_BITS ==> 2 * u >= pow2(277)
        }),
{
    lemma2_to64();
    let m = significand(mag);
    let s = scale(mag);
    let ps = pow2(s) as int;
    let u = m * ps;
    let den = pow2(149) as int;
    let num = u * pow2(150);
    lemma_pow2_pos(s);
    lemma_pow2_pos(149);
    lemma_pow2_unfold(150);
    assert(num == (2 * u) * den) by (nonlinear_arith)
        requires
            num == u * pow2(150),
            pow2(150) == 2 * den,
    ;
    assert(u >= 0) by (nonlinear_arith)
        requires
            u == m * ps,
            m >= 0,
            ps > 0,
    ;
    if mag >= 0x80_0000 {
        let k = s + 1;
        lemma_pow2_unfold(k);
        lemma_pow2_adds(24, k);
        lemma_pow2_adds(23, k);
        let pk = pow2(k) as int;
        assert(2 * u == m * pk) by (nonlinear_arith)
            requires
                u == m * ps,
                pk == 2 * ps,
        ;
        assert(num < den * pow2(k + 24) && num >= den * pow2((k + 23) as nat)) by (nonlinear_arith)
            requires
                num == (2 * u) * den,
                2 * u == m * pk,
                pow2(k + 24) == 0x100_0000 * pk,
                pow2((k + 23) as nat) == 0x80_0000 * pk,
                0x80_0000 <= m < 0x100_0000,
                den > 0,
                pk > 0,
        ;
        lemma_last_place(num, den, k);
        let whole = den * pow2(k);
        assert(whole > 0 && num == m * whole + 0) by (nonlinear_arith)
            requires
                num == (2 * u) * den,
                2 * u == m * pk,
                whole == den * pk,
                den > 0,
                pk > 0,
        ;
        lemma_fundamental_div_mod_converse(num, whole, m, 0);
        assert(nearest_even(num, whole) == m);
        let bits = k * 0x80_0000 + m;
        assert(bits == mag + 0x80_0000);
        if bits < INFINITY_BITS {
            assert(significand(bits) == m);
            assert(scale(bits) == k);
        } else {
            assert(s == 253);
            lemma_pow2_adds(23, 254);
            assert(m * pk >= 0x80_0000 * pk) by (nonlinear_arith)
                requires
                    m >= 0x80_0000,
                    pk > 0,
            ;
        }
    } else {
        assert(ps == 1);
        assert(u == m) by (nonlinear_arith)
            requires
                u == m * ps,
                ps == 1,
        ;
        assert(num < den * pow2(24)) by (nonlinear_arith)
            requires
                num == (2 * u) * den,
                u < 0x80_0000,
                pow2(24) == 0x100_0000,
                den > 0,
        ;
        lemma_last_place(num, den, 0);
        let whole = den * pow2(0);
        assert(whole == den) by (nonlinear_arith)
            requires
                whole == den * pow2(0),
                pow2(0) == 1,
        ;
        lemma_fundamental_div_mod_converse(num, den, 2 * u, 0);
        assert(nearest_even(num, whole) == 2 * u);
        let bits = 2 * u;
        assert(significand(bits) == bits);
        assert(scale(bits) == 0);
        assert(bits * 1 == bits);
    }
}

/// The cell of a number of units: half points, cut to an integer, in range.
spec fn cell(units: int) -> int {
    let p = pow2(149) as int;
    let n = if units < 0 {
        -((-2 * units) / p)
    } else {
        (2 * units) / p
    };
    if n < i32::MIN {
        i32::MIN as int
    } else if n > i32::MAX {
        i32::MAX as int
    } else {
        n
    }
}

proof fn lemma_grid_cell(x: Single)
    requires
        x.is_finite(),
    ensures
        grid(x) == cell(x.units()),
{
    reveal(Single::times);
    reveal(Single::integer_part);
    lemma2_to64();
    let two = Single { bits: TWO };
    assert(two.mag() == 0x4000_0000);
    assert(significand(0x4000_0000int) == 0x80_0000);
    assert(scale(0x4000_0000int) == 127);
    lemma_pow2_adds(23, 127);
    assert(two.abs_units() == pow2(150));
    let u = x.abs_units();
    lemma_doubled(x.mag());
    let d = round_magnitude(u * pow2(150), pow2(149) as int);
    let t = x.times(two);
    assert(t == signed(x.is_negative(), d));
    assert(t.mag() == d && t.is_negative() == x.is_negative());
    let p = pow2(149) as int;
    lemma_pow2_pos(149);
    if d == INFINITY_BITS {
        lemma_infinity_units();
        lemma_pow2_adds(128, 149);
        lemma_pow2_strictly_increases(32, 128);
        let big = pow2(128) as int;
        assert((2 * u) / p >= big && pow2(277) as int / p >= big) by (nonlinear_arith)
            requires
                p > 0,
                2 * u >= pow2(277),
                pow2(277) == big * p,
        ;
    } else {
        if u == 0 {
            assert(0int / p == 0) by (nonlinear_arith)
                requires
                    p > 0,
            ;
        }
    }
}

/// Numbers less than `p` apart have quotients that differ by at most one.
proof fn lemma_quotients(x: int, y: int, p: int)
    requires
        p > 0,
        x - y < p,
    ensures
        x / p <= y / p + 1,
{
    lemma_fundamental_div_mod(x, p);
    lemma_fundamental_div_mod(y, p);
    let a = x / p;
    let b = y / p;
    assert(a <= b + 1) by (nonlinear_arith)
        requires
            x == p * a + x % p,
            y == p * b + y % p,
            0 <= x % p,
            y % p < p,
            x - y < p,
            p > 0,
    ;
}

/// Near coordinates lie in the same cell, or in neighbouring ones.
pub proof fn lemma_near_cells(a: Single, b: Single)
    requires
        near(a, b),
    ensures
        -1 <= grid(a) - grid(b) <= 1,
{
    lemma_near_units(a, b);
    lemma_grid_cell(a);
    lemma_grid_cell(b);
    lemma_pow2_unfold(149);
    lemma_pow2_pos(149);
    let p = pow2(149) as int;
    let x = a.units();
    let y = b.units();
    assert(-p < 2 * x - 2 * y < p);
    if x >= 0 && y >= 0 {
        lemma_quotients(2 * x, 2 * y, p);
        lemma_quotients(2 * y, 2 * x, p);
    } else if x < 0 && y < 0 {
        lemma_quotients(-2 * x, -2 * y, p);
        lemma_quotients(-2 * y, -2 * x, p);
    } else if x < 0 {
        lemma_fundamental_div_mod_converse(-2 * x, p, 0, -2 * x);
        lemma_fundamental_div_mod_converse(2 * y, p, 0, 2 * y);
    } else {
        lemma_fundamental_div_mod_converse(2 * x, p, 0, 2 * x);
        lemma_fundamental_div_mod_converse(-2 * y, p, 0, -2 * y);
    }
}

} // verus!
