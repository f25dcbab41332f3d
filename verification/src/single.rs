//! IEEE 754 single precision in integer arithmetic.
//!
//! A `Single` is the bit pattern of a 32-bit float. Each operation is stated on
//! exact integers: the operands are whole numbers of 2^-149, the result is the
//! exact result rounded once, ties to even. An invalid operation gives the quiet
//! NaN `NAN`.

use crate::rounding::{
    bracketed, lemma_up_pos, max_int, power_of_two, round_bracketed,
    round_magnitude, up, INFINITY_BITS,
};
use vstd::arithmetic::power2::{
    lemma2_to64, lemma_pow2_adds, lemma_pow2_pos, lemma_pow2_strictly_increases, lemma_pow2_unfold,
    pow2,
};
use vstd::prelude::*;

verus! {

/// The sign bit.
pub const SIGN_BIT: u32 = 0x8000_0000;

/// A 32-bit float, by its bits. Two of them are equal when their bits are.
#[derive(Clone, Copy, Debug, PartialEq, Eq, Structural)]
pub struct Single {
    pub bits: u32,
}

/// The bits of the quiet NaN that invalid operations give.
pub const NAN: u32 = 0x7fc0_0000;

pub const ZERO: u32 = 0;

/// 0.01
pub const HUNDREDTH: u32 = 0x3c23_d70a;

/// 0.4
pub const TWO_FIFTHS: u32 = 0x3ecc_cccd;

/// 0.5
pub const HALF: u32 = 0x3f00_0000;

pub const ONE: u32 = 0x3f80_0000;

/// 1.2
pub const SIX_FIFTHS: u32 = 0x3f99_999a;

pub const TWO: u32 = 0x4000_0000;

pub const FOUR: u32 = 0x4080_0000;

pub const TWELVE: u32 = 0x4140_0000;

pub const EIGHTY: u32 = 0x42a0_0000;

pub const HUNDRED_TWENTY: u32 = 0x42f0_0000;

/// 255
pub const BYTE_MAX: u32 = 0x437f_0000;

pub const THOUSAND: u32 = 0x447a_0000;

pub const INFINITY: u32 = 0x7f80_0000;

pub const NEG_INFINITY: u32 = 0xff80_0000;

/// The significand of the non-negative single with bits `mag`.
pub open spec fn significand(mag: int) -> int {
    if mag / 0x80_0000 == 0 {
        mag
    } else {
        mag % 0x80_0000 + 0x80_0000
    }
}

/// The exponent that scales the significand to units of 2^-149.
pub open spec fn scale(mag: int) -> nat {
    if mag / 0x80_0000 == 0 {
        0
    } else {
        (mag / 0x80_0000 - 1) as nat
    }
}

/// The value of the non-negative single with bits `mag`, in units of 2^-149;
/// for infinity, a number above every finite value.
pub open spec fn magnitude_units(mag: int) -> int {
    significand(mag) * pow2(scale(mag))
}

/// The single with the given sign and magnitude bits.
pub open spec fn signed(negative: bool, mag: int) -> Single {
    Single {
        bits: (if negative {
            mag + SIGN_BIT
        } else {
            mag
        }) as u32,
    }
}

impl Single {
    pub open spec fn is_negative(self) -> bool {
        self.bits >= SIGN_BIT
    }

    /// The bits without the sign.
    pub open spec fn mag(self) -> int {
        (self.bits % SIGN_BIT) as int
    }

    pub open spec fn is_nan(self) -> bool {
        self.mag() > INFINITY_BITS
    }

    pub open spec fn is_infinite(self) -> bool {
        self.mag() == INFINITY_BITS
    }

    pub open spec fn is_finite(self) -> bool {
        self.mag() < INFINITY_BITS
    }

    /// The size of the value in units of 2^-149.
    pub open spec fn abs_units(self) -> int {
        magnitude_units(self.mag())
    }

    /// The value in units of 2^-149.
    pub open spec fn units(self) -> int {
        if self.is_negative() {
            -self.abs_units()
        } else {
            self.abs_units()
        }
    }

    /// `-x`: the sign bit turned.
    pub open spec fn negated(self) -> Single {
        signed(!self.is_negative(), self.mag())
    }

    /// `|x|`: the sign bit cleared.
    pub open spec fn absolute(self) -> Single {
        signed(false, self.mag())
    }

    /// `x * y`
    #[verifier::opaque]
    pub open spec fn times(self, other: Single) -> Single {
        let negative = self.is_negative() != other.is_negative();
        if self.is_nan() || other.is_nan() {
            Single { bits: NAN }
        } else if self.is_infinite() || other.is_infinite() {
            if self.mag() == 0 || other.mag() == 0 {
                Single { bits: NAN }
            } else {
                signed(negative, INFINITY_BITS as int)
            }
        } else {
            signed(
                negative,
                round_magnitude(self.abs_units() * other.abs_units(), pow2(149) as int),
            )
        }
    }

    /// `x / y`
    #[verifier::opaque]
    pub open spec fn over(self, other: Single) -> Single {
        let negative = self.is_negative() != other.is_negative();
        if self.is_nan() || other.is_nan() {
            Single { bits: NAN }
        } else if self.is_infinite() {
            if other.is_infinite() {
                Single { bits: NAN }
            } else {
                signed(negative, INFINITY_BITS as int)
            }
        } else if other.is_infinite() {
            signed(negative, 0)
        } else if other.mag() == 0 {
            if self.mag() == 0 {
                Single { bits: NAN }
            } else {
                signed(negative, INFINITY_BITS as int)
            }
        } else {
            signed(negative, round_magnitude(self.abs_units() * pow2(149), other.abs_units()))
        }
    }

    /// `x + y`; a zero sum is negative only where both operands are.
    #[verifier::opaque]
    pub open spec fn plus(self, other: Single) -> Single {
        if self.is_nan() || other.is_nan() {
            Single { bits: NAN }
        } else if self.is_infinite() {
            if other.is_infinite() && self.is_negative() != other.is_negative() {
                Single { bits: NAN }
            } else {
                self
            }
        } else if other.is_infinite() {
            other
        } else {
            let sum = self.units() + other.units();
            if sum == 0 {
                signed(self.is_negative() && other.is_negative(), 0)
            } else if sum < 0 {
                signed(true, round_magnitude(-sum, 1))
            } else {
                signed(false, round_magnitude(sum, 1))
            }
        }
    }

    /// `x - y`
    pub open spec fn minus(self, other: Single) -> Single {
        self.plus(other.negated())
    }

    /// `x < y`, false where either is NaN.
    #[verifier::opaque]
    pub open spec fn less_than(self, other: Single) -> bool {
        !self.is_nan() && !other.is_nan() && self.units() < other.units()
    }

    /// `x >= y`, false where either is NaN.
    #[verifier::opaque]
    pub open spec fn at_least(self, other: Single) -> bool {
        !self.is_nan() && !other.is_nan() && self.units() >= other.units()
    }

    /// `x == y` as numbers: zeros of either sign are equal, NaN equals nothing.
    #[verifier::opaque]
    pub open spec fn same_number(self, other: Single) -> bool {
        !self.is_nan() && !other.is_nan() && self.units() == other.units()
    }

    /// The lesser of two numbers; the other one where one is NaN.
    pub open spec fn lesser(self, other: Single) -> Single {
        if self.is_nan() || other.less_than(self) {
            other
        } else {
            self
        }
    }

    /// The greater of two numbers; the other one where one is NaN.
    pub open spec fn greater(self, other: Single) -> Single {
        if self.is_nan() || self.less_than(other) {
            other
        } else {
            self
        }
    }

    /// The integer part, clamped to `lo..=hi`; 0 clamped for NaN.
    #[verifier::opaque]
    pub open spec fn integer_part(self, lo: int, hi: int) -> int {
        let whole = self.abs_units() / pow2(149) as int;
        let n = if self.is_nan() {
            0
        } else if self.is_negative() {
            -whole
        } else {
            whole
        };
        if n < lo {
            lo
        } else if n > hi {
            hi
        } else {
            n
        }
    }
}

/// The single nearest to an integer.
#[verifier::opaque]
pub open spec fn single_of_int(n: int) -> Single {
    if n < 0 {
        signed(true, round_magnitude(-n * pow2(149), 1))
    } else {
        signed(false, round_magnitude(n * pow2(149), 1))
    }
}

proof fn lemma_decoded(mag: int)
    requires
        0 <= mag <= INFINITY_BITS,
    ensures
        0 <= significand(mag) < 0x100_0000,
        scale(mag) <= 254,
        mag < INFINITY_BITS ==> scale(mag) <= 253,
        scale(mag) > 0 ==> significand(mag) >= 0x80_0000,
        significand(mag) == 0 <==> mag == 0,
        magnitude_units(mag) >= 0,
        magnitude_units(mag) == 0 <==> mag == 0,
{
    lemma_pow2_pos(scale(mag));
    let m = significand(mag);
    let p = pow2(scale(mag)) as int;
    assert(m * p >= 0) by (nonlinear_arith)
        requires
            m >= 0,
            p > 0,
    ;
    assert(m * p == 0 <==> m == 0) by (nonlinear_arith)
        requires
            m >= 0,
            p > 0,
    ;
}

/// Only the zeros have no units.
pub proof fn lemma_zero_units(x: Single)
    ensures
        !x.is_nan() ==> (x.units() == 0 <==> x.mag() == 0),
{
    if !x.is_nan() {
        lemma_decoded(x.mag());
    }
}

/// `2^149 * 2^up = 2^a`, over exponents of either sign.
proof fn lemma_scaled(a: nat, b: nat, e: int)
    requires
        a == b + e,
    ensures
        pow2(a) * up(-e) == pow2(b) * up(e),
{
    let ep = max_int(e, 0) as nat;
    let en = max_int(-e, 0) as nat;
    lemma2_to64();
    lemma_pow2_adds(a, en);
    lemma_pow2_adds(b, ep);
    assert(a + en == b + ep);
}

impl Single {
    /// The single with the given bits.
    #[verifier::allow_in_spec]
    pub fn from_bits(bits: u32) -> (r: Single)
        returns
            (Single { bits }),
    {
        Single { bits }
    }

    fn negative(self) -> (r: bool)
        ensures
            r == self.is_negative(),
    {
        self.bits >= SIGN_BIT
    }

    fn magnitude(self) -> (r: u32)
        ensures
            r == self.mag(),
            r < SIGN_BIT,
    {
        self.bits % SIGN_BIT
    }

    fn pack(negative: bool, mag: u32) -> (r: Single)
        requires
            mag < SIGN_BIT,
        ensures
            r == signed(negative, mag as int),
    {
        if negative {
            Single { bits: mag + SIGN_BIT }
        } else {
            Single { bits: mag }
        }
    }

    fn unpack(mag: u32) -> (r: (u64, u32))
        requires
            mag < INFINITY_BITS,
        ensures
            r.0 == significand(mag as int),
            r.1 == scale(mag as int),
            r.0 < 0x100_0000,
            r.1 <= 253,
            r.1 > 0 ==> r.0 >= 0x80_0000,
            r.0 == 0 <==> mag == 0,
    {
        proof {
            lemma_decoded(mag as int);
        }
        let e: u32 = mag / 0x80_0000;
        if e == 0 {
            (mag as u64, 0)
        } else {
            ((mag % 0x80_0000 + 0x80_0000) as u64, e - 1)
        }
    }

    /// `-x`
    pub fn neg(self) -> (r: Single)
        ensures
            r == self.negated(),
    {
        Single::pack(!self.negative(), self.magnitude())
    }

    /// `|x|`
    pub fn abs(self) -> (r: Single)
        ensures
            r == self.absolute(),
    {
        Single::pack(false, self.magnitude())
    }

    /// `x * y`
    pub fn mul(self, other: Single) -> (r: Single)
        ensures
            r == self.times(other),
    {
        proof {
            reveal(Single::times);
        }
        let negative = self.negative() != other.negative();
        let a: u32 = self.magnitude();
        let b: u32 = other.magnitude();
        if a > INFINITY_BITS || b > INFINITY_BITS {
            return Single { bits: NAN };
        }
        if a == INFINITY_BITS || b == INFINITY_BITS {
            if a == 0 || b == 0 {
                return Single { bits: NAN };
            }
            return Single::pack(negative, INFINITY_BITS);
        }
        let (ma, sa) = Single::unpack(a);
        let (mb, sb) = Single::unpack(b);
        assert(ma * mb < 0x1_0000_0000_0000) by (nonlinear_arith)
            requires
                ma < 0x100_0000,
                mb < 0x100_0000,
        ;
        let m: u64 = ma * mb;
        let e: i32 = sa as i32 + sb as i32 - 149;
        let ghost num = self.abs_units() * other.abs_units();
        let ghost den = pow2(149) as int;
        proof {
            lemma_pow2_pos(149);
            lemma_pow2_adds(sa as nat, sb as nat);
            lemma_scaled((sa + sb) as nat, 149, e as int);
            let pa = pow2(sa as nat) as int;
            let pb = pow2(sb as nat) as int;
            let x = up(-(e as int));
            let y = up(e as int);
            assert(num * x == m * y * den) by (nonlinear_arith)
                requires
                    num == (ma * pa) * (mb * pb),
                    m == ma * mb,
                    (pa * pb) * x == den * y,
            {
                assert((ma * pa) * (mb * pb) * x == (ma * mb) * ((pa * pb) * x))
                    by (nonlinear_arith);
            }
        }
        let bits: u32 = round_bracketed(m as u128, e, false, Ghost(num), Ghost(den));
        Single::pack(negative, bits)
    }

    /// `x / y`
    pub fn div(self, other: Single) -> (r: Single)
        ensures
            r == self.over(other),
    {
        proof {
            reveal(Single::over);
        }
        let negative = self.negative() != other.negative();
        let a: u32 = self.magnitude();
        let b: u32 = other.magnitude();
        if a > INFINITY_BITS || b > INFINITY_BITS {
            return Single { bits: NAN };
        }
        if a == INFINITY_BITS {
            if b == INFINITY_BITS {
                return Single { bits: NAN };
            }
            return Single::pack(negative, INFINITY_BITS);
        }
        if b == INFINITY_BITS {
            return Single::pack(negative, 0);
        }
        if b == 0 {
            if a == 0 {
                return Single { bits: NAN };
            }
            return Single::pack(negative, INFINITY_BITS);
        }
        let (ma, sa) = Single::unpack(a);
        let (mb, sb) = Single::unpack(b);
        let wide: u128 = ma as u128 * 0x1_0000_0000_0000_0000;
        let q: u128 = wide / mb as u128;
        let rem: u128 = wide % mb as u128;
        let e: i32 = sa as i32 - sb as i32 + 85;
        let sticky = rem != 0;
        let ghost num = self.abs_units() * pow2(149);
        let ghost den = other.abs_units();
        proof {
            lemma_decoded(b as int);
            vstd::arithmetic::div_mod::lemma_fundamental_div_mod(wide as int, mb as int);
            lemma2_to64();
            vstd::arithmetic::power2::lemma2_to64_rest();
            lemma_pow2_adds(sa as nat, 149);
            lemma_pow2_adds(64, sb as nat);
            lemma_scaled((sa + 149) as nat, (64 + sb) as nat, e as int);
            lemma_pow2_pos(sb as nat);
            lemma_up_pos(e as int);
            let pa = pow2(sa as nat) as int;
            let pb = pow2(sb as nat) as int;
            let p149 = pow2(149) as int;
            let x = up(-(e as int));
            let y = up(e as int);
            let w = pb * y;
            assert(w > 0) by (nonlinear_arith)
                requires
                    w == pb * y,
                    pb > 0,
                    y > 0,
            ;
            assert(num * x == wide * w) by (nonlinear_arith)
                requires
                    num == (ma * pa) * p149,
                    (pa * p149) * x == (0x1_0000_0000_0000_0000 * pb) * y,
                    w == pb * y,
                    wide == ma * 0x1_0000_0000_0000_0000,
            {
                assert((ma * pa) * p149 * x == ma * ((pa * p149) * x)) by (nonlinear_arith);
            }
            assert(q * y * den == q * mb * w) by (nonlinear_arith)
                requires
                    den == mb * pb,
                    w == pb * y,
            ;
            assert((q + 1) * y * den == q * mb * w + mb * w) by (nonlinear_arith)
                requires
                    den == mb * pb,
                    w == pb * y,
            ;
            assert(wide * w == q * mb * w + rem * w) by (nonlinear_arith)
                requires
                    wide == mb * q + rem,
            ;
            assert(rem * w < mb * w) by (nonlinear_arith)
                requires
                    rem < mb,
                    w > 0,
            ;
            if sticky {
                assert(rem * w > 0) by (nonlinear_arith)
                    requires
                        rem > 0,
                        w > 0,
                ;
                assert(q >= 0x400_0000) by (nonlinear_arith)
                    requires
                        wide == mb * q + rem,
                        rem < mb,
                        mb < 0x100_0000,
                        wide >= 0x1_0000_0000_0000_0000,
                ;
            }
            assert(0 * w == 0) by (nonlinear_arith);
            assert(q <= wide) by (nonlinear_arith)
                requires
                    wide == mb * q + rem,
                    mb >= 1,
                    rem >= 0,
                    q >= 0,
            ;
        }
        let bits: u32 = round_bracketed(q, e, sticky, Ghost(num), Ghost(den));
        Single::pack(negative, bits)
    }
}

/// More bits, more value.
pub proof fn lemma_magnitude_monotone(a: int, b: int)
    requires
        0 <= a < b <= INFINITY_BITS,
    ensures
        magnitude_units(a) < magnitude_units(b),
{
    lemma_decoded(a);
    lemma_decoded(b);
    lemma2_to64();
    let ea = a / 0x80_0000;
    let eb = b / 0x80_0000;
    let ma = significand(a);
    let mb = significand(b);
    let pa = pow2(scale(a)) as int;
    let pb = pow2(scale(b)) as int;
    lemma_pow2_pos(scale(a));
    lemma_pow2_pos(scale(b));
    if ea == eb {
        assert(ma * pa < mb * pa) by (nonlinear_arith)
            requires
                ma < mb,
                pa > 0,
        ;
    } else if ea == 0 {
        assert(ma * 1 < mb * pb) by (nonlinear_arith)
            requires
                ma < 0x80_0000,
                mb >= 0x80_0000,
                pb >= 1,
        ;
    } else {
        lemma_pow2_unfold(scale(a) + 1);
        if scale(a) + 1 < scale(b) {
            lemma_pow2_strictly_increases(scale(a) + 1, scale(b));
        }
        assert(ma * pa < mb * pb) by (nonlinear_arith)
            requires
                ma < 0x100_0000,
                mb >= 0x80_0000,
                pb >= 2 * pa,
                pa > 0,
        ;
    }
}

/// The order of two numbers from the order of their bits.
proof fn lemma_order(a: Single, b: Single)
    requires
        !a.is_nan(),
        !b.is_nan(),
    ensures
        a.units() < b.units() <==> a.rank() < b.rank(),
        a.units() == b.units() <==> a.rank() == b.rank(),
{
    lemma_decoded(a.mag());
    lemma_decoded(b.mag());
    if a.mag() < b.mag() {
        lemma_magnitude_monotone(a.mag(), b.mag());
    } else if b.mag() < a.mag() {
        lemma_magnitude_monotone(b.mag(), a.mag());
    }
}

/// The sum of two singles of very different size, bracketed.
proof fn lemma_far_sum(ma: int, sa: nat, mb: int, sb: nat)
    requires
        0x80_0000 <= ma < 0x100_0000,
        0 < mb < 0x100_0000,
        sa > sb + 64,
    ensures
        bracketed(
            ma * pow2(sa) + mb * pow2(sb),
            1,
            ma * 0x100_0000_0000,
            sa - 40,
            true,
        ),
        bracketed(
            ma * pow2(sa) - mb * pow2(sb),
            1,
            ma * 0x100_0000_0000 - 1,
            sa - 40,
            true,
        ),
        ma * pow2(sa) > mb * pow2(sb),
{
    let e = (sa - 40) as nat;
    lemma2_to64();
    vstd::arithmetic::power2::lemma2_to64_rest();
    lemma_pow2_adds(40, e);
    lemma_pow2_adds(24, sb);
    lemma_pow2_pos(sb);
    lemma_pow2_pos(e);
    lemma_pow2_strictly_increases(24 + sb, e);
    let pe = pow2(e) as int;
    let pb = pow2(sb) as int;
    let small = mb * pb;
    assert(0 < small < pe) by (nonlinear_arith)
        requires
            small == mb * pb,
            0 < mb < 0x100_0000,
            0x100_0000 * pb < pe,
            pb > 0,
    ;
    let big = ma * pow2(sa);
    assert(big == (ma * 0x100_0000_0000) * pe) by (nonlinear_arith)
        requires
            big == ma * (0x100_0000_0000 * pe),
    ;
    let m = ma * 0x100_0000_0000;
    assert((m + 1) * pe * 1 == m * pe + pe) by (nonlinear_arith);
    assert((m - 1) * pe * 1 == m * pe - pe) by (nonlinear_arith);
    assert((m - 1 + 1) * pe * 1 == m * pe) by (nonlinear_arith);
    assert(up(e as int) == pe);
    assert(up(-(e as int)) == 1);
    assert(m * pe > small) by (nonlinear_arith)
        requires
            small < pe,
            m >= 1,
            pe > 0,
    ;
}

impl Single {
    /// The signed bits, which order numbers as their values do.
    spec fn rank(self) -> int {
        if self.is_negative() {
            -self.mag()
        } else {
            self.mag()
        }
    }

    fn signed_bits(self) -> (r: i64)
        ensures
            r == self.rank(),
    {
        if self.negative() {
            -(self.magnitude() as i64)
        } else {
            self.magnitude() as i64
        }
    }

    fn not_a_number(self) -> (r: bool)
        ensures
            r == self.is_nan(),
    {
        self.magnitude() > INFINITY_BITS
    }

    /// `x < y`
    pub fn lt(self, other: Single) -> (r: bool)
        ensures
            r == self.less_than(other),
    {
        proof {
            reveal(Single::less_than);
            if !self.is_nan() && !other.is_nan() {
                lemma_order(self, other);
            }
        }
        !self.not_a_number() && !other.not_a_number() && self.signed_bits() < other.signed_bits()
    }

    /// `x > y`
    pub fn gt(self, other: Single) -> (r: bool)
        ensures
            r == other.less_than(self),
    {
        other.lt(self)
    }

    /// `x >= y`
    pub fn ge(self, other: Single) -> (r: bool)
        ensures
            r == self.at_least(other),
    {
        proof {
            reveal(Single::at_least);
            if !self.is_nan() && !other.is_nan() {
                lemma_order(self, other);
            }
        }
        !self.not_a_number() && !other.not_a_number() && self.signed_bits() >= other.signed_bits()
    }

    /// `x == y` as numbers
    pub fn equals(self, other: Single) -> (r: bool)
        ensures
            r == self.same_number(other),
    {
        proof {
            reveal(Single::same_number);
            if !self.is_nan() && !other.is_nan() {
                lemma_order(self, other);
            }
        }
        !self.not_a_number() && !other.not_a_number() && self.signed_bits() == other.signed_bits()
    }

    /// The lesser of two numbers
    pub fn min(self, other: Single) -> (r: Single)
        ensures
            r == self.lesser(other),
    {
        if self.not_a_number() || other.lt(self) {
            other
        } else {
            self
        }
    }

    /// The greater of two numbers
    pub fn max(self, other: Single) -> (r: Single)
        ensures
            r == self.greater(other),
    {
        if self.not_a_number() || self.lt(other) {
            other
        } else {
            self
        }
    }

    /// `x + y`
    pub fn add(self, other: Single) -> (r: Single)
        ensures
            r == self.plus(other),
    {
        proof {
            reveal(Single::plus);
        }
        let a: u32 = self.magnitude();
        let b: u32 = other.magnitude();
        if a > INFINITY_BITS || b > INFINITY_BITS {
            return Single { bits: NAN };
        }
        if a == INFINITY_BITS {
            if b == INFINITY_BITS && self.negative() != other.negative() {
                return Single { bits: NAN };
            }
            return self;
        }
        if b == INFINITY_BITS {
            return other;
        }
        if Single::unpack(a).1 >= Single::unpack(b).1 {
            Single::add_ordered(self, other)
        } else {
            Single::add_ordered(other, self)
        }
    }

    /// The sum of two finite numbers, the one of the larger scale first.
    fn add_ordered(x: Single, y: Single) -> (r: Single)
        requires
            x.is_finite(),
            y.is_finite(),
            scale(x.mag()) >= scale(y.mag()),
        ensures
            r == x.plus(y),
            r == y.plus(x),
    {
        proof {
            reveal(Single::plus);
            lemma_decoded(x.mag());
            lemma_decoded(y.mag());
            lemma2_to64();
        }
        let nx = x.negative();
        let ny = y.negative();
        let (ma, sa) = Single::unpack(x.magnitude());
        let (mb, sb) = Single::unpack(y.magnitude());
        let d: u32 = sa - sb;
        let ghost sum = x.units() + y.units();
        if d <= 64 {
            let p: u128 = power_of_two(d);
            proof {
                vstd::arithmetic::power2::lemma2_to64_rest();
                if d < 64 {
                    lemma_pow2_strictly_increases(d as nat, 64);
                }
                assert(ma * p <= 0x100_0000 * 0x1_0000_0000_0000_0000) by (nonlinear_arith)
                    requires
                        ma < 0x100_0000,
                        p <= 0x1_0000_0000_0000_0000,
                ;
                assert(ma * p >= 0) by (nonlinear_arith)
                    requires
                        ma >= 0,
                        p >= 0,
                ;
            }
            let wide: i128 = (ma as u128 * p) as i128;
            let left: i128 = if nx { -wide } else { wide };
            let right: i128 = if ny { -(mb as i128) } else { mb as i128 };
            let total: i128 = left + right;
            proof {
                lemma_pow2_adds(d as nat, sb as nat);
                lemma_pow2_pos(sb as nat);
                let pb = pow2(sb as nat) as int;
                let pa = pow2(sa as nat) as int;
                assert(ma * pa == wide * pb) by (nonlinear_arith)
                    requires
                        pa == p * pb,
                        wide == ma * p,
                ;
                assert((-wide) * pb == -(wide * pb)) by (nonlinear_arith);
                assert((-(mb as int)) * pb == -(mb * pb)) by (nonlinear_arith);
                assert(total * pb == left * pb + right * pb) by (nonlinear_arith)
                    requires
                        total == left + right,
                ;
                assert(sum == total * pb);
                assert(total == 0 <==> total * pb == 0) by (nonlinear_arith)
                    requires
                        pb > 0,
                ;
                assert(total < 0 <==> total * pb < 0) by (nonlinear_arith)
                    requires
                        pb > 0,
                ;
                assert((-total) * pb == -(total * pb)) by (nonlinear_arith);
                assert(up(-(sb as int)) == 1);
            }
            if total == 0 {
                Single::pack(nx && ny, 0)
            } else if total < 0 {
                let bits: u32 = round_bracketed(
                    (-total) as u128,
                    sb as i32,
                    false,
                    Ghost(-sum),
                    Ghost(1),
                );
                Single::pack(true, bits)
            } else {
                let bits: u32 = round_bracketed(
                    total as u128,
                    sb as i32,
                    false,
                    Ghost(sum),
                    Ghost(1),
                );
                Single::pack(false, bits)
            }
        } else if mb == 0 {
            proof {
                lemma_pow2_pos(sa as nat);
                let pa = pow2(sa as nat) as int;
                assert(ma * pa > 0) by (nonlinear_arith)
                    requires
                        ma > 0,
                        pa > 0,
                ;
                assert(0 * pow2(sb as nat) == 0) by (nonlinear_arith);
                assert(up(-(sa as int)) == 1);
            }
            let bits: u32 = round_bracketed(
                ma as u128,
                sa as i32,
                false,
                Ghost(if nx { -sum } else { sum }),
                Ghost(1),
            );
            Single::pack(nx, bits)
        } else {
            proof {
                lemma_far_sum(ma as int, sa as nat, mb as int, sb as nat);
            }
            let top: u128 = ma as u128 * 0x100_0000_0000;
            let m: u128 = if nx == ny { top } else { top - 1 };
            let bits: u32 = round_bracketed(
                m,
                sa as i32 - 40,
                true,
                Ghost(if nx { -sum } else { sum }),
                Ghost(1),
            );
            Single::pack(nx, bits)
        }
    }

    /// `x - y`
    pub fn sub(self, other: Single) -> (r: Single)
        ensures
            r == self.minus(other),
    {
        self.add(other.neg())
    }

    /// The integer part, clamped.
    fn truncate(self, lo: i64, hi: i64) -> (r: i64)
        requires
            -0x100_0000_0000 < lo <= 0 <= hi < 0x100_0000_0000,
        ensures
            r == self.integer_part(lo as int, hi as int),
    {
        proof {
            reveal(Single::integer_part);
            lemma_decoded(if self.is_nan() { 0 } else { self.mag() });
        }
        let mag: u32 = self.magnitude();
        if mag > INFINITY_BITS {
            return 0;
        }
        let whole: i128;
        let ghost exact = self.abs_units() / pow2(149) as int;
        if mag >= 0x5f00_0000 {
            proof {
                let m = significand(self.mag());
                let s = scale(self.mag());
                lemma_truncated_large(m, s);
            }
            whole = 0x100_0000_0000;
        } else {
            let (m, s) = Single::unpack(mag);
            if s >= 149 {
                let p: u128 = power_of_two(s - 149);
                proof {
                    lemma_truncated_up(m as int, s as nat);
                    lemma2_to64();
                    vstd::arithmetic::power2::lemma2_to64_rest();
                    if s - 149 < 40 {
                        lemma_pow2_strictly_increases((s - 149) as nat, 40);
                    }
                    assert(m * p <= 0x100_0000 * 0x100_0000_0000) by (nonlinear_arith)
                        requires
                            m < 0x100_0000,
                            p <= 0x100_0000_0000,
                    ;
                }
                whole = (m as u128 * p) as i128;
            } else if s <= 125 {
                proof {
                    lemma2_to64();
                    lemma_pow2_pos((149 - s) as nat);
                    if 24 < 149 - s {
                        lemma_pow2_strictly_increases(24, (149 - s) as nat);
                    }
                    lemma_truncated_down(m as int, s as nat);
                    vstd::arithmetic::div_mod::lemma_basic_div(m as int, pow2((149 - s) as nat) as int);
                }
                whole = 0;
            } else {
                let p: u128 = power_of_two(149 - s);
                proof {
                    lemma_truncated_down(m as int, s as nat);
                }
                whole = (m as u128 / p) as i128;
            }
        }
        let n: i128 = if self.negative() { -whole } else { whole };
        if n < lo as i128 {
            lo
        } else if n > hi as i128 {
            hi
        } else {
            n as i64
        }
    }

    /// `x as i32`
    pub fn to_i32(self) -> (r: i32)
        ensures
            r == self.integer_part(i32::MIN as int, i32::MAX as int),
    {
        proof {
            reveal(Single::integer_part);
        }
        self.truncate(-0x8000_0000, 0x7fff_ffff) as i32
    }

    /// `x as u8`
    pub fn to_u8(self) -> (r: u8)
        ensures
            r == self.integer_part(0, 255),
    {
        proof {
            reveal(Single::integer_part);
        }
        self.truncate(0, 255) as u8
    }

    /// `n as f32` for a signed integer
    pub fn from_i64(n: i64) -> (r: Single)
        ensures
            r == single_of_int(n as int),
    {
        proof {
            reveal(single_of_int);
        }
        if n < 0 {
            let m: u128 = (-(n as i128)) as u128;
            Single::pack(true, Single::round_integer(m))
        } else {
            Single::pack(false, Single::round_integer(n as u128))
        }
    }

    /// `n as f32` for an unsigned integer
    pub fn from_u64(n: u64) -> (r: Single)
        ensures
            r == single_of_int(n as int),
    {
        proof {
            reveal(single_of_int);
        }
        Single::pack(false, Single::round_integer(n as u128))
    }

    fn round_integer(m: u128) -> (bits: u32)
        requires
            m <= 0xffff_ffff_ffff_ffff,
        ensures
            bits == round_magnitude(m * pow2(149), 1),
            bits <= INFINITY_BITS,
    {
        proof {
            lemma2_to64();
            assert(up(-149) == 1);
        }
        round_bracketed(m, 149, false, Ghost(m * pow2(149)), Ghost(1))
    }
}

proof fn lemma_truncated_up(m: int, s: nat)
    requires
        s >= 149,
    ensures
        (m * pow2(s)) / pow2(149) as int == m * pow2((s - 149) as nat),
{
    lemma_pow2_adds((s - 149) as nat, 149);
    lemma_pow2_pos(149);
    let p = pow2(149) as int;
    let x = pow2((s - 149) as nat) as int;
    assert(m * pow2(s) == (m * x) * p + 0) by (nonlinear_arith)
        requires
            pow2(s) == x * p,
    ;
    vstd::arithmetic::div_mod::lemma_fundamental_div_mod_converse(m * pow2(s), p, m * x, 0);
}

proof fn lemma_truncated_down(m: int, s: nat)
    requires
        m >= 0,
        s < 149,
    ensures
        (m * pow2(s)) / pow2(149) as int == m / pow2((149 - s) as nat) as int,
{
    let d = pow2((149 - s) as nat) as int;
    let p = pow2(s) as int;
    lemma_pow2_adds((149 - s) as nat, s);
    lemma_pow2_pos((149 - s) as nat);
    lemma_pow2_pos(s);
    vstd::arithmetic::div_mod::lemma_fundamental_div_mod(m, d);
    let q = m / d;
    let r = m % d;
    vstd::arithmetic::div_mod::lemma_mod_bound(m, d);
    assert(m * p == q * (d * p) + r * p) by (nonlinear_arith)
        requires
            m == d * q + r,
    ;
    assert(0 <= r * p < d * p) by (nonlinear_arith)
        requires
            0 <= r < d,
            p > 0,
    ;
    vstd::arithmetic::div_mod::lemma_fundamental_div_mod_converse(m * p, d * p, q, r * p);
}

proof fn lemma_truncated_large(m: int, s: nat)
    requires
        m >= 0x80_0000,
        s >= 189,
    ensures
        (m * pow2(s)) / pow2(149) as int >= 0x100_0000_0000,
{
    lemma_truncated_up(m, s);
    lemma2_to64();
    vstd::arithmetic::power2::lemma2_to64_rest();
    if 40 < s - 149 {
        lemma_pow2_strictly_increases(40, (s - 149) as nat);
    }
    let x = pow2((s - 149) as nat) as int;
    assert(m * x >= 0x100_0000_0000) by (nonlinear_arith)
        requires
            m >= 1,
            x >= 0x100_0000_0000,
    ;
}

} // verus!
