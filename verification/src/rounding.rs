//! Rounding an exact ratio to the nearest IEEE 754 single.
//!
//! Magnitudes are counted in units of 2^-149, the smallest positive single:
//! every finite single is a whole number of them. A ratio `num / den` of such
//! units is rounded to 24 significant bits, ties to even.

use vstd::arithmetic::div_mod::lemma_fundamental_div_mod_converse;
use vstd::arithmetic::power2::{
    lemma2_to64, lemma_pow2_adds, lemma_pow2_pos, lemma_pow2_strictly_increases, lemma_pow2_unfold,
    pow2,
};
use vstd::prelude::*;

verus! {

/// The bits of positive infinity.
pub const INFINITY_BITS: u32 = 0x7f80_0000;

/// The integer nearest to `num / den`, the even one of two equally near.
pub open spec fn nearest_even(num: int, den: int) -> int {
    let q = num / den;
    let r = num % den;
    if 2 * r < den || (2 * r == den && q % 2 == 0) {
        q
    } else {
        q + 1
    }
}

/// The exponent of the last place of `num / den`: the least `k` for which the
/// ratio is below 2^(24 + k).
pub open spec fn last_place(num: int, den: int) -> nat
    decreases num - den,
{
    if den <= 0 || num < den * 0x100_0000 {
        0
    } else {
        1 + last_place(num, den * 2)
    }
}

/// The bits of the non-negative single nearest to `num / den` units; what is
/// too large for a finite single becomes infinity.
pub open spec fn round_magnitude(num: int, den: int) -> int {
    let k = last_place(num, den);
    let bits = k * 0x80_0000 + nearest_even(num, den * pow2(k));
    if bits < INFINITY_BITS {
        bits
    } else {
        INFINITY_BITS as int
    }
}

/// 2^e for a non-negative `e`, and 1 for a negative one.
pub open spec fn up(e: int) -> int {
    if e >= 0 {
        pow2(e as nat) as int
    } else {
        1
    }
}

/// `num / den` is `m * 2^e`, or lies strictly between `m * 2^e` and
/// `(m + 1) * 2^e` where `sticky` holds.
pub open spec fn bracketed(num: int, den: int, m: int, e: int, sticky: bool) -> bool {
    &&& den > 0
    &&& sticky ==> m * up(e) * den < num * up(-e) && num * up(-e) < (m + 1) * up(e) * den
    &&& !sticky ==> num * up(-e) == m * up(e) * den
}

pub proof fn lemma_up_pos(e: int)
    ensures
        up(e) > 0,
{
    if e >= 0 {
        lemma_pow2_pos(e as nat);
    }
}

/// `k` is the last place once the ratio lies below 2^(24 + k) and, for a
/// positive `k`, not below 2^(23 + k).
pub proof fn lemma_last_place(num: int, den: int, k: nat)
    requires
        den > 0,
        num < den * pow2(k + 24),
        k > 0 ==> num >= den * pow2((k + 23) as nat),
    ensures
        last_place(num, den) == k,
    decreases k,
{
    lemma2_to64();
    lemma_pow2_pos(k);
    if k == 0 {
    } else {
        lemma_pow2_adds(24, (k - 1) as nat);
        lemma_pow2_pos((k - 1) as nat);
        let p = pow2((k - 1) as nat) as int;
        assert(pow2((k + 23) as nat) == 0x100_0000 * p);
        assert(den * (0x100_0000 * p) >= den * 0x100_0000) by (nonlinear_arith)
            requires
                den > 0,
                p >= 1,
        ;
        lemma_pow2_unfold(k + 24);
        lemma_pow2_unfold((k + 23) as nat);
        assert(den * pow2(k + 24) == (den * 2) * pow2((k + 23) as nat)) by (nonlinear_arith)
            requires
                pow2(k + 24) == 2 * pow2((k + 23) as nat),
        ;
        assert(den * pow2((k + 23) as nat) == (den * 2) * pow2((k + 22) as nat))
            by (nonlinear_arith)
            requires
                pow2((k + 23) as nat) == 2 * pow2((k + 22) as nat),
        ;
        lemma_last_place(num, den * 2, (k - 1) as nat);
    }
}

/// Which way a remainder known only up to `extra` rounds.
proof fn lemma_nearest_even_split(
    num: int,
    d: int,
    scale: int,
    n: int,
    rem: int,
    half: int,
    w: int,
    extra: int,
)
    requires
        d > 0,
        scale > 0,
        w > 0,
        half > 0,
        scale * d == 2 * half * w,
        0 <= rem < 2 * half,
        0 <= extra < w,
        scale * num == scale * (n * d) + rem * w + extra,
    ensures
        nearest_even(num, d) == if rem > half || (rem == half && (extra > 0 || n % 2 != 0)) {
            n + 1
        } else {
            n
        },
{
    let r = num - n * d;
    assert(scale * r == rem * w + extra) by (nonlinear_arith)
        requires
            r == num - n * d,
            scale * num == scale * (n * d) + rem * w + extra,
    ;
    assert(r >= 0) by (nonlinear_arith)
        requires
            scale * r == rem * w + extra,
            rem >= 0,
            w > 0,
            extra >= 0,
            scale > 0,
    ;
    assert(rem * w + extra < 2 * half * w) by (nonlinear_arith)
        requires
            rem <= 2 * half - 1,
            extra < w,
            w > 0,
    ;
    assert(r < d) by (nonlinear_arith)
        requires
            scale * r < scale * d,
            scale > 0,
    ;
    lemma_fundamental_div_mod_converse(num, d, n, r);
    assert(scale * (2 * r) == 2 * (rem * w + extra)) by (nonlinear_arith)
        requires
            scale * r == rem * w + extra,
    ;
    if rem < half {
        assert(2 * (rem * w + extra) < 2 * half * w) by (nonlinear_arith)
            requires
                rem <= half - 1,
                extra < w,
                w > 0,
        ;
        assert(2 * r < d) by (nonlinear_arith)
            requires
                scale * (2 * r) < scale * d,
                scale > 0,
        ;
    } else if rem > half || extra > 0 {
        assert(2 * (rem * w + extra) > 2 * half * w) by (nonlinear_arith)
            requires
                rem > half || (rem >= half && extra > 0),
                extra >= 0,
                w > 0,
        ;
        assert(2 * r > d) by (nonlinear_arith)
            requires
                scale * (2 * r) > scale * d,
                scale > 0,
        ;
    } else {
        assert(2 * (rem * w + extra) == 2 * half * w) by (nonlinear_arith)
            requires
                rem == half,
                extra == 0,
        ;
        assert(2 * r == d) by (nonlinear_arith)
            requires
                scale * (2 * r) == scale * d,
                scale > 0,
        ;
    }
}

pub open spec fn max_int(a: int, b: int) -> int {
    if a > b {
        a
    } else {
        b
    }
}

/// The last place of a bracketed ratio, from the bit length of its lower end.
proof fn lemma_bracketed_last_place(
    num: int,
    den: int,
    m: int,
    e: int,
    sticky: bool,
    len: nat,
    k: nat,
)
    requires
        bracketed(num, den, m, e, sticky),
        len > 0,
        pow2((len - 1) as nat) <= m < pow2(len),
        k == max_int(0, len - 24 + e),
    ensures
        last_place(num, den) == k,
{
    let ep = max_int(e, 0) as nat;
    let en = max_int(-e, 0) as nat;
    let p = up(e);
    let q = up(-e);
    lemma2_to64();
    assert(p == pow2(ep) && q == pow2(en));
    lemma_pow2_pos(ep);
    lemma_pow2_pos(en);
    let top = pow2(len) as int;
    let x = num * q;
    assert(x < top * p * den) by (nonlinear_arith)
        requires
            x == m * p * den || x < (m + 1) * p * den,
            m + 1 <= top,
            p > 0,
            den > 0,
    ;
    // 2^len * p <= 2^(k + 24) * q
    lemma_pow2_adds(len, ep);
    lemma_pow2_adds(k + 24, en);
    if len + ep < k + 24 + en {
        lemma_pow2_strictly_increases(len + ep, k + 24 + en);
    }
    let lim = pow2(k + 24) as int;
    assert(top * p <= lim * q);
    assert(num < den * lim) by (nonlinear_arith)
        requires
            num * q < top * p * den,
            top * p <= lim * q,
            q > 0,
            den > 0,
    {
        assert(top * p * den <= lim * q * den) by (nonlinear_arith)
            requires
                top * p <= lim * q,
                den > 0,
        ;
        assert(lim * q * den == (den * lim) * q) by (nonlinear_arith);
    }
    if k > 0 {
        let low = pow2((len - 1) as nat) as int;
        let base = pow2((k + 23) as nat) as int;
        lemma_pow2_adds((len - 1) as nat, ep);
        lemma_pow2_adds((k + 23) as nat, en);
        assert((len - 1) as nat + ep == (k + 23) as nat + en);
        assert(low * p == base * q);
        assert(num >= den * base) by (nonlinear_arith)
            requires
                num * q >= m * p * den,
                m >= low,
                p > 0,
                low * p == base * q,
                q > 0,
                den > 0,
        {
            assert(m * p * den >= low * p * den) by (nonlinear_arith)
                requires
                    m >= low,
                    p > 0,
                    den > 0,
            ;
            assert(low * p * den == (den * base) * q) by (nonlinear_arith)
                requires
                    low * p == base * q,
            ;
        }
    }
    lemma_last_place(num, den, k);
}

/// Dropping `t` low bits of a bracketed ratio rounds it to the last place `k`.
proof fn lemma_bracketed_round_down(
    num: int,
    den: int,
    m: int,
    e: int,
    sticky: bool,
    k: nat,
    t: nat,
    n: int,
    rem: int,
)
    requires
        bracketed(num, den, m, e, sticky),
        t > 0,
        k == t + e,
        m == n * pow2(t) + rem,
        0 <= rem < pow2(t),
    ensures
        nearest_even(num, den * pow2(k)) == if rem > pow2((t - 1) as nat) || (rem == pow2(
            (t - 1) as nat,
        ) && (sticky || n % 2 != 0)) {
            n + 1
        } else {
            n
        },
{
    let ep = max_int(e, 0) as nat;
    let en = max_int(-e, 0) as nat;
    let p = up(e);
    let q = up(-e);
    lemma2_to64();
    lemma_pow2_pos(ep);
    lemma_pow2_pos(en);
    lemma_pow2_pos(k);
    lemma_pow2_pos((t - 1) as nat);
    lemma_pow2_unfold(t);
    let half = pow2((t - 1) as nat) as int;
    let kk = pow2(k) as int;
    lemma_pow2_adds(t, ep);
    lemma_pow2_adds(k, en);
    assert(t + ep == k + en);
    assert(2 * half * p == kk * q);
    let d = den * kk;
    let w = p * den;
    let extra = num * q - m * p * den;
    assert(m * p * den == m * w) by (nonlinear_arith)
        requires
            w == p * den,
    ;
    assert((m + 1) * p * den == m * w + w) by (nonlinear_arith)
        requires
            w == p * den,
    ;
    assert(w > 0) by (nonlinear_arith)
        requires
            w == p * den,
            p > 0,
            den > 0,
    ;
    assert(d > 0) by (nonlinear_arith)
        requires
            d == den * kk,
            kk > 0,
            den > 0,
    ;
    assert(q * d == 2 * half * w) by (nonlinear_arith)
        requires
            d == den * kk,
            w == p * den,
            2 * half * p == kk * q,
    ;
    assert(q * num == q * (n * d) + rem * w + extra) by (nonlinear_arith)
        requires
            extra == num * q - m * w,
            m == n * (2 * half) + rem,
            q * d == 2 * half * w,
    {
        assert(m * w == n * (2 * half * w) + rem * w) by (nonlinear_arith)
            requires
                m == n * (2 * half) + rem,
        ;
        assert(q * (n * d) == n * (q * d)) by (nonlinear_arith);
    }
    lemma_nearest_even_split(num, d, q, n, rem, half, w, extra);
}

/// A ratio with no bit below its last place is rounded to itself.
proof fn lemma_bracketed_exact(num: int, den: int, m: int, e: int, k: nat, s: nat, n: int)
    requires
        bracketed(num, den, m, e, false),
        e == k + s,
        n == m * pow2(s),
    ensures
        nearest_even(num, den * pow2(k)) == n,
{
    lemma2_to64();
    lemma_pow2_adds(k, s);
    lemma_pow2_pos(k);
    let kk = pow2(k) as int;
    let ss = pow2(s) as int;
    let d = den * kk;
    assert(up(-e) == 1);
    assert(num == n * d + 0) by (nonlinear_arith)
        requires
            num * 1 == m * (kk * ss) * den,
            n == m * ss,
            d == den * kk,
    ;
    assert(d > 0) by (nonlinear_arith)
        requires
            d == den * kk,
            kk > 0,
            den > 0,
    ;
    lemma_fundamental_div_mod_converse(num, d, n, 0);
}

/// `2^t`.
pub(crate) fn power_of_two(t: u32) -> (p: u128)
    requires
        t <= 127,
    ensures
        p == pow2(t as nat),
        p > 0,
{
    let mut p: u128 = 1;
    let mut i: u32 = 0;
    proof {
        lemma2_to64();
    }
    while i < t
        invariant
            i <= t <= 127,
            p == pow2(i as nat),
            p > 0,
        decreases t - i,
    {
        proof {
            lemma_pow2_unfold((i + 1) as nat);
            lemma_pow2_bound((i + 1) as nat);
        }
        p = p * 2;
        i = i + 1;
    }
    p
}

pub proof fn lemma_pow2_bound(t: nat)
    requires
        t <= 127,
    ensures
        pow2(t) <= 0x8000_0000_0000_0000_0000_0000_0000_0000,
{
    lemma2_to64();
    vstd::arithmetic::power2::lemma2_to64_rest();
    lemma_pow2_adds(63, 64);
    if t < 127 {
        lemma_pow2_strictly_increases(t, 127);
    }
}

/// The number of bits of a positive `m`.
fn bit_length(m: u128) -> (len: u32)
    requires
        0 < m < 0x8000_0000_0000_0000_0000_0000_0000_0000,
    ensures
        0 < len <= 127,
        pow2((len - 1) as nat) <= m < pow2(len as nat),
{
    let mut len: u32 = 1;
    let mut top: u128 = 2;
    proof {
        lemma2_to64();
    }
    while top <= m
        invariant
            0 < len <= 127,
            top == pow2(len as nat),
            pow2((len - 1) as nat) <= m < 0x8000_0000_0000_0000_0000_0000_0000_0000,
        decreases 127 - len,
    {
        proof {
            if len == 127 {
                lemma2_to64();
                vstd::arithmetic::power2::lemma2_to64_rest();
                lemma_pow2_adds(63, 64);
            }
            lemma_pow2_unfold((len + 1) as nat);
        }
        top = top * 2;
        len = len + 1;
    }
    len
}

/// The bits of the single nearest to a ratio bracketed by `m`, `e` and `sticky`.
pub(crate) fn round_bracketed(m: u128, e: i32, sticky: bool, num: Ghost<int>, den: Ghost<int>) -> (bits: u32)
    requires
        m < 0x8000_0000_0000_0000_0000_0000_0000_0000,
        -600 <= e <= 600,
        sticky ==> m >= 0x400_0000,
        bracketed(num@, den@, m as int, e as int, sticky),
    ensures
        bits == round_magnitude(num@, den@),
        bits <= INFINITY_BITS,
{
    if m == 0 {
        proof {
            let q = up(-(e as int));
            lemma_up_pos(-(e as int));
            assert(0 * up(e as int) * den@ == 0) by (nonlinear_arith);
            assert(num@ == 0) by (nonlinear_arith)
                requires
                    num@ * q == 0,
                    q > 0,
            ;
            lemma2_to64();
            lemma_fundamental_div_mod_converse(0, den@, 0, 0);
            assert(den@ * 1 == den@);
        }
        return 0;
    }
    let len: u32 = bit_length(m);
    let place: i32 = len as i32 - 24 + e;
    let k: i32 = if place > 0 { place } else { 0 };
    let t: i32 = k - e;
    proof {
        lemma_bracketed_last_place(num@, den@, m as int, e as int, sticky, len as nat, k as nat);
        lemma2_to64();
        if sticky && len <= 26 {
            if len < 26 {
                lemma_pow2_strictly_increases(len as nat, 26);
            }
        }
    }
    let n: u64;
    if t <= 0 {
        let p: u128 = power_of_two((-t) as u32);
        proof {
            lemma_pow2_adds(len as nat, (-t) as nat);
            if len - t < 24 {
                lemma_pow2_strictly_increases((len - t) as nat, 24);
            }
            lemma_pow2_pos((-t) as nat);
            let top = pow2(len as nat) as int;
            assert(m * p < top * p) by (nonlinear_arith)
                requires
                    m < top,
                    p > 0,
            ;
            lemma_bracketed_exact(num@, den@, m as int, e as int, k as nat, (-t) as nat, m * p);
        }
        n = (m * p) as u64;
    } else if t <= 127 {
        let p: u128 = power_of_two(t as u32);
        let half: u128 = power_of_two((t - 1) as u32);
        let q: u128 = m / p;
        let rem: u128 = m % p;
        proof {
            lemma_pow2_pos(t as nat);
            vstd::arithmetic::div_mod::lemma_fundamental_div_mod(m as int, p as int);
            assert(m == q * p + rem) by (nonlinear_arith)
                requires
                    m == p * q + rem,
            ;
            assert(q < 0x100_0000) by {
                lemma_pow2_adds(24, t as nat);
                if len < 24 + t {
                    lemma_pow2_strictly_increases(len as nat, (24 + t) as nat);
                }
                assert(q < 0x100_0000) by (nonlinear_arith)
                    requires
                        m < 0x100_0000 * p,
                        m == q * p + rem,
                        rem >= 0,
                        p > 0,
                ;
            }
            lemma_bracketed_round_down(
                num@,
                den@,
                m as int,
                e as int,
                sticky,
                k as nat,
                t as nat,
                q as int,
                rem as int,
            );
        }
        if rem > half || (rem == half && (sticky || q % 2 != 0)) {
            n = q as u64 + 1;
        } else {
            n = q as u64;
        }
    } else {
        proof {
            lemma_pow2_bound(127);
            lemma_pow2_adds(63, 64);
            vstd::arithmetic::power2::lemma2_to64_rest();
            if 127 < t - 1 {
                lemma_pow2_strictly_increases(127, (t - 1) as nat);
            }
            lemma_pow2_strictly_increases((t - 1) as nat, t as nat);
            assert(0 * pow2(t as nat) == 0) by (nonlinear_arith);
            lemma_bracketed_round_down(
                num@,
                den@,
                m as int,
                e as int,
                sticky,
                k as nat,
                t as nat,
                0,
                m as int,
            );
        }
        n = 0;
    }
    let bits: u64 = k as u64 * 0x80_0000 + n;
    if bits < INFINITY_BITS as u64 {
        bits as u32
    } else {
        INFINITY_BITS
    }
}

} // verus!
