//! Integer divide and square root with the results of the DS math coprocessor.
//!
//! The coprocessor never traps: a zero divisor yields a saturated quotient, and
//! a quotient too wide for the result register keeps its low 32 bits.

use vstd::arithmetic::power2::{lemma2_to64, lemma_pow2_adds, lemma_pow2_pos, lemma_pow2_strictly_increases, pow2};
use vstd::bits::{lemma_u64_pow2_no_overflow, lemma_u64_shl_is_mul, lemma_u64_shr_is_div};
use vstd::math::abs;
use vstd::prelude::*;
use vstd::std_specs::bits::{axiom_u64_leading_zeros, u64_leading_zeros};

verus! {

/// The two's-complement reading of the low 32 bits of `x`.
pub open spec fn wrap32(x: int) -> int {
    ((x + 0x8000_0000) % 0x1_0000_0000) - 0x8000_0000
}

/// Quotient of `n` by `d`, rounded toward zero.
pub open spec fn trunc_div(n: int, d: int) -> int
    recommends
        d != 0,
{
    let magnitude = abs(n) as int / abs(d) as int;
    if (n >= 0) == (d > 0) {
        magnitude
    } else {
        -magnitude
    }
}

/// What the divide unit leaves in its 32-bit result register.
pub open spec fn quotient(n: int, d: int) -> int {
    if d == 0 {
        if n >= 0 {
            i32::MAX as int
        } else {
            i32::MIN as int
        }
    } else {
        wrap32(trunc_div(n, d))
    }
}

/// `r` is the square root of `x`, rounded down.
pub open spec fn is_isqrt(x: nat, r: nat) -> bool {
    r * r <= x < (r + 1) * (r + 1)
}

/// The square root of `x`, rounded down.
pub open spec fn isqrt(x: nat) -> nat {
    choose|r: nat| is_isqrt(x, r)
}

/// Every natural number has a rounded-down square root.
proof fn lemma_isqrt_exists(x: nat) -> (r: nat)
    ensures
        is_isqrt(x, r),
    decreases x,
{
    if x == 0 {
        assert(0nat * 0nat == 0 && (0nat + 1) * (0nat + 1) == 1) by (nonlinear_arith);
        0
    } else {
        let p = lemma_isqrt_exists((x - 1) as nat);
        if (p + 1) * (p + 1) <= x {
            assert((p + 2) * (p + 2) > (p + 1) * (p + 1)) by (nonlinear_arith);
            p + 1
        } else {
            p
        }
    }
}

/// At most one number is the rounded-down square root of `x`.
pub proof fn lemma_isqrt_unique(x: nat, a: nat, b: nat)
    requires
        is_isqrt(x, a),
        is_isqrt(x, b),
    ensures
        a == b,
{
    if a < b {
        assert((a + 1) * (a + 1) <= b * b) by (nonlinear_arith)
            requires
                a < b,
        ;
    }
    if b < a {
        assert((b + 1) * (b + 1) <= a * a) by (nonlinear_arith)
            requires
                b < a,
        ;
    }
}

/// The square root that `isqrt` names squares to at most `x`, and the next
/// number up squares to more.
pub proof fn lemma_isqrt(x: nat)
    ensures
        is_isqrt(x, isqrt(x)),
{
    let r = lemma_isqrt_exists(x);
    assert(is_isqrt(x, r));
}

/// A larger radicand never has a smaller root.
pub proof fn lemma_isqrt_monotonic(x: nat, y: nat)
    requires
        x <= y,
    ensures
        isqrt(x) <= isqrt(y),
{
    lemma_isqrt(x);
    lemma_isqrt(y);
    let a = isqrt(x);
    let b = isqrt(y);
    if b < a {
        assert((b + 1) * (b + 1) <= a * a) by (nonlinear_arith)
            requires
                b < a,
        ;
    }
}

/// The root of a perfect square is exact.
pub proof fn lemma_isqrt_square(r: nat)
    ensures
        isqrt(r * r) == r,
{
    assert(r * r < (r + 1) * (r + 1)) by (nonlinear_arith);
    lemma_isqrt(r * r);
    lemma_isqrt_unique(r * r, isqrt(r * r), r);
}

/// Rounding toward zero in terms of division by a negative number.
proof fn lemma_divide_by_negative(n: int, d: int)
    ensures
        d < 0 && n >= 0 ==> n / d == -(n / (-d)),
        d < 0 && n < 0 ==> (-n) / d == -((-n) / (-d)),
        d != 0 ==> 0 <= abs(n) as int / abs(d) as int <= abs(n),
        d < -1 ==> 2 * (abs(n) as int / abs(d) as int) <= abs(n),
{
    if d != 0 {
        let a = abs(n) as int;
        let b = abs(d) as int;
        assert(0 <= a / b <= a) by (nonlinear_arith)
            requires
                a >= 0,
                b > 0,
        ;
        if d < -1 {
            assert(2 * (a / b) <= a) by (nonlinear_arith)
                requires
                    a >= 0,
                    b >= 2,
            ;
        }
    }
    if d < 0 && n >= 0 {
        assert(n / d == -(n / (-d))) by (nonlinear_arith)
            requires
                d < 0,
                n >= 0,
        ;
    }
    if d < 0 && n < 0 {
        let m = -n;
        assert(m / d == -(m / (-d))) by (nonlinear_arith)
            requires
                d < 0,
                m >= 0,
        ;
    }
}

/// Keep the low 32 bits of `x`.
pub fn truncate32(x: i64) -> (r: i32)
    ensures
        r == wrap32(x as int),
{
    assert((x as i32) == ((x + 0x8000_0000) % 0x1_0000_0000) - 0x8000_0000) by (bit_vector);
    x as i32
}

/// 32-bit signed division: `num / den`, with the divide unit's saturated
/// result for a zero divisor and its wrapped result for `i32::MIN / -1`.
pub fn div_32(num: i32, den: i32) -> (r: i32)
    ensures
        r == quotient(num as int, den as int),
{
    soft_div_32(num, den)
}

/// 64/32-bit signed division: the low 32 bits of `num / den`. This is what a
/// 20.12 division needs, its numerator shifted up by the fraction first.
pub fn div_64_32(num: i64, den: i32) -> (r: i32)
    ensures
        r == quotient(num as int, den as int),
{
    soft_div_64_32(num, den)
}

/// 32-bit unsigned square root, rounded down.
pub fn sqrt_u32(x: u32) -> (r: u32)
    ensures
        is_isqrt(x as nat, r as nat),
        r == isqrt(x as nat),
{
    soft_sqrt_u32(x)
}

/// 64-bit unsigned square root, rounded down. The root of any 64-bit number
/// fits 32 bits.
pub fn sqrt_u64(x: u64) -> (r: u32)
    ensures
        is_isqrt(x as nat, r as nat),
        r == isqrt(x as nat),
{
    soft_sqrt_u64(x)
}

/// Software form of [`div_32`].
pub fn soft_div_32(num: i32, den: i32) -> (r: i32)
    ensures
        r == quotient(num as int, den as int),
{
    if den == 0 {
        if num >= 0 {
            i32::MAX
        } else {
            i32::MIN
        }
    } else {
        let q: i64 = num as i64 / den as i64;
        proof {
            lemma_divide_by_negative(num as int, den as int);
        }
        truncate32(q)
    }
}

/// Software form of [`div_64_32`].
pub fn soft_div_64_32(num: i64, den: i32) -> (r: i32)
    ensures
        r == quotient(num as int, den as int),
{
    if den == 0 {
        return if num >= 0 {
            i32::MAX
        } else {
            i32::MIN
        };
    }
    if den == -1 {
        assert(abs(num as int) as int / 1 == abs(num as int));
        return truncate32(0i64.wrapping_sub(num));
    }
    let q: i64 = num / den as i64;
    proof {
        lemma_divide_by_negative(num as int, den as int);
    }
    truncate32(q)
}

/// Software form of [`sqrt_u32`].
pub fn soft_sqrt_u32(x: u32) -> (r: u32)
    ensures
        is_isqrt(x as nat, r as nat),
        r == isqrt(x as nat),
{
    soft_sqrt_u64(x as u64)
}

/// One Newton step from an estimate that is not below the root: the next
/// estimate is not below the root either.
proof fn lemma_newton_stays_above(x: nat, r: nat)
    requires
        r > 0,
    ensures
        x < ((r + x / r) / 2 + 1) * ((r + x / r) / 2 + 1),
{
    let q = x / r;
    let s = (r + q) / 2;
    assert(x < r * (q + 1)) by (nonlinear_arith)
        requires
            r > 0,
            q == x / r,
    ;
    // (r + q + 1)^2 >= 4 r (q + 1), and 2 (s + 1) >= r + q + 1.
    assert(2 * (s + 1) >= r + q + 1);
    assert((2 * (s + 1)) * (2 * (s + 1)) >= (r + q + 1) * (r + q + 1)) by (nonlinear_arith)
        requires
            2 * (s + 1) >= r + q + 1,
    ;
    assert((r + q + 1) * (r + q + 1) >= 4 * (r * (q + 1))) by (nonlinear_arith);
    assert((2 * (s + 1)) * (2 * (s + 1)) == 4 * ((s + 1) * (s + 1))) by (nonlinear_arith);
}

/// Where a Newton step no longer goes down, the estimate squares to at most `x`.
proof fn lemma_newton_done(x: nat, r: nat)
    requires
        r > 0,
        (r + x / r) / 2 >= r,
    ensures
        r * r <= x,
{
    let q = x / r;
    assert(q >= r);
    assert(r * q <= x) by (nonlinear_arith)
        requires
            r > 0,
            q == x / r,
    ;
    assert(r * r <= r * q) by (nonlinear_arith)
        requires
            q >= r,
    ;
}

/// The power of two that starts the Newton iteration is above the root.
proof fn lemma_newton_start(x: u64, half: u32)
    requires
        x != 0,
        1 <= half <= 32,
        x < pow2((2 * half) as nat),
    ensures
        0 < (1u64 << half) <= 0x1_0000_0000,
        x < (1u64 << half) * (1u64 << half),
{
    lemma_u64_pow2_no_overflow(half as nat);
    lemma_u64_shl_is_mul(1u64, half as u64);
    assert((1u64 << (half as u64)) == (1u64 << half));
    lemma_pow2_adds(half as nat, half as nat);
    lemma2_to64();
    if half < 32 {
        lemma_pow2_strictly_increases(half as nat, 32);
    }
    lemma_pow2_pos(half as nat);
}

/// Software form of [`sqrt_u64`]: Newton's iteration on integers, from a power
/// of two above the root down to the root.
pub fn soft_sqrt_u64(x: u64) -> (r: u32)
    ensures
        is_isqrt(x as nat, r as nat),
        r == isqrt(x as nat),
{
    if x == 0 {
        proof {
            lemma_isqrt_square(0);
            lemma_isqrt(0);
        }
        return 0;
    }
    let bits: u32 = 64 - x.leading_zeros();
    let half: u32 = (bits + 1) / 2;
    proof {
        lemma_leading_zeros_bound(x);
        lemma_newton_start(x, half);
    }
    let mut r: u64 = 1u64 << half;
    proof {
        assert(x < (r + 1) * (r + 1)) by (nonlinear_arith)
            requires
                x < r * r,
                r > 0,
        ;
    }
    loop
        invariant
            x > 0,
            0 < r <= 0x1_0000_0000,
            x < (r + 1) * (r + 1),
        decreases r,
    {
        let q: u64 = x / r;
        proof {
            assert(r + q < 0xFFFF_FFFF_FFFF_FFFF) by {
                assert(q < r + 3) by (nonlinear_arith)
                    requires
                        r > 0,
                        q == x / r,
                        x < (r + 1) * (r + 1),
                ;
            }
        }
        let next: u64 = (r + q) / 2;
        proof {
            lemma_newton_stays_above(x as nat, r as nat);
        }
        if next >= r {
            proof {
                lemma_newton_done(x as nat, r as nat);
                assert(r < 0x1_0000_0000) by (nonlinear_arith)
                    requires
                        r * r <= x,
                        x <= 0xFFFF_FFFF_FFFF_FFFF,
                ;
                lemma_isqrt(x as nat);
                lemma_isqrt_unique(x as nat, isqrt(x as nat), r as nat);
            }
            return r as u32;
        }
        proof {
            assert(next > 0) by {
                if r == 1 {
                    assert(q == x);
                }
            }
        }
        r = next;
    }
}

/// A number with `n` leading zero bits is below `2^(64 - n)`.
proof fn lemma_leading_zeros_bound(x: u64)
    requires
        x != 0,
    ensures
        u64_leading_zeros(x) < 64,
        x < pow2((64 - u64_leading_zeros(x)) as nat),
        x < pow2((2 * ((64 - u64_leading_zeros(x) + 1) / 2)) as nat),
{
    let n = u64_leading_zeros(x);
    axiom_u64_leading_zeros(x);
    let k: u64 = (64 - n) as u64;
    lemma2_to64();
    if n > 0 {
        assert(x >> k == 0);
        lemma_u64_shr_is_div(x, k);
        lemma_pow2_pos(k as nat);
        assert(x < pow2(k as nat)) by {
            vstd::arithmetic::div_mod::lemma_fundamental_div_mod(x as int, pow2(k as nat) as int);
            vstd::arithmetic::div_mod::lemma_mod_bound(x as int, pow2(k as nat) as int);
        }
    }
    if k % 2 == 1 {
        lemma_pow2_strictly_increases(k as nat, (k + 1) as nat);
    }
}

} // verus!
