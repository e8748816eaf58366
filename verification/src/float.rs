//! Single-precision numbers as bit patterns.
//!
//! Weights, scores, similarities and vector components are held as the 32 bits of the number. The
//! engine copies them, compares them and works out one quotient, all on the bits.

use vstd::arithmetic::power2::*;
use vstd::prelude::*;

verus! {

/// The bits of 1.0.
pub const F32_ONE: u32 = 0x3f80_0000;

/// The bits of positive infinity.
pub const F32_INFINITY: u32 = 0x7f80_0000;

/// The magnitude of a bit pattern: its bits without the sign.
pub open spec fn f32_magnitude(bits: u32) -> int {
    if bits >= 0x8000_0000u32 {
        bits - 0x8000_0000
    } else {
        bits as int
    }
}

pub open spec fn f32_is_nan(bits: u32) -> bool {
    f32_magnitude(bits) > F32_INFINITY
}

/// A number whose order is the order of the values that the bits stand for.
pub open spec fn f32_rank(bits: u32) -> int {
    if bits >= 0x8000_0000u32 {
        -f32_magnitude(bits)
    } else {
        f32_magnitude(bits)
    }
}

/// `a < b`, false when either is not a number.
pub open spec fn f32_less(a: u32, b: u32) -> bool {
    !f32_is_nan(a) && !f32_is_nan(b) && f32_rank(a) < f32_rank(b)
}

/// `a >= b`, false when either is not a number.
pub open spec fn f32_at_least(a: u32, b: u32) -> bool {
    !f32_is_nan(a) && !f32_is_nan(b) && f32_rank(a) >= f32_rank(b)
}

/// Computes the rank of a number.
pub fn rank(bits: u32) -> (r: i64)
    ensures
        r == f32_rank(bits),
        -0x8000_0000 < r < 0x8000_0000,
{
    if bits >= 0x8000_0000u32 {
        -((bits - 0x8000_0000u32) as i64)
    } else {
        bits as i64
    }
}

pub fn is_nan(bits: u32) -> (r: bool)
    ensures
        r == f32_is_nan(bits),
{
    let magnitude: u32 = if bits >= 0x8000_0000u32 {
        bits - 0x8000_0000u32
    } else {
        bits
    };
    magnitude > F32_INFINITY
}

pub fn less(a: u32, b: u32) -> (r: bool)
    ensures
        r == f32_less(a, b),
{
    !is_nan(a) && !is_nan(b) && rank(a) < rank(b)
}

pub fn at_least(a: u32, b: u32) -> (r: bool)
    ensures
        r == f32_at_least(a, b),
{
    !is_nan(a) && !is_nan(b) && rank(a) >= rank(b)
}

// ── quotients ────────────────────────────────────────────────────────────────

/// `n / d` rounded to the nearest integer, ties to even.
pub open spec fn div_half_even(n: nat, d: nat) -> nat {
    let q = n / d;
    let r = n % d;
    if 2 * r > d || (2 * r == d && q % 2 == 1) {
        q + 1
    } else {
        q
    }
}

/// How many bits `n` has beyond the 24 that a single-precision number keeps.
pub open spec fn excess_bits(n: nat) -> nat
    decreases n,
{
    if n < 0x100_0000 {
        0
    } else {
        1 + excess_bits(n / 2)
    }
}

/// The integer `n` rounded to 24 significant bits: the value it has in single precision.
pub open spec fn round_to_f32(n: nat) -> nat {
    div_half_even(n, pow2(excess_bits(n))) * pow2(excess_bits(n))
}

/// How far `x` is below `limit`.
pub open spec fn room_below(x: nat, limit: nat) -> nat {
    if x < limit {
        (limit - x) as nat
    } else {
        0
    }
}

/// The doublings that bring `x / y` up to at least 2^23.
pub open spec fn doublings(x: nat, y: nat) -> nat
    decreases room_below(x, 0x80_0000 * y),
{
    if x == 0 || x >= 0x80_0000 * y {
        0
    } else {
        1 + doublings(2 * x, y)
    }
}

/// The bits of `a / b` in single precision, for a part `a` of a whole `b`.
pub open spec fn f32_part(a: nat, b: nat) -> int {
    let x = round_to_f32(a);
    let y = round_to_f32(b);
    if x == 0 {
        0
    } else if x >= y {
        F32_ONE as int
    } else {
        let s = doublings(x, y);
        (149 - s) * 0x80_0000 + div_half_even(x * pow2(s), y)
    }
}

proof fn lemma_doublings(x: nat, y: nat)
    requires
        0 < x < 0x100_0000 * y,
    ensures
        0x80_0000 * y <= x * pow2(doublings(x, y)) < 0x100_0000 * y,
    decreases room_below(x, 0x80_0000 * y),
{
    if x >= 0x80_0000 * y {
        lemma2_to64();
        assert(x * pow2(0) == x) by (nonlinear_arith)
            requires
                pow2(0) == 1,
        ;
    } else {
        lemma_doublings(2 * x, y);
        let s = doublings(2 * x, y);
        lemma_pow2_unfold(s + 1);
        assert(2 * x * pow2(s) == x * pow2(s + 1)) by (nonlinear_arith)
            requires
                pow2(s + 1) == 2 * pow2(s),
        ;
    }
}

proof fn lemma_small_doublings(x: nat, y: nat)
    requires
        0 < x < y,
    ensures
        doublings(x, y) >= 24,
{
    reveal_with_fuel(doublings, 25);
}

proof fn lemma_div_half_even_bound(n: nat, d: nat, q: nat)
    requires
        0 < d,
        n < q * d,
    ensures
        div_half_even(n, d) <= q,
{
    assert(n / d < q) by (nonlinear_arith)
        requires
            0 < d,
            n < q * d,
    ;
}

proof fn lemma_round_to_f32(n: nat)
    requires
        n < 0x2_0000_0000,
    ensures
        excess_bits(n) <= 9,
        round_to_f32(n) <= 0x2_0000_0000,
        n > 0 ==> round_to_f32(n) > 0,
{
    let e = excess_bits(n);
    reveal_with_fuel(excess_bits, 10);
    lemma2_to64();
    let d = pow2(e);
    lemma_excess_bits(n);
    lemma_div_half_even_bound(n, d, 0x100_0000);
    let q = div_half_even(n, d);
    assert(q * d <= 0x100_0000 * 0x200) by (nonlinear_arith)
        requires
            q <= 0x100_0000,
            d <= 0x200,
    ;
    if n > 0 {
        assert(q > 0) by {
            if e > 0 {
                assert(n / d >= 1) by (nonlinear_arith)
                    requires
                        n >= d,
                        d > 0,
                ;
            } else {
                assert(n / 1 == n);
            }
        }
        assert(q * d > 0) by (nonlinear_arith)
            requires
                q > 0,
                d > 0,
        ;
    }
}

proof fn lemma_excess_bits(n: nat)
    ensures
        n < 0x100_0000 * pow2(excess_bits(n)),
        excess_bits(n) > 0 ==> n >= pow2(excess_bits(n)),
    decreases n,
{
    lemma2_to64();
    if n >= 0x100_0000 {
        lemma_excess_bits(n / 2);
        let e = excess_bits(n / 2);
        lemma_pow2_unfold(e + 1);
        if e == 0 {
            assert(pow2(1) == 2);
        }
    }
}

/// The value that the integer `n` has in single precision.
fn round_uint(n: u64) -> (r: u64)
    requires
        n < 0x2_0000_0000,
    ensures
        r == round_to_f32(n as nat),
        r <= 0x2_0000_0000,
        n > 0 ==> r > 0,
{
    proof {
        lemma_round_to_f32(n as nat);
        lemma2_to64();
    }
    let mut rest: u64 = n;
    let mut d: u64 = 1;
    let ghost mut e: nat = 0;
    while rest >= 0x100_0000u64
        invariant
            excess_bits(n as nat) == e + excess_bits(rest as nat),
            excess_bits(n as nat) <= 9,
            d == pow2(e),
            d <= 0x200,
        decreases rest,
    {
        proof {
            lemma_pow2_unfold(e + 1);
            assert(excess_bits(rest as nat) == 1 + excess_bits(rest as nat / 2));
            lemma2_to64();
            if e + 1 < 9 {
                lemma_pow2_strictly_increases(e + 1, 9);
            }
            e = e + 1;
        }
        rest = rest / 2;
        d = d * 2;
    }
    proof {
        lemma_excess_bits(n as nat);
        lemma_div_half_even_bound(n as nat, d as nat, 0x100_0000);
    }
    let q: u64 = n / d;
    let r: u64 = n % d;
    let rounded: u64 = if 2 * r > d || (2 * r == d && q % 2 == 1) {
        q + 1
    } else {
        q
    };
    assert(rounded * d <= 0x100_0000 * 0x200) by (nonlinear_arith)
        requires
            rounded <= 0x100_0000,
            d <= 0x200,
    ;
    rounded * d
}

/// The single-precision quotient of a part and its whole, as bits. Both have at most 33 bits.
pub fn part_of_whole(a: u64, b: u64) -> (r: u32)
    requires
        a < 0x2_0000_0000,
        0 < b < 0x2_0000_0000,
    ensures
        r == f32_part(a as nat, b as nat),
        r <= F32_ONE,
{
    let x: u64 = round_uint(a);
    let y: u64 = round_uint(b);
    if x == 0 {
        return 0;
    }
    if x >= y {
        return F32_ONE;
    }
    let whole: u128 = 0x80_0000u128 * y as u128;
    let mut num: u128 = x as u128;
    let mut s: u32 = 0;
    proof {
        lemma2_to64();
        lemma_small_doublings(x as nat, y as nat);
    }
    while num < whole
        invariant
            0 < x < y <= 0x2_0000_0000,
            whole == 0x80_0000 * y,
            num == x * pow2(s as nat),
            pow2(s as nat) <= num < 2 * whole,
            doublings(x as nat, y as nat) == s + doublings(num as nat, y as nat),
            s < 60,
        decreases 2 * whole - num,
    {
        proof {
            lemma_pow2_pos(s as nat);
            lemma_pow2_unfold((s + 1) as nat);
            assert(x * (2 * pow2(s as nat)) == 2 * (x * pow2(s as nat))) by (nonlinear_arith);
            lemma2_to64();
            if s + 1 >= 57 {
                if s + 1 > 57 {
                    lemma_pow2_strictly_increases(57, (s + 1) as nat);
                }
                lemma2_to64_rest();
                assert(false);
            }
        }
        num = num * 2;
        s = s + 1;
    }
    let q: u128 = num / y as u128;
    let r: u128 = num % y as u128;
    proof {
        lemma_div_half_even_bound(num as nat, y as nat, 0x100_0000);
    }
    let rounded: u128 = if 2 * r > y as u128 || (2 * r == y as u128 && q % 2 == 1) {
        q + 1
    } else {
        q
    };
    (149 - s) * 0x80_0000u32 + rounded as u32
}

/// The quotient of a part and its whole lies from 0 to 1.
pub proof fn lemma_part_in_unit_range(a: nat, b: nat)
    requires
        0 < b < 0x2_0000_0000,
        a < 0x2_0000_0000,
    ensures
        0 <= f32_part(a, b) <= F32_ONE,
{
    let x = round_to_f32(a);
    let y = round_to_f32(b);
    lemma_round_to_f32(a);
    lemma_round_to_f32(b);
    if 0 < x < y {
        let s = doublings(x, y);
        lemma_doublings(x, y);
        lemma_small_doublings(x, y);
        lemma2_to64_rest();
        if s >= 57 {
            if s > 57 {
                lemma_pow2_strictly_increases(57, s);
            }
            assert(x * pow2(s) >= pow2(s)) by (nonlinear_arith)
                requires
                    x >= 1,
            ;
        }
        lemma_div_half_even_bound(x * pow2(s), y, 0x100_0000);
    }
}

/// The quotient of a positive number and itself is 1.0.
pub proof fn lemma_part_of_itself(a: nat)
    requires
        0 < a < 0x2_0000_0000,
    ensures
        f32_part(a, a) == F32_ONE,
{
    lemma_round_to_f32(a);
}

// ── from double precision ────────────────────────────────────────────────────

/// The magnitude bits of the single-precision number nearest to the double-precision number with
/// magnitude bits `magnitude`, ties to even. The significand has 29 bits fewer, and more are lost
/// below the smallest normal number.
pub open spec fn narrow_magnitude(magnitude: nat) -> nat {
    let exponent = magnitude / 0x10_0000_0000_0000;
    let fraction = magnitude % 0x10_0000_0000_0000;
    if exponent == 2047 {
        if fraction == 0 {
            0x7f80_0000
        } else {
            0x7fc0_0000
        }
    } else if exponent >= 897 {
        let code = ((exponent - 897) * 0x80_0000) as nat + div_half_even(
            0x10_0000_0000_0000 + fraction,
            0x2000_0000,
        );
        if code < 0x7f80_0000 {
            code
        } else {
            0x7f80_0000
        }
    } else if exponent >= 1 {
        div_half_even(0x10_0000_0000_0000 + fraction, pow2((926 - exponent) as nat))
    } else {
        div_half_even(fraction, pow2(925))
    }
}

/// The bits of the single-precision number nearest to a double-precision number.
pub open spec fn narrow_f64(bits: u64) -> nat {
    if bits >= 0x8000_0000_0000_0000u64 {
        0x8000_0000 + narrow_magnitude((bits - 0x8000_0000_0000_0000) as nat)
    } else {
        narrow_magnitude(bits as nat)
    }
}

fn round_div(n: u64, d: u64) -> (r: u64)
    requires
        0 < d <= 0x8000_0000_0000_0000,
        n < 0x8000_0000_0000_0000,
    ensures
        r == div_half_even(n as nat, d as nat),
        r <= n / d + 1,
{
    let q: u64 = n / d;
    let r: u64 = n % d;
    proof {
        assert(q <= n) by (nonlinear_arith)
            requires
                q == n / d,
                d > 0,
        ;
    }
    if r > d - r || (r == d - r && q % 2 == 1) {
        q + 1
    } else {
        q
    }
}

/// A number less than half of the divisor rounds to 0.
proof fn lemma_rounds_to_zero(n: nat, k: nat)
    requires
        n < pow2(53),
        k >= 54,
    ensures
        div_half_even(n, pow2(k)) == 0,
{
    if k > 54 {
        lemma_pow2_strictly_increases(54, k);
    }
    lemma_pow2_unfold(54);
    let d = pow2(k);
    assert(n / d == 0 && n % d == n) by (nonlinear_arith)
        requires
            n < d,
    ;
}

fn narrow_positive(magnitude: u64) -> (r: u32)
    requires
        magnitude < 0x8000_0000_0000_0000,
    ensures
        r == narrow_magnitude(magnitude as nat),
        r < 0x8000_0000,
{
    let exponent: u64 = magnitude / 0x10_0000_0000_0000;
    let fraction: u64 = magnitude % 0x10_0000_0000_0000;
    if exponent == 2047 {
        return if fraction == 0 {
            0x7f80_0000
        } else {
            0x7fc0_0000
        };
    }
    proof {
        lemma2_to64_rest();
    }
    if exponent >= 897 {
        let rounded: u64 = round_div(0x10_0000_0000_0000 + fraction, 0x2000_0000);
        let code: u64 = (exponent - 897) * 0x80_0000 + rounded;
        if code < 0x7f80_0000 {
            code as u32
        } else {
            0x7f80_0000
        }
    } else if exponent >= 1 {
        let k: u64 = 926 - exponent;
        if k >= 54 {
            proof {
                lemma_rounds_to_zero((0x10_0000_0000_0000 + fraction) as nat, k as nat);
            }
            return 0;
        }
        proof {
            vstd::bits::lemma_u64_pow2_no_overflow(k as nat);
            vstd::bits::lemma_u64_shl_is_mul(1, k);
            lemma_pow2_strictly_increases(k as nat, 63);
            if k > 30 {
                lemma_pow2_strictly_increases(30, k as nat);
            }
            lemma2_to64();
            lemma_pow2_pos(k as nat);
        }
        let d: u64 = 1u64 << k;
        let rounded: u64 = round_div(0x10_0000_0000_0000 + fraction, d);
        proof {
            let n = (0x10_0000_0000_0000 + fraction) as nat;
            assert(n / d as nat <= 0x80_0000) by (nonlinear_arith)
                requires
                    n < 0x20_0000_0000_0000,
                    d >= 0x4000_0000,
            ;
        }
        rounded as u32
    } else {
        proof {
            lemma_rounds_to_zero(fraction as nat, 925);
        }
        0
    }
}

/// The single-precision number nearest to a double-precision number, both as bits.
pub fn narrow(bits: u64) -> (r: u32)
    ensures
        r == narrow_f64(bits),
{
    if bits >= 0x8000_0000_0000_0000u64 {
        0x8000_0000u32 + narrow_positive(bits - 0x8000_0000_0000_0000u64)
    } else {
        narrow_positive(bits)
    }
}

/// The size of the number that bits without a sign stand for, times the 149th power of two: the last
/// 23 bits are its fraction and those before them its exponent.
pub open spec fn f32_size(magnitude: int) -> int {
    let fraction = magnitude % 0x80_0000;
    let exponent = magnitude / 0x80_0000;
    if exponent == 0 {
        fraction
    } else {
        (0x80_0000 + fraction) * pow2((exponent - 1) as nat)
    }
}

/// The number that bits stand for, times the 149th power of two. The first bit is its sign.
pub open spec fn f32_scaled(bits: u32) -> int {
    let size = f32_size((bits % 0x8000_0000) as int);
    if bits / 0x8000_0000 == 1 {
        -size
    } else {
        size
    }
}

/// Not a number: the exponent is all ones and there is a fraction.
pub open spec fn f32_is_none(bits: u32) -> bool {
    (bits % 0x8000_0000) / 0x80_0000 == 255 && bits % 0x80_0000 > 0
}

/// Bits are ordered as the numbers that they stand for, and those of no number neither come before
/// nor after any.
pub proof fn law_bits_are_ordered_as_numbers(a: u32, b: u32)
    ensures
        f32_less(a, b) <==> !f32_is_none(a) && !f32_is_none(b) && f32_scaled(a) < f32_scaled(b),
        f32_at_least(a, b) <==> !f32_is_none(a) && !f32_is_none(b) && f32_scaled(a) >= f32_scaled(
            b,
        ),
        f32_is_nan(a) <==> f32_is_none(a),
{
    let x = (a % 0x8000_0000) as int;
    let y = (b % 0x8000_0000) as int;
    lemma_sizes_ordered(x, y);
    lemma_sizes_ordered(y, x);
    lemma_sizes_ordered(0, x);
    lemma_sizes_ordered(0, y);
    assert(f32_size(0) == 0);
}

proof fn lemma_sizes_ordered(x: int, y: int)
    requires
        0 <= x < 0x8000_0000,
        0 <= y < 0x8000_0000,
    ensures
        x < y ==> f32_size(x) < f32_size(y),
        0 <= f32_size(x),
{
    let (fx, ex) = (x % 0x80_0000, x / 0x80_0000);
    let (fy, ey) = (y % 0x80_0000, y / 0x80_0000);
    if ex > 0 {
        lemma_pow2_pos((ex - 1) as nat);
        let p = pow2((ex - 1) as nat) as int;
        assert((0x80_0000 + fx) * p >= 0) by (nonlinear_arith)
            requires
                fx >= 0,
                p > 0,
        ;
    }
    if x < y {
        if ex == ey {
            assert(fx < fy);
            if ex > 0 {
                let p = pow2((ex - 1) as nat) as int;
                assert((0x80_0000 + fx) * p < (0x80_0000 + fy) * p) by (nonlinear_arith)
                    requires
                        fx < fy,
                        p > 0,
                ;
            }
        } else {
            assert(ex < ey);
            lemma_pow2_pos((ey - 1) as nat);
            let p = pow2((ey - 1) as nat) as int;
            assert((0x80_0000 + fy) * p >= 0x80_0000 * p) by (nonlinear_arith)
                requires
                    fy >= 0,
                    p > 0,
            ;
            if ex == 0 {
                assert(0x80_0000 * p >= 0x80_0000) by (nonlinear_arith)
                    requires
                        p >= 1,
                ;
            } else {
                let q = pow2((ex - 1) as nat) as int;
                lemma_pow2_unfold(ex as nat);
                assert(pow2(ex as nat) == 2 * q);
                if ex < ey - 1 {
                    lemma_pow2_strictly_increases(ex as nat, (ey - 1) as nat);
                }
                assert(p >= 2 * q);
                assert((0x80_0000 + fx) * q < 0x80_0000 * p) by (nonlinear_arith)
                    requires
                        0 <= fx < 0x80_0000,
                        q > 0,
                        p >= 2 * q,
                ;
            }
        }
    }
}

/// Division is to the nearest whole number, and to the even one of two that are as near.
pub proof fn law_division_is_to_the_nearest(n: nat, d: nat)
    requires
        d > 0,
    ensures
        ({
            let q = div_half_even(n, d);
            &&& -(d as int) <= 2 * (q * d - n) <= d
            &&& 2 * (q * d - n) == d || 2 * (n - q * d) == d ==> q % 2 == 0
        }),
{
    let q = n / d;
    let r = n % d;
    assert(n == q * d + r && 0 <= r < d) by (nonlinear_arith)
        requires
            d > 0,
            q == n / d,
            r == n % d,
    ;
    assert((q + 1) * d == q * d + d) by (nonlinear_arith);
}

} // verus!
