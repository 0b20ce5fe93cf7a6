//! Doubles as IEEE 754 bit patterns: what can be decided without arithmetic on them.
use crate::order::{int_order, Order};
use vstd::arithmetic::power2::*;
use vstd::prelude::*;

verus! {

/// The bit pattern of one.
pub const ONE: u64 = 0x3ff0_0000_0000_0000;

/// The bit pattern of the largest finite 32-bit signed integer.
pub const I32_MAX_BITS: u64 = 0x41df_ffff_ffc0_0000;

/// The bit pattern of the smallest 32-bit signed integer.
pub const I32_MIN_BITS: u64 = 0xc1e0_0000_0000_0000;

/// Whether the sign bit is set.
pub open spec fn negative(b: u64) -> bool {
    b >= 0x8000_0000_0000_0000
}

/// The pattern without its sign bit.
pub open spec fn magnitude(b: u64) -> u64 {
    if negative(b) {
        (b - 0x8000_0000_0000_0000) as u64
    } else {
        b
    }
}

/// Whether the pattern stands for no number.
pub open spec fn nan(b: u64) -> bool {
    magnitude(b) > 0x7ff0_0000_0000_0000
}

/// Patterns of numbers are ordered as these integers are: the magnitude grows with the
/// pattern, and the two zeros coincide.
pub open spec fn float_key(b: u64) -> int {
    if negative(b) {
        -(magnitude(b) as int)
    } else {
        magnitude(b) as int
    }
}

/// The order of two doubles; none, if one of them is no number.
pub open spec fn float_order(a: u64, b: u64) -> Option<Order> {
    if nan(a) || nan(b) {
        None
    } else {
        Some(int_order(float_key(a), float_key(b)))
    }
}

/// The pattern with the sign bit turned over.
pub open spec fn float_neg(b: u64) -> u64 {
    if negative(b) {
        magnitude(b)
    } else {
        (b + 0x8000_0000_0000_0000) as u64
    }
}

/// Gives the pattern without its sign bit.
pub fn abs(b: u64) -> (r: u64)
    ensures
        r == magnitude(b),
{
    if b >= 0x8000_0000_0000_0000 {
        b - 0x8000_0000_0000_0000
    } else {
        b
    }
}

/// Gives the pattern with the sign bit turned over.
pub fn neg(b: u64) -> (r: u64)
    ensures
        r == float_neg(b),
{
    if b >= 0x8000_0000_0000_0000 {
        b - 0x8000_0000_0000_0000
    } else {
        b + 0x8000_0000_0000_0000
    }
}

fn key(b: u64) -> (r: i128)
    ensures
        r == float_key(b),
{
    if b >= 0x8000_0000_0000_0000 {
        -(abs(b) as i128)
    } else {
        b as i128
    }
}

/// Compares two doubles.
pub fn order(a: u64, b: u64) -> (r: Option<Order>)
    ensures
        r == float_order(a, b),
{
    if abs(a) > 0x7ff0_0000_0000_0000 || abs(b) > 0x7ff0_0000_0000_0000 {
        return None;
    }
    let x: i128 = key(a);
    let y: i128 = key(b);
    Some(
        if x < y {
            Order::Less
        } else if x == y {
            Order::Equal
        } else {
            Order::Greater
        },
    )
}

// ---------------------------------------------------------------------------
// From integers
// ---------------------------------------------------------------------------

/// The exponent of the largest power of two that is not above `m`.
pub open spec fn log2(m: nat) -> nat
    decreases m,
{
    if m <= 1 {
        0
    } else {
        1 + log2(m / 2)
    }
}

/// `m / d` rounded to the nearest integer, a tie going to the even one.
pub open spec fn round_even(m: int, d: int) -> int {
    let q = m / d;
    let r = m % d;
    if 2 * r < d {
        q
    } else if 2 * r > d {
        q + 1
    } else {
        q + q % 2
    }
}

/// The significand of the double nearest to a positive integer, in units of its last place
/// before rounding; 2^53 stands for a rounding up to the next power of two.
pub open spec fn significand(m: nat) -> int {
    if log2(m) <= 52 {
        (m * pow2((52 - log2(m)) as nat)) as int
    } else {
        round_even(m as int, pow2((log2(m) - 52) as nat) as int)
    }
}

/// The pattern of the double nearest to an integer, a tie going to the even significand.
pub open spec fn float_of_int(n: int) -> int {
    if n == 0 {
        0
    } else {
        let m = (if n < 0 {
            -n
        } else {
            n
        }) as nat;
        let exponent = (1023 + log2(m)) * 0x10_0000_0000_0000;
        let bits = exponent + significand(m) - 0x10_0000_0000_0000;
        if n < 0 {
            bits + 0x8000_0000_0000_0000
        } else {
            bits
        }
    }
}

proof fn lemma_log2(m: nat)
    requires
        m > 0,
    ensures
        pow2(log2(m)) <= m < pow2(log2(m) + 1),
    decreases m,
{
    lemma2_to64();
    if m > 1 {
        lemma_log2(m / 2);
        lemma_pow2_unfold(log2(m));
        lemma_pow2_unfold(log2(m) + 1);
    }
}

proof fn lemma_log2_le(m: nat, k: nat)
    requires
        0 < m < pow2(k + 1),
    ensures
        log2(m) <= k,
{
    lemma_log2(m);
    if log2(m) > k {
        lemma_pow2_mono(k + 1, log2(m));
    }
}

proof fn lemma_pow2_mono(a: nat, b: nat)
    requires
        a <= b,
    ensures
        pow2(a) <= pow2(b),
{
    if a < b {
        lemma_pow2_strictly_increases(a, b);
    }
}

proof fn lemma_significand(m: nat)
    requires
        0 < m <= 0x8000_0000_0000_0000,
    ensures
        log2(m) <= 63,
        0x10_0000_0000_0000 <= significand(m) <= 0x20_0000_0000_0000,
        log2(m) == 63 ==> significand(m) == 0x10_0000_0000_0000,
{
    lemma2_to64();
    lemma2_to64_rest();
    lemma_log2(m);
    lemma_log2_le(m, 63);
    let e = log2(m);
    if e <= 52 {
        let k = (52 - e) as nat;
        lemma_pow2_adds(e, k);
        lemma_pow2_adds(e + 1, k);
        assert(pow2(e) * pow2(k) <= m * pow2(k)) by (nonlinear_arith)
            requires
                pow2(e) <= m,
        ;
        assert(m * pow2(k) <= pow2(e + 1) * pow2(k)) by (nonlinear_arith)
            requires
                m <= pow2(e + 1),
        ;
    } else {
        let k = (e - 52) as nat;
        let d = pow2(k) as int;
        lemma_pow2_pos(k);
        lemma_pow2_adds(52, k);
        lemma_pow2_adds(53, k);
        let q = m as int / d;
        let r = m as int % d;
        vstd::arithmetic::div_mod::lemma_fundamental_div_mod(m as int, d);
        vstd::arithmetic::div_mod::lemma_mod_bound(m as int, d);
        assert(q >= 0x10_0000_0000_0000) by (nonlinear_arith)
            requires
                m as int == d * q + r,
                0 <= r < d,
                m >= 0x10_0000_0000_0000 * d,
        ;
        assert(q < 0x20_0000_0000_0000) by (nonlinear_arith)
            requires
                m as int == d * q + r,
                0 <= r < d,
                m < 0x20_0000_0000_0000 * d,
        ;
        if e == 63 {
            assert(m == 0x8000_0000_0000_0000);
            assert(d == 2048);
        }
    }
}

fn pow2_u64(k: u32) -> (r: u64)
    requires
        k < 64,
    ensures
        r == pow2(k as nat),
{
    proof {
        lemma2_to64();
        lemma2_to64_rest();
    }
    let mut r: u64 = 1;
    let mut i: u32 = 0;
    while i < k
        invariant
            0 <= i <= k < 64,
            r == pow2(i as nat),
        decreases k - i,
    {
        proof {
            lemma_pow2_unfold((i + 1) as nat);
            lemma_pow2_mono((i + 1) as nat, 63);
            lemma2_to64_rest();
        }
        r = r * 2;
        i += 1;
    }
    r
}

fn log2_u64(m: u64) -> (e: u32)
    requires
        0 < m <= 0x8000_0000_0000_0000,
    ensures
        e == log2(m as nat),
        e <= 63,
{
    proof {
        lemma_significand(m as nat);
    }
    let mut t: u64 = m;
    let mut e: u32 = 0;
    while t > 1
        invariant
            t > 0,
            e + log2(t as nat) == log2(m as nat),
            log2(m as nat) <= 63,
        decreases t,
    {
        t = t / 2;
        e += 1;
    }
    e
}

/// The double nearest to an integer.
pub fn of_i64(n: i64) -> (r: u64)
    ensures
        r == float_of_int(n as int),
{
    if n == 0 {
        return 0;
    }
    let m: u64 = if n == i64::MIN {
        0x8000_0000_0000_0000
    } else if n < 0 {
        (-n) as u64
    } else {
        n as u64
    };
    let e: u32 = log2_u64(m);
    proof {
        lemma_significand(m as nat);
        lemma2_to64();
        lemma2_to64_rest();
    }
    let mant: u64 = if e <= 52 {
        let p: u64 = pow2_u64(52 - e);
        assert(m * p == significand(m as nat));
        m * p
    } else {
        let d: u64 = pow2_u64(e - 52);
        proof {
            lemma_pow2_mono((e - 52) as nat, 11);
            lemma_pow2_pos((e - 52) as nat);
        }
        let q: u64 = m / d;
        let r: u64 = m % d;
        if 2 * r < d {
            q
        } else if 2 * r > d {
            q + 1
        } else {
            q + q % 2
        }
    };
    let bits: u64 = (1023 + e as u64) * 0x10_0000_0000_0000 + (mant - 0x10_0000_0000_0000);
    if n < 0 {
        bits + 0x8000_0000_0000_0000
    } else {
        bits
    }
}

// ---------------------------------------------------------------------------
// To integers
// ---------------------------------------------------------------------------

/// The integer part of a double, towards zero. No number counts as zero; an infinity as an
/// integer beyond every machine word.
pub open spec fn float_trunc(b: u64) -> int {
    if nan(b) || magnitude(b) < 0x10_0000_0000_0000 {
        0
    } else {
        let m = magnitude(b) as int;
        let mant = m % 0x10_0000_0000_0000 + 0x10_0000_0000_0000;
        let shift = m / 0x10_0000_0000_0000 - 1075;
        let v = if shift >= 0 {
            mant * pow2(shift as nat)
        } else {
            mant / (pow2((-shift) as nat) as int)
        };
        if negative(b) {
            -v
        } else {
            v
        }
    }
}

/// The integer nearest to `n` within a range.
pub open spec fn clamp(n: int, lo: int, hi: int) -> int {
    if n < lo {
        lo
    } else if n > hi {
        hi
    } else {
        n
    }
}

/// The 64-bit integer that a double is cut to.
pub open spec fn float_as_i64(b: u64) -> int {
    clamp(float_trunc(b), i64::MIN as int, i64::MAX as int)
}

/// The 32-bit integer that a double is cut to.
pub open spec fn float_as_i32(b: u64) -> int {
    clamp(float_trunc(b), i32::MIN as int, i32::MAX as int)
}

/// Cuts a double to a 64-bit integer: towards zero, the nearest bound where it is beyond
/// the range, zero where it is no number.
pub fn as_i64(b: u64) -> (r: i64)
    ensures
        r == float_as_i64(b),
{
    let m: u64 = abs(b);
    if m > 0x7ff0_0000_0000_0000 || m < 0x10_0000_0000_0000 {
        return 0;
    }
    let mant: u64 = m % 0x10_0000_0000_0000 + 0x10_0000_0000_0000;
    let field: u64 = m / 0x10_0000_0000_0000;
    let minus: bool = b >= 0x8000_0000_0000_0000;
    proof {
        lemma2_to64();
        lemma2_to64_rest();
    }
    if field >= 1075 {
        let shift: u64 = field - 1075;
        if shift > 10 {
            proof {
                lemma_pow2_mono(11, shift as nat);
                assert(mant * pow2(shift as nat) >= 0x8000_0000_0000_0000) by (nonlinear_arith)
                    requires
                        mant >= 0x10_0000_0000_0000,
                        pow2(shift as nat) >= 2048,
                ;
            }
            return if minus {
                i64::MIN
            } else {
                i64::MAX
            };
        }
        let p: u64 = pow2_u64(shift as u32);
        proof {
            lemma_pow2_mono(shift as nat, 10);
            assert(mant * p <= 0x1f_ffff_ffff_ffff * 1024) by (nonlinear_arith)
                requires
                    mant <= 0x1f_ffff_ffff_ffff,
                    p <= 1024,
            ;
        }
        let v: u64 = mant * p;
        if minus {
            -(v as i64)
        } else {
            v as i64
        }
    } else {
        let down: u64 = 1075 - field;
        if down > 52 {
            proof {
                lemma_pow2_mono(53, down as nat);
                vstd::arithmetic::div_mod::lemma_basic_div(mant as int, pow2(down as nat) as int);
            }
            return 0;
        }
        let p: u64 = pow2_u64(down as u32);
        proof {
            lemma_pow2_pos(down as nat);
        }
        let v: u64 = mant / p;
        assert(v <= mant) by (nonlinear_arith)
            requires
                p >= 1,
                v == mant / p,
        ;
        if minus {
            -(v as i64)
        } else {
            v as i64
        }
    }
}

/// Cuts a double to a 32-bit integer in the same way.
pub fn as_i32(b: u64) -> (r: i32)
    ensures
        r == float_as_i32(b),
{
    let n: i64 = as_i64(b);
    if n < -0x8000_0000 {
        i32::MIN
    } else if n > 0x7fff_ffff {
        i32::MAX
    } else {
        n as i32
    }
}

} // verus!
