//! Exact integer arithmetic on IEEE-754 bit patterns.
//!
//! Timestamps and transfer limits travel as binary64 values. The library
//! carries them as their 64-bit patterns and decides everything it has to
//! decide about them (order, truncation, rounding of a product) in integers,
//! so each decision has an exact contract.
use vstd::prelude::*;

verus! {

pub const SIGN: u64 = 0x8000_0000_0000_0000;

pub const FRACTION: u64 = 0x10_0000_0000_0000;

/// Bit pattern of positive infinity.
pub const INFINITY: u64 = 0x7ff0_0000_0000_0000;

/// Two to the power `n`.
pub open spec fn p2(n: nat) -> nat
    decreases n,
{
    if n == 0 {
        1
    } else {
        2 * p2((n - 1) as nat)
    }
}

/// The largest `k` with `2^k <= n`, for a positive `n`.
pub open spec fn log2(n: nat) -> nat
    decreases n,
{
    if n <= 1 {
        0
    } else {
        1 + log2(n / 2)
    }
}

/// `n / d` rounded to the nearest integer, ties to even.
pub open spec fn nearest(n: nat, d: nat) -> nat {
    let q = n / d;
    let r = n % d;
    if 2 * r > d || (2 * r == d && q % 2 == 1) {
        q + 1
    } else {
        q
    }
}

/// `n / 2^s` rounded to the nearest integer, ties to even.
pub open spec fn round_half_even(n: nat, s: nat) -> nat {
    nearest(n, p2(s))
}

/// The 11-bit biased exponent.
pub open spec fn exponent(bits: u64) -> int {
    (bits as int / FRACTION as int) % 2048
}

pub open spec fn is_negative(bits: u64) -> bool {
    bits >= SIGN
}

/// The integer significand, with the implicit leading bit of a normal value.
pub open spec fn significand(bits: u64) -> nat {
    if exponent(bits) == 0 {
        (bits as int % FRACTION as int) as nat
    } else {
        (bits as int % FRACTION as int + FRACTION) as nat
    }
}

/// The power of two that the significand is multiplied with.
pub open spec fn scale(bits: u64) -> int {
    if exponent(bits) == 0 {
        -1074
    } else {
        exponent(bits) - 1075
    }
}

pub open spec fn finite(bits: u64) -> bool {
    exponent(bits) != 2047
}

pub open spec fn nan(bits: u64) -> bool {
    exponent(bits) == 2047 && bits as int % FRACTION as int != 0
}

/// `n * 2^t` rounded toward zero.
pub open spec fn scaled(n: nat, t: int) -> nat {
    if t >= 0 {
        n * p2(t as nat)
    } else {
        n / p2((-t) as nat)
    }
}

/// Magnitude of a finite value, multiplied by `2^k` and rounded toward zero.
pub open spec fn fixed(bits: u64, k: int) -> nat {
    scaled(significand(bits), scale(bits) + k)
}

/// Position of a value in the numeric order; both zeros share one place.
pub open spec fn order(bits: u64) -> int {
    if is_negative(bits) {
        SIGN - bits
    } else {
        bits as int
    }
}

/// Numeric `a < b`; false when either is not a number.
pub open spec fn lt(a: u64, b: u64) -> bool {
    !nan(a) && !nan(b) && order(a) < order(b)
}

/// The value cut off at the point and clamped to the `u64` range; zero for
/// what is not a number.
pub open spec fn to_u64(bits: u64) -> u64 {
    if nan(bits) || is_negative(bits) {
        0
    } else if !finite(bits) || fixed(bits, 0) > u64::MAX {
        u64::MAX
    } else {
        fixed(bits, 0) as u64
    }
}

/// A thousand times a finite magnitude: the product is rounded to the 53
/// significant bits of a binary64 value, ties to even, and then cut off at the
/// point.
pub open spec fn thousandfold(bits: u64) -> nat {
    let p = significand(bits) * 1000;
    let k = log2(p);
    if k <= 52 {
        scaled(p, scale(bits))
    } else {
        scaled(round_half_even(p, (k - 52) as nat), scale(bits) + k - 52)
    }
}

/// The binary64 pattern nearest to an integer, ties to even.
pub open spec fn from_int(v: int) -> int {
    let n = if v < 0 {
        (-v) as nat
    } else {
        v as nat
    };
    let sign: int = if v < 0 {
        SIGN as int
    } else {
        0
    };
    let k = log2(n);
    if n == 0 {
        0
    } else if k <= 52 {
        sign + (1022 + k) * FRACTION + n * p2((52 - k) as nat)
    } else {
        sign + (1022 + k) * FRACTION + round_half_even(n, (k - 52) as nat)
    }
}

/// The binary64 pattern of the value of a binary32 pattern; a payload that is
/// not a number is made quiet.
pub open spec fn widened(b: u32) -> int {
    let sign: int = if b >= 0x8000_0000 {
        SIGN as int
    } else {
        0
    };
    let e = (b as int / 0x80_0000) % 256;
    let f = b as int % 0x80_0000;
    let k = log2(f as nat);
    if e == 255 && f == 0 {
        sign + INFINITY
    } else if e == 255 {
        sign + INFINITY + FRACTION / 2 + (f % 0x40_0000) * 0x2000_0000
    } else if e != 0 {
        sign + (e + 896) * FRACTION + f * 0x2000_0000
    } else if f == 0 {
        sign
    } else {
        sign + (873 + k) * FRACTION + f * p2((52 - k) as nat)
    }
}

pub proof fn lemma_p2_values()
    ensures
        p2(0) == 1,
        p2(1) == 2,
        p2(10) == 0x400,
        p2(22) == 0x40_0000,
        p2(23) == 0x80_0000,
        p2(32) == 0x1_0000_0000,
        p2(50) == 0x4_0000_0000_0000,
        p2(52) == FRACTION,
        p2(53) == 2 * FRACTION,
        p2(63) == SIGN,
        p2(64) == 0x1_0000_0000_0000_0000,
        p2(74) == 0x400_0000_0000_0000_0000,
{
    reveal_with_fuel(p2, 11);
    assert(p2(10) == 0x400);
    assert(p2(20) == 0x10_0000);
    assert(p2(23) == 0x80_0000);
    assert(p2(30) == 0x4000_0000);
    assert(p2(40) == 0x100_0000_0000);
    assert(p2(50) == 0x4_0000_0000_0000);
    assert(p2(60) == 0x1000_0000_0000_0000);
    assert(p2(70) == 0x40_0000_0000_0000_0000);
}

pub proof fn lemma_p2_pos(n: nat)
    ensures
        p2(n) >= 1,
    decreases n,
{
    if n > 0 {
        lemma_p2_pos((n - 1) as nat);
    }
}

pub proof fn lemma_p2_monotone(a: nat, b: nat)
    requires
        a <= b,
    ensures
        p2(a) <= p2(b),
    decreases b,
{
    if a < b {
        lemma_p2_monotone(a, (b - 1) as nat);
        lemma_p2_pos((b - 1) as nat);
    }
}

pub proof fn lemma_log2(n: nat)
    requires
        n >= 1,
    ensures
        p2(log2(n)) <= n < 2 * p2(log2(n)),
    decreases n,
{
    if n > 1 {
        lemma_log2(n / 2);
    }
}

pub proof fn lemma_log2_below(n: nat, b: nat)
    requires
        1 <= n < p2(b),
    ensures
        log2(n) < b,
{
    lemma_log2(n);
    if log2(n) >= b {
        lemma_p2_monotone(b, log2(n));
    }
}

pub proof fn lemma_p2_adds(a: nat, b: nat)
    ensures
        p2(a + b) == p2(a) * p2(b),
    decreases a,
{
    if a > 0 {
        lemma_p2_adds((a - 1) as nat, b);
        let x = p2((a - 1) as nat) as int;
        let y = p2(b) as int;
        assert((2 * x) * y == 2 * (x * y)) by (nonlinear_arith);
    } else {
        assert(1 * p2(b) == p2(b));
    }
}

fn power_of_two(n: u32) -> (r: u128)
    requires
        n <= 120,
    ensures
        r == p2(n as nat),
{
    let mut r: u128 = 1;
    let mut i: u32 = 0;
    proof {
        lemma_p2_values();
        lemma_p2_monotone(n as nat, 120);
        lemma_p2_adds(60, 60);
        reveal_with_fuel(p2, 11);
        assert(p2(60) == 0x1000_0000_0000_0000);
        assert(p2(60) * p2(60) == 0x1000_0000_0000_0000 * 0x1000_0000_0000_0000) by (nonlinear_arith)
            requires
                p2(60) == 0x1000_0000_0000_0000,
        ;
    }
    while i < n
        invariant
            i <= n <= 120,
            r == p2(i as nat),
            p2(120) <= 0x1000_0000_0000_0000 * 0x1000_0000_0000_0000,
        decreases n - i,
    {
        proof {
            lemma_p2_monotone((i + 1) as nat, 120);
        }
        r = r * 2;
        i = i + 1;
    }
    r
}

fn log2_wide(n: u128) -> (r: u32)
    requires
        1 <= n < p2(120),
    ensures
        r == log2(n as nat),
        r < 120,
{
    let mut m: u128 = n;
    let mut r: u32 = 0;
    proof {
        lemma_log2_below(n as nat, 120);
    }
    while m > 1
        invariant
            m >= 1,
            r + log2(m as nat) == log2(n as nat),
            log2(n as nat) < 120,
        decreases m,
    {
        m = m / 2;
        r = r + 1;
    }
    r
}

fn log2_of(n: u64) -> (r: u32)
    requires
        n >= 1,
    ensures
        r == log2(n as nat),
        r < 64,
{
    proof {
        lemma_p2_values();
        lemma_p2_monotone(64, 120);
        lemma_log2_below(n as nat, 64);
    }
    log2_wide(n as u128)
}

fn round_wide(n: u128, s: u32) -> (r: u128)
    requires
        1 <= s <= 120,
    ensures
        r == round_half_even(n as nat, s as nat),
{
    proof {
        lemma_p2_values();
        lemma_p2_monotone(1, s as nat);
    }
    let d: u128 = power_of_two(s);
    nearest_of(n, d)
}

/// The integer nearest to a quotient, ties to even.
fn nearest_of(n: u128, d: u128) -> (r: u128)
    requires
        2 <= d,
    ensures
        r == nearest(n as nat, d as nat),
{
    let q: u128 = n / d;
    let r: u128 = n % d;
    assert(q <= n / 2) by (nonlinear_arith)
        requires
            q == n / d,
            d >= 2,
    ;
    if r > d - r || (r == d - r && q % 2 == 1) {
        q + 1
    } else {
        q
    }
}

fn round(n: u64, s: u32) -> (r: u64)
    requires
        1 <= s <= 11,
    ensures
        r == round_half_even(n as nat, s as nat),
{
    proof {
        lemma_p2_values();
        lemma_p2_monotone(1, s as nat);
        let d = p2(s as nat);
        assert(n as nat / d <= n / 2) by (nonlinear_arith)
            requires
                d >= 2,
        ;
    }
    round_wide(n as u128, s) as u64
}

pub fn is_finite(bits: u64) -> (r: bool)
    ensures
        r == finite(bits),
{
    (bits / FRACTION) % 2048 != 2047
}

pub fn is_nan(bits: u64) -> (r: bool)
    ensures
        r == nan(bits),
{
    (bits / FRACTION) % 2048 == 2047 && bits % FRACTION != 0
}

/// Numeric `a < b` on bit patterns.
pub fn less(a: u64, b: u64) -> (r: bool)
    ensures
        r == lt(a, b),
{
    if is_nan(a) || is_nan(b) {
        return false;
    }
    if a >= SIGN {
        if b >= SIGN {
            b < a
        } else {
            a > SIGN || b > 0
        }
    } else if b >= SIGN {
        false
    } else {
        a < b
    }
}

/// `n * 2^t` rounded toward zero, or nothing above the range.
fn scale_by(n: u64, t: i32) -> (r: Option<u128>)
    requires
        n <= 2 * FRACTION,
        -3000 <= t <= 3000,
    ensures
        match r {
            Some(v) => v == scaled(n as nat, t as int) && v <= 0x8000_0000_0000_0000_0000_0000_0000_0000,
            None => n > 0 && t > 74,
        },
{
    proof {
        lemma_p2_values();
    }
    if n == 0 {
        proof {
            if t >= 0 {
                assert(0 * p2(t as nat) == 0);
            } else {
                lemma_p2_pos((-t) as nat);
                assert(0nat / p2((-t) as nat) == 0) by (nonlinear_arith)
                    requires
                        p2((-t) as nat) >= 1,
                ;
            }
        }
        return Some(0);
    }
    if t > 74 {
        return None;
    }
    if t >= 0 {
        proof {
            lemma_p2_monotone(t as nat, 74);
        }
        let w: u128 = power_of_two(t as u32);
        assert(n * w <= 0x20_0000_0000_0000 * 0x400_0000_0000_0000_0000) by (nonlinear_arith)
            requires
                n <= 0x20_0000_0000_0000,
                w <= 0x400_0000_0000_0000_0000,
        ;
        Some((n as u128) * w)
    } else if t < -64 {
        proof {
            lemma_p2_monotone(64, (-t) as nat);
            let d = p2((-t) as nat);
            assert(n as nat / d == 0) by (nonlinear_arith)
                requires
                    n < d,
            ;
        }
        Some(0)
    } else {
        proof {
            lemma_p2_pos((-t) as nat);
        }
        let d: u128 = power_of_two((-t) as u32);
        let v: u128 = (n as u128) / d;
        assert(v <= n) by (nonlinear_arith)
            requires
                v == (n as u128) / d,
                d >= 1,
        ;
        Some(v)
    }
}

fn split(bits: u64) -> (r: (u64, i32))
    ensures
        r.0 == significand(bits),
        r.1 == scale(bits),
        r.0 < 2 * FRACTION,
        -1074 <= r.1 <= 972,
        r.1 > -1074 ==> r.0 >= FRACTION,
{
    let e: u64 = (bits / FRACTION) % 2048;
    let f: u64 = bits % FRACTION;
    if e == 0 {
        (f, -1074)
    } else {
        (f + FRACTION, e as i32 - 1075)
    }
}

proof fn lemma_scaled_large(n: nat, t: int)
    requires
        t > 74,
        n >= 1,
    ensures
        scaled(n, t) >= 0x800_0000_0000_0000_0000,
{
    lemma_p2_values();
    lemma_p2_monotone(75, t as nat);
    reveal_with_fuel(p2, 2);
    assert(n * p2(t as nat) >= p2(t as nat)) by (nonlinear_arith)
        requires
            n >= 1,
            p2(t as nat) >= 0,
    ;
}

/// A value as `u64`: cut off at the point, clamped at both ends.
pub fn truncate(bits: u64) -> (r: u64)
    ensures
        r == to_u64(bits),
{
    if is_nan(bits) || bits >= SIGN {
        return 0;
    }
    if !is_finite(bits) {
        return u64::MAX;
    }
    let (n, t) = split(bits);
    match scale_by(n, t) {
        Some(v) => {
            if v > 0xffff_ffff_ffff_ffff {
                u64::MAX
            } else {
                v as u64
            }
        },
        None => {
            proof {
                lemma_scaled_large(n as nat, t as int);
            }
            u64::MAX
        },
    }
}

/// A thousand times a finite magnitude, clamped to the `u64` range.
pub fn times_1000(bits: u64) -> (r: u64)
    ensures
        r == (if thousandfold(bits) > u64::MAX {
            u64::MAX as nat
        } else {
            thousandfold(bits)
        }),
{
    let (n, t) = split(bits);
    let p: u64 = n * 1000;
    proof {
        lemma_p2_values();
    }
    let (q, u): (u64, i32) = if p == 0 {
        (0, t)
    } else {
        let k: u32 = log2_of(p);
        proof {
            lemma_log2(p as nat);
            lemma_log2_below(p as nat, 63);
        }
        if k <= 52 {
            proof {
                lemma_p2_monotone((k + 1) as nat, 53);
            }
            (p, t)
        } else {
            let s: u32 = k - 52;
            let q: u64 = round(p, s);
            proof {
                lemma_p2_adds(53, s as nat);
                lemma_p2_pos(s as nat);
                let d = p2(s as nat);
                assert(p as nat / d < p2(53)) by (nonlinear_arith)
                    requires
                        p < p2(53) * d,
                        d >= 1,
                ;
            }
            (q, t + s as i32)
        }
    };
    match scale_by(q, u) {
        Some(v) => {
            if v > 0xffff_ffff_ffff_ffff {
                u64::MAX
            } else {
                v as u64
            }
        },
        None => {
            proof {
                lemma_scaled_large(q as nat, u as int);
            }
            u64::MAX
        },
    }
}

/// The binary64 pattern nearest to an integer.
pub fn from_i64(v: i64) -> (r: u64)
    ensures
        r == from_int(v as int),
{
    let sign: u64 = if v < 0 {
        SIGN
    } else {
        0
    };
    let n: u64 = if v < 0 {
        ((-((v + 1) as i128)) + 1) as u64
    } else {
        v as u64
    };
    if n == 0 {
        return 0;
    }
    let k: u32 = log2_of(n);
    proof {
        lemma_log2(n as nat);
        lemma_p2_values();
    }
    if k <= 52 {
        proof {
            lemma_p2_monotone((52 - k) as nat, 52);
            lemma_p2_adds(k as nat, (52 - k) as nat);
        }
        let w: u64 = power_of_two(52 - k) as u64;
        assert(n * w < 2 * FRACTION) by (nonlinear_arith)
            requires
                n < 2 * p2(k as nat),
                p2(k as nat) * w == FRACTION,
                w >= 0,
                n >= 0,
        ;
        sign + (1022 + k as u64) * FRACTION + n * w
    } else {
        let q: u64 = round(n, k - 52);
        proof {
            lemma_round_range(n as nat, k as nat);
        }
        sign + (1022 + k as u64) * FRACTION + q
    }
}

proof fn lemma_round_range(n: nat, k: nat)
    requires
        53 <= k,
        p2(k) <= n < 2 * p2(k),
    ensures
        round_half_even(n, (k - 52) as nat) <= 2 * FRACTION,
{
    let s = (k - 52) as nat;
    lemma_p2_values();
    lemma_p2_pos(s);
    lemma_p2_adds(53, s);
    assert(p2(k + 1) == 2 * p2(k));
    let d = p2(s);
    assert(n / d < 2 * FRACTION) by (nonlinear_arith)
        requires
            n < 2 * FRACTION * d,
            d >= 1,
    ;
}

/// The binary64 pattern of a binary32 pattern's value.
pub fn widen(b: u32) -> (r: u64)
    ensures
        r == widened(b),
{
    let sign: u64 = if b >= 0x8000_0000 {
        SIGN
    } else {
        0
    };
    let e: u64 = ((b / 0x80_0000) % 256) as u64;
    let f: u64 = (b % 0x80_0000) as u64;
    if e == 255 {
        if f == 0 {
            sign + INFINITY
        } else {
            sign + INFINITY + FRACTION / 2 + (f % 0x40_0000) * 0x2000_0000
        }
    } else if e != 0 {
        sign + (e + 896) * FRACTION + f * 0x2000_0000
    } else if f == 0 {
        sign
    } else {
        proof {
            lemma_p2_values();
            lemma_log2_below(f as nat, 23);
            lemma_log2(f as nat);
        }
        let k: u32 = log2_of(f);
        proof {
            lemma_p2_monotone((52 - k) as nat, 52);
            lemma_p2_adds(k as nat, (52 - k) as nat);
        }
        let w: u64 = power_of_two(52 - k) as u64;
        assert(f * w < 2 * FRACTION) by (nonlinear_arith)
            requires
                f < 2 * p2(k as nat),
                p2(k as nat) * w == FRACTION,
                w >= 0,
                f >= 0,
        ;
        sign + (873 + k as u64) * FRACTION + f * w
    }
}

/// Integers up to `2^53` survive the way through a binary64 value.
pub proof fn law_exact_integers(v: u64)
    requires
        v <= 2 * FRACTION,
    ensures
        0 <= from_int(v as int) <= u64::MAX,
        to_u64(from_int(v as int) as u64) == v,
        finite(from_int(v as int) as u64),
{
    lemma_p2_values();
    let n = v as nat;
    if n == 0 {
        assert(scaled(0, -1074) == 0) by {
            lemma_p2_pos(1074);
            assert(0nat / p2(1074) == 0) by (nonlinear_arith)
                requires
                    p2(1074) >= 1,
            ;
        }
    } else {
        let k = log2(n);
        lemma_log2(n);
        if k >= 54 {
            lemma_p2_monotone(54, k);
            reveal_with_fuel(p2, 2);
        }
        if k <= 52 {
            let m = (52 - k) as nat;
            let w = p2(m);
            lemma_p2_pos(m);
            lemma_p2_adds(k, m);
            let x = n * w;
            assert(FRACTION <= x < 2 * FRACTION) by (nonlinear_arith)
                requires
                    x == n * w,
                    p2(k) <= n < 2 * p2(k),
                    w >= 1,
                    p2(k) * w == FRACTION,
            ;
            let bits = from_int(v as int);
            assert(bits == (1022 + k) * FRACTION + x);
            let f = x - FRACTION;
            lemma_fields((1023 + k) as int, f);
            assert(bits == (1023 + k) * FRACTION + f) by (nonlinear_arith)
                requires
                    bits == (1022 + k) * FRACTION + x,
                    f == x - FRACTION,
            ;
            assert(x / w == n) by (nonlinear_arith)
                requires
                    x == n * w,
                    w >= 1,
            ;
            if k == 52 {
                assert(n * p2(0) == n);
            }
        } else {
            assert(k == 53);
            assert(n == 2 * FRACTION);
            assert(round_half_even(n, 1) == FRACTION);
            lemma_fields(1076, 0);
            assert(from_int(v as int) == 1076 * FRACTION) by (nonlinear_arith)
                requires
                    from_int(v as int) == (1022 + 53) * FRACTION + FRACTION,
            ;
            assert(p2(1) == 2);
        }
    }
}

/// The parts of a positive normal pattern.
proof fn lemma_fields(e: int, f: int)
    requires
        1 <= e < 2047,
        0 <= f < FRACTION,
    ensures
        0 <= e * FRACTION + f < SIGN,
        exponent((e * FRACTION + f) as u64) == e,
        significand((e * FRACTION + f) as u64) == f + FRACTION,
        scale((e * FRACTION + f) as u64) == e - 1075,
        finite((e * FRACTION + f) as u64),
        !is_negative((e * FRACTION + f) as u64),
{
    let b = e * FRACTION + f;
    assert(0 <= b < SIGN && b / (FRACTION as int) == e && b % (FRACTION as int) == f) by (nonlinear_arith)
        requires
            b == e * FRACTION + f,
            1 <= e < 2047,
            0 <= f < FRACTION,
            FRACTION == 0x10_0000_0000_0000,
            SIGN == 0x8000_0000_0000_0000,
    ;
}

// ---------------------------------------------------------------------------
// Differences
// ---------------------------------------------------------------------------

/// Numeric `a == b`; false when either is not a number.
pub open spec fn eq(a: u64, b: u64) -> bool {
    !nan(a) && !nan(b) && order(a) == order(b)
}

/// Numeric `a == b` on bit patterns.
pub fn equal(a: u64, b: u64) -> (r: bool)
    ensures
        r == eq(a, b),
{
    if is_nan(a) || is_nan(b) {
        return false;
    }
    a == b || (a == SIGN && b == 0) || (a == 0 && b == SIGN)
}

/// Magnitude of a finite value in units of the least positive one.
pub open spec fn magnitude(bits: u64) -> nat {
    significand(bits) * p2((scale(bits) + 1074) as nat)
}

/// A finite value in units of the least positive one.
pub open spec fn exact(bits: u64) -> int {
    if is_negative(bits) {
        -magnitude(bits)
    } else {
        magnitude(bits) as int
    }
}

/// A positive number rounded to 53 significant bits, ties to even.
pub open spec fn rounded(n: nat) -> nat {
    let k = log2(n);
    if k <= 52 {
        n
    } else {
        round_half_even(n, (k - 52) as nat) * p2((k - 52) as nat)
    }
}

/// `now - seen`, as binary64 subtraction gives it, is at most `limit`.
pub open spec fn within(now: u64, seen: u64, limit: nat) -> bool {
    if nan(now) || nan(seen) {
        false
    } else if !finite(now) {
        is_negative(now) && (finite(seen) || !is_negative(seen))
    } else if !finite(seen) {
        !is_negative(seen)
    } else {
        let d = exact(now) - exact(seen);
        d <= 0 || rounded(d as nat) <= limit * p2(1074)
    }
}

proof fn lemma_round_up_to(n: nat, k: nat)
    requires
        n >= 1,
        k == log2(n),
    ensures
        p2(k) <= rounded(n) <= p2(k + 1),
{
    lemma_log2(n);
    if k > 52 {
        let sh = (k - 52) as nat;
        let u = p2(sh) as int;
        lemma_p2_pos(sh);
        lemma_p2_adds(52, sh);
        lemma_p2_adds(53, sh);
        lemma_p2_values();
        let q = n as int / u;
        assert(FRACTION <= q < 2 * FRACTION) by (nonlinear_arith)
            requires
                q == n as int / u,
                u >= 1,
                FRACTION * u <= n,
                n < 2 * FRACTION * u,
        ;
        let r = round_half_even(n, sh) as int;
        assert(FRACTION * u <= r * u <= 2 * FRACTION * u) by (nonlinear_arith)
            requires
                FRACTION <= r <= 2 * FRACTION,
                u >= 1,
        ;
    }
}

/// Rounding does not cross `limit` before half a step above it: for a limit
/// with the leading bit `j`, a step is `2^(j-52)`.
proof fn lemma_threshold(d: nat, limit: nat, j: nat)
    requires
        d >= 1,
        1 <= limit,
        j == log2(limit),
        j <= 50,
    ensures
        rounded(d) <= limit * p2(1074) <==> d <= (limit * p2((53 - j) as nat) + 1) * p2(
            (1021 + j) as nat,
        ),
{
    let w = (1021 + j) as nat;
    let s = (53 - j) as nat;
    let k = log2(d);
    let l = limit as int;
    let pw = p2(w) as int;
    let ps = p2(s) as int;
    let half = p2((s - 1) as nat) as int;
    lemma_p2_pos(w);
    lemma_p2_pos(s);
    lemma_p2_pos((s - 1) as nat);
    lemma_p2_pos(1074);
    lemma_log2(d);
    lemma_log2(limit);
    lemma_round_up_to(d, k);
    lemma_p2_adds(s, w);
    lemma_p2_adds(1, w);
    lemma_p2_adds(j, 1074);
    lemma_p2_adds((j + 1) as nat, s);
    lemma_p2_adds((j + 1 + s) as nat, w);
    lemma_p2_monotone(2, s);
    assert(p2(2) == 4) by {
        reveal_with_fuel(p2, 3);
    }
    let pj = p2(j) as int;
    let p1074 = p2(1074) as int;
    assert(p1074 == ps * pw);
    assert(p2(j + 1074) == pj * p1074);
    assert(l * p1074 >= pj * p1074) by (nonlinear_arith)
        requires
            l >= pj,
            p1074 >= 1,
    ;
    assert((l * ps + 1) * pw == l * p1074 + pw) by (nonlinear_arith)
        requires
            p1074 == ps * pw,
    ;
    if k < j + 1074 {
        lemma_p2_monotone(k + 1, j + 1074);
    } else if k > j + 1074 {
        lemma_p2_monotone(j + 1075, k);
        lemma_p2_adds(1, (j + 1074) as nat);
        assert(p2(j + 1075) == 2 * p2(j + 1074));
        assert(l * p1074 + pw < 2 * (pj * p1074)) by (nonlinear_arith)
            requires
                l <= 2 * pj - 1,
                p1074 == ps * pw,
                ps >= 4,
                pw >= 1,
        ;
    } else {
        let u = 2 * pw;
        let sh = (k - 52) as nat;
        assert(sh == w + 1);
        assert(p2(sh) == u);
        let a = l * half;
        assert(ps == 2 * half);
        assert(l * p1074 == a * u) by (nonlinear_arith)
            requires
                p1074 == ps * pw,
                ps == 2 * half,
                a == l * half,
                u == 2 * pw,
        ;
        assert(a % 2 == 0) by {
            let quarter = p2((s - 2) as nat) as int;
            assert(half == 2 * quarter);
            assert(a == 2 * (l * quarter)) by (nonlinear_arith)
                requires
                    a == l * half,
                    half == 2 * quarter,
            ;
        }
        let q = d as int / u;
        let r = d as int % u;
        assert(d == q * u + r) by (nonlinear_arith)
            requires
                q == d as int / u,
                r == d as int % u,
                u >= 1,
        ;
        let up = round_half_even(d, sh) as int;
        if q < a {
            assert(q * u + r <= a * u) by (nonlinear_arith)
                requires
                    q + 1 <= a,
                    0 <= r < u,
            ;
            assert(up * u <= a * u) by (nonlinear_arith)
                requires
                    up <= a,
                    u >= 1,
            ;
        } else if q > a {
            assert(q * u + r >= a * u + u) by (nonlinear_arith)
                requires
                    q >= a + 1,
                    r >= 0,
                    u >= 1,
            ;
            assert(up * u > a * u) by (nonlinear_arith)
                requires
                    up > a,
                    u >= 1,
            ;
        } else {
            assert(up > a ==> up * u > a * u) by (nonlinear_arith)
                requires
                    u >= 1,
            ;
        }
    }
}

/// A value in coarse units: the whole units are the fixed-point form, and a
/// value whose last place is a unit or more has no remainder.
proof fn lemma_units(m: nat, t: int, s: nat, w: nat)
    requires
        -1074 <= t,
        s + w == 1074,
    ensures
        scaled(m, t + s) == (m * p2((t + 1074) as nat)) as int / p2(w) as int,
        t + s >= 0 ==> m * p2((t + 1074) as nat) == scaled(m, t + s) * p2(w),
{
    let pw = p2(w) as int;
    lemma_p2_pos(w);
    if t + s >= 0 {
        lemma_p2_adds((t + s) as nat, w);
        let x = p2((t + s) as nat) as int;
        let mi = m as int;
        assert(mi * (x * pw) == (mi * x) * pw) by (nonlinear_arith);
        assert(((mi * x) * pw) / pw == mi * x) by (nonlinear_arith)
            requires
                pw >= 1,
        ;
    } else {
        let a = (t + 1074) as nat;
        let b = (-(t + s)) as nat;
        lemma_p2_adds(a, b);
        lemma_p2_pos(a);
        lemma_p2_pos(b);
        assert(a + b == w);
        let pa = p2(a) as int;
        let pb = p2(b) as int;
        let mi = m as int;
        let q = mi / pb;
        let r = mi % pb;
        assert(mi == q * pb + r && 0 <= r < pb) by (nonlinear_arith)
            requires
                q == mi / pb,
                r == mi % pb,
                pb >= 1,
        ;
        let whole = mi * pa;
        assert(whole == q * pw + r * pa && 0 <= r * pa < pw) by (nonlinear_arith)
            requires
                whole == mi * pa,
                mi == q * pb + r,
                0 <= r < pb,
                pw == pa * pb,
                pa >= 1,
        ;
        assert(whole / pw == q) by (nonlinear_arith)
            requires
                whole == q * pw + r * pa,
                0 <= r * pa < pw,
        ;
    }
}

/// Two magnitudes of which the first has the larger last place, or the same,
/// are at least half that place apart where the first is larger.
proof fn lemma_gap(sx: nat, tx: int, sy: nat, ty: int)
    requires
        FRACTION <= sx < 2 * FRACTION,
        sy < 2 * FRACTION,
        -1074 < tx,
        -1074 <= ty,
        ty > -1074 ==> sy >= FRACTION,
    ensures
        ({
            let x = sx * p2((tx + 1074) as nat);
            let y = sy * p2((ty + 1074) as nat);
            if tx < ty || (tx == ty && sx <= sy) {
                x <= y
            } else {
                x >= y + p2((tx + 1073) as nat)
            }
        }),
{
    let px = p2((tx + 1074) as nat) as int;
    let py = p2((ty + 1074) as nat) as int;
    let h = p2((tx + 1073) as nat) as int;
    lemma_p2_pos((tx + 1073) as nat);
    lemma_p2_pos((ty + 1074) as nat);
    assert(px == 2 * h);
    let a = sx as int;
    let b = sy as int;
    if tx < ty {
        lemma_p2_monotone((tx + 1075) as nat, (ty + 1074) as nat);
        assert(p2((tx + 1075) as nat) == 2 * px);
        assert(a * px <= b * py) by (nonlinear_arith)
            requires
                a < 2 * FRACTION,
                b >= FRACTION,
                py >= 2 * px,
                px >= 1,
        ;
    } else if tx == ty {
        assert(a <= b ==> a * px <= b * px) by (nonlinear_arith)
            requires
                px >= 1,
        ;
        assert(a > b ==> a * px >= b * px + h) by (nonlinear_arith)
            requires
                px == 2 * h,
                h >= 1,
        ;
    } else {
        lemma_p2_monotone((ty + 1074) as nat, (tx + 1073) as nat);
        assert(a * px >= b * py + h) by (nonlinear_arith)
            requires
                a >= FRACTION,
                b <= 2 * FRACTION - 1,
                px == 2 * h,
                py <= h,
                h >= 1,
                b >= 0,
        ;
    }
}

/// Whether one magnitude exceeds another by at most `m` units of `2^-s`.
fn differs_at_most(x: u64, y: u64, m: u64, s: u32) -> (r: bool)
    requires
        finite(x),
        finite(y),
        3 <= s <= 53,
        p2(53) <= m < 4 * p2(53),
    ensures
        r == (magnitude(x) <= magnitude(y) + m * p2((1074 - s) as nat)),
{
    let (sx, tx) = split(x);
    let (sy, ty) = split(y);
    let ghost w = (1074 - s) as nat;
    let ghost pw = p2(w) as int;
    let ghost a = magnitude(x) as int;
    let ghost b = magnitude(y) as int;
    proof {
        lemma_p2_pos(w);
        lemma_p2_values();
        lemma_units(sx as nat, tx as int, s as nat, w);
        lemma_units(sy as nat, ty as int, s as nat, w);
    }
    if tx + (s as i32) < 0 {
        proof {
            // The first magnitude is below 2^53 units.
            lemma_p2_pos((tx + 1074) as nat);
            lemma_p2_monotone((tx + 1074) as nat, w);
            let px = p2((tx + 1074) as nat) as int;
            assert(a <= b + m * pw) by (nonlinear_arith)
                requires
                    a == sx * px,
                    sx < 2 * FRACTION,
                    1 <= px <= pw,
                    m >= 2 * FRACTION,
                    b >= 0,
            ;
        }
        return true;
    }
    if tx + (s as i32) >= 64 {
        proof {
            lemma_gap(sx as nat, tx as int, sy as nat, ty as int);
            lemma_p2_adds(63, w);
            lemma_p2_monotone((63 + w) as nat, (tx + 1073) as nat);
            let h = p2((tx + 1073) as nat) as int;
            assert(m * pw < h) by (nonlinear_arith)
                requires
                    h >= SIGN * pw,
                    m < 8 * FRACTION,
                    pw >= 1,
            ;
            assert(0 <= m * pw) by (nonlinear_arith)
                requires
                    m >= 0,
                    pw >= 1,
            ;
        }
        return tx < ty || (tx == ty && sx <= sy);
    }
    let left: Option<u128> = scale_by(sx, tx + s as i32);
    let right: Option<u128> = scale_by(sy, ty + s as i32);
    match (left, right) {
        (Some(p), Some(q)) => {
            proof {
                let (pi, qi, mi) = (p as int, q as int, m as int);
                let r = b % pw;
                vstd::arithmetic::div_mod::lemma_fundamental_div_mod(b, pw);
                assert(pw * qi == qi * pw) by (nonlinear_arith);
                assert(pi <= qi + mi ==> pi * pw <= qi * pw + r + mi * pw) by (nonlinear_arith)
                    requires
                        r >= 0,
                        pw >= 1,
                ;
                assert(pi > qi + mi ==> pi * pw > qi * pw + r + mi * pw) by (nonlinear_arith)
                    requires
                        r < pw,
                        pw >= 1,
                ;
            }
            p <= q + m as u128
        },
        (Some(p), None) => {
            proof {
                // The second magnitude has the larger last place.
                lemma_p2_monotone((tx + 1075) as nat, (ty + 1074) as nat);
                lemma_p2_pos((tx + 1074) as nat);
                let px = p2((tx + 1074) as nat) as int;
                let py = p2((ty + 1074) as nat) as int;
                assert(p2((tx + 1075) as nat) == 2 * px);
                assert(a <= b + m * pw) by (nonlinear_arith)
                    requires
                        a == sx * px,
                        b == sy * py,
                        sx < 2 * FRACTION,
                        sy >= FRACTION,
                        py >= 2 * px,
                        px >= 1,
                        m >= 0,
                        pw >= 1,
                ;
            }
            true
        },
        (None, _) => {
            assert(tx + s <= 74);
            false
        },
    }
}

/// A magnitude in whole units of `2^-s`, a begun unit counted.
fn whole_units(x: u64, s: u32) -> (r: u128)
    requires
        finite(x),
        3 <= s <= 53,
        scale(x) + s < 64,
    ensures
        r < 0x8000_0000_0000_0000_0000_0000_0000_0000,
        forall|n: nat| #[trigger]
            (n * p2((1074 - s) as nat)) >= magnitude(x) <==> r <= n,
{
    let (sx, tx) = split(x);
    let ghost w = (1074 - s) as nat;
    let ghost pw = p2(w) as int;
    let ghost a = magnitude(x) as int;
    let t: i32 = tx + s as i32;
    proof {
        lemma_p2_pos(w);
        lemma_p2_values();
        lemma_units(sx as nat, tx as int, s as nat, w);
    }
    let floor: u128 = match scale_by(sx, t) {
        Some(v) => v,
        None => 0,
    };
    let ghost r = a % pw;
    proof {
        vstd::arithmetic::div_mod::lemma_fundamental_div_mod(a, pw);
        assert(pw * (floor as int) == floor as int * pw) by (nonlinear_arith);
        assert forall|n: nat| #[trigger] (n * p2(w)) >= a <==> (if r == 0 {
            floor <= n
        } else {
            floor < n
        }) by {
            let (ni, fi) = (n as int, floor as int);
            assert(fi < ni ==> ni * pw >= fi * pw + pw) by (nonlinear_arith)
                requires
                    pw >= 1,
            ;
            assert(fi > ni ==> ni * pw + pw <= fi * pw) by (nonlinear_arith)
                requires
                    pw >= 1,
            ;
            assert(fi == ni ==> ni * pw == fi * pw);
            assert(a == fi * pw + r && 0 <= r < pw);
            assert(n * p2(w) == ni * pw);
        }
    }
    if t >= 0 {
        proof {
            assert(a == floor as int * pw);
            assert(r == 0) by (nonlinear_arith)
                requires
                    a == floor as int * pw,
                    r == a % pw,
                    pw >= 1,
            ;
            let x = p2(t as nat) as int;
            lemma_p2_monotone(t as nat, 64);
            assert(floor < 0x8000_0000_0000_0000_0000_0000_0000_0000) by (nonlinear_arith)
                requires
                    floor == sx * x,
                    sx < 0x20_0000_0000_0000,
                    x <= 0x1_0000_0000_0000_0000,
            ;
        }
        return floor;
    }
    let begun = if t < -64 {
        proof {
            lemma_p2_monotone(64, (-t) as nat);
        }
        sx > 0
    } else {
        proof {
            lemma_p2_pos((-t) as nat);
        }
        let d: u128 = power_of_two((-t) as u32);
        (sx as u128) % d != 0
    };
    proof {
        // The remainder is that of the significand, in finer units.
        let b = (-t) as nat;
        let fine = (tx + 1074) as nat;
        lemma_p2_adds(fine, b);
        lemma_p2_pos(fine);
        lemma_p2_pos(b);
        let pa = p2(fine) as int;
        let pb = p2(b) as int;
        let m = sx as int;
        let rm = m % pb;
        vstd::arithmetic::div_mod::lemma_fundamental_div_mod(m, pb);
        let q = m / pb;
        assert(pw == pa * pb);
        assert(a == q * pw + rm * pa && 0 <= rm * pa < pw) by (nonlinear_arith)
            requires
                a == m * pa,
                m == pb * q + rm,
                0 <= rm < pb,
                pw == pa * pb,
                pa >= 1,
        ;
        assert(r == rm * pa) by {
            vstd::arithmetic::div_mod::lemma_fundamental_div_mod_converse(a, pw, q, rm * pa);
        }
        assert((rm == 0) == (rm * pa == 0)) by (nonlinear_arith)
            requires
                pa >= 1,
                rm >= 0,
        ;
        if t < -64 {
            assert(rm == m) by (nonlinear_arith)
                requires
                    rm == m % pb,
                    0 <= m < pb,
            ;
        }
        assert(floor <= sx) by (nonlinear_arith)
            requires
                floor == m / pb,
                m == sx,
                pb >= 1,
        ;
    }
    if begun {
        floor + 1
    } else {
        floor
    }
}

/// Whether two magnitudes together are at most `m` units of `2^-s`.
fn adds_up_to(x: u64, y: u64, m: u64, s: u32) -> (r: bool)
    requires
        finite(x),
        finite(y),
        3 <= s <= 53,
        p2(53) <= m < 4 * p2(53),
    ensures
        r == (magnitude(x) + magnitude(y) <= m * p2((1074 - s) as nat)),
{
    let (sx, tx) = split(x);
    let (sy, ty) = split(y);
    let ghost w = (1074 - s) as nat;
    let ghost pw = p2(w) as int;
    let ghost a = magnitude(x) as int;
    let ghost b = magnitude(y) as int;
    proof {
        lemma_p2_pos(w);
        lemma_p2_values();
        lemma_units(sx as nat, tx as int, s as nat, w);
        lemma_units(sy as nat, ty as int, s as nat, w);
    }
    if tx + (s as i32) >= 64 || ty + (s as i32) >= 64 {
        proof {
            let t = if tx + s >= 64 {
                tx as int
            } else {
                ty as int
            };
            lemma_p2_adds(64, w);
            lemma_p2_monotone((64 + w) as nat, (t + 1074) as nat);
            let pt = p2((t + 1074) as nat) as int;
            let c = if tx + s >= 64 {
                a
            } else {
                b
            };
            let sc = if tx + s >= 64 {
                sx as int
            } else {
                sy as int
            };
            assert(c > m * pw) by (nonlinear_arith)
                requires
                    c == sc * pt,
                    sc >= FRACTION,
                    pt >= 0x1_0000_0000_0000_0000 * pw,
                    m < 8 * FRACTION,
                    pw >= 1,
            ;
        }
        return false;
    }
    let (wide, narrow) = if tx >= ty {
        (x, y)
    } else {
        (y, x)
    };
    let (sw, tw) = split(wide);
    if tw + (s as i32) < 0 {
        proof {
            // Each magnitude is below 2^52 units.
            lemma_p2_monotone((tx + 1074) as nat, (w - 1) as nat);
            lemma_p2_monotone((ty + 1074) as nat, (w - 1) as nat);
            lemma_p2_pos((tx + 1074) as nat);
            lemma_p2_pos((ty + 1074) as nat);
            let px = p2((tx + 1074) as nat) as int;
            let py = p2((ty + 1074) as nat) as int;
            assert(pw == 2 * p2((w - 1) as nat));
            assert(a + b <= m * pw) by (nonlinear_arith)
                requires
                    a == sx * px,
                    b == sy * py,
                    sx < 2 * FRACTION,
                    sy < 2 * FRACTION,
                    1 <= 2 * px <= pw,
                    1 <= 2 * py <= pw,
                    m >= 2 * FRACTION,
            ;
        }
        return true;
    }
    let whole: u128 = whole_units(wide, s);
    let begun: u128 = whole_units(narrow, s);
    proof {
        // The wider magnitude is a number of whole units.
        lemma_units(sw as nat, tw as int, s as nat, w);
        let v = scaled(sw as nat, tw + s);
        let big = magnitude(wide) as int;
        let small = magnitude(narrow) as int;
        assert(v * p2(w) == big);
        assert(whole <= v);
        if whole < v {
            let under = (v - 1) as nat;
            assert(under * p2(w) >= big);
            assert(under as int * pw < v as int * pw) by (nonlinear_arith)
                requires
                    under == v - 1,
                    pw >= 1,
            ;
        }
        assert(whole == v);
        if whole <= m {
            let rest = (m - whole) as nat;
            assert(rest * p2(w) >= small <==> begun <= rest);
            assert((m - whole) * pw == m * pw - whole * pw) by (nonlinear_arith);
        } else {
            assert(whole as int * pw > m as int * pw) by (nonlinear_arith)
                requires
                    whole > m,
                    pw >= 1,
            ;
        }
    }
    whole <= m as u128 && begun <= m as u128 - whole
}

/// Whether `now - seen`, as binary64 subtraction gives it, is at most `limit`.
pub fn is_within(now: u64, seen: u64, limit: u64) -> (r: bool)
    requires
        1 <= limit < 0x4_0000_0000_0000,
    ensures
        r == within(now, seen, limit as nat),
{
    if is_nan(now) || is_nan(seen) {
        return false;
    }
    if !is_finite(now) {
        return now >= SIGN && (is_finite(seen) || seen < SIGN);
    }
    if !is_finite(seen) {
        return seen < SIGN;
    }
    let j: u32 = log2_of(limit);
    proof {
        lemma_p2_values();
        lemma_log2(limit as nat);
        lemma_log2_below(limit as nat, 50);
    }
    let s: u32 = 53 - j;
    let step: u128 = power_of_two(s);
    let ghost w = (1074 - s) as nat;
    let ghost d = exact(now) - exact(seen);
    proof {
        lemma_p2_adds(j as nat, s as nat);
        lemma_p2_monotone(s as nat, 53);
        lemma_p2_pos(s as nat);
        let (l, pj, ps) = (limit as int, p2(j as nat) as int, step as int);
        assert(pj * ps <= l * ps < 2 * (pj * ps)) by (nonlinear_arith)
            requires
                pj <= l < 2 * pj,
                ps >= 1,
        ;
        if d >= 1 {
            lemma_threshold(d as nat, limit as nat, j as nat);
        }
    }
    let m: u64 = limit * (step as u64) + 1;
    let ghost room = m * p2(w);
    proof {
        lemma_p2_pos(w);
        assert(room >= 0);
    }
    if now >= SIGN {
        if seen >= SIGN {
            differs_at_most(seen, now, m, s)
        } else {
            true
        }
    } else if seen >= SIGN {
        adds_up_to(now, seen, m, s)
    } else {
        differs_at_most(now, seen, m, s)
    }
}

/// `n / d` rounded to 53 significant bits, ties to even, for `n >= d`: a
/// significand in units of `2^-52`, and the exponent of two that goes with it.
pub open spec fn quotient(n: nat, d: nat) -> (nat, nat) {
    let j = log2(n / d);
    (nearest(n * p2((52 - j) as nat), d), j)
}

/// The place of a number in the order of those that 53 significant bits hold,
/// counted from zero; numbers between zero and `2^52` have none.
pub open spec fn place(w: nat) -> nat {
    if w == 0 {
        0
    } else {
        log2(w) * p2(53) + w / p2((log2(w) - 52) as nat)
    }
}

proof fn lemma_log2_is(n: nat, k: nat)
    requires
        p2(k) <= n < 2 * p2(k),
    ensures
        log2(n) == k,
{
    lemma_p2_pos(k);
    lemma_log2(n);
    if log2(n) > k {
        lemma_p2_monotone(k + 1, log2(n));
    } else if log2(n) < k {
        lemma_p2_monotone(log2(n) + 1, k);
    }
}

/// The place of a significand at its power of two.
proof fn lemma_place(m: nat, t: nat)
    requires
        p2(52) <= m < p2(53),
    ensures
        place(m * p2(t)) == (52 + t) * p2(53) + m,
        m * p2(t) >= p2(52),
{
    let w = m * p2(t);
    lemma_p2_pos(t);
    lemma_p2_values();
    lemma_p2_adds(52, t);
    lemma_p2_adds(53, t);
    assert(p2(53) * p2(t) == 2 * p2((52 + t) as nat)) by {
        assert(p2((53 + t) as nat) == 2 * p2((52 + t) as nat));
    }
    let b = p2(t) as int;
    assert(p2(52) * b <= m * b && m * b < p2(53) * b && m * b >= m && (m * b) / b == m)
        by (nonlinear_arith)
        requires
            p2(52) <= m < p2(53),
            b >= 1,
    ;
    lemma_log2_is(w, (52 + t) as nat);
}

/// Numbers of 53 significant bits are in the order of their places.
pub proof fn lemma_places_order(m: nat, t: nat, n: nat, u: nat)
    requires
        full(m),
        full(n),
        m * p2(t) < n * p2(u),
    ensures
        place(m * p2(t)) < place(n * p2(u)),
{
    lemma_place(m, t);
    lemma_place(n, u);
    lemma_p2_pos(t);
    lemma_p2_pos(u);
    if t == u {
        assert(m < n) by (nonlinear_arith)
            requires
                m * p2(t) < n * p2(t),
                p2(t) >= 1,
        ;
    } else if t > u {
        lemma_p2_monotone(u + 1, t);
        lemma_p2_values();
        assert(m * p2(t) >= n * p2(u)) by (nonlinear_arith)
            requires
                m >= p2(52),
                n < p2(53),
                p2(53) == 2 * p2(52),
                p2(t) >= 2 * p2(u),
                p2(u) >= 1,
        ;
    } else {
        assert((52 + t) * p2(53) + p2(53) <= (52 + u) * p2(53)) by (nonlinear_arith)
            requires
                t < u,
                p2(53) >= 0,
        ;
    }
}

/// A significand of 53 bits.
pub open spec fn full(m: nat) -> bool {
    p2(52) <= m < p2(53)
}

/// The significand of a rounded number, which may have been rounded up to the
/// next power of two.
pub open spec fn leading(n: nat) -> nat {
    if log2(n) == 52 {
        n
    } else {
        round_half_even(n, (log2(n) - 52) as nat)
    }
}

proof fn lemma_leading(n: nat)
    requires
        p2(52) <= n,
    ensures
        52 <= log2(n),
        p2(52) <= leading(n) <= p2(53),
        rounded(n) == leading(n) * p2((log2(n) - 52) as nat),
{
    let k = log2(n);
    lemma_p2_values();
    lemma_log2(n);
    if k < 52 {
        lemma_p2_monotone(k + 1, 52);
    } else if k == 52 {
        assert(p2((k - 52) as nat) == 1 && n * 1 == n);
    } else {
        lemma_round_range(n, k);
        lemma_round_low(n, k);
    }
}

/// A significand in its normal form.
pub open spec fn normal(m: nat, t: nat) -> (nat, nat) {
    if m == p2(53) {
        (p2(52), t + 1)
    } else {
        (m, t)
    }
}

proof fn lemma_normal(m: nat, t: nat)
    requires
        p2(52) <= m <= p2(53),
    ensures
        full(normal(m, t).0),
        m * p2(t) == normal(m, t).0 * p2(normal(m, t).1),
        place(m * p2(t)) == (52 + normal(m, t).1) * p2(53) + normal(m, t).0,
        m * p2(t) > 0,
{
    lemma_p2_values();
    if m == p2(53) {
        let y = p2(t) as int;
        assert(p2(t + 1) == 2 * p2(t));
        assert((2 * FRACTION) * y == FRACTION * (2 * y)) by (nonlinear_arith);
    }
    lemma_place(normal(m, t).0, normal(m, t).1);
}

/// A rounded product at a power of two is zero or has a significand of 53
/// bits.
pub proof fn lemma_product(m: nat, j: nat, factor: nat)
    requires
        p2(52) <= m <= p2(53),
        j < 52,
        factor < p2(32),
    ensures
        ({
            let n = m * factor;
            let w = rounded(n) * p2(j);
            let (s, u) = normal(leading(n), (log2(n) - 52 + j) as nat);
            &&& factor == 0 ==> w == 0
            &&& factor > 0 ==> {
                &&& 52 <= log2(n) < 85
                &&& p2(52) <= leading(n) <= p2(53)
                &&& full(s)
                &&& w == s * p2(u)
                &&& w > 0
                &&& place(w) == (52 + u) * p2(53) + s
                &&& place(w) < p2(64)
            }
        }),
{
    let n = m * factor;
    if factor == 0 {
        assert(m * 0 == 0 && 0 * p2(j) == 0);
    } else {
        lemma_p2_values();
        lemma_p2_adds(53, 32);
        let a = p2(53) as int;
        let b = p2(32) as int;
        assert(m <= n && n < a * b) by (nonlinear_arith)
            requires
                n == m * factor,
                1 <= m <= a,
                1 <= factor < b,
        ;
        lemma_log2_below(n, 85);
        lemma_leading(n);
        let t = (log2(n) - 52) as nat;
        lemma_p2_adds(t, j);
        let x = p2(t) as int;
        let y = p2(j) as int;
        let top = leading(n) as int;
        assert((top * x) * y == top * (x * y)) by (nonlinear_arith);
        lemma_normal(leading(n), t + j);
        let (head, u) = normal(leading(n), t + j);
        assert((52 + u) * a + head < 0x1_0000_0000_0000_0000) by (nonlinear_arith)
            requires
                u < 87,
                a == 2 * FRACTION,
                head < a,
        ;
    }
}

pub proof fn lemma_rounded_range(n: u64)
    ensures
        rounded(n as nat) <= p2(64),
{
    let k = log2(n as nat);
    if k > 52 {
        lemma_log2(n as nat);
        lemma_p2_values();
        lemma_log2_below(n as nat, 64);
        lemma_round_range(n as nat, k);
        lemma_p2_adds(53, (k - 52) as nat);
        lemma_p2_monotone(k + 1, 64);
        let q = round_half_even(n as nat, (k - 52) as nat);
        let unit = p2((k - 52) as nat);
        assert(q * unit <= (2 * FRACTION) * unit) by (nonlinear_arith)
            requires
                q <= 2 * FRACTION,
                unit >= 0,
        ;
    } else {
        lemma_p2_values();
    }
}

pub proof fn lemma_quotient(n: nat, d: nat)
    requires
        2 <= d <= n,
        n / d < p2(52),
    ensures
        p2(52) <= quotient(n, d).0 <= p2(53),
        quotient(n, d).1 < 52,
        d * p2(52) <= n * p2((52 - quotient(n, d).1) as nat) < d * p2(53),
{
    let whole = n / d;
    assert(whole >= 1) by (nonlinear_arith)
        requires
            whole == n / d,
            2 <= d <= n,
    ;
    let j = log2(whole);
    lemma_p2_values();
    lemma_log2(whole);
    lemma_log2_below(whole, 52);
    lemma_p2_adds(j, (52 - j) as nat);
    lemma_p2_pos((52 - j) as nat);
    let top = p2(j) as int;
    let unit = p2((52 - j) as nat) as int;
    let a = n * unit;
    assert(d * FRACTION <= a && a < d * (2 * FRACTION)) by (nonlinear_arith)
        requires
            a == n * unit,
            whole == n / d,
            top <= whole,
            whole < 2 * top,
            top * unit == FRACTION,
            d >= 2,
            unit >= 1,
    ;
    assert(FRACTION <= a / (d as int) && a / (d as int) < 2 * FRACTION) by (nonlinear_arith)
        requires
            d * FRACTION <= a,
            a < d * (2 * FRACTION),
            d >= 2,
    ;
}

/// An integer rounded to 53 significant bits.
pub fn rounded_int(n: u64) -> (r: u128)
    ensures
        r == rounded(n as nat),
{
    if n == 0 {
        return 0;
    }
    let k: u32 = log2_of(n);
    if k <= 52 {
        return n as u128;
    }
    let q: u64 = round(n, k - 52);
    let unit: u128 = power_of_two(k - 52);
    proof {
        lemma_rounded_range(n);
        lemma_p2_values();
    }
    q as u128 * unit
}

/// The significand and the exponent of a quotient.
pub fn divide(n: u128, d: u64) -> (r: (u64, u32))
    requires
        2 <= d < 0x1_0000_0000,
        d <= n,
        n / (d as u128) < FRACTION,
    ensures
        (r.0 as nat, r.1 as nat) == quotient(n as nat, d as nat),
        FRACTION <= r.0 <= 2 * FRACTION,
        r.1 < 52,
{
    let whole: u64 = (n / d as u128) as u64;
    proof {
        lemma_p2_values();
        lemma_quotient(n as nat, d as nat);
        assert(whole >= 1) by (nonlinear_arith)
            requires
                whole == n / d as u128,
                2 <= d <= n,
        ;
    }
    let j: u32 = log2_of(whole);
    let unit: u128 = power_of_two(52 - j);
    assert(n * unit < 0x1_0000_0000 * (2 * FRACTION)) by (nonlinear_arith)
        requires
            n * unit < d * (2 * FRACTION),
            d < 0x1_0000_0000,
    ;
    let m: u128 = nearest_of(n * unit, d as u128);
    (m as u64, j)
}

/// The place of the product of a number, given by its significand and its
/// exponent, and an integer.
pub fn product_place(m: u64, j: u32, factor: u32) -> (r: u128)
    requires
        FRACTION <= m <= 2 * FRACTION,
        j < 52,
    ensures
        r == place(rounded(m as nat * factor as nat) * p2(j as nat)),
        r < 0x1_0000_0000_0000_0000,
{
    proof {
        lemma_p2_values();
        lemma_product(m as nat, j as nat, factor as nat);
    }
    if factor == 0 {
        return 0;
    }
    assert(FRACTION <= m * factor && m * factor < 2 * FRACTION * 0x1_0000_0000) by (nonlinear_arith)
        requires
            FRACTION <= m <= 2 * FRACTION,
            1 <= factor < 0x1_0000_0000,
    ;
    let n: u128 = m as u128 * factor as u128;
    proof {
        lemma_p2_adds(53, 32);
        lemma_p2_monotone(85, 120);
    }
    let k: u32 = log2_wide(n);
    let top: u128 = if k == 52 {
        n
    } else {
        round_wide(n, k - 52)
    };
    if top == 0x20_0000_0000_0000 {
        (k + j + 1) as u128 * 0x20_0000_0000_0000 + 0x10_0000_0000_0000
    } else {
        (k + j) as u128 * 0x20_0000_0000_0000 + top
    }
}

proof fn lemma_round_low(n: nat, k: nat)
    requires
        53 <= k,
        p2(k) <= n,
    ensures
        FRACTION <= round_half_even(n, (k - 52) as nat),
{
    let s = (k - 52) as nat;
    lemma_p2_values();
    lemma_p2_pos(s);
    lemma_p2_adds(52, s);
    let d = p2(s);
    assert(n / d >= FRACTION) by (nonlinear_arith)
        requires
            n >= FRACTION * d,
            d >= 1,
    ;
}

} // verus!
