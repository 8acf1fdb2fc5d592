//! Binary64 values that stand for numbers: limits and times.
use vstd::prelude::*;

use crate::ieee::{
    exact, exponent, finite, fixed, from_int, is_negative, lemma_log2, lemma_p2_adds,
    lemma_p2_monotone, lemma_p2_pos, lemma_p2_values, log2, magnitude, nan, nearest, p2,
    round_half_even, rounded, scale, scaled, significand, thousandfold, within, FRACTION,
};

verus! {

proof fn lemma_nearest(n: nat, d: nat, a: nat)
    requires
        d >= 1,
    ensures
        n <= a * d ==> nearest(n, d) <= a,
        n >= a * d ==> nearest(n, d) >= a,
{
    let q = n as int / d as int;
    let r = n as int % d as int;
    let di = d as int;
    let ai = a as int;
    let ni = n as int;
    assert(ni == q * di + r && 0 <= r < di) by (nonlinear_arith)
        requires
            q == ni / di,
            r == ni % di,
            di >= 1,
            ni >= 0,
    ;
    if n <= a * d {
        assert(q < ai || (q == ai && r == 0)) by (nonlinear_arith)
            requires
                ni == q * di + r,
                0 <= r < di,
                ni <= ai * di,
        ;
    }
    if n >= a * d {
        assert(q >= ai) by (nonlinear_arith)
            requires
                ni == q * di + r,
                0 <= r < di,
                ni >= ai * di,
        ;
    }
}

proof fn lemma_divided(n: nat, d: nat, a: nat)
    requires
        d >= 1,
    ensures
        n <= a * d ==> n / d <= a,
        n >= a * d ==> n / d >= a,
{
    let q = n as int / d as int;
    let di = d as int;
    let ai = a as int;
    let ni = n as int;
    if n <= a * d {
        assert(q <= ai) by (nonlinear_arith)
            requires
                q == ni / di,
                di >= 1,
                ni <= ai * di,
        ;
    }
    if n >= a * d {
        assert(q >= ai) by (nonlinear_arith)
            requires
                q == ni / di,
                di >= 1,
                ni >= ai * di,
        ;
    }
}

/// A common factor does not matter to an order.
proof fn lemma_factor(a: nat, b: nat, f: nat)
    requires
        f >= 1,
    ensures
        a * f <= b * f <==> a <= b,
        a * f >= b * f <==> a >= b,
{
    assert(a * f <= b * f <==> a <= b) by (nonlinear_arith)
        requires
            f >= 1,
    ;
    assert(a * f >= b * f <==> a >= b) by (nonlinear_arith)
        requires
            f >= 1,
    ;
}

/// A thousand times a value, in whole numbers: it is at most `a` where the
/// exact product is, and at least `a` where that is.
pub proof fn law_thousandfold(bits: u64, a: nat)
    requires
        finite(bits),
        a <= p2(52),
    ensures
        1000 * magnitude(bits) <= a * p2(1074) ==> thousandfold(bits) <= a,
        1000 * magnitude(bits) >= a * p2(1074) ==> thousandfold(bits) >= a,
{
    let m = significand(bits);
    let t = scale(bits);
    let big = (t + 1074) as nat;
    let p = m * 1000;
    let k = log2(p);
    let all = p2(1074);
    lemma_p2_pos(big);
    assert(0 <= exponent(bits) < 2048);
    assert(t >= -1074);
    assert(1000 * magnitude(bits) == p * p2(big)) by {
        let x = p2(big) as int;
        let y = m as int;
        assert(1000 * (y * x) == (y * 1000) * x) by (nonlinear_arith);
    }
    if t >= 0 {
        lemma_p2_adds(1074, t as nat);
        assert(big == 1074 + t as nat);
        let f = p2(t as nat) as int;
        let g = all as int;
        let h = p as int;
        assert(h * (g * f) == (h * f) * g) by (nonlinear_arith);
        lemma_p2_pos(1074);
        lemma_factor(p * p2(t as nat), a, all);
    } else {
        let n = (-t) as nat;
        lemma_p2_adds(big, n);
        assert(big + n == 1074);
        let f = p2(big) as int;
        let g = p2(n) as int;
        let h = a as int;
        assert(h * (f * g) == (h * g) * f) by (nonlinear_arith);
        lemma_factor(p, a * p2(n), p2(big));
    }
    if k <= 52 {
        if t < 0 {
            lemma_p2_pos((-t) as nat);
            lemma_divided(p, p2((-t) as nat), a);
        }
    } else {
        let s = (k - 52) as nat;
        let u = t + s;
        let q = round_half_even(p, s);
        lemma_p2_pos(s);
        lemma_log2(p);
        lemma_p2_adds(52, s);
        assert(p >= p2(52) * p2(s));
        lemma_nearest(p, p2(s), p2(52));
        assert(q >= p2(52));
        if u <= 0 {
            let w = (-u) as nat;
            lemma_p2_pos(w);
            lemma_p2_adds(w, s);
            assert((-t) as nat == w + s);
            let f = p2(w) as int;
            let g = p2(s) as int;
            let h = a as int;
            assert(h * (f * g) == (h * f) * g) by (nonlinear_arith);
            if t < 0 {
                lemma_nearest(p, p2(s), a * p2(w));
                lemma_divided(q, p2(w), a);
                if w == 0 {
                    assert(p2(0) == 1);
                    assert(q * 1 == q && a * 1 == a);
                }
            }
        } else {
            lemma_p2_pos(u as nat);
            let x = p2(u as nat) as int;
            let y = q as int;
            assert(y * x >= y) by (nonlinear_arith)
                requires
                    x >= 1,
                    y >= 0,
            ;
            assert(scaled(q, u) == q * p2(u as nat));
            assert(thousandfold(bits) >= a);
            if 1000 * magnitude(bits) <= a * p2(1074) {
                if t >= 0 {
                    lemma_p2_pos(t as nat);
                    let b = p as int;
                    let e = p2(t as nat) as int;
                    assert(b * e >= b) by (nonlinear_arith)
                        requires
                            e >= 1,
                            b >= 0,
                    ;
                    lemma_p2_monotone(1, s);
                    let c = p2(52) as int;
                    let v = p2(s) as int;
                    assert(p2(1) == 2) by {
                        reveal_with_fuel(p2, 2);
                    }
                    assert(c * v >= 2 * c) by (nonlinear_arith)
                        requires
                            v >= 2,
                            c >= 0,
                    ;
                    lemma_p2_pos(52);
                } else {
                    let n = (-t) as nat;
                    lemma_p2_monotone(n + 1, s);
                    assert(p2(n + 1) == 2 * p2(n));
                    lemma_p2_pos(n);
                    lemma_p2_pos(52);
                    let c = p2(52) as int;
                    let v = p2(s) as int;
                    let z = p2(n) as int;
                    let h = a as int;
                    assert(h * z < c * v) by (nonlinear_arith)
                        requires
                            h <= c,
                            v >= 2 * z,
                            z >= 1,
                            c >= 1,
                            h >= 0,
                    ;
                }
            }
        }
    }
}

/// A whole number up to `2^53` is exactly itself as a binary64 value.
pub proof fn law_integers_are_exact(v: nat)
    requires
        v <= p2(53),
    ensures
        0 <= from_int(v as int) < crate::ieee::SIGN,
        finite(from_int(v as int) as u64),
        !nan(from_int(v as int) as u64),
        !is_negative(from_int(v as int) as u64),
        magnitude(from_int(v as int) as u64) == v * p2(1074),
        exact(from_int(v as int) as u64) == v * p2(1074),
{
    lemma_p2_values();
    if v == 0 {
        assert(significand(0u64) == 0);
        assert(0nat * p2((scale(0u64) + 1074) as nat) == 0) by (nonlinear_arith);
        assert(0nat * p2(1074) == 0) by (nonlinear_arith);
    } else {
        let k = log2(v);
        lemma_log2(v);
        let j: nat = if k <= 52 {
            k
        } else {
            53
        };
        if k > 53 {
            lemma_p2_monotone(54, k);
            assert(p2(54) == 2 * p2(53));
        }
        if k == 53 {
            assert(v == p2(53));
            let b = from_int(v as int);
            assert(p2((k - 52) as nat) == 2);
            assert(round_half_even(v, 1) == FRACTION);
            assert(b == 1076 * FRACTION) by (nonlinear_arith)
                requires
                    b == (1022 + 53) * FRACTION + FRACTION,
            ;
            let bits = b as u64;
            assert(bits as int / FRACTION as int == 1076 && bits as int % FRACTION as int == 0)
                by (nonlinear_arith)
                requires
                    bits as int == 1076 * FRACTION as int,
                    FRACTION == 0x10_0000_0000_0000,
            ;
            assert(significand(bits) == FRACTION);
            assert(scale(bits) == 1);
            lemma_p2_adds(1, 1074);
            let x = p2(1074) as int;
            let f = FRACTION as int;
            assert(f * (2 * x) == (2 * f) * x) by (nonlinear_arith);
        } else {
            let w = p2((52 - k) as nat);
            lemma_p2_pos((52 - k) as nat);
            lemma_p2_adds(k, (52 - k) as nat);
            lemma_p2_adds((k + 1) as nat, (52 - k) as nat);
            let vi = v as int;
            let wi = w as int;
            let n = vi * wi;
            let lo = p2(k) as int;
            assert(lo * wi <= n && n < (2 * lo) * wi) by (nonlinear_arith)
                requires
                    n == vi * wi,
                    lo <= vi,
                    vi < 2 * lo,
                    wi >= 1,
            ;
            let f = FRACTION as int;
            assert(f <= n < 2 * f) by {
                assert((2 * lo) * wi == 2 * (lo * wi)) by (nonlinear_arith);
            }
            let e = 1023 + k as int;
            let b = from_int(v as int);
            assert(b == e * f + (n - f)) by (nonlinear_arith)
                requires
                    b == (1022 + k) * f + n,
                    e == 1023 + k,
            ;
            let bits = b as u64;
            assert(0 <= b < crate::ieee::SIGN && b / f == e && b % f == n - f) by (nonlinear_arith)
                requires
                    b == e * f + (n - f),
                    1023 <= e <= 1075,
                    0 <= n - f < f,
                    f == 0x10_0000_0000_0000,
                    crate::ieee::SIGN == 0x8000_0000_0000_0000,
            ;
            assert(significand(bits) == n);
            assert(scale(bits) == k - 52);
            lemma_p2_adds((52 - k) as nat, (k + 1022) as nat);
            assert((52 - k) + (k + 1022) == 1074);
            let x = p2((k + 1022) as nat) as int;
            assert((vi * wi) * x == vi * (wi * x)) by (nonlinear_arith);
        }
    }
}

/// What fits 53 bits is not rounded.
pub proof fn lemma_not_rounded(x: nat, j: nat)
    requires
        1 <= x < p2(53),
    ensures
        rounded(x * p2(j)) == x * p2(j),
{
    let n = x * p2(j);
    let k = log2(x);
    lemma_log2(x);
    lemma_p2_pos(j);
    lemma_p2_adds(k, j);
    let lo = p2(k) as int;
    let xi = x as int;
    let f = p2(j) as int;
    assert(lo * f <= xi * f && xi * f < 2 * (lo * f)) by (nonlinear_arith)
        requires
            lo <= xi,
            xi < 2 * lo,
            f >= 1,
    ;
    lemma_p2_pos(k + j);
    lemma_log2(n);
    let l = log2(n);
    if l > k + j {
        lemma_p2_monotone((k + j + 1) as nat, l);
    } else if l < k + j {
        lemma_p2_monotone(l + 1, (k + j) as nat);
    }
    assert(l == k + j);
    if k > 52 {
        lemma_p2_monotone(53, k);
    }
    if l > 52 {
        let s = (l - 52) as nat;
        let r = (52 - k) as nat;
        assert(s + r == j);
        lemma_p2_adds(r, s);
        lemma_p2_pos(s);
        let a = (x * p2(r)) as int;
        let ri = p2(r) as int;
        let si = p2(s) as int;
        assert(xi * (ri * si) == (xi * ri) * si) by (nonlinear_arith);
        assert(n == a * si);
        assert((a * si) / si == a && (a * si) % si == 0) by (nonlinear_arith)
            requires
                si >= 1,
                a >= 0,
        ;
    }
}

/// For times in whole seconds, no more than a limit has passed exactly where
/// the difference says so.
pub proof fn law_elapsed_seconds(now: nat, seen: nat, limit: nat)
    requires
        now < p2(53),
        seen < p2(53),
    ensures
        within(from_int(now as int) as u64, from_int(seen as int) as u64, limit) <==> now <= seen
            + limit,
{
    lemma_p2_values();
    law_integers_are_exact(now);
    law_integers_are_exact(seen);
    lemma_p2_pos(1074);
    let f = p2(1074) as int;
    let a = now as int;
    let b = seen as int;
    let d = a * f - b * f;
    assert(d == (a - b) * f) by (nonlinear_arith)
        requires
            d == a * f - b * f,
    ;
    if now <= seen {
        assert((a - b) * f <= 0) by (nonlinear_arith)
            requires
                a <= b,
                f >= 1,
        ;
    } else {
        let x = (now - seen) as nat;
        lemma_not_rounded(x, 1074);
        lemma_factor(x, limit, p2(1074));
        assert((a - b) * f > 0) by (nonlinear_arith)
            requires
                a > b,
                f >= 1,
        ;
    }
}

/// The whole part of a value is at least `a` exactly where the value is.
pub proof fn law_whole_part(bits: u64, a: nat)
    requires
        finite(bits),
    ensures
        magnitude(bits) >= a * p2(1074) <==> fixed(bits, 0) >= a,
{
    let m = significand(bits);
    let t = scale(bits);
    let big = (t + 1074) as nat;
    let all = p2(1074);
    lemma_p2_pos(big);
    lemma_p2_pos(1074);
    assert(0 <= exponent(bits) < 2048);
    if t >= 0 {
        lemma_p2_adds(1074, t as nat);
        assert(big == 1074 + t as nat);
        let f = p2(t as nat) as int;
        let g = all as int;
        let h = m as int;
        assert(h * (g * f) == (h * f) * g) by (nonlinear_arith);
        lemma_factor(m * p2(t as nat), a, all);
    } else {
        let n = (-t) as nat;
        lemma_p2_adds(big, n);
        assert(big + n == 1074);
        lemma_p2_pos(n);
        let f = p2(big) as int;
        let g = p2(n) as int;
        let h = a as int;
        assert(h * (f * g) == (h * g) * f) by (nonlinear_arith);
        lemma_factor(m, a * p2(n), p2(big));
        lemma_divided(m, p2(n), a);
        let q = m as int / g;
        let mi = m as int;
        if m < a * p2(n) {
            assert(q < h) by (nonlinear_arith)
                requires
                    q == mi / g,
                    mi < h * g,
                    g >= 1,
            ;
        }
    }
}

} // verus!
