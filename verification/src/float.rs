//! Rounding to the grid of binary64 (`f64`) values, and the facts about
//! that grid which the size parser rests on.

use vstd::arithmetic::div_mod::{
    lemma_div_denominator, lemma_fundamental_div_mod, lemma_fundamental_div_mod_converse,
};
use vstd::prelude::*;

use crate::size::{div_round_even, f64_spacing, F64_EXACT_LIMIT};

verus! {

/// `2` to the power `e`.
pub open spec fn exp2(e: nat) -> nat
    decreases e,
{
    if e == 0 {
        1
    } else {
        2 * exp2((e - 1) as nat)
    }
}

/// `num / den` rounded to the nearest point of the `f64` grid, ties to the
/// point with an even significand. The grid is measured in a unit in which
/// every integer below `2^53` is a point, and each higher binade
/// `[2^(52+t), 2^(53+t))` has points `2^t` apart: with the unit `2^-1074`,
/// the smallest positive `f64`, the points below `2^1024` are exactly the
/// finite non-negative `f64` values. The grid goes on above them, where an
/// `f64` would be infinite.
pub open spec fn round_to_f64_grid(num: nat, den: nat) -> nat {
    let u = f64_spacing(num / den);
    let q = num / (den * u);
    let r = num % (den * u);
    if 2 * r > den * u || (2 * r == den * u && q % 2 == 1) {
        (q + 1) * u
    } else {
        q * u
    }
}

/// Powers of two are positive.
pub proof fn lemma_exp2_positive(e: nat)
    ensures
        exp2(e) >= 1,
    decreases e,
{
    if e > 0 {
        lemma_exp2_positive((e - 1) as nat);
    }
}

/// `2^(a+b) = 2^a * 2^b`.
pub proof fn lemma_exp2_adds(a: nat, b: nat)
    ensures
        exp2(a + b) == exp2(a) * exp2(b),
    decreases b,
{
    if b == 0 {
        assert(a + b == a);
        assert(exp2(b) == 1);
        assert(exp2(a) * 1 == exp2(a));
    } else {
        lemma_exp2_adds(a, (b - 1) as nat);
        let c = (a + b - 1) as nat;
        assert(c == a + (b - 1) as nat);
        assert(exp2(a + b) == 2 * exp2(c));
        assert(exp2(b) == 2 * exp2((b - 1) as nat));
        let x = exp2(a);
        let y = exp2((b - 1) as nat);
        assert(exp2(c) == x * y);
        assert(x * (2 * y) == 2 * (x * y)) by (nonlinear_arith);
    }
}

/// Powers of two grow with the exponent.
pub proof fn lemma_exp2_le(a: nat, b: nat)
    requires
        a <= b,
    ensures
        exp2(a) <= exp2(b),
{
    lemma_exp2_adds(a, (b - a) as nat);
    lemma_exp2_positive((b - a) as nat);
    let x = exp2(a);
    let y = exp2((b - a) as nat);
    assert(x <= x * y) by (nonlinear_arith)
        requires
            y >= 1,
    ;
}

/// `2^53` is the limit below which every integer is an `f64`.
pub proof fn lemma_exp2_53()
    ensures
        exp2(53) == F64_EXACT_LIMIT,
        exp2(52) * 2 == F64_EXACT_LIMIT,
{
    lemma_exp2_adds(26, 26);
    lemma_exp2_adds(13, 13);
    reveal_with_fuel(exp2, 14);
    assert(exp2(13) == 8192);
    assert(exp2(26) == exp2(13) * exp2(13));
    assert(exp2(26) == 67108864);
    let x = exp2(26);
    let y = exp2(52);
    assert(y == x * x);
    assert(y == 4503599627370496) by (nonlinear_arith)
        requires
            y == x * x,
            x == 67108864,
    ;
    assert(exp2(53) == 2 * exp2(52));
}

/// The spacing of the grid near `b` is a power of two `2^t`; `t` is zero
/// below `2^53`, and otherwise `b` lies in the binade `[2^(52+t), 2^(53+t))`.
pub proof fn lemma_spacing_shape(b: nat) -> (t: nat)
    ensures
        f64_spacing(b) == exp2(t),
        t == 0 ==> b < exp2(53),
        t > 0 ==> exp2(52 + t) <= b < exp2(53 + t),
    decreases b,
{
    lemma_exp2_53();
    if b < F64_EXACT_LIMIT {
        0
    } else {
        let t1 = lemma_spacing_shape(b / 2);
        let t = t1 + 1;
        assert(exp2(t) == 2 * exp2(t1));
        assert(exp2(52 + t) == 2 * exp2(52 + t1));
        assert(exp2(53 + t) == 2 * exp2(53 + t1));
        t
    }
}

/// In the binade `[2^(52+t), 2^(53+t))` the grid's spacing is `2^t`.
pub proof fn lemma_spacing_in_binade(b: nat, t: nat)
    requires
        t >= 1,
        exp2(52 + t) <= b < exp2(53 + t),
    ensures
        f64_spacing(b) == exp2(t),
{
    let s = lemma_spacing_shape(b);
    if s == 0 {
        lemma_exp2_le(53, 52 + t);
    } else if s < t {
        lemma_exp2_le(53 + s, 52 + t);
    } else if s > t {
        lemma_exp2_le(53 + t, 52 + s);
    }
}

/// Scaling both sides of a division by `c` scales the remainder only.
pub proof fn lemma_div_scaled(a: nat, b: nat, c: nat)
    requires
        b > 0,
        c > 0,
    ensures
        (a * c) / (b * c) == a / b,
        (a * c) % (b * c) == (a % b) * c,
{
    let q = a / b;
    let r = a % b;
    lemma_fundamental_div_mod(a as int, b as int);
    assert(a * c == q * (b * c) + r * c && 0 <= r * c < b * c) by (nonlinear_arith)
        requires
            a == b * q + r,
            0 <= r < b,
            c > 0,
    ;
    lemma_fundamental_div_mod_converse((a * c) as int, (b * c) as int, q as int, (r * c) as int);
}


/// `k <= a / d` when `k * d <= a`.
pub proof fn lemma_div_at_least(a: nat, d: nat, k: nat)
    requires
        d > 0,
        k * d <= a,
    ensures
        k <= a / d,
{
    lemma_fundamental_div_mod(a as int, d as int);
    let q = a / d;
    let r = a % d;
    assert(k <= q) by (nonlinear_arith)
        requires
            a == d * q + r,
            0 <= r < d,
            k * d <= a,
            d > 0,
    ;
}

/// `a / d < k` when `a < k * d`.
pub proof fn lemma_div_below(a: nat, d: nat, k: nat)
    requires
        d > 0,
        a < k * d,
    ensures
        a / d < k,
{
    lemma_fundamental_div_mod(a as int, d as int);
    let q = a / d;
    let r = a % d;
    assert(q < k) by (nonlinear_arith)
        requires
            a == d * q + r,
            0 <= r,
            a < k * d,
            d > 0,
    ;
}

/// A quotient at or above the power of two `2^s` is read as a grid point
/// at or above `2^s`: powers of two are points of the grid.
pub proof fn lemma_grid_lower(n: nat, den: nat, s: nat)
    requires
        den > 0,
        den * exp2(s) <= n,
    ensures
        exp2(s) <= round_to_f64_grid(n, den),
{
    let b = n / den;
    assert(exp2(s) * den <= n) by (nonlinear_arith)
        requires
            den * exp2(s) <= n,
    ;
    lemma_div_at_least(n, den, exp2(s));
    let t = lemma_spacing_shape(b);
    let u = exp2(t);
    lemma_exp2_positive(t);
    lemma_div_denominator(n as int, den as int, u as int);
    let q = n / (den * u);
    let c: nat = if t <= s {
        s
    } else {
        52 + t
    };
    if t > s {
        lemma_exp2_le(s, c);
    }
    assert(exp2(c) <= b);
    let e = (c - t) as nat;
    assert(e + t == c);
    lemma_exp2_adds(e, t);
    lemma_div_at_least(b, u, exp2(e));
    assert(exp2(e) * u <= q * u && q * u <= (q + 1) * u) by (nonlinear_arith)
        requires
            exp2(e) <= q,
            u >= 1,
    ;
}

/// A quotient below the power of two `2^s` is read as a grid point at or
/// below `2^s`.
pub proof fn lemma_grid_upper(n: nat, den: nat, s: nat)
    requires
        den > 0,
        n < den * exp2(s),
    ensures
        round_to_f64_grid(n, den) <= exp2(s),
{
    let b = n / den;
    assert(n < exp2(s) * den) by (nonlinear_arith)
        requires
            n < den * exp2(s),
    ;
    lemma_div_below(n, den, exp2(s));
    let t = lemma_spacing_shape(b);
    let u = exp2(t);
    lemma_exp2_positive(t);
    lemma_div_denominator(n as int, den as int, u as int);
    let q = n / (den * u);
    if t > 0 && s <= 52 + t {
        lemma_exp2_le(s, 52 + t);
    }
    assert(t <= s);
    let e = (s - t) as nat;
    assert(e + t == s);
    lemma_exp2_adds(e, t);
    lemma_div_below(b, u, exp2(e));
    assert(q * u <= (q + 1) * u && (q + 1) * u <= exp2(e) * u) by (nonlinear_arith)
        requires
            q + 1 <= exp2(e),
            u >= 1,
    ;
}

/// `div_round_even(n, d)` from the floor of `2n / d` and whether that
/// division is exact.
pub open spec fn half_even(a: nat, exact: bool) -> nat {
    if a % 2 == 0 {
        a / 2
    } else if exact {
        let l = ((a - 1) as nat) / 2;
        if l % 2 == 0 {
            l
        } else {
            l + 1
        }
    } else {
        (a + 1) / 2
    }
}

/// [`half_even`] computes [`div_round_even`] from the floor of `2n / d`
/// and whether that division is exact.
pub proof fn lemma_half_even(n: nat, d: nat)
    requires
        d > 0,
    ensures
        div_round_even(n, d) == half_even((2 * n) / d, (2 * n) % d == 0),
{
    lemma_fundamental_div_mod(n as int, d as int);
    let q = n / d;
    let r = n % d;
    assert(2 * n == (2 * q) * d + 2 * r) by (nonlinear_arith)
        requires
            n == d * q + r,
    ;
    if 2 * r < d {
        lemma_fundamental_div_mod_converse((2 * n) as int, d as int, (2 * q) as int, (2 * r) as int);
    } else {
        assert((2 * q + 1) * d == (2 * q) * d + d) by (nonlinear_arith);
        lemma_fundamental_div_mod_converse(
            (2 * n) as int,
            d as int,
            (2 * q + 1) as int,
            (2 * r - d) as int,
        );
    }
}

/// Between `2^(52-p)` and `2^(53-p)` (with `p` at most 1073, a binade of
/// normal numbers) the `f64` grid has spacing `2^-p`, so reading `x / den`
/// rounds `x * 2^p / den` to an integer, ties to even.
pub proof fn lemma_reading_in_binade(x: nat, den: nat, p: nat)
    requires
        den > 0,
        p <= 1073,
        exp2(52) * den <= x * exp2(p),
        x * exp2(p) < exp2(53) * den,
    ensures
        round_to_f64_grid(x * exp2(1074), den) == div_round_even(x * exp2(p), den) * exp2(
            (1074 - p) as nat,
        ),
{
    let t = (1074 - p) as nat;
    let c = exp2(t);
    let n = x * exp2(p);
    lemma_exp2_positive(t);
    assert(p + t == 1074);
    lemma_exp2_adds(p, t);
    let big = x * exp2(1074);
    assert(big == n * c) by (nonlinear_arith)
        requires
            big == x * exp2(1074),
            exp2(1074) == exp2(p) * c,
            n == x * exp2(p),
    ;
    let b = big / den;
    lemma_exp2_adds(52, t);
    lemma_exp2_adds(53, t);
    assert((exp2(52) * c) * den <= big && big < (exp2(53) * c) * den) by (nonlinear_arith)
        requires
            exp2(52) * den <= n,
            n < exp2(53) * den,
            big == n * c,
            c >= 1,
    ;
    lemma_div_at_least(big, den, exp2(52) * c);
    lemma_div_below(big, den, exp2(53) * c);
    lemma_spacing_in_binade(b, t);
    lemma_div_scaled(n, den, c);
    let r = n % den;
    assert(2 * (r * c) > den * c <==> 2 * r > den) by (nonlinear_arith)
        requires
            c >= 1,
    ;
    assert(2 * (r * c) == den * c <==> 2 * r == den) by (nonlinear_arith)
        requires
            c >= 1,
    ;
}

/// What reading a number in the binade of spacing `2^-p` gives in bytes
/// under the multiplier `m`: `Q * m / 2^p`, halves away from zero.
pub proof fn lemma_bytes_in_binade(q: nat, m: nat, p: nat)
    requires
        p <= 1074,
    ensures
        (2 * (q * exp2((1074 - p) as nat)) * m + exp2(1074)) / (2 * exp2(1074)) == (2 * q * m
            + exp2(p)) / exp2(p + 1),
{
    let t = (1074 - p) as nat;
    let c = exp2(t);
    assert(p + t == 1074);
    lemma_exp2_adds(p, t);
    lemma_exp2_positive(t);
    lemma_exp2_positive(p);
    assert(exp2(p + 1) == 2 * exp2(p));
    let a = 2 * q * m + exp2(p);
    assert(a * c == 2 * (q * c) * m + exp2(1074) && exp2(p + 1) * c == 2 * exp2(1074))
        by (nonlinear_arith)
        requires
            a == 2 * q * m + exp2(p),
            exp2(1074) == exp2(p) * c,
            exp2(p + 1) == 2 * exp2(p),
    ;
    lemma_div_scaled(a, exp2(p + 1), c);
}

/// The whole number `w` rounded to a multiple of `s`, ties to an even
/// multiple, where a nonzero fraction `f` after `w` breaks a tie upward.
pub open spec fn round_whole(w: nat, f: nat, s: nat) -> nat {
    let q = w / s;
    let r = w % s;
    if 2 * r > s || (2 * r == s && (f > 0 || q % 2 == 1)) {
        q + 1
    } else {
        q
    }
}

/// At or above `2^53` the grid's spacing `2^t` is a whole number, and
/// reading `w + f / den` rounds the whole part `w` to a multiple of it.
pub proof fn lemma_reading_large(w: nat, f: nat, den: nat, t: nat)
    requires
        den > 0,
        f < den,
        t >= 1,
        exp2(52 + t) <= w < exp2(53 + t),
    ensures
        round_to_f64_grid((w * den + f) * exp2(1074), den) == round_whole(w, f, exp2(t)) * exp2(t)
            * exp2(1074),
{
    let s = exp2(t);
    let z = exp2(1074);
    let x = w * den + f;
    let big = x * z;
    lemma_exp2_positive(t);
    lemma_exp2_positive(1074);
    lemma_exp2_adds(52 + t, 1074);
    lemma_exp2_adds(53 + t, 1074);
    lemma_exp2_adds(t, 1074);
    assert((w * z) * den <= big && big < (exp2(53 + t) * z) * den) by (nonlinear_arith)
        requires
            x == w * den + f,
            big == x * z,
            f < den,
            w + 1 <= exp2(53 + t),
            z >= 1,
    ;
    let b = big / den;
    lemma_div_at_least(big, den, w * z);
    lemma_div_below(big, den, exp2(53 + t) * z);
    assert(exp2(52 + t) * z <= w * z) by (nonlinear_arith)
        requires
            exp2(52 + t) <= w,
    ;
    assert(52 + (t + 1074) == (52 + t) + 1074);
    assert(53 + (t + 1074) == (53 + t) + 1074);
    lemma_spacing_in_binade(b, t + 1074);
    let u = s * z;
    assert(den * u == (den * s) * z) by (nonlinear_arith)
        requires
            u == s * z,
    ;
    assert(den * s > 0) by (nonlinear_arith)
        requires
            den > 0,
            s >= 1,
    ;
    lemma_div_scaled(x, den * s, z);
    lemma_fundamental_div_mod(w as int, s as int);
    let q = w / s;
    let r = w % s;
    let rem = r * den + f;
    assert(x == q * (den * s) + rem && rem < den * s) by (nonlinear_arith)
        requires
            w == s * q + r,
            r < s,
            x == w * den + f,
            rem == r * den + f,
            f < den,
    ;
    lemma_fundamental_div_mod_converse(x as int, (den * s) as int, q as int, rem as int);
    assert(exp2(t) == 2 * exp2((t - 1) as nat));
    assert(s % 2 == 0);
    assert(2 * (rem * z) > (den * s) * z <==> 2 * rem > den * s) by (nonlinear_arith)
        requires
            z >= 1,
    ;
    assert(2 * (rem * z) == (den * s) * z <==> 2 * rem == den * s) by (nonlinear_arith)
        requires
            z >= 1,
    ;
    if 2 * r > s {
        assert(2 * rem > den * s) by (nonlinear_arith)
            requires
                2 * r >= s + 1,
                rem == r * den + f,
                den > 0,
        ;
    } else if 2 * r == s {
        assert(2 * rem == den * s + 2 * f) by (nonlinear_arith)
            requires
                2 * r == s,
                rem == r * den + f,
        ;
    } else {
        assert(2 * r + 2 <= s);
        assert(2 * rem < den * s) by (nonlinear_arith)
            requires
                2 * r + 2 <= s,
                rem == r * den + f,
                f < den,
        ;
    }
    let g = round_whole(w, f, s);
    assert(g * u == g * s * z) by (nonlinear_arith)
        requires
            u == s * z,
    ;
}

/// A grid point that is a whole multiple `k` of `2^1074` units is `k` bytes
/// per unit of the multiplier; rounding has nothing left to do.
pub proof fn lemma_bytes_whole(k: nat, m: nat)
    ensures
        (2 * (k * exp2(1074)) * m + exp2(1074)) / (2 * exp2(1074)) == k * m,
{
    let z = exp2(1074);
    lemma_exp2_positive(1074);
    let a = 2 * k * m + 1;
    assert(a * z == 2 * (k * z) * m + z && 2 * z == 2 * z) by (nonlinear_arith)
        requires
            a == 2 * k * m + 1,
    ;
    lemma_div_scaled(a, 2, z);
    let km = k * m;
    assert(a == 2 * km + 1) by (nonlinear_arith)
        requires
            a == 2 * k * m + 1,
            km == k * m,
    ;
    assert(a / 2 == km);
}

/// The powers of two that the size units stand for.
pub proof fn lemma_exp2_units()
    ensures
        exp2(10) == 1024,
        exp2(20) == 1048576,
        exp2(30) == 1073741824,
{
    reveal_with_fuel(exp2, 11);
    assert(exp2(10) == 1024);
    lemma_exp2_adds(10, 10);
    lemma_exp2_adds(20, 10);
}


/// `2^64` and `2^128`, the bounds of `u64` and `u128`.
pub proof fn lemma_exp2_64_128()
    ensures
        exp2(64) == 0x1_0000_0000_0000_0000,
        exp2(127) * 2 == exp2(128),
        exp2(128) == 0x1_0000_0000_0000_0000_0000_0000_0000_0000,
        exp2(124) == 0x1000_0000_0000_0000_0000_0000_0000_0000,
{
    lemma_exp2_53();
    reveal_with_fuel(exp2, 13);
    assert(exp2(12) == 4096);
    lemma_exp2_adds(52, 12);
    let x = exp2(52);
    let y = exp2(64);
    assert(y == 0x1_0000_0000_0000_0000) by (nonlinear_arith)
        requires
            y == x * 4096,
            x == 4503599627370496,
    ;
    lemma_exp2_adds(64, 64);
    let z = exp2(128);
    assert(z == 0x1_0000_0000_0000_0000_0000_0000_0000_0000) by (nonlinear_arith)
        requires
            z == y * y,
            y == 0x1_0000_0000_0000_0000,
    ;
    assert(exp2(128) == 2 * exp2(127));
    lemma_exp2_adds(124, 4);
    assert(exp2(4) == 16);
}

/// `2^e` as a `u128`.
pub fn pow2(e: u32) -> (r: u128)
    requires
        e < 128,
    ensures
        r == exp2(e as nat),
{
    proof {
        lemma_exp2_64_128();
    }
    let mut r: u128 = 1;
    let mut i: u32 = 0;
    while i < e
        invariant
            i <= e < 128,
            r == exp2(i as nat),
            exp2(127) * 2 == exp2(128),
            exp2(128) == 0x1_0000_0000_0000_0000_0000_0000_0000_0000,
        decreases e - i,
    {
        proof {
            lemma_exp2_le((i + 1) as nat, 127);
            assert(exp2((i + 1) as nat) == 2 * exp2(i as nat));
        }
        r = r * 2;
        i = i + 1;
    }
    r
}

/// The exponent of the highest power of two at or below `n`.
pub fn floor_log2(n: u64) -> (e: u32)
    requires
        n >= 1,
    ensures
        e < 64,
        exp2(e as nat) <= n < exp2((e + 1) as nat),
{
    proof {
        lemma_exp2_64_128();
    }
    let mut e: u32 = 0;
    let mut pw: u64 = 1;
    while pw <= n / 2
        invariant
            1 <= n,
            pw == exp2(e as nat),
            1 <= pw <= n,
            e < 64,
            exp2(64) == 0x1_0000_0000_0000_0000,
        decreases n - pw,
    {
        assert(exp2((e + 1) as nat) == 2 * exp2(e as nat));
        pw = pw * 2;
        e = e + 1;
        if e >= 64 {
            proof {
                lemma_exp2_le(64, e as nat);
            }
        }
    }
    assert(exp2((e + 1) as nat) == 2 * exp2(e as nat));
    e
}

/// The spacing-rounded multiple of the `f64` grid: `half_even(a, exact)`
/// times `m / 2^p`, rounded to the nearest integer with halves away from
/// zero.
pub open spec fn binade_bytes(a: nat, exact: bool, p: nat, m: nat) -> nat {
    (2 * half_even(a, exact) * m + exp2(p)) / exp2(p + 1)
}

/// `x`, held to the range of `u64`.
pub open spec fn saturated(x: nat) -> u64 {
    if x > u64::MAX {
        u64::MAX
    } else {
        x as u64
    }
}

/// What [`saturated`] leaves of a number in range, and of one beyond it.
pub proof fn lemma_saturated(x: nat)
    ensures
        x <= u64::MAX ==> saturated(x) as nat == x,
        x > u64::MAX ==> saturated(x) == u64::MAX,
{
}

/// [`binade_bytes`], held to the range of `u64`.
pub fn round_reading(a: u128, exact: bool, p: u32, m: u64) -> (z: u64)
    requires
        a < 0x40_0000_0000_0000,
        p <= 84,
        1 <= m <= 0x4000_0000,
    ensures
        z == saturated(binade_bytes(a as nat, exact, p as nat, m as nat)),
{
    let q: u128 = if a % 2 == 0 {
        a / 2
    } else if exact {
        let l = (a - 1) / 2;
        if l % 2 == 0 {
            l
        } else {
            l + 1
        }
    } else {
        (a + 1) / 2
    };
    assert(q == half_even(a as nat, exact));
    let lift = pow2(p);
    let den = pow2(p + 1);
    proof {
        lemma_exp2_64_128();
        lemma_exp2_le(p as nat, 127);
        lemma_exp2_positive(p as nat);
        assert(2 * q * m <= 2 * 0x20_0000_0000_0000 * 0x4000_0000) by (nonlinear_arith)
            requires
                q <= 0x20_0000_0000_0000,
                m <= 0x4000_0000,
        ;
    }
    let num: u128 = 2 * q * (m as u128) + lift;
    let x = num / den;
    if x > u64::MAX as u128 {
        u64::MAX
    } else {
        x as u64
    }
}

/// A whole part of at least `2^64` is read as at least `2^64` bytes.
pub proof fn lemma_reading_huge(w: nat, f: nat, den: nat, m: nat)
    requires
        den > 0,
        f < den,
        m >= 1,
        w >= exp2(64),
    ensures
        (2 * round_to_f64_grid((w * den + f) * exp2(1074), den) * m + exp2(1074)) / (2 * exp2(
            1074,
        )) >= exp2(64),
{
    let z = exp2(1074);
    let n = (w * den + f) * z;
    lemma_exp2_adds(64, 1074);
    lemma_exp2_positive(1074);
    assert(den * exp2(1138) <= n) by (nonlinear_arith)
        requires
            exp2(1138) == exp2(64) * z,
            w >= exp2(64),
            n == (w * den + f) * z,
            z >= 1,
    ;
    lemma_grid_lower(n, den, 1138);
    let r = round_to_f64_grid(n, den);
    assert(exp2(64) * (2 * z) <= 2 * r * m + z) by (nonlinear_arith)
        requires
            exp2(1138) <= r,
            exp2(1138) == exp2(64) * z,
            m >= 1,
    ;
    lemma_div_at_least(2 * r * m + z, 2 * z, exp2(64));
}

/// A fraction `f / den` below `2^-(2+k)` times `2^k` is read as zero bytes.
pub proof fn lemma_reading_tiny(f: nat, den: nat, k: nat)
    requires
        den > 0,
        k <= 30,
        f * exp2(2 + k) < den,
    ensures
        (2 * round_to_f64_grid((0 * den + f) * exp2(1074), den) * exp2(k) + exp2(1074)) / (2
            * exp2(1074)) == 0,
{
    let z = exp2(1074);
    let j = (1072 - k) as nat;
    assert((2 + k) + j == 1074);
    lemma_exp2_adds(2 + k, j);
    lemma_exp2_positive(j);
    let n = (0 * den + f) * z;
    assert(n < den * exp2(j)) by (nonlinear_arith)
        requires
            n == (0 * den + f) * z,
            z == exp2(2 + k) * exp2(j),
            f * exp2(2 + k) < den,
            exp2(j) >= 1,
    ;
    lemma_grid_upper(n, den, j);
    let r = round_to_f64_grid(n, den);
    assert(j + k == 1072);
    lemma_exp2_adds(j, k);
    assert(exp2(2 + k) == 4 * exp2(k)) by {
        lemma_exp2_adds(2, k);
        reveal_with_fuel(exp2, 3);
    }
    lemma_exp2_positive(k);
    let a = exp2(j);
    let b = exp2(k);
    assert(2 * r * b + z < 1 * (2 * z)) by (nonlinear_arith)
        requires
            r <= a,
            z == (4 * b) * a,
            b >= 1,
            a >= 1,
    ;
    lemma_div_below(2 * r * exp2(k) + z, 2 * z, 1);
}


/// Reading `w + f / den` in the binade of spacing `2^-p`, from the floor
/// `a` of its value times `2^(p+1)` and whether that floor is exact, gives
/// [`binade_bytes`] under the multiplier `m`.
pub proof fn lemma_reading_binade_bytes(
    w: nat,
    f: nat,
    den: nat,
    p: nat,
    mm: nat,
    c: nat,
    exact: bool,
    a: nat,
    m: nat,
)
    requires
        den > 0,
        f < den,
        p <= 84,
        mm == exp2(p + 1),
        c == (f * mm) / den,
        exact == ((f * mm) % den == 0),
        a == w * mm + c,
        exp2(52) * den <= (w * den + f) * exp2(p),
        (w * den + f) * exp2(p) < exp2(53) * den,
    ensures
        a < exp2(54),
        (2 * round_to_f64_grid((w * den + f) * exp2(1074), den) * m + exp2(1074)) / (2 * exp2(
            1074,
        )) == binade_bytes(a, exact, p, m),
{
    let x = w * den + f;
    let n = x * exp2(p);
    lemma_reading_in_binade(x, den, p);
    lemma_half_even(n, den);
    lemma_fundamental_div_mod((f * mm) as int, den as int);
    let rr = (f * mm) % den;
    assert(exp2(p + 1) == 2 * exp2(p));
    assert(2 * n == (w * mm + c) * den + rr) by (nonlinear_arith)
        requires
            n == x * exp2(p),
            x == w * den + f,
            mm == 2 * exp2(p),
            f * mm == den * c + rr,
    ;
    lemma_fundamental_div_mod_converse((2 * n) as int, den as int, a as int, rr as int);
    let q = half_even(a, exact);
    lemma_bytes_in_binade(q, m, p);
    assert(exp2(54) == 2 * exp2(53));
    assert(2 * n < exp2(54) * den) by (nonlinear_arith)
        requires
            n < exp2(53) * den,
            exp2(54) == 2 * exp2(53),
    ;
    lemma_div_below(2 * n, den, exp2(54));
}

/// A whole part `w` in `[2^e, 2^(e+1))` puts `w + f / den` in the binade
/// of spacing `2^-(52-e)`.
pub proof fn lemma_binade_of_whole(w: nat, f: nat, den: nat, e: nat)
    requires
        den > 0,
        f < den,
        e <= 52,
        exp2(e) <= w < exp2(e + 1),
    ensures
        exp2(52) * den <= (w * den + f) * exp2((52 - e) as nat),
        (w * den + f) * exp2((52 - e) as nat) < exp2(53) * den,
{
    let p = (52 - e) as nat;
    lemma_exp2_adds(e, p);
    lemma_exp2_adds(e + 1, p);
    assert(e + p == 52 && e + 1 + p == 53);
    let a = exp2(e);
    let b = exp2(e + 1);
    let c = exp2(p);
    lemma_exp2_positive(p);
    assert(a * c * den <= (w * den + f) * c && (w * den + f) * c < b * c * den)
        by (nonlinear_arith)
        requires
            a <= w,
            w + 1 <= b,
            f < den,
            c >= 1,
    ;
}

/// A fraction `f / den` whose value times `2^j` has the floor `g` in
/// `[2^gl, 2^(gl+1))` lies in the binade of spacing `2^-(j+52-gl)`.
pub proof fn lemma_binade_of_fraction(f: nat, den: nat, j: nat, g: nat, gl: nat)
    requires
        den > 0,
        gl <= 52,
        g == (f * exp2(j)) / den,
        exp2(gl) <= g < exp2(gl + 1),
    ensures
        exp2(52) * den <= (0 * den + f) * exp2((j + 52 - gl) as nat),
        (0 * den + f) * exp2((j + 52 - gl) as nat) < exp2(53) * den,
{
    let h = (52 - gl) as nat;
    assert((j + 52 - gl) as nat == j + h);
    lemma_exp2_adds(j, h);
    lemma_exp2_adds(gl, h);
    lemma_exp2_adds(gl + 1, h);
    lemma_exp2_positive(h);
    lemma_fundamental_div_mod((f * exp2(j)) as int, den as int);
    let y = f * exp2(j);
    let rr = y % den;
    let c = exp2(h);
    assert(exp2(gl) * c * den <= y * c && y * c < exp2(gl + 1) * c * den) by (nonlinear_arith)
        requires
            y == den * g + rr,
            0 <= rr < den,
            exp2(gl) <= g,
            g + 1 <= exp2(gl + 1),
            c >= 1,
    ;
    assert((0 * den + f) * exp2(j + h) == y * c) by (nonlinear_arith)
        requires
            exp2(j + h) == exp2(j) * c,
            y == f * exp2(j),
    ;
}


/// Every positive number lies between two consecutive powers of two.
pub proof fn lemma_log2(n: nat) -> (e: nat)
    requires
        n >= 1,
    ensures
        exp2(e) <= n < exp2(e + 1),
    decreases n,
{
    if n == 1 {
        assert(exp2(1) == 2 * exp2(0));
        0
    } else {
        let e = lemma_log2(n / 2);
        assert(exp2(e + 1 + 1) == 2 * exp2(e + 1));
        e + 1
    }
}

/// A whole number below `2^53` is read as an `f64` exactly.
pub proof fn lemma_reading_whole(w: nat)
    requires
        w < exp2(53),
    ensures
        round_to_f64_grid((w * 1 + 0) * exp2(1074), 1) == w * exp2(1074),
{
    if w == 0 {
        assert((w * 1 + 0) * exp2(1074) == 0);
        assert(f64_spacing(0) == 1);
    } else {
        let e = lemma_log2(w);
        if e > 52 {
            lemma_exp2_le(53, e);
        }
        let p = (52 - e) as nat;
        lemma_binade_of_whole(w, 0, 1, e);
        lemma_reading_in_binade(w * 1 + 0, 1, p);
        let n = (w * 1 + 0) * exp2(p);
        assert(n / 1 == n && n % 1 == 0);
        assert(p + (1074 - p) as nat == 1074);
        lemma_exp2_adds(p, (1074 - p) as nat);
        assert(n * exp2((1074 - p) as nat) == w * exp2(1074)) by (nonlinear_arith)
            requires
                n == (w * 1 + 0) * exp2(p),
                exp2(1074) == exp2(p) * exp2((1074 - p) as nat),
        ;
    }
}


/// Reading `n / den` on the `f64` grid errs by at most half the spacing, and
/// the spacing is `1` or at most `2^-52` of the value: twice the error, times
/// `2^52`, is at most `2^52 * den + n` (in units of `1 / den`).
pub proof fn lemma_grid_error(n: nat, den: nat)
    requires
        den > 0,
    ensures
        exp2(52) * (2 * (round_to_f64_grid(n, den) * den)) <= exp2(52) * (2 * n) + exp2(52)
            * den + n,
        exp2(52) * (2 * n) <= exp2(52) * (2 * (round_to_f64_grid(n, den) * den)) + exp2(52)
            * den + n,
{
    let b = n / den;
    let t = lemma_spacing_shape(b);
    let u = exp2(t);
    lemma_exp2_positive(t);
    let du = den * u;
    assert(du > 0) by (nonlinear_arith)
        requires
            den > 0,
            u >= 1,
            du == den * u,
    ;
    lemma_fundamental_div_mod(n as int, du as int);
    let q = n / du;
    let r = n % du;
    let g = round_to_f64_grid(n, den);
    if 2 * r > du || (2 * r == du && q % 2 == 1) {
        assert(g == (q + 1) * u);
        assert(g * den == n - r + du) by (nonlinear_arith)
            requires
                g == (q + 1) * u,
                n == du * q + r,
                du == den * u,
        ;
    } else {
        assert(g == q * u);
        assert(g * den == n - r) by (nonlinear_arith)
            requires
                g == q * u,
                n == du * q + r,
                du == den * u,
        ;
    }
    assert(2 * (g * den) <= 2 * n + du && 2 * n <= 2 * (g * den) + du);
    lemma_fundamental_div_mod(n as int, den as int);
    if t == 0 {
        assert(u == 1);
    } else {
        lemma_exp2_adds(52, t);
        assert(exp2(52) * du <= n) by (nonlinear_arith)
            requires
                exp2(52) * u == exp2(52 + t),
                exp2(52 + t) <= b,
                n == den * b + n % den,
                du == den * u,
                n % den >= 0,
        ;
    }
    assert(exp2(52) * du <= exp2(52) * den + n) by (nonlinear_arith)
        requires
            du == den * u,
            u == 1 || exp2(52) * du <= n,
    ;
    assert(exp2(52) * (2 * (g * den)) <= exp2(52) * (2 * n) + exp2(52) * du
        && exp2(52) * (2 * n) <= exp2(52) * (2 * (g * den)) + exp2(52) * du) by (nonlinear_arith)
        requires
            2 * (g * den) <= 2 * n + du,
            2 * n <= 2 * (g * den) + du,
    ;
}

} // verus!
