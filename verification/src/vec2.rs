//! Fixed-point scalar and 2D-vector arithmetic for the flock simulation.
//!
//! All quantities are integers in milliunits: the value `1000` stands for
//! one world unit. Division truncates toward zero, and vector lengths are
//! measured with an integer square root, so every operation is exact and
//! deterministic.

use vstd::prelude::*;

verus! {

/// One world unit in fixed-point representation.
pub const FP_ONE: i64 = 1000;

/// Largest coordinate magnitude the vector helpers accept; keeps every
/// intermediate product inside `i64`.
pub const COORD_LIMIT: i64 = 2_000_000_000;

/// Truncating (round-toward-zero) division, the semantics of `/` on the
/// machine integers; `b` must be positive.
pub open spec fn div_tz(a: int, b: int) -> int {
    if a >= 0 {
        a / b
    } else {
        -((-a) / b)
    }
}

/// The floor of the square root of `n` (0 for negative `n`).
pub open spec fn sqrt_floor(n: int) -> int
    decreases n,
{
    if n <= 0 {
        0
    } else {
        let p = sqrt_floor(n - 1);
        if (p + 1) * (p + 1) <= n {
            p + 1
        } else {
            p
        }
    }
}

/// `sqrt_floor(n)` is the unique nonnegative root with
/// `r * r <= n < (r + 1) * (r + 1)`.
pub proof fn lemma_sqrt_floor(n: int)
    requires
        n >= 0,
    ensures
        0 <= sqrt_floor(n),
        sqrt_floor(n) * sqrt_floor(n) <= n,
        n < (sqrt_floor(n) + 1) * (sqrt_floor(n) + 1),
    decreases n,
{
    if n == 0 {
    } else {
        lemma_sqrt_floor(n - 1);
        let p = sqrt_floor(n - 1);
        if (p + 1) * (p + 1) <= n {
            assert((p + 2) * (p + 2) > n) by (nonlinear_arith)
                requires
                    p >= 0,
                    n - 1 < (p + 1) * (p + 1),
            ;
        }
    }
}

/// If `n < (k + 1)^2` then the integer square root of `n` is at most `k`.
pub proof fn lemma_sqrt_floor_le(n: int, k: int)
    requires
        0 <= n,
        0 <= k,
        n < (k + 1) * (k + 1),
    ensures
        sqrt_floor(n) <= k,
{
    lemma_sqrt_floor(n);
    let s = sqrt_floor(n);
    if s > k {
        assert((k + 1) * (k + 1) <= s * s) by (nonlinear_arith)
            requires
                0 <= k,
                k + 1 <= s,
        ;
    }
}

/// Any nonnegative `r` with `r^2 <= n < (r + 1)^2` equals `sqrt_floor(n)`.
pub proof fn lemma_sqrt_floor_unique(n: int, r: int)
    requires
        0 <= r,
        r * r <= n,
        n < (r + 1) * (r + 1),
    ensures
        r == sqrt_floor(n),
{
    lemma_sqrt_floor(n);
    let s = sqrt_floor(n);
    if r < s {
        assert((r + 1) * (r + 1) <= s * s) by (nonlinear_arith)
            requires
                0 <= r,
                r + 1 <= s,
        ;
    }
    if s < r {
        assert((s + 1) * (s + 1) <= r * r) by (nonlinear_arith)
            requires
                0 <= s,
                s + 1 <= r,
        ;
    }
}

/// Integer square root: the floor of the square root of `n`.
pub fn isqrt(n: u64) -> (r: u64)
    ensures
        r == sqrt_floor(n as int),
{
    let mut lo: u64 = 0;
    let mut hi: u64 = 4_294_967_296;
    assert((4_294_967_296int) * (4_294_967_296int) > n as int);
    while lo + 1 < hi
        invariant
            lo < hi <= 4_294_967_296,
            (lo as int) * (lo as int) <= n as int,
            (n as int) < (hi as int) * (hi as int),
        decreases hi - lo,
    {
        let mid = lo + (hi - lo) / 2;
        assert(lo < mid < hi);
        assert(mid * mid <= 0xffff_ffff_ffff_ffff) by (nonlinear_arith)
            requires
                mid <= 4_294_967_295,
        ;
        if mid * mid <= n {
            lo = mid;
        } else {
            hi = mid;
        }
    }
    proof {
        lemma_sqrt_floor_unique(n as int, lo as int);
    }
    lo
}

/// Truncating division of `a` by a positive `b`, computed on magnitudes so
/// that the result is pinned to `div_tz` exactly.
pub fn div_pos(a: i64, b: i64) -> (r: i64)
    requires
        b > 0,
        -0x4000_0000_0000_0000 <= a <= 0x4000_0000_0000_0000,
    ensures
        r == div_tz(a as int, b as int),
{
    if a >= 0 {
        let q = (a as u64) / (b as u64);
        proof {
            vstd::arithmetic::div_mod::lemma_div_is_ordered(0, a as int, b as int);
            vstd::arithmetic::div_mod::lemma_div_nonincreasing(a as int, b as int);
        }
        q as i64
    } else {
        let m = -a;
        let q = (m as u64) / (b as u64);
        proof {
            vstd::arithmetic::div_mod::lemma_div_is_ordered(0, m as int, b as int);
            vstd::arithmetic::div_mod::lemma_div_nonincreasing(m as int, b as int);
        }
        -(q as i64)
    }
}

/// A 2D vector in the ghost world: unbounded integer coordinates.
pub struct V2 {
    pub x: int,
    pub y: int,
}

pub open spec fn v2_zero() -> V2 {
    V2 { x: 0, y: 0 }
}

pub open spec fn v2_add(a: V2, b: V2) -> V2 {
    V2 { x: a.x + b.x, y: a.y + b.y }
}

pub open spec fn v2_sub(a: V2, b: V2) -> V2 {
    V2 { x: a.x - b.x, y: a.y - b.y }
}

/// The squared Euclidean length.
pub open spec fn v2_norm_sq(a: V2) -> int {
    a.x * a.x + a.y * a.y
}

/// The fixed-point length: floor of the Euclidean length.
pub open spec fn v2_norm(a: V2) -> int {
    sqrt_floor(v2_norm_sq(a))
}

/// The fixed-point distance between two points.
pub open spec fn v2_dist(a: V2, b: V2) -> int {
    v2_norm(v2_sub(a, b))
}

/// Componentwise truncating division by a positive integer count.
pub open spec fn v2_div(a: V2, k: int) -> V2 {
    V2 { x: div_tz(a.x, k), y: div_tz(a.y, k) }
}

/// Multiplication by a fixed-point scalar `k` (so `k == 2000` scales by 2).
pub open spec fn v2_scale_fp(a: V2, k: int) -> V2 {
    V2 { x: div_tz(a.x * k, FP_ONE as int), y: div_tz(a.y * k, FP_ONE as int) }
}

/// Division by a positive fixed-point scalar `d` (so `d == 500` doubles).
pub open spec fn v2_div_fp(a: V2, d: int) -> V2 {
    V2 { x: div_tz(a.x * (FP_ONE as int), d), y: div_tz(a.y * (FP_ONE as int), d) }
}

/// Scaling to (fixed-point) unit length; the zero vector stays zero.
pub open spec fn v2_normalize(a: V2) -> V2 {
    let n = v2_norm(a);
    if n <= 0 {
        a
    } else {
        v2_div_fp(a, n)
    }
}

/// Clamping to length at most `max`: vectors longer than `max` are scaled
/// down, shorter ones are untouched.
pub open spec fn v2_clamp(a: V2, max: int) -> V2 {
    let n = v2_norm(a);
    if n > max {
        V2 { x: div_tz(a.x * max, n), y: div_tz(a.y * max, n) }
    } else {
        a
    }
}

/// Both coordinates of `a` have magnitude at most `m`.
pub open spec fn v2_bounded(a: V2, m: int) -> bool {
    -m <= a.x <= m && -m <= a.y <= m
}

/// Truncating division shrinks the square: `(a / b)^2 * b^2 <= a^2`.
pub proof fn lemma_div_tz_sq_le(a: int, b: int)
    requires
        b >= 1,
    ensures
        div_tz(a, b) * div_tz(a, b) * (b * b) <= a * a,
{
    let m = if a >= 0 {
        a
    } else {
        -a
    };
    let q = m / b;
    vstd::arithmetic::div_mod::lemma_fundamental_div_mod(m, b);
    vstd::arithmetic::div_mod::lemma_mod_bound(m, b);
    vstd::arithmetic::div_mod::lemma_div_pos_is_pos(m, b);
    assert(b * q <= m);
    assert(q * q * (b * b) <= m * m) by (nonlinear_arith)
        requires
            0 <= q,
            0 <= b,
            0 <= m,
            b * q <= m,
    ;
    assert(div_tz(a, b) * div_tz(a, b) == q * q) by (nonlinear_arith)
        requires
            div_tz(a, b) == if a >= 0 {
                q
            } else {
                -q
            },
    ;
    assert(m * m == a * a) by (nonlinear_arith)
        requires
            m == if a >= 0 {
                a
            } else {
                -a
            },
    ;
}

/// The key shrinking step shared by clamping and normalizing: if the scaled
/// squares sum to at most `(n^2 + 2n) m^2` over `n^2`, with `n > m`, the sum
/// itself is at most `m^2 + 2m`.
proof fn lemma_scaled_sq_bound(t: int, n: int, m: int)
    requires
        1 <= m,
        m + 1 <= n,
        0 <= t,
        t * (n * n) <= (n * n + 2 * n) * (m * m),
    ensures
        t <= m * m + 2 * m,
{
    if t > m * m + 2 * m {
        assert((m + 1) * (m + 1) <= t) by (nonlinear_arith)
            requires
                t > m * m + 2 * m,
        ;
        assert((m + 1) * (m + 1) * (n * n) <= t * (n * n)) by (nonlinear_arith)
            requires
                (m + 1) * (m + 1) <= t,
                1 <= n,
        ;
        assert((n * n + 2 * n) * (m * m) < (m + 1) * (m + 1) * (n * n)) by (nonlinear_arith)
            requires
                1 <= m,
                m + 1 <= n,
        ;
    }
}

/// If `v^2 < b^2` with `b > 0` then `|v| < b`.
pub proof fn lemma_abs_from_sq_strict(v: int, b: int)
    by (nonlinear_arith)
    requires
        0 < b,
        v * v < b * b,
    ensures
        -b < v < b,
{
}

/// Truncating division keeps magnitude bounds: if `|a| <= m * b` then
/// `|a / b| <= m`.
pub proof fn lemma_div_tz_abs(a: int, b: int, m: int)
    requires
        b >= 1,
        0 <= m,
        -(m * b) <= a <= m * b,
    ensures
        -m <= div_tz(a, b) <= m,
{
    let aa = if a >= 0 {
        a
    } else {
        -a
    };
    vstd::arithmetic::div_mod::lemma_div_is_ordered(aa, m * b, b);
    vstd::arithmetic::div_mod::lemma_div_multiples_vanish(m, b);
    assert(b * m == m * b) by (nonlinear_arith);
    vstd::arithmetic::div_mod::lemma_div_pos_is_pos(aa, b);
}

/// Truncating division keeps lower bounds: if `a >= c * b >= 0` then
/// `a / b >= c`.
pub proof fn lemma_div_tz_lower(a: int, b: int, c: int)
    requires
        b >= 1,
        0 <= c,
        c * b <= a,
    ensures
        div_tz(a, b) >= c,
{
    assert(0 <= c * b) by (nonlinear_arith)
        requires
            0 <= c,
            0 <= b,
    ;
    vstd::arithmetic::div_mod::lemma_div_is_ordered(c * b, a, b);
    vstd::arithmetic::div_mod::lemma_div_multiples_vanish(c, b);
    assert(b * c == c * b) by (nonlinear_arith);
}

/// Dividing `t * 1000` by 1000 gives back `t` exactly.
proof fn lemma_div_tz_mul_cancel(t: int)
    ensures
        div_tz(t * 1000, 1000) == t,
{
    if t >= 0 {
        assert(t * 1000 >= 0) by (nonlinear_arith)
            requires
                t >= 0,
        ;
        vstd::arithmetic::div_mod::lemma_div_multiples_vanish(t, 1000);
        assert(t * 1000 == 1000 * t) by (nonlinear_arith);
    } else {
        assert(t * 1000 < 0) by (nonlinear_arith)
            requires
                t < 0,
        ;
        assert(-(t * 1000) == (-t) * 1000) by (nonlinear_arith);
        vstd::arithmetic::div_mod::lemma_div_multiples_vanish(-t, 1000);
        assert((-t) * 1000 == 1000 * (-t)) by (nonlinear_arith);
    }
}

/// Scaling by a whole multiple of the fixed-point unit is an exact integer
/// multiplication.
pub proof fn lemma_scale_fp_exact(a: V2, c: int)
    requires
        0 <= c,
    ensures
        v2_scale_fp(a, 1000 * c) == (V2 { x: a.x * c, y: a.y * c }),
{
    assert(a.x * (1000 * c) == (a.x * c) * 1000) by (nonlinear_arith);
    assert(a.y * (1000 * c) == (a.y * c) * 1000) by (nonlinear_arith);
    lemma_div_tz_mul_cancel(a.x * c);
    lemma_div_tz_mul_cancel(a.y * c);
}

/// The squared length of a clamped vector stays below `(max + 1)^2`, so the
/// fixed-point length of `v2_clamp(a, max)` is at most `max`.
pub proof fn lemma_clamp_norm(a: V2, max: int)
    requires
        1 <= max,
    ensures
        v2_norm_sq(v2_clamp(a, max)) <= max * max + 2 * max,
        v2_norm(v2_clamp(a, max)) <= max,
        v2_bounded(v2_clamp(a, max), max),
{
    let s = v2_norm_sq(a);
    assert(0 <= s) by (nonlinear_arith)
        requires
            s == a.x * a.x + a.y * a.y,
    ;
    lemma_sqrt_floor(s);
    let n = v2_norm(a);
    assert(s <= n * n + 2 * n) by (nonlinear_arith)
        requires
            s < (n + 1) * (n + 1),
    ;
    let c = v2_clamp(a, max);
    let t = v2_norm_sq(c);
    assert(0 <= t) by (nonlinear_arith)
        requires
            t == c.x * c.x + c.y * c.y,
    ;
    if n > max {
        lemma_div_tz_sq_le(a.x * max, n);
        lemma_div_tz_sq_le(a.y * max, n);
        assert((a.x * max) * (a.x * max) == (a.x * a.x) * (max * max)) by (nonlinear_arith);
        assert((a.y * max) * (a.y * max) == (a.y * a.y) * (max * max)) by (nonlinear_arith);
        assert(t * (n * n) == c.x * c.x * (n * n) + c.y * c.y * (n * n)) by (nonlinear_arith)
            requires
                t == c.x * c.x + c.y * c.y,
        ;
        assert((a.x * a.x) * (max * max) + (a.y * a.y) * (max * max) <= (n * n + 2 * n) * (max
            * max)) by (nonlinear_arith)
            requires
                a.x * a.x + a.y * a.y <= n * n + 2 * n,
                0 <= max,
        ;
        assert(t * (n * n) <= (n * n + 2 * n) * (max * max));
        lemma_scaled_sq_bound(t, n, max);
    } else {
        assert(n * n + 2 * n <= max * max + 2 * max) by (nonlinear_arith)
            requires
                0 <= n <= max,
        ;
    }
    assert(t <= max * max + 2 * max);
    assert(t < (max + 1) * (max + 1)) by (nonlinear_arith)
        requires
            t <= max * max + 2 * max,
    ;
    lemma_sqrt_floor_le(t, max);
    assert(c.x * c.x < (max + 1) * (max + 1)) by (nonlinear_arith)
        requires
            c.x * c.x + c.y * c.y < (max + 1) * (max + 1),
    ;
    lemma_abs_from_sq_strict(c.x, max + 1);
    assert(c.y * c.y < (max + 1) * (max + 1)) by (nonlinear_arith)
        requires
            c.x * c.x + c.y * c.y < (max + 1) * (max + 1),
    ;
    lemma_abs_from_sq_strict(c.y, max + 1);
}

/// A normalized vector has squared length at most three times the square of
/// the fixed-point unit, and coordinates of magnitude at most `2 * FP_ONE`.
pub proof fn lemma_normalize_norm(a: V2)
    ensures
        v2_norm_sq(v2_normalize(a)) <= 3 * (FP_ONE as int) * (FP_ONE as int),
        v2_bounded(v2_normalize(a), 2 * FP_ONE as int),
{
    let one = FP_ONE as int;
    let s = v2_norm_sq(a);
    assert(0 <= s) by (nonlinear_arith)
        requires
            s == a.x * a.x + a.y * a.y,
    ;
    lemma_sqrt_floor(s);
    let n = v2_norm(a);
    assert(s <= n * n + 2 * n) by (nonlinear_arith)
        requires
            s < (n + 1) * (n + 1),
    ;
    let w = v2_normalize(a);
    let t = v2_norm_sq(w);
    assert(0 <= t) by (nonlinear_arith)
        requires
            t == w.x * w.x + w.y * w.y,
    ;
    if n <= 0 {
        assert(n == 0);
        assert(s == 0) by (nonlinear_arith)
            requires
                0 <= s,
                s <= n * n + 2 * n,
                n == 0,
        ;
        assert(a.x == 0 && a.y == 0) by (nonlinear_arith)
            requires
                a.x * a.x + a.y * a.y == 0,
        ;
    } else {
        lemma_div_tz_sq_le(a.x * one, n);
        lemma_div_tz_sq_le(a.y * one, n);
        assert((a.x * one) * (a.x * one) == (a.x * a.x) * (one * one)) by (nonlinear_arith);
        assert((a.y * one) * (a.y * one) == (a.y * a.y) * (one * one)) by (nonlinear_arith);
        assert(t * (n * n) == w.x * w.x * (n * n) + w.y * w.y * (n * n)) by (nonlinear_arith)
            requires
                t == w.x * w.x + w.y * w.y,
        ;
        assert((a.x * a.x) * (one * one) + (a.y * a.y) * (one * one) <= (n * n + 2 * n) * (one
            * one)) by (nonlinear_arith)
            requires
                a.x * a.x + a.y * a.y <= n * n + 2 * n,
                0 < one,
        ;
        assert((n * n + 2 * n) * (one * one) <= 3 * (one * one) * (n * n)) by (nonlinear_arith)
            requires
                1 <= n,
                0 < one,
        ;
        assert(t * (n * n) <= 3 * (one * one) * (n * n));
        assert(t <= 3 * one * one) by (nonlinear_arith)
            requires
                t * (n * n) <= 3 * (one * one) * (n * n),
                1 <= n,
        ;
    }
    assert(t <= 3 * one * one);
    assert(t < (2 * one) * (2 * one)) by (nonlinear_arith)
        requires
            t <= 3 * one * one,
            one == 1000,
    ;
    assert(w.x * w.x < (2 * one) * (2 * one)) by (nonlinear_arith)
        requires
            w.x * w.x + w.y * w.y < (2 * one) * (2 * one),
    ;
    lemma_abs_from_sq_strict(w.x, 2 * one);
    assert(w.y * w.y < (2 * one) * (2 * one)) by (nonlinear_arith)
        requires
            w.x * w.x + w.y * w.y < (2 * one) * (2 * one),
    ;
    lemma_abs_from_sq_strict(w.y, 2 * one);
}

/// Dividing an exact multiple of a positive `d` by `d` cancels, for either
/// sign of the dividend.
pub proof fn lemma_div_tz_mul_divisor(c: int, d: int)
    requires
        d >= 1,
        0 <= c,
    ensures
        div_tz(c * d, d) == c,
        div_tz(-(c * d), d) == -c,
{
    vstd::arithmetic::div_mod::lemma_div_multiples_vanish(c, d);
    assert(c * d == d * c) by (nonlinear_arith);
    assert(c * d >= 0) by (nonlinear_arith)
        requires
            0 <= c,
            1 <= d,
    ;
}

/// Dividing by one changes nothing, for either sign.
pub proof fn lemma_div_tz_one(x: int)
    ensures
        div_tz(x, 1) == x,
{
    if x >= 0 {
        vstd::arithmetic::div_mod::lemma_div_multiples_vanish(x, 1);
    } else {
        vstd::arithmetic::div_mod::lemma_div_multiples_vanish(-x, 1);
    }
}

/// On an axis-aligned vector the fixed-point length is the coordinate's
/// magnitude, and normalizing gives exactly the fixed-point unit vector of
/// the same direction.
pub proof fn lemma_normalize_axis(c: int)
    requires
        1 <= c,
    ensures
        v2_norm(V2 { x: c, y: 0 }) == c,
        v2_norm(V2 { x: -c, y: 0 }) == c,
        v2_normalize(V2 { x: c, y: 0 }) == (V2 { x: 1000, y: 0 }),
        v2_normalize(V2 { x: -c, y: 0 }) == (V2 { x: -1000, y: 0 }),
{
    assert((-c) * (-c) == c * c) by (nonlinear_arith);
    assert(c * c < (c + 1) * (c + 1)) by (nonlinear_arith)
        requires
            1 <= c,
    ;
    assert(0 <= c * c) by (nonlinear_arith);
    lemma_sqrt_floor_unique(c * c, c);
    assert(v2_norm_sq(V2 { x: c, y: 0 }) == c * c);
    assert(v2_norm_sq(V2 { x: -c, y: 0 }) == c * c);
    lemma_div_tz_mul_divisor(1000, c);
    assert(c * 1000 == 1000 * c) by (nonlinear_arith);
    assert((-c) * 1000 == -(1000 * c)) by (nonlinear_arith);
    assert(div_tz(0, c) == 0) by {
        vstd::arithmetic::div_mod::lemma_div_multiples_vanish(0, c);
    }
}

/// Clamping an axis-aligned vector longer than `max` yields exactly the
/// axis vector of length `max`.
pub proof fn lemma_clamp_axis(c: int, max: int)
    requires
        1 <= max < c,
    ensures
        v2_clamp(V2 { x: c, y: 0 }, max) == (V2 { x: max, y: 0 }),
        v2_clamp(V2 { x: -c, y: 0 }, max) == (V2 { x: -max, y: 0 }),
{
    lemma_normalize_axis(c);
    lemma_div_tz_mul_divisor(max, c);
    assert(c * max == max * c) by (nonlinear_arith);
    assert((-c) * max == -(max * c)) by (nonlinear_arith);
    assert(div_tz(0, c) == 0) by {
        vstd::arithmetic::div_mod::lemma_div_multiples_vanish(0, c);
    }
}

/// If `k^2 <= n` then the integer square root of `n` is at least `k`.
pub proof fn lemma_sqrt_floor_ge(n: int, k: int)
    requires
        0 <= k,
        k * k <= n,
    ensures
        sqrt_floor(n) >= k,
{
    lemma_sqrt_floor(n);
    let s = sqrt_floor(n);
    if s < k {
        assert((s + 1) * (s + 1) <= k * k) by (nonlinear_arith)
            requires
                0 <= s,
                s + 1 <= k,
        ;
    }
}

/// Truncating division loses at most one divisor of magnitude: with
/// `m == |a|`, `(a / b)^2 * b^2 >= a^2 - 2 m b`.
pub proof fn lemma_div_tz_sq_ge(a: int, b: int, m: int)
    requires
        b >= 1,
        m == (if a >= 0 {
            a
        } else {
            -a
        }),
    ensures
        div_tz(a, b) * div_tz(a, b) * (b * b) >= a * a - 2 * b * m,
{
    let p = m / b;
    vstd::arithmetic::div_mod::lemma_fundamental_div_mod(m, b);
    vstd::arithmetic::div_mod::lemma_mod_bound(m, b);
    vstd::arithmetic::div_mod::lemma_div_pos_is_pos(m, b);
    assert(b * p >= m - b + 1);
    assert(p * p * (b * b) >= m * m - 2 * b * m) by (nonlinear_arith)
        requires
            0 <= p,
            1 <= b,
            0 <= m,
            b * p >= m - b + 1,
    ;
    assert(div_tz(a, b) * div_tz(a, b) == p * p) by (nonlinear_arith)
        requires
            div_tz(a, b) == if a >= 0 {
                p
            } else {
                -p
            },
    ;
    assert(m * m == a * a) by (nonlinear_arith)
        requires
            m == if a >= 0 {
                a
            } else {
                -a
            },
    ;
}

/// Normalizing a vector of at least half and at most one unit of length
/// yields a vector within half a percent of one unit: the squared length
/// lands in `[992_000, 1_004_000]`, so the fixed-point length lands in
/// `[995, 1001]`.
pub proof fn lemma_normalize_near_unit(a: V2)
    requires
        v2_bounded(a, 1000),
        250_000 <= v2_norm_sq(a),
    ensures
        992_000 <= v2_norm_sq(v2_normalize(a)) <= 1_004_000,
        995 <= v2_norm(v2_normalize(a)) <= 1001,
        v2_bounded(v2_normalize(a), 1001),
{
    let one = FP_ONE as int;
    let s = v2_norm_sq(a);
    assert(s <= 2_000_000) by (nonlinear_arith)
        requires
            s == a.x * a.x + a.y * a.y,
            v2_bounded(a, 1000),
    ;
    lemma_sqrt_floor(s);
    let n = v2_norm(a);
    assert(n >= 500) by {
        if n <= 499 {
            assert((n + 1) * (n + 1) <= 500 * 500) by (nonlinear_arith)
                requires
                    0 <= n <= 499,
            ;
        }
    }
    assert(n <= 1414) by {
        if n >= 1415 {
            assert(n * n >= 1415 * 1415) by (nonlinear_arith)
                requires
                    n >= 1415,
            ;
        }
    }
    assert(s <= n * n + 2 * n) by (nonlinear_arith)
        requires
            s < (n + 1) * (n + 1),
    ;
    let w = v2_normalize(a);
    let t = v2_norm_sq(w);
    assert(0 <= t) by (nonlinear_arith)
        requires
            t == w.x * w.x + w.y * w.y,
    ;

    // Upper bound, as for the general normalize bound but with n >= 500.
    lemma_div_tz_sq_le(a.x * one, n);
    lemma_div_tz_sq_le(a.y * one, n);
    assert((a.x * one) * (a.x * one) == (a.x * a.x) * (one * one)) by (nonlinear_arith);
    assert((a.y * one) * (a.y * one) == (a.y * a.y) * (one * one)) by (nonlinear_arith);
    assert(t * (n * n) == w.x * w.x * (n * n) + w.y * w.y * (n * n)) by (nonlinear_arith)
        requires
            t == w.x * w.x + w.y * w.y,
    ;
    assert((a.x * a.x) * (one * one) + (a.y * a.y) * (one * one) <= (n * n + 2 * n) * (one * one))
        by (nonlinear_arith)
        requires
            a.x * a.x + a.y * a.y <= n * n + 2 * n,
            0 < one,
    ;
    assert(t * (n * n) <= (n * n + 2 * n) * (one * one));
    assert(t <= 1_004_000) by (nonlinear_arith)
        requires
            t * (n * n) <= (n * n + 2 * n) * 1_000_000,
            500 <= n,
            0 <= t,
    ;

    // Lower bound: each truncation loses at most one n of scaled magnitude.
    let mx = if a.x * one >= 0 {
        a.x * one
    } else {
        -(a.x * one)
    };
    let my = if a.y * one >= 0 {
        a.y * one
    } else {
        -(a.y * one)
    };
    lemma_div_tz_sq_ge(a.x * one, n, mx);
    lemma_div_tz_sq_ge(a.y * one, n, my);
    assert(0 <= mx <= 1_000_000 && 0 <= my <= 1_000_000) by (nonlinear_arith)
        requires
            -1000 <= a.x <= 1000,
            -1000 <= a.y <= 1000,
            one == 1000,
            mx == (if a.x * one >= 0 {
                a.x * one
            } else {
                -(a.x * one)
            }),
            my == (if a.y * one >= 0 {
                a.y * one
            } else {
                -(a.y * one)
            }),
    ;
    assert(w.x * w.x * (n * n) >= (a.x * one) * (a.x * one) - 2 * n * 1_000_000) by (nonlinear_arith)
        requires
            w.x * w.x * (n * n) >= (a.x * one) * (a.x * one) - 2 * n * mx,
            0 <= mx <= 1_000_000,
            500 <= n,
    ;
    assert(w.y * w.y * (n * n) >= (a.y * one) * (a.y * one) - 2 * n * 1_000_000) by (nonlinear_arith)
        requires
            w.y * w.y * (n * n) >= (a.y * one) * (a.y * one) - 2 * n * my,
            0 <= my <= 1_000_000,
            500 <= n,
    ;
    assert((a.x * a.x) * (one * one) + (a.y * a.y) * (one * one) == (a.x * a.x + a.y * a.y) * (
        one * one)) by (nonlinear_arith);
    assert(t * (n * n) >= (a.x * a.x + a.y * a.y) * (one * one) - 4 * n * 1_000_000);
    assert((a.x * a.x + a.y * a.y) * (one * one) >= (n * n) * (one * one)) by (nonlinear_arith)
        requires
            n * n <= a.x * a.x + a.y * a.y,
            0 < one,
    ;
    assert(t >= 992_000) by (nonlinear_arith)
        requires
            t * (n * n) >= (n * n) * 1_000_000 - 4 * n * 1_000_000,
            500 <= n,
            0 <= t,
    ;

    lemma_sqrt_floor_ge(t, 995);
    lemma_sqrt_floor_le(t, 1001);
    assert(w.x * w.x < 1002 * 1002 && w.y * w.y < 1002 * 1002) by (nonlinear_arith)
        requires
            w.x * w.x + w.y * w.y <= 1_004_000,
    ;
    lemma_abs_from_sq_strict(w.x, 1002);
    lemma_abs_from_sq_strict(w.y, 1002);
}

/// A 2D vector with fixed-point (milliunit) coordinates.
#[derive(Clone, Copy, PartialEq, Eq, Structural, Debug)]
pub struct Vec2 {
    pub x: i64,
    pub y: i64,
}

impl View for Vec2 {
    type V = V2;

    open spec fn view(&self) -> V2 {
        V2 { x: self.x as int, y: self.y as int }
    }
}

impl Vec2 {
    pub fn new(x: i64, y: i64) -> (r: Vec2)
        ensures
            r@ == (V2 { x: x as int, y: y as int }),
    {
        Vec2 { x, y }
    }

    pub fn zero() -> (r: Vec2)
        ensures
            r@ == v2_zero(),
    {
        Vec2 { x: 0, y: 0 }
    }

    pub fn add(self, o: Vec2) -> (r: Vec2)
        requires
            i64::MIN <= self@.x + o@.x <= i64::MAX,
            i64::MIN <= self@.y + o@.y <= i64::MAX,
        ensures
            r@ == v2_add(self@, o@),
    {
        Vec2 { x: self.x + o.x, y: self.y + o.y }
    }

    pub fn sub(self, o: Vec2) -> (r: Vec2)
        requires
            i64::MIN <= self@.x - o@.x <= i64::MAX,
            i64::MIN <= self@.y - o@.y <= i64::MAX,
        ensures
            r@ == v2_sub(self@, o@),
    {
        Vec2 { x: self.x - o.x, y: self.y - o.y }
    }

    /// The squared fixed-point length.
    pub fn norm_sq(self) -> (r: i64)
        requires
            v2_bounded(self@, COORD_LIMIT as int),
        ensures
            r == v2_norm_sq(self@),
    {
        proof {
            assert(0 <= self@.x * self@.x <= (COORD_LIMIT as int) * (COORD_LIMIT as int)
                && 0 <= self@.y * self@.y <= (COORD_LIMIT as int) * (COORD_LIMIT as int))
                by (nonlinear_arith)
                requires
                    v2_bounded(self@, COORD_LIMIT as int),
            ;
        }
        self.x * self.x + self.y * self.y
    }

    /// The fixed-point length (floor of the Euclidean length).
    pub fn length(self) -> (r: i64)
        requires
            v2_bounded(self@, COORD_LIMIT as int),
        ensures
            r == v2_norm(self@),
            0 <= r <= 4_294_967_295,
    {
        let s = self.norm_sq();
        proof {
            assert(0 <= s) by (nonlinear_arith)
                requires
                    s == v2_norm_sq(self@),
                    s == self@.x * self@.x + self@.y * self@.y,
            ;
        }
        let r = isqrt(s as u64);
        proof {
            lemma_sqrt_floor_le(s as int, 4_294_967_295);
            assert((4_294_967_295int + 1) * (4_294_967_295int + 1) > s as int);
        }
        r as i64
    }

    /// The fixed-point distance to `o`.
    pub fn distance(self, o: Vec2) -> (r: i64)
        requires
            v2_bounded(self@, (COORD_LIMIT / 2) as int),
            v2_bounded(o@, (COORD_LIMIT / 2) as int),
        ensures
            r == v2_dist(self@, o@),
            0 <= r,
    {
        let d = self.sub(o);
        proof {
            assert(0 <= v2_norm_sq(d@)) by (nonlinear_arith);
            lemma_sqrt_floor(v2_norm_sq(d@));
        }
        d.length()
    }

    /// Componentwise division by a positive count.
    pub fn div_int(self, k: i64) -> (r: Vec2)
        requires
            k > 0,
            -0x4000_0000_0000_0000 <= self@.x <= 0x4000_0000_0000_0000,
            -0x4000_0000_0000_0000 <= self@.y <= 0x4000_0000_0000_0000,
        ensures
            r@ == v2_div(self@, k as int),
    {
        Vec2 { x: div_pos(self.x, k), y: div_pos(self.y, k) }
    }

    /// Division by a positive fixed-point scalar `d`.
    pub fn div_fp(self, d: i64) -> (r: Vec2)
        requires
            d >= 1,
            v2_bounded(self@, COORD_LIMIT as int),
        ensures
            r@ == v2_div_fp(self@, d as int),
    {
        proof {
            assert(-0x4000_0000_0000_0000 <= self@.x * (FP_ONE as int) <= 0x4000_0000_0000_0000
                && -0x4000_0000_0000_0000 <= self@.y * (FP_ONE as int) <= 0x4000_0000_0000_0000)
                by (nonlinear_arith)
                requires
                    v2_bounded(self@, COORD_LIMIT as int),
            ;
        }
        Vec2 { x: div_pos(self.x * FP_ONE, d), y: div_pos(self.y * FP_ONE, d) }
    }

    /// Multiplication by a fixed-point scalar `k` in `[0, 10000]`.
    pub fn scale_fp(self, k: i64) -> (r: Vec2)
        requires
            0 <= k <= 10_000,
            v2_bounded(self@, COORD_LIMIT as int),
        ensures
            r@ == v2_scale_fp(self@, k as int),
    {
        proof {
            assert(-0x4000_0000_0000_0000 <= self@.x * k <= 0x4000_0000_0000_0000
                && -0x4000_0000_0000_0000 <= self@.y * k <= 0x4000_0000_0000_0000)
                by (nonlinear_arith)
                requires
                    0 <= k <= 10_000,
                    v2_bounded(self@, COORD_LIMIT as int),
            ;
        }
        Vec2 { x: div_pos(self.x * k, FP_ONE), y: div_pos(self.y * k, FP_ONE) }
    }

    /// Scaling to (fixed-point) unit length; the zero vector is returned
    /// unchanged.
    pub fn normalize(self) -> (r: Vec2)
        requires
            v2_bounded(self@, COORD_LIMIT as int),
        ensures
            r@ == v2_normalize(self@),
    {
        let n = self.length();
        if n <= 0 {
            self
        } else {
            proof {
                assert(-0x4000_0000_0000_0000 <= self@.x * (FP_ONE as int) <= 0x4000_0000_0000_0000
                    && -0x4000_0000_0000_0000 <= self@.y * (FP_ONE as int)
                    <= 0x4000_0000_0000_0000) by (nonlinear_arith)
                    requires
                        v2_bounded(self@, COORD_LIMIT as int),
                ;
            }
            Vec2 { x: div_pos(self.x * FP_ONE, n), y: div_pos(self.y * FP_ONE, n) }
        }
    }

    /// Clamping to length at most `max`.
    pub fn clamp_length(self, max: i64) -> (r: Vec2)
        requires
            1 <= max <= 1_000_000,
            v2_bounded(self@, COORD_LIMIT as int),
        ensures
            r@ == v2_clamp(self@, max as int),
            v2_norm_sq(r@) <= max * max + 2 * max,
            v2_bounded(r@, max as int),
    {
        proof {
            lemma_clamp_norm(self@, max as int);
        }
        let n = self.length();
        if n > max {
            proof {
                assert(-0x4000_0000_0000_0000 <= self@.x * max <= 0x4000_0000_0000_0000
                    && -0x4000_0000_0000_0000 <= self@.y * max <= 0x4000_0000_0000_0000)
                    by (nonlinear_arith)
                    requires
                        1 <= max <= 1_000_000,
                        v2_bounded(self@, COORD_LIMIT as int),
                ;
            }
            Vec2 { x: div_pos(self.x * max, n), y: div_pos(self.y * max, n) }
        } else {
            self
        }
    }
}

} // verus!
