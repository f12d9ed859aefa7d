//! The magnitudes that a 32-bit binary floating-point number can have, and
//! rounding to the nearest of them.
//!
//! A magnitude is counted in units of 2^-149, the smallest positive one, so
//! that every finite magnitude is an integer. The bit pattern of a number
//! without its sign, read as an integer `k`, numbers the magnitudes in
//! ascending order: `units(k)` is the `k`-th of them.
use vstd::arithmetic::power2::{
    lemma2_to64, lemma2_to64_rest, lemma_pow2_adds, lemma_pow2_pos, lemma_pow2_strictly_increases,
    lemma_pow2_unfold, pow2,
};
use vstd::bits::{lemma_u64_pow2_no_overflow, lemma_u64_shl_is_mul, lemma_u64_shr_is_div};
use vstd::prelude::*;
use vstd::std_specs::bits::u64_leading_zeros;

verus! {

/// Pattern of infinity without its sign; every smaller pattern is finite.
pub const INFINITY_PATTERN: u32 = 0x7f80_0000;

/// Exponent that makes one: a magnitude of one is 2^149 units.
pub const UNIT_EXPONENT: i32 = 149;

/// The magnitude with pattern `k`, in units of 2^-149. At the pattern of
/// infinity it is the power of two that follows the largest finite magnitude,
/// which decides when a value rounds to infinity.
pub open spec fn units(k: int) -> int {
    if k < 0x80_0000 {
        k
    } else {
        (0x80_0000 + k % 0x80_0000) * pow2((k / 0x80_0000 - 1) as nat)
    }
}

/// Pattern `k` is the magnitude nearest to `p / q` units, the even pattern of
/// two that are equally near; what lies half a step or more beyond the
/// largest finite magnitude goes to infinity.
pub open spec fn is_nearest(k: int, p: int, q: int) -> bool {
    &&& 0 <= k <= INFINITY_PATTERN
    &&& k == 0 || (units(k - 1) + units(k)) * q < 2 * p || ((units(k - 1) + units(k)) * q == 2 * p
        && k % 2 == 0)
    &&& k == INFINITY_PATTERN || 2 * p < (units(k) + units(k + 1)) * q || (2 * p == (units(k)
        + units(k + 1)) * q && k % 2 == 0)
}

/// Pattern `k` is the magnitude nearest to the square root of `p`, in units.
pub open spec fn is_nearest_root(k: int, p: int) -> bool {
    &&& 0 <= k <= INFINITY_PATTERN
    &&& k == 0 || {
        let low = units(k - 1) + units(k);
        low * low < 4 * p || (low * low == 4 * p && k % 2 == 0)
    }
    &&& k == INFINITY_PATTERN || {
        let high = units(k) + units(k + 1);
        4 * p < high * high || (4 * p == high * high && k % 2 == 0)
    }
}

/// The pattern of `p / q` units after rounding.
pub open spec fn nearest(p: int, q: int) -> int {
    choose|k: int| is_nearest(k, p, q)
}

/// The pattern of the square root of `p`, in units, after rounding.
pub open spec fn nearest_root(p: int) -> int {
    choose|k: int| is_nearest_root(k, p)
}

/// The step from one magnitude to the next.
pub proof fn lemma_units_step(k: int)
    requires
        0 <= k,
    ensures
        k < 0x80_0000 ==> units(k + 1) == units(k) + 1,
        k >= 0x80_0000 ==> units(k + 1) == units(k) + pow2((k / 0x80_0000 - 1) as nat),
        units(k) < units(k + 1),
{
    lemma2_to64();
    if k >= 0x80_0000 {
        let e = (k / 0x80_0000 - 1) as nat;
        let m = k % 0x80_0000;
        lemma_pow2_pos(e);
        if m + 1 < 0x80_0000 {
            assert((k + 1) / 0x80_0000 == k / 0x80_0000);
            assert((k + 1) % 0x80_0000 == m + 1);
            assert((0x80_0000 + (m + 1)) * pow2(e) == (0x80_0000 + m) * pow2(e) + pow2(e))
                by (nonlinear_arith);
        } else {
            assert((k + 1) / 0x80_0000 == k / 0x80_0000 + 1);
            assert((k + 1) % 0x80_0000 == 0);
            lemma_pow2_unfold(e + 1);
            assert((0x80_0000int + 0) * (2 * pow2(e)) == (0x80_0000 + 0x7f_ffff) * pow2(e)
                + pow2(e)) by (nonlinear_arith);
        }
    } else if k + 1 == 0x80_0000 {
        assert((k + 1) / 0x80_0000 == 1 && (k + 1) % 0x80_0000 == 0);
        assert((0x80_0000int + 0) * pow2(0) == 0x80_0000) by (nonlinear_arith)
            requires
                pow2(0) == 1,
        ;
    }
}

/// Patterns and magnitudes ascend together.
pub proof fn lemma_units_increase(j: int, k: int)
    requires
        0 <= j < k,
    ensures
        units(j) < units(k),
    decreases k - j,
{
    lemma_units_step(k - 1);
    if j < k - 1 {
        lemma_units_increase(j, k - 1);
    }
}

proof fn lemma_units_sums_increase(j: int, k: int)
    requires
        0 <= j < k,
    ensures
        units(j) + units(j + 1) < units(k) + units(k + 1),
{
    lemma_units_increase(j, k);
    lemma_units_increase(j + 1, k + 1);
}

/// At most one pattern is nearest.
pub proof fn lemma_nearest_unique(j: int, k: int, p: int, q: int)
    requires
        is_nearest(j, p, q),
        is_nearest(k, p, q),
        q > 0,
    ensures
        j == k,
{
    lemma_nearest_not_below(j, k, p, q);
    lemma_nearest_not_below(k, j, p, q);
}

proof fn lemma_nearest_not_below(j: int, k: int, p: int, q: int)
    requires
        is_nearest(j, p, q),
        is_nearest(k, p, q),
        q > 0,
    ensures
        j >= k,
{
    let a = units(j) + units(j + 1);
    let b = units(k - 1) + units(k);
    if j < k - 1 {
        lemma_units_sums_increase(j, k - 1);
        assert(a * q < b * q) by (nonlinear_arith)
            requires
                a < b,
                q > 0,
        ;
    }
}

/// At most one pattern is nearest to a square root.
pub proof fn lemma_nearest_root_unique(j: int, k: int, p: int)
    requires
        is_nearest_root(j, p),
        is_nearest_root(k, p),
    ensures
        j == k,
{
    lemma_nearest_root_not_below(j, k, p);
    lemma_nearest_root_not_below(k, j, p);
}

proof fn lemma_nearest_root_not_below(j: int, k: int, p: int)
    requires
        is_nearest_root(j, p),
        is_nearest_root(k, p),
    ensures
        j >= k,
{
    let a = units(j) + units(j + 1);
    let b = units(k - 1) + units(k);
    lemma_units_nonnegative(j);
    lemma_units_nonnegative(j + 1);
    if j < k - 1 {
        lemma_units_sums_increase(j, k - 1);
        assert(a * a < b * b) by (nonlinear_arith)
            requires
                0 <= a < b,
        ;
    }
}

pub proof fn lemma_units_nonnegative(k: int)
    requires
        0 <= k,
    ensures
        units(k) >= 0,
        k > 0 ==> units(k) > 0,
{
    if k > 0 {
        lemma_units_increase(0, k);
    }
}

/// A rounded value has the pattern that `nearest` names.
pub proof fn lemma_nearest_is(k: int, p: int, q: int)
    requires
        is_nearest(k, p, q),
        q > 0,
    ensures
        nearest(p, q) == k,
{
    lemma_nearest_unique(nearest(p, q), k, p, q);
}

/// A rounded square root has the pattern that `nearest_root` names.
pub proof fn lemma_nearest_root_is(k: int, p: int)
    requires
        is_nearest_root(k, p),
    ensures
        nearest_root(p) == k,
{
    lemma_nearest_root_unique(nearest_root(p), k, p);
}

/// Rounding keeps the order.
pub proof fn lemma_nearest_monotone(p: int, p2: int, q: int)
    requires
        0 <= p <= p2,
        0 < q,
    ensures
        nearest(p, q) <= nearest(p2, q),
{
    lemma_nearest_in_range(p, q);
    lemma_nearest_in_range(p2, q);
    let k = nearest(p, q);
    let k2 = nearest(p2, q);
    if k2 < k - 1 {
        lemma_units_sums_increase(k2, k - 1);
        assert((units(k2) + units(k2 + 1)) * q < (units(k - 1) + units(k)) * q)
            by (nonlinear_arith)
            requires
                units(k2) + units(k2 + 1) < units(k - 1) + units(k),
                q > 0,
        ;
    }
}

/// A value that is not above a magnitude is not rounded above it.
pub proof fn lemma_nearest_bounded(p: int, q: int, k: int)
    requires
        0 <= p <= units(k) * q,
        0 < q,
        0 <= k,
    ensures
        nearest(p, q) <= k,
{
    lemma_nearest_in_range(p, q);
    let j = nearest(p, q);
    if j > k {
        lemma_units_increase(k, j);
        if j - 1 > k {
            lemma_units_increase(k, j - 1);
        }
        assert((units(j - 1) + units(j)) * q > 2 * (units(k) * q)) by (nonlinear_arith)
            requires
                units(j - 1) >= units(k),
                units(j) > units(k),
                0 < q,
        ;
    }
}

/// Some pattern is nearest.
pub proof fn lemma_nearest_in_range(p: int, q: int)
    requires
        0 <= p,
        0 < q,
    ensures
        is_nearest(nearest(p, q), p, q),
        0 <= nearest(p, q) <= INFINITY_PATTERN,
{
    let k = lemma_search_nearest(p, q, 0);
}

/// Looks for the nearest pattern from `k` upward.
proof fn lemma_search_nearest(p: int, q: int, k: int) -> (r: int)
    requires
        0 <= k <= INFINITY_PATTERN,
        k == 0 || (units(k - 1) + units(k)) * q < 2 * p || ((units(k - 1) + units(k)) * q == 2 * p
            && k % 2 == 0),
    ensures
        is_nearest(r, p, q),
    decreases INFINITY_PATTERN - k,
{
    if is_nearest(k, p, q) {
        k
    } else {
        lemma_search_nearest(p, q, k + 1)
    }
}

/// Some pattern is nearest to a square root.
pub proof fn lemma_nearest_root_in_range(p: int)
    ensures
        is_nearest_root(nearest_root(p), p),
        0 <= nearest_root(p) <= INFINITY_PATTERN,
{
    let k = lemma_search_nearest_root(p, 0);
}

/// Looks for the pattern nearest to a square root from `k` upward.
proof fn lemma_search_nearest_root(p: int, k: int) -> (r: int)
    requires
        0 <= k <= INFINITY_PATTERN,
        k == 0 || ({
            let low = units(k - 1) + units(k);
            low * low < 4 * p || (low * low == 4 * p && k % 2 == 0)
        }),
    ensures
        is_nearest_root(r, p),
    decreases INFINITY_PATTERN - k,
{
    if is_nearest_root(k, p) {
        k
    } else {
        lemma_search_nearest_root(p, k + 1)
    }
}

/// A value that is itself a finite magnitude stays as it is.
pub proof fn lemma_nearest_exact(k: int, q: int)
    requires
        0 <= k < INFINITY_PATTERN,
        q > 0,
    ensures
        nearest(units(k) * q, q) == k,
{
    lemma_exact_is_nearest(k, q);
    lemma_nearest_is(k, units(k) * q, q);
}

proof fn lemma_exact_is_nearest(k: int, q: int)
    requires
        0 <= k < INFINITY_PATTERN,
        q > 0,
    ensures
        is_nearest(k, units(k) * q, q),
{
    let u = units(k);
    lemma_units_step(k);
    assert((u + units(k + 1)) * q > 2 * (u * q)) by (nonlinear_arith)
        requires
            units(k + 1) > u,
            q > 0,
    ;
    if k > 0 {
        lemma_units_step(k - 1);
        assert((units(k - 1) + u) * q < 2 * (u * q)) by (nonlinear_arith)
            requires
                units(k - 1) < u,
                q > 0,
        ;
    }
}

/// The magnitude `c * 2^e`, where `c` has at most 24 bits and all of them
/// unless `e` is zero.
pub proof fn lemma_units_of_scaled(c: int, e: nat)
    requires
        0 <= c < 0x100_0000,
        e > 0 ==> c >= 0x80_0000,
    ensures
        units(e * 0x80_0000 + c) == c * pow2(e),
        units(e * 0x80_0000 + c + 1) == (c + 1) * pow2(e),
{
    lemma2_to64();
    let k = e * 0x80_0000 + c;
    if c >= 0x80_0000 {
        assert(k / 0x80_0000 == e + 1);
        assert(k % 0x80_0000 == c - 0x80_0000);
    }
    lemma_units_step(k);
    assert((c + 1) * pow2(e) == c * pow2(e) + pow2(e)) by (nonlinear_arith);
    if e == 0 && c < 0x80_0000 {
        assert(c * pow2(0) == c) by (nonlinear_arith)
            requires
                pow2(0) == 1,
        ;
    }
}

/// `2^s` as a fraction of two powers: its numerator.
pub open spec fn scale_up(s: int) -> int {
    if s >= 0 {
        pow2(s as nat) as int
    } else {
        1
    }
}

/// `2^s` as a fraction of two powers: its denominator.
pub open spec fn scale_down(s: int) -> int {
    if s >= 0 {
        1
    } else {
        pow2((-s) as nat) as int
    }
}

/// `p / q` is `m * 2^s`, or lies strictly between that and `(m + 1) * 2^s`.
pub open spec fn is_bracketed(m: int, s: int, sticky: bool, p: int, q: int) -> bool {
    let low = m * (scale_up(s) * q);
    let high = (m + 1) * (scale_up(s) * q);
    if sticky {
        low < p * scale_down(s) < high
    } else {
        low == p * scale_down(s)
    }
}

proof fn lemma_leading_zeros_bound(m: u64)
    ensures
        0 <= u64_leading_zeros(m) <= 64,
        m < pow2((64 - u64_leading_zeros(m)) as nat),
        m > 0 ==> u64_leading_zeros(m) < 64 && m >= pow2((63 - u64_leading_zeros(m)) as nat),
    decreases m,
{
    reveal(u64_leading_zeros);
    lemma2_to64();
    if m > 0 {
        lemma_leading_zeros_bound(m / 2);
        let z = u64_leading_zeros(m);
        assert(z == u64_leading_zeros(m / 2) - 1);
        if m / 2 > 0 {
            lemma_pow2_unfold((63 - z) as nat);
        } else {
            assert(m == 1);
            assert(u64_leading_zeros(0) == 64);
        }
        assert(z >= 0) by {
            if z < 0 {
                assert(u64_leading_zeros(m / 2) == 0);
                assert(m / 2 >= pow2(63));
            }
        }
        lemma_pow2_unfold((64 - z) as nat);
    }
}

/// Number of bits of `m` up to its highest one.
pub fn bit_length(m: u64) -> (length: u32)
    ensures
        length <= 64,
        m < pow2(length as nat),
        m > 0 ==> length > 0 && m >= pow2((length - 1) as nat),
        m == 0 ==> length == 0,
{
    proof {
        lemma_leading_zeros_bound(m);
        reveal(u64_leading_zeros);
    }
    64 - m.leading_zeros()
}

/// What a bracketed value, with `m` cut to its quotient `c` by `2^r`, has to do
/// with the magnitudes next to it.
proof fn lemma_round_cut(m: int, s: int, sticky: bool, p: int, q: int, e: nat, r: nat, c: int)
    requires
        is_bracketed(m, s, sticky, p, q),
        q > 0,
        p >= 0,
        0 <= c < 0x100_0000,
        e > 0 ==> c >= 0x80_0000,
        r == e - s,
        r > 0,
        c * pow2(r) <= m < (c + 1) * pow2(r),
    ensures
        ({
            let k = e * 0x80_0000 + c;
            let half = pow2((r - 1) as nat);
            let rest = m - c * pow2(r);
            &&& units(k) * q <= p < units(k + 1) * q
            &&& (2 * p < (units(k) + units(k + 1)) * q) <==> rest < half
            &&& (2 * p == (units(k) + units(k + 1)) * q) <==> (rest == half && !sticky)
        }),
{
    let up = scale_up(s);
    let down = scale_down(s);
    let x = up * q;
    let w = p * down;
    let half = pow2((r - 1) as nat) as int;
    let k = e * 0x80_0000 + c;
    let full = pow2(r) as int;
    lemma_units_of_scaled(c, e);
    lemma_pow2_unfold(r);
    lemma_pow2_pos((r - 1) as nat);
    assert(up > 0 && down > 0) by {
        if s >= 0 {
            lemma_pow2_pos(s as nat);
        } else {
            lemma_pow2_pos((-s) as nat);
        }
    }
    assert(pow2(e) * down == full * up) by {
        if s >= 0 {
            lemma_pow2_adds(r, s as nat);
        } else {
            lemma_pow2_adds(e, (-s) as nat);
        }
    }
    assert(x > 0) by (nonlinear_arith)
        requires
            x == up * q,
            up > 0,
            q > 0,
    ;
    let u0 = units(k);
    let u1 = units(k + 1);
    assert(u0 * q * down == c * full * x) by (nonlinear_arith)
        requires
            u0 == c * pow2(e),
            pow2(e) * down == full * up,
            x == up * q,
    ;
    assert(u1 * q * down == (c + 1) * full * x) by (nonlinear_arith)
        requires
            u1 == (c + 1) * pow2(e),
            pow2(e) * down == full * up,
            x == up * q,
    ;
    let rest = m - c * full;
    assert(m * x < (m + 1) * x) by (nonlinear_arith)
        requires
            x > 0,
    ;
    // The value against both neighbours, everything multiplied by `down`.
    assert(u0 * q * down <= w) by (nonlinear_arith)
        requires
            u0 * q * down == c * full * x,
            c * full <= m,
            m * x <= w,
            x > 0,
    ;
    assert(w < u1 * q * down) by (nonlinear_arith)
        requires
            u1 * q * down == (c + 1) * full * x,
            m + 1 <= (c + 1) * full,
            w < (m + 1) * x,
            x > 0,
    ;
    assert(u0 * q <= p) by (nonlinear_arith)
        requires
            u0 * q * down <= p * down,
            down > 0,
    ;
    assert(p < u1 * q) by (nonlinear_arith)
        requires
            p * down < u1 * q * down,
            down > 0,
    ;
    // The value against the midpoint.
    let mid = (u0 + u1) * q;
    assert(mid * down == (2 * c * full + 2 * half) * x) by (nonlinear_arith)
        requires
            mid == (u0 + u1) * q,
            u0 * q * down == c * full * x,
            u1 * q * down == (c + 1) * full * x,
            full == 2 * half,
    ;
    assert(mid * down == (2 * m - 2 * rest + 2 * half) * x) by {
        assert(2 * c * full == 2 * m - 2 * rest) by (nonlinear_arith)
            requires
                rest == m - c * full,
        ;
    }
    if rest < half {
        assert(2 * w < mid * down) by (nonlinear_arith)
            requires
                mid * down == (2 * m - 2 * rest + 2 * half) * x,
                half - rest >= 1,
                w < (m + 1) * x,
                x > 0,
        ;
        assert(2 * p < mid) by (nonlinear_arith)
            requires
                2 * (p * down) < mid * down,
                down > 0,
        ;
    } else if rest == half && !sticky {
        assert(2 * w == mid * down) by (nonlinear_arith)
            requires
                mid * down == (2 * m - 2 * rest + 2 * half) * x,
                half == rest,
                w == m * x,
        ;
        assert(2 * p == mid) by (nonlinear_arith)
            requires
                2 * (p * down) == mid * down,
                down > 0,
        ;
    } else {
        assert(2 * w > mid * down) by (nonlinear_arith)
            requires
                mid * down == (2 * m - 2 * rest + 2 * half) * x,
                half < rest || (half == rest && w > m * x),
                w >= m * x,
                x > 0,
        ;
        assert(2 * p > mid) by (nonlinear_arith)
            requires
                2 * (p * down) > mid * down,
                down > 0,
        ;
    }
}

/// What reaches the magnitude after the largest finite one is infinite.
proof fn lemma_overflow(k: int, p: int, q: int)
    requires
        k >= INFINITY_PATTERN,
        units(k) * q <= p,
        q > 0,
    ensures
        is_nearest(INFINITY_PATTERN as int, p, q),
{
    let inf = INFINITY_PATTERN as int;
    lemma_units_step(inf - 1);
    if k > inf {
        lemma_units_increase(inf, k);
    }
    assert((units(inf - 1) + units(inf)) * q < 2 * p) by (nonlinear_arith)
        requires
            units(inf - 1) < units(inf) <= units(k),
            units(k) * q <= p,
            q > 0,
    ;
}

/// What is below half a unit rounds to zero.
proof fn lemma_underflow(m: int, s: int, sticky: bool, p: int, q: int)
    requires
        0 <= m < pow2(63),
        s <= -64,
        is_bracketed(m, s, sticky, p, q),
        q > 0,
    ensures
        is_nearest(0, p, q),
{
    let down = pow2((-s) as nat) as int;
    lemma2_to64();
    lemma2_to64_rest();
    if -s > 64 {
        lemma_pow2_strictly_increases(64, (-s) as nat);
    }
    assert(1 * q == q);
    assert(p * down < (m + 1) * q) by (nonlinear_arith)
        requires
            p * down < (m + 1) * q || p * down == m * q,
            q > 0,
    ;
    assert(2 * p < q) by (nonlinear_arith)
        requires
            p * down < (m + 1) * q,
            m + 1 <= 0x8000_0000_0000_0000,
            down >= 2 * 0x8000_0000_0000_0000int,
            q > 0,
    ;
    assert((units(0) + units(1)) * q == q);
}

fn round_exact(
    m: u64,
    s: i32,
    e: i32,
    length: u32,
    Ghost(p): Ghost<int>,
    Ghost(q): Ghost<int>,
) -> (k: u32)
    requires
        m < pow2(length as nat),
        m > 0 ==> length > 0 && m >= pow2((length - 1) as nat),
        m == 0 ==> length == 0,
        length <= 63,
        -400 <= s <= 400,
        is_bracketed(m as int, s as int, false, p, q),
        q > 0,
        e == (if length as int + s - 24 > 0 && m > 0 {
            length as int + s - 24
        } else {
            0
        }),
        e <= s,
    ensures
        is_nearest(k as int, p, q),
{
    proof {
        lemma2_to64();
        assert(p * 1 == p);
    }
    if m == 0 {
        proof {
            assert(0 * (scale_up(s as int) * q) == 0) by (nonlinear_arith);
            assert(is_nearest(0, 0, q)) by {
                assert((units(0) + units(1)) * q > 0) by (nonlinear_arith)
                    requires
                        units(0) + units(1) == 1,
                        q > 0,
                ;
            }
        }
        return 0;
    }
    let d: u64 = (s - e) as u64;
    proof {
        // The mantissa keeps to 24 bits.
        assert(length + d <= 24);
        lemma_pow2_adds(length as nat, d as nat);
        if length + d < 24 {
            lemma_pow2_strictly_increases((length + d) as nat, 24);
        }
        lemma_pow2_pos(d as nat);
        assert(m * pow2(d as nat) < 0x100_0000) by (nonlinear_arith)
            requires
                m < pow2(length as nat),
                pow2(length as nat) * pow2(d as nat) <= 0x100_0000,
                pow2(d as nat) > 0,
        ;
        lemma_u64_shl_is_mul(m, d);
    }
    let c: u64 = m << d;
    let k0: u32 = (e as u32) * 0x80_0000 + c as u32;
    proof {
        if e > 0 {
            assert(length + d == 24);
            lemma_pow2_adds((length - 1) as nat, d as nat);
            assert(c >= 0x80_0000) by (nonlinear_arith)
                requires
                    c == m * pow2(d as nat),
                    m >= pow2((length - 1) as nat),
                    pow2((length - 1) as nat) * pow2(d as nat) == 0x80_0000,
                    pow2(d as nat) > 0,
            ;
        }
        lemma_units_of_scaled(c as int, e as nat);
        lemma_pow2_adds(d as nat, e as nat);
        assert(units(k0 as int) * q == p) by (nonlinear_arith)
            requires
                units(k0 as int) == c * pow2(e as nat),
                c == m * pow2(d as nat),
                pow2(s as nat) == pow2(d as nat) * pow2(e as nat),
                m * (pow2(s as nat) * q) == p,
        ;
    }
    if k0 >= INFINITY_PATTERN {
        proof {
            lemma_overflow(k0 as int, p, q);
        }
        return INFINITY_PATTERN;
    }
    proof {
        lemma_exact_is_nearest(k0 as int, q);
    }
    k0
}

#[verifier::rlimit(30)]
fn round_cut(
    m: u64,
    s: i32,
    sticky: bool,
    e: i32,
    r: i32,
    length: u32,
    Ghost(p): Ghost<int>,
    Ghost(q): Ghost<int>,
) -> (k: u32)
    requires
        m < pow2(length as nat),
        m > 0 ==> length > 0 && m >= pow2((length - 1) as nat),
        m == 0 ==> length == 0,
        length <= 63,
        -400 <= s <= 400,
        is_bracketed(m as int, s as int, sticky, p, q),
        p >= 0,
        q > 0,
        e == (if length as int + s - 24 > 0 && m > 0 {
            length as int + s - 24
        } else {
            0
        }),
        r == e - s,
        0 < r < 64,
    ensures
        is_nearest(k as int, p, q),
{
    let c: u64 = m >> (r as u64);
    proof {
        lemma2_to64();
        lemma_u64_shr_is_div(m, r as u64);
        lemma_pow2_pos(r as nat);
        let full = pow2(r as nat) as int;
        assert(m == full * (m as int / full) + m as int % full) by {
            vstd::arithmetic::div_mod::lemma_fundamental_div_mod(m as int, full);
        }
        assert(0 <= m as int % full < full) by {
            vstd::arithmetic::div_mod::lemma_mod_bound(m as int, full);
        }
        assert(full * c == c * full) by (nonlinear_arith);
        assert(m < (c + 1) * full) by (nonlinear_arith)
            requires
                m == c * full + m as int % full,
                m as int % full < full,
        ;
        assert(c < 0x100_0000) by {
            if length >= 24 {
                lemma_pow2_adds((length - 24) as nat, 24);
                if r > length - 24 {
                    lemma_pow2_strictly_increases((length - 24) as nat, r as nat);
                }
                assert(c < 0x100_0000) by (nonlinear_arith)
                    requires
                        c * full <= m,
                        m < pow2((length - 24) as nat) * 0x100_0000,
                        pow2((length - 24) as nat) <= full,
                        full > 0,
                ;
            } else {
                lemma_pow2_strictly_increases(length as nat, 24);
                assert(c <= m) by (nonlinear_arith)
                    requires
                        c * full <= m,
                        full >= 1,
                        c >= 0,
                ;
            }
        }
        if e > 0 {
            lemma_pow2_adds(r as nat, 23);
            assert(c >= 0x80_0000) by (nonlinear_arith)
                requires
                    m < (c + 1) * full,
                    m >= full * 0x80_0000,
                    full > 0,
            ;
        }
        lemma_round_cut(m as int, s as int, sticky, p, q, e as nat, r as nat, c as int);
    }
    let k0: u32 = (e as u32) * 0x80_0000 + c as u32;
    if k0 >= INFINITY_PATTERN {
        proof {
            lemma_overflow(k0 as int, p, q);
        }
        return INFINITY_PATTERN;
    }
    let half: u64 = 1u64 << ((r - 1) as u64);
    proof {
        lemma_u64_pow2_no_overflow((r - 1) as nat);
        lemma_u64_shl_is_mul(1, (r - 1) as u64);
        lemma_u64_pow2_no_overflow(r as nat);
        assert(c * pow2(r as nat) <= m);
        lemma_u64_shl_is_mul(c, r as u64);
    }
    let rest: u64 = m - (c << (r as u64));
    let up: bool = rest > half || (rest == half && (sticky || c % 2 == 1));
    proof {
        lemma_units_step(k0 as int);
        lemma_units_step(k0 as int + 1);
        let u0 = units(k0 as int);
        let u1 = units(k0 as int + 1);
        let u2 = units(k0 as int + 2);
        if k0 > 0 {
            lemma_units_step(k0 as int - 1);
            let um = units(k0 as int - 1);
            assert((um + u0) * q < 2 * p) by (nonlinear_arith)
                requires
                    um < u0,
                    u0 * q <= p,
                    q > 0,
            ;
        }
        assert(2 * p < (u1 + u2) * q) by (nonlinear_arith)
            requires
                u1 < u2,
                p < u1 * q,
                q > 0,
        ;
    }
    if up {
        k0 + 1
    } else {
        k0
    }
}

/// The pattern nearest to the value that `m`, `s` and `sticky` describe, for
/// any `p / q` that they bracket.
pub(crate) fn round(
    m: u64,
    s: i32,
    sticky: bool,
    Ghost(p): Ghost<int>,
    Ghost(q): Ghost<int>,
) -> (k: u32)
    requires
        m < 0x8000_0000_0000_0000,
        -400 <= s <= 400,
        sticky ==> m >= 0x100_0000,
        is_bracketed(m as int, s as int, sticky, p, q),
        p >= 0,
        q > 0,
    ensures
        is_nearest(k as int, p, q),
        k == nearest(p, q),
{
    let length: u32 = bit_length(m);
    proof {
        lemma2_to64();
        lemma2_to64_rest();
        if length == 64 {
            assert(m >= pow2(63));
        }
    }
    let top: i32 = length as i32 + s - 24;
    let e: i32 = if top > 0 && m > 0 {
        top
    } else {
        0
    };
    let r: i32 = e - s;
    let k: u32;
    if r <= 0 {
        k = round_exact(m, s, e, length, Ghost(p), Ghost(q));
    } else if r >= 64 {
        k = 0;
        proof {
            lemma_underflow(m as int, s as int, sticky, p, q);
        }
    } else {
        k = round_cut(m, s, sticky, e, r, length, Ghost(p), Ghost(q));
    }
    proof {
        lemma_nearest_is(k as int, p, q);
    }
    k
}

} // verus!
