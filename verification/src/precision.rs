//! How far rounded results are from exact ones.
use vstd::arithmetic::power2::{lemma_pow2_pos, pow2};
use vstd::prelude::*;

use crate::binary32::{lemma_rank_orders_values, lemma_signed, magnitude, of_int, Binary32};
use crate::rounding::{
    lemma_nearest_in_range, lemma_nearest_root_in_range, lemma_units_nonnegative, lemma_units_step,
    nearest, nearest_root, units, INFINITY_PATTERN,
};

verus! {

/// The number of units of one.
pub open spec fn one() -> int {
    pow2(149) as int
}

/// `a` differs from `b` by no more than `r` parts in `2^24`, and `s / 2^24`.
pub open spec fn is_close(a: int, b: int, r: int, s: int) -> bool {
    0x100_0000 * magnitude(a - b) <= r * magnitude(b) + s
}

/// A step between magnitudes is a `2^23`rd part, or one unit.
pub proof fn lemma_step_size(k: int)
    requires
        0 <= k,
    ensures
        0x80_0000 * (units(k + 1) - units(k)) <= units(k) + 0x80_0000,
        k >= 0x80_0000 ==> 0x80_0000 * (units(k + 1) - units(k)) <= units(k),
{
    lemma_units_step(k);
    lemma_units_nonnegative(k);
    if k >= 0x80_0000 {
        let e = (k / 0x80_0000 - 1) as nat;
        let m = 0x80_0000 + k % 0x80_0000;
        lemma_pow2_pos(e);
        assert(0x80_0000 * pow2(e) <= m * pow2(e)) by (nonlinear_arith)
            requires
                0x80_0000 <= m,
                0 < pow2(e),
        ;
    }
}

/// A rounded value is off by half a step at most.
pub proof fn lemma_nearest_error(p: int, q: int)
    requires
        0 <= p,
        0 < q,
        nearest(p, q) < INFINITY_PATTERN,
    ensures
        0x100_0000 * magnitude(units(nearest(p, q)) * q - p) <= units(nearest(p, q)) * q + 0x80_0000
            * q,
{
    lemma_nearest_in_range(p, q);
    let k = nearest(p, q);
    let u = units(k);
    lemma_step_size(k);
    lemma_units_nonnegative(k);
    let up = units(k + 1) - u;
    assert(0x80_0000 * (up * q) <= u * q + 0x80_0000 * q) by (nonlinear_arith)
        requires
            0x80_0000 * up <= u + 0x80_0000,
            0 < q,
    ;
    assert((u + units(k + 1)) * q == 2 * (u * q) + up * q) by (nonlinear_arith)
        requires
            up == units(k + 1) - u,
    ;
    if k > 0 {
        lemma_step_size(k - 1);
        lemma_units_step(k - 1);
        let down = u - units(k - 1);
        assert(0x80_0000 * (down * q) <= u * q + 0x80_0000 * q) by (nonlinear_arith)
            requires
                0x80_0000 * down <= units(k - 1) + 0x80_0000,
                units(k - 1) <= u,
                0 < q,
        ;
        assert((units(k - 1) + u) * q == 2 * (u * q) - down * q) by (nonlinear_arith)
            requires
                down == u - units(k - 1),
        ;
    } else {
        assert(u * q == 0) by (nonlinear_arith)
            requires
                u == 0,
        ;
    }
}

/// Whole units are rounded by a `2^24`th part at most.
pub proof fn lemma_nearest_units_error(p: int)
    requires
        0 <= p,
        nearest(p, 1) < INFINITY_PATTERN,
    ensures
        0x100_0000 * magnitude(units(nearest(p, 1)) - p) <= units(nearest(p, 1)),
{
    lemma_nearest_in_range(p, 1);
    let k = nearest(p, 1);
    lemma_step_size(k);
    lemma_units_step(k);
    lemma_units_nonnegative(k);
    assert((units(k) + units(k + 1)) * 1 == units(k) + units(k + 1));
    if k > 0 {
        lemma_step_size(k - 1);
        lemma_units_step(k - 1);
        assert((units(k - 1) + units(k)) * 1 == units(k - 1) + units(k));
    }
}

/// A sum is finite only if its terms are.
pub proof fn lemma_finite_sum(a: Binary32, b: Binary32)
    requires
        a.sum(b).is_finite(),
    ensures
        a.is_finite(),
        b.is_finite(),
{
    reveal(Binary32::sum);
}

/// A product is finite only if its factors are.
pub proof fn lemma_finite_product(a: Binary32, b: Binary32)
    requires
        a.product(b).is_finite(),
    ensures
        a.is_finite(),
        b.is_finite(),
{
    reveal(Binary32::product);
    lemma_signed(a.negative() != b.negative(), INFINITY_PATTERN as int);
}

/// A sum is the exact sum, rounded.
pub proof fn lemma_sum_error(a: Binary32, b: Binary32)
    requires
        a.sum(b).is_finite(),
    ensures
        0x100_0000 * magnitude(a.sum(b).value() - (a.value() + b.value())) <= magnitude(
            a.sum(b).value(),
        ),
        is_close(a.sum(b).value(), a.value() + b.value(), 2, 0),
{
    lemma_finite_sum(a, b);
    reveal(Binary32::sum);
    let n = a.value() + b.value();
    if n == 0 {
        lemma_signed(a.negative() && b.negative(), 0);
    } else {
        let k = nearest(magnitude(n), 1);
        lemma_nearest_in_range(magnitude(n), 1);
        lemma_signed(n < 0, k);
        lemma_nearest_units_error(magnitude(n));
        lemma_units_nonnegative(k);
    }
}

/// A difference is the exact difference, rounded.
pub proof fn lemma_difference_error(a: Binary32, b: Binary32)
    requires
        a.difference(b).is_finite(),
    ensures
        a.is_finite(),
        b.is_finite(),
        0x100_0000 * magnitude(a.difference(b).value() - (a.value() - b.value())) <= magnitude(
            a.difference(b).value(),
        ),
        is_close(a.difference(b).value(), a.value() - b.value(), 2, 0),
{
    lemma_finite_sum(a, b.negated());
    lemma_signed(!b.negative(), b.pattern());
    lemma_sum_error(a, b.negated());
}

/// A product is the exact product, rounded.
pub proof fn lemma_product_error(a: Binary32, b: Binary32)
    requires
        a.product(b).is_finite(),
    ensures
        is_close(
            a.product(b).value() * one(),
            a.value() * b.value(),
            2,
            0x100_0000 * one(),
        ),
{
    lemma_finite_product(a, b);
    reveal(Binary32::product);
    lemma_pow2_pos(149);
    let ua = units(a.pattern());
    let ub = units(b.pattern());
    let p = ua * ub;
    lemma_units_nonnegative(a.pattern());
    lemma_units_nonnegative(b.pattern());
    assert(0 <= p) by (nonlinear_arith)
        requires
            p == ua * ub,
            0 <= ua,
            0 <= ub,
    ;
    let k = nearest(p, one());
    lemma_nearest_in_range(p, one());
    let sign = a.negative() != b.negative();
    lemma_signed(sign, k);
    lemma_nearest_error(p, one());
    lemma_units_nonnegative(k);
    let u = units(k);
    assert((-ua) * ub == -p && ua * (-ub) == -p && (-ua) * (-ub) == p) by (nonlinear_arith)
        requires
            p == ua * ub,
    ;
    assert((-u) * one() == -(u * one())) by (nonlinear_arith);
    assert(a.value() * b.value() == if sign {
        -p
    } else {
        p
    });
    assert(0 <= u * one()) by (nonlinear_arith)
        requires
            0 <= u,
            0 < one(),
    ;
}

/// A quotient is the exact quotient, rounded.
pub proof fn lemma_quotient_error(a: Binary32, b: Binary32)
    requires
        a.is_finite(),
        b.is_finite(),
        b.pattern() != 0,
        a.quotient(b).is_finite(),
    ensures
        is_close(
            a.quotient(b).value() * b.value(),
            a.value() * one(),
            2,
            0x100_0000 * magnitude(b.value()),
        ),
{
    reveal(Binary32::quotient);
    lemma_pow2_pos(149);
    let ua = units(a.pattern());
    let ub = units(b.pattern());
    let p = ua * one();
    lemma_units_nonnegative(a.pattern());
    lemma_units_nonnegative(b.pattern());
    assert(0 <= p) by (nonlinear_arith)
        requires
            p == ua * one(),
            0 <= ua,
            0 < one(),
    ;
    let k = nearest(p, ub);
    lemma_nearest_in_range(p, ub);
    let sign = a.negative() != b.negative();
    lemma_signed(sign, k);
    lemma_nearest_error(p, ub);
    lemma_units_nonnegative(k);
    let u = units(k);
    assert((-u) * ub == -(u * ub) && u * (-ub) == -(u * ub) && (-u) * (-ub) == u * ub)
        by (nonlinear_arith);
    assert((-ua) * one() == -p) by (nonlinear_arith)
        requires
            p == ua * one(),
    ;
    assert(0 <= u * ub) by (nonlinear_arith)
        requires
            0 <= u,
            0 <= ub,
    ;
}

/// The square of a root is the number, but for rounding.
pub proof fn lemma_root_error(a: Binary32)
    requires
        a.is_finite(),
        !a.negative(),
    ensures
        a.root().is_finite() ==> a.root().value() >= 0 && 0x40_0000 * magnitude(
            a.root().value() * a.root().value() - a.value() * one(),
        ) <= a.root().value() * a.root().value() + 0x100_0000 * a.root().value() + 0x100_0000,
{
    reveal(Binary32::root);
    lemma_pow2_pos(149);
    let u = units(a.pattern());
    lemma_units_nonnegative(a.pattern());
    if a.pattern() == 0 {
        assert(0 * one() == 0 && 0int * 0 == 0) by (nonlinear_arith);
    } else if a.root().is_finite() {
        let p = u * one();
        let k = nearest_root(p);
        lemma_nearest_root_in_range(p);
        lemma_signed(false, k);
        let v = units(k);
        lemma_units_nonnegative(k);
        lemma_step_size(k);
        lemma_units_step(k);
        let high = v + units(k + 1);
        assert(high * high <= 4 * (v * v) + 4 * (v * (high - 2 * v)) + (high - 2 * v) * (high - 2
            * v)) by (nonlinear_arith);
        let up = high - 2 * v;
        assert(0x40_0000 * (4 * (v * up) + up * up) <= 4 * (v * v) + 4 * (0x100_0000 * v)
            + 4 * 0x100_0000) by (nonlinear_arith)
            requires
                0x80_0000 * up <= v + 0x80_0000,
                0 <= up,
                0 <= v,
        ;
        if k > 0 {
            lemma_step_size(k - 1);
            lemma_units_step(k - 1);
            lemma_units_nonnegative(k - 1);
            let down = v - units(k - 1);
            let low = units(k - 1) + v;
            assert(low * low >= 4 * (v * v) - 4 * (v * down)) by (nonlinear_arith)
                requires
                    low == 2 * v - down,
            ;
            assert(0x40_0000 * (4 * (v * down)) <= 4 * (v * v) + 4 * (0x100_0000 * v))
                by (nonlinear_arith)
                requires
                    0x80_0000 * down <= v + 0x80_0000,
                    0 <= down,
                    0 <= v,
            ;
        } else {
            assert(v * v == 0) by (nonlinear_arith)
                requires
                    v == 0,
            ;
            assert(p >= 0) by (nonlinear_arith)
                requires
                    p == u * one(),
                    u >= 0,
                    one() > 0,
            ;
        }
    }
}

/// Closeness to what is close.
pub proof fn lemma_close_trans(a: int, b: int, c: int, r: int, s: int, r2: int, s2: int)
    requires
        is_close(a, b, r, s),
        is_close(b, c, r2, s2),
        0 <= r <= 0x1000,
        0 <= r2 <= 0x1000,
        0 <= s,
        0 <= s2,
    ensures
        is_close(a, c, r + r2 + 1, s + 2 * s2),
{
    let mb = magnitude(b);
    let mc = magnitude(c);
    let x = r2 * mc + s2;
    assert(0x100_0000 * mb <= 0x100_0000 * mc + x);
    assert(0x100_0000 * (r * mb) <= 0x100_0000 * (r * mc) + r * (r2 * mc) + r * s2)
        by (nonlinear_arith)
        requires
            0x100_0000 * mb <= 0x100_0000 * mc + x,
            x == r2 * mc + s2,
            0 <= r,
    ;
    assert(r * (r2 * mc) <= 0x100_0000 * mc) by (nonlinear_arith)
        requires
            0 <= r <= 0x1000,
            0 <= r2 <= 0x1000,
            0 <= mc,
    ;
    assert(r * s2 <= 0x100_0000 * s2) by (nonlinear_arith)
        requires
            0 <= r <= 0x1000,
            0 <= s2,
    ;
    assert((r + r2 + 1) * mc == r * mc + r2 * mc + mc) by (nonlinear_arith);
}

/// Closeness of multiples.
pub proof fn lemma_close_times(a: int, b: int, r: int, s: int, m: int)
    requires
        is_close(a, b, r, s),
    ensures
        is_close(a * m, b * m, r, s * magnitude(m)),
{
    let e = magnitude(a - b);
    let n = magnitude(m);
    assert(magnitude(a * m - b * m) == e * n) by (nonlinear_arith)
        requires
            e == magnitude(a - b),
            n == magnitude(m),
            magnitude(a * m - b * m) == if a * m - b * m < 0 {
                -(a * m - b * m)
            } else {
                a * m - b * m
            },
            e == if a - b < 0 {
                -(a - b)
            } else {
                a - b
            },
            n == if m < 0 {
                -m
            } else {
                m
            },
    ;
    lemma_magnitude_times(b, m);
    assert(0x100_0000 * (e * n) <= (r * magnitude(b)) * n + s * n) by (nonlinear_arith)
        requires
            0x100_0000 * e <= r * magnitude(b) + s,
            0 <= n,
    ;
    assert((r * magnitude(b)) * n == r * (magnitude(b) * n)) by (nonlinear_arith);
}

pub proof fn lemma_magnitude_times(a: int, b: int)
    ensures
        magnitude(a * b) == magnitude(a) * magnitude(b),
{
    assert(magnitude(a) * magnitude(b) == if a * b < 0 {
        -(a * b)
    } else {
        a * b
    }) by (nonlinear_arith)
        requires
            magnitude(a) == if a < 0 {
                -a
            } else {
                a
            },
            magnitude(b) == if b < 0 {
                -b
            } else {
                b
            },
    ;
}

/// Multiples that are close come from numbers that are.
pub proof fn lemma_close_divided(a: int, b: int, r: int, s: int, m: int)
    requires
        is_close(a * m, b * m, r, s * m),
        0 < m,
    ensures
        is_close(a, b, r, s),
{
    lemma_magnitude_times(a - b, m);
    lemma_magnitude_times(b, m);
    assert((a - b) * m == a * m - b * m) by (nonlinear_arith);
    let e = magnitude(a - b);
    let n = magnitude(b);
    assert(0x100_0000 * e <= r * n + s) by (nonlinear_arith)
        requires
            0x100_0000 * (e * m) <= r * (n * m) + s * m,
            0 < m,
    ;
}

/// The number of an integer is the integer, rounded.
pub proof fn lemma_of_int_error(n: int)
    requires
        of_int(n).is_finite(),
    ensures
        0x100_0000 * magnitude(of_int(n).value() - n * one()) <= magnitude(of_int(n).value()),
{
    lemma_pow2_pos(149);
    let p = magnitude(n) * one();
    assert(0 <= p) by (nonlinear_arith)
        requires
            p == magnitude(n) * one(),
            0 <= magnitude(n),
            0 < one(),
    ;
    lemma_nearest_in_range(p, 1);
    lemma_signed(n < 0, nearest(p, 1));
    lemma_nearest_units_error(p);
    lemma_units_nonnegative(nearest(p, 1));
    assert((-n) * one() == -(n * one())) by (nonlinear_arith);
}

/// Changing the sign, dropping it, and taking the larger of two numbers.
pub proof fn lemma_signs(a: Binary32, b: Binary32)
    requires
        a.is_finite(),
        b.is_finite(),
    ensures
        a.negated().value() == -a.value(),
        a.absolute().value() == magnitude(a.value()),
        a.larger(b).value() == if a.value() < b.value() {
            b.value()
        } else {
            a.value()
        },
{
    lemma_signed(!a.negative(), a.pattern());
    lemma_signed(false, a.pattern());
    lemma_units_nonnegative(a.pattern());
    lemma_rank_orders_values(a, b);
}

} // verus!
