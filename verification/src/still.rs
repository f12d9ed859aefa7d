//! Features on frames that show no motion.
use vstd::arithmetic::div_mod::{
    lemma_div_is_ordered, lemma_div_multiples_vanish, lemma_div_pos_is_pos,
    lemma_fundamental_div_mod, lemma_mod_bound,
};
use vstd::arithmetic::power2::{
    lemma2_to64, lemma_pow2_adds, lemma_pow2_pos, lemma_pow2_unfold, pow2,
};
use vstd::prelude::*;

use crate::binary32::{
    is_same_number, lemma_difference_bounded, lemma_difference_self, lemma_of_int_bounded,
    lemma_of_int_exact, lemma_of_int_number, lemma_power_units, lemma_product_bounded,
    lemma_product_zero, lemma_quotient_bounded, lemma_quotient_zero, lemma_rank_orders_values,
    lemma_signed, lemma_sum_absorbed, lemma_sum_bounded, lemma_sum_with_zero, lemma_sum_zero,
    magnitude, of_int, of_power, Binary32, SIGN,
};
use crate::feature::{is_unmoved, Feature};
use crate::grid::{lemma_place, Grid};
use crate::lk::{
    bilinear, displacement, gradient_numbers, gray_numbers, has_flow, hessian, inverse_2x2,
    is_in_bounds, is_within, lemma_level_within, level_flow, mismatch, moved, patch, refined,
    source_of, whole, window_area, window_offsets, zero, Source, DET_EPSILON,
};
use crate::pyramid::{halved_length, lemma_level_count, lemma_level_dimensions, level_of};
use crate::rounding::{
    lemma_nearest_exact, lemma_nearest_in_range, lemma_nearest_is, lemma_nearest_monotone,
    lemma_units_increase, lemma_units_nonnegative, lemma_units_step, nearest, units,
    INFINITY_PATTERN,
};
use crate::settings::Settings;

verus! {

/// A finite number whose magnitude is at most `2^e`.
pub open spec fn is_bounded(a: Binary32, e: nat) -> bool {
    a.is_finite() && magnitude(a.value()) <= pow2(149 + e)
}

/// A finite number from zero to `2^e`.
pub(crate) open spec fn is_from_zero(a: Binary32, e: nat) -> bool {
    is_bounded(a, e) && a.value() >= 0
}

pub(crate) proof fn lemma_bounded_wider(a: Binary32, e: nat, f: nat)
    requires
        is_bounded(a, e),
        e <= f,
    ensures
        is_bounded(a, f),
{
    if e < f {
        vstd::arithmetic::power2::lemma_pow2_strictly_increases(149 + e, 149 + f);
    }
}

/// Numbers of integers have the order of the integers.
proof fn lemma_of_int_monotone(n: int, m: int)
    requires
        magnitude(n) <= m < 0x1_0000_0000,
    ensures
        of_int(n).is_finite(),
        of_int(m).is_finite(),
        magnitude(of_int(n).value()) <= of_int(m).value(),
{
    lemma2_to64();
    lemma_of_int_bounded(n, 32);
    lemma_of_int_bounded(m, 32);
    lemma_of_int_number(n);
    lemma_of_int_number(m);
    lemma_pow2_pos(149);
    let p = magnitude(n) * pow2(149);
    let q = m * pow2(149);
    assert(0 <= p <= q) by (nonlinear_arith)
        requires
            p == magnitude(n) * pow2(149),
            q == m * pow2(149),
            0 <= magnitude(n) <= m,
            0 < pow2(149),
    ;
    lemma_nearest_monotone(p, q, 1);
    lemma_nearest_in_range(p, 1);
    lemma_nearest_in_range(q, 1);
    let j = nearest(p, 1);
    let k = nearest(q, 1);
    lemma_signed(n < 0, j);
    lemma_signed(m < 0, k);
    lemma_units_nonnegative(j);
    lemma_units_nonnegative(k);
    if j < k {
        lemma_units_increase(j, k);
    }
}

/// The pixels of a window inside an image have coordinates from zero to the
/// length of the image.
pub(crate) proof fn lemma_window_within(c: Binary32, length: int, radius: int, shift: int)
    requires
        is_within(c, length, radius),
        0 <= length <= 0x8000_0000,
        0 <= radius < 0x8000_0000,
        -radius <= shift <= radius,
    ensures
        c.is_finite(),
        is_from_zero(c.sum(of_int(shift)), 31),
{
    lemma2_to64();
    lemma_of_int_monotone(shift, radius);
    lemma_of_int_monotone(radius, radius);
    lemma_of_int_monotone(length, length);
    lemma_of_int_bounded(length, 31);
    let edge = of_int(radius);
    let end = of_int(length);
    let top = end.difference(edge);
    let n = end.value() - edge.value();
    lemma_signed(!edge.negative(), edge.pattern());
    reveal(Binary32::sum);
    lemma_of_int_number(radius);
    if n != 0 {
        lemma_nearest_in_range(magnitude(n), 1);
        lemma_signed(n < 0, nearest(magnitude(n), 1));
    }
    assert(c.rank() >= 0);
    assert(n > 0);
    let k = nearest(n, 1);
    assert(c.pattern() < k);
    assert((units(k - 1) + units(k)) * 1 == units(k - 1) + units(k));
    lemma_units_increase(k - 1, k);
    if c.pattern() < k - 1 {
        lemma_units_increase(c.pattern(), k - 1);
    }
    lemma_units_nonnegative(c.pattern());
    lemma_rank_orders_values(edge, c);
    lemma_sum_bounded(c, of_int(shift), 31);
}

/// A number of `2^23` or more is an integer.
proof fn lemma_large_is_whole(x: Binary32) -> (n: int)
    requires
        x.is_finite(),
        x.value() >= pow2(149 + 23),
    ensures
        x.value() == n * pow2(149),
        of_int(n) == x,
        n >= 0,
{
    let k = x.pattern();
    let edge: int = 150int * 0x80_0000;
    lemma_power_units(23);
    lemma_units_nonnegative(k);
    if k < edge {
        lemma_units_increase(k, edge);
    }
    let m = 0x80_0000 + k % 0x80_0000;
    let e = (k / 0x80_0000 - 1) as nat;
    let f = (e - 149) as nat;
    lemma_pow2_adds(f, 149);
    lemma_pow2_pos(f);
    let n = m * pow2(f);
    assert(m * pow2(e) == n * pow2(149)) by (nonlinear_arith)
        requires
            pow2(e) == pow2(f) * pow2(149),
            n == m * pow2(f),
    ;
    assert(n >= 0) by (nonlinear_arith)
        requires
            n == m * pow2(f),
            m >= 0,
    ;
    lemma_nearest_exact(k, 1);
    n
}

/// The largest 32-bit integer is rounded to `2^31`.
proof fn lemma_largest_integer()
    ensures
        of_int(i32::MAX as int).is_finite(),
        of_int(i32::MAX as int).value() == pow2(149 + 31),
{
    lemma2_to64();
    lemma_power_units(31);
    lemma_pow2_adds(31, 149);
    lemma_pow2_adds(7, 149);
    lemma_pow2_pos(149);
    let one = pow2(149) as int;
    let k: int = 158int * 0x80_0000;
    let p = 0x7fff_ffff * one;
    lemma_units_step(k);
    lemma_units_step(k - 1);
    assert((k - 1) / 0x80_0000 == 157);
    assert(units(k) == 0x8000_0000 * one);
    assert(units(k - 1) == units(k) - 0x80 * one);
    lemma_nearest_is(k, p, 1);
    lemma_signed(false, k);
}

/// The weights of an interpolation are from zero to one.
pub(crate) proof fn lemma_weights(x: Binary32)
    requires
        is_from_zero(x, 31),
    ensures
        is_from_zero(x.difference(of_int(whole(x))), 0),
        is_from_zero(of_int(1).difference(x.difference(of_int(whole(x)))), 0),
{
    lemma2_to64();
    let u = x.value();
    let one = pow2(149) as int;
    let f = u / one;
    lemma_pow2_pos(149);
    lemma_pow2_adds(31, 149);
    lemma_pow2_adds(23, 149);
    lemma_fundamental_div_mod(u, one);
    lemma_mod_bound(u, one);
    lemma_div_pos_is_pos(u, one);
    let x0 = whole(x);
    let dx = x.difference(of_int(x0));
    if u < pow2(149 + 23) {
        assert(f < 0x80_0000) by (nonlinear_arith)
            requires
                u == one * f + u % one,
                0 <= u % one,
                u < 0x80_0000 * one,
                one > 0,
        ;
        lemma_of_int_exact(f);
        assert(f * one == one * f) by (nonlinear_arith);
        lemma_difference_bounded(x, of_int(f), 0);
    } else {
        let n = lemma_large_is_whole(x);
        lemma_div_multiples_vanish(n, one);
        assert(n * one == one * n) by (nonlinear_arith);
        assert(f == n);
        assert(n <= 0x8000_0000) by (nonlinear_arith)
            requires
                n * one <= 0x8000_0000 * one,
                one > 0,
        ;
        if n == 0x8000_0000 {
            lemma_largest_integer();
            assert(of_int(x0).value() == u);
        } else {
            assert(of_int(x0) == x);
        }
        lemma_difference_bounded(x, of_int(x0), 0);
    }
    lemma_of_int_exact(1);
    assert(1 * one == one) by (nonlinear_arith);
    lemma_difference_bounded(of_int(1), dx, 0);
}

/// Samples of up to 16 bits.
pub(crate) open spec fn are_samples(numbers: spec_fn(int, int) -> Binary32) -> bool {
    forall|x: int, y: int| is_bounded(#[trigger] numbers(x, y), 15)
}

pub(crate) proof fn lemma_gray_samples(g: Grid<u8>)
    ensures
        are_samples(gray_numbers(g)),
{
    lemma2_to64();
    assert forall|x: int, y: int| is_bounded(#[trigger] gray_numbers(g)(x, y), 15) by {
        match g.tap(x, y) {
            Some(v) => lemma_of_int_bounded(v as int, 15),
            None => {},
        }
    }
}

proof fn lemma_gradient_samples(g: Grid<i16>)
    ensures
        are_samples(gradient_numbers(g)),
{
    lemma2_to64();
    assert forall|x: int, y: int| is_bounded(#[trigger] gradient_numbers(g)(x, y), 15) by {
        match g.tap(x, y) {
            Some(v) => lemma_of_int_bounded(v as int, 15),
            None => {},
        }
    }
}

proof fn lemma_term(n: Binary32, wx: Binary32, wy: Binary32)
    requires
        is_bounded(n, 15),
        is_bounded(wx, 0),
        is_bounded(wy, 0),
    ensures
        is_bounded(n.product(wx).product(wy), 15),
{
    lemma_product_bounded(n, wx, 15, 0);
    lemma_product_bounded(n.product(wx), wy, 15, 0);
}

pub(crate) proof fn lemma_sum_wider(a: Binary32, b: Binary32, e: nat)
    requires
        is_bounded(a, e),
        is_bounded(b, e),
        e < 120,
    ensures
        is_bounded(a.sum(b), e + 1),
{
    lemma_pow2_unfold((149 + e + 1) as nat);
    lemma_sum_bounded(a, b, e + 1);
}

/// What is interpolated between samples inside an image is finite.
pub(crate) proof fn lemma_bilinear_bounded(
    numbers: spec_fn(int, int) -> Binary32,
    x: Binary32,
    y: Binary32,
)
    requires
        are_samples(numbers),
        is_from_zero(x, 31),
        is_from_zero(y, 31),
    ensures
        is_bounded(bilinear(numbers, x, y), 19),
{
    reveal(bilinear);
    lemma_weights(x);
    lemma_weights(y);
    let x0 = whole(x);
    let y0 = whole(y);
    let dx = x.difference(of_int(x0));
    let dy = y.difference(of_int(y0));
    let dx1 = of_int(1).difference(dx);
    let dy1 = of_int(1).difference(dy);
    let t0 = numbers(x0, y0).product(dx1).product(dy1);
    let t1 = numbers(x0, y0 + 1).product(dx1).product(dy);
    let t2 = numbers(x0 + 1, y0).product(dx).product(dy1);
    let t3 = numbers(x0 + 1, y0 + 1).product(dx).product(dy);
    lemma_term(numbers(x0, y0), dx1, dy1);
    lemma_term(numbers(x0, y0 + 1), dx1, dy);
    lemma_term(numbers(x0 + 1, y0), dx, dy1);
    lemma_term(numbers(x0 + 1, y0 + 1), dx, dy);
    lemma_pow2_pos(149 + 15);
    assert(is_bounded(zero(), 15));
    lemma_sum_wider(zero(), t0, 15);
    lemma_bounded_wider(t1, 15, 16);
    lemma_sum_wider(zero().sum(t0), t1, 16);
    lemma_bounded_wider(t2, 15, 17);
    lemma_sum_wider(zero().sum(t0).sum(t1), t2, 17);
    lemma_bounded_wider(t3, 15, 18);
    lemma_sum_wider(zero().sum(t0).sum(t1).sum(t2), t3, 18);
}

/// Value and derivatives at a pixel of a window inside an image are finite.
pub(crate) proof fn lemma_patch_bounded(prev: Source, x: Binary32, y: Binary32, radius: int, k: int)
    requires
        is_in_bounds(prev.image, x, y, radius),
        0 <= prev.image.width <= 0x8000_0000,
        0 <= prev.image.height <= 0x8000_0000,
        0 <= radius < 0x8000_0000,
        0 <= k < window_area(radius),
    ensures
        x.is_finite(),
        y.is_finite(),
        patch(prev, x, y, radius, k).value.is_finite(),
        is_bounded(patch(prev, x, y, radius, k).ix, 14),
        is_bounded(patch(prev, x, y, radius, k).iy, 14),
{
    lemma2_to64();
    let side = 2 * radius + 1;
    assert(side * side == window_area(radius));
    lemma_place(side, side, k);
    lemma_window_within(x, prev.image.width, radius, k % side - radius);
    lemma_window_within(y, prev.image.height, radius, k / side - radius);
    let sx = x.sum(window_offsets(radius)[k].0);
    let sy = y.sum(window_offsets(radius)[k].1);
    lemma_gray_samples(prev.image);
    lemma_gradient_samples(prev.grad_x);
    lemma_gradient_samples(prev.grad_y);
    lemma_bilinear_bounded(gray_numbers(prev.image), sx, sy);
    lemma_bilinear_bounded(gradient_numbers(prev.grad_x), sx, sy);
    lemma_bilinear_bounded(gradient_numbers(prev.grad_y), sx, sy);
    lemma_of_int_exact(32);
    lemma_pow2_adds(5, 149);
    assert(32 * pow2(149) == pow2(154));
    lemma_quotient_bounded(bilinear(gradient_numbers(prev.grad_x), sx, sy), of_int(32), 154, 14);
    lemma_quotient_bounded(bilinear(gradient_numbers(prev.grad_y), sx, sy), of_int(32), 154, 14);
}

/// However large the window, the components of its matrix are bounded.
pub(crate) proof fn lemma_hessian_bounded(
    prev: Source,
    x: Binary32,
    y: Binary32,
    radius: int,
    n: int,
)
    requires
        is_in_bounds(prev.image, x, y, radius),
        0 <= prev.image.width <= 0x8000_0000,
        0 <= prev.image.height <= 0x8000_0000,
        0 <= radius < 0x8000_0000,
        0 <= n <= window_area(radius),
    ensures
        is_bounded(hessian(prev, x, y, radius, n).0, 53),
        is_bounded(hessian(prev, x, y, radius, n).1, 53),
        is_bounded(hessian(prev, x, y, radius, n).2, 53),
    decreases n,
{
    if n > 0 {
        lemma_hessian_bounded(prev, x, y, radius, n - 1);
        lemma_patch_bounded(prev, x, y, radius, n - 1);
        let before = hessian(prev, x, y, radius, n - 1);
        let p = patch(prev, x, y, radius, n - 1);
        lemma_product_bounded(p.ix, p.ix, 14, 14);
        lemma_product_bounded(p.ix, p.iy, 14, 14);
        lemma_product_bounded(p.iy, p.iy, 14, 14);
        lemma_sum_absorbed(before.0, p.ix.product(p.ix), 53);
        lemma_sum_absorbed(before.1, p.ix.product(p.iy), 53);
        lemma_sum_absorbed(before.2, p.iy.product(p.iy), 53);
    } else {
        lemma_pow2_pos(149 + 53);
    }
}

/// The inverse of a matrix of bounded numbers is finite.
pub(crate) proof fn lemma_inverse_finite(a00: Binary32, a01: Binary32, a11: Binary32)
    requires
        is_bounded(a00, 53),
        is_bounded(a01, 53),
        is_bounded(a11, 53),
    ensures
        inverse_2x2(a00, a01, a11, Binary32 { bits: DET_EPSILON }) matches Some(inverse) ==> {
            &&& inverse.0.is_finite()
            &&& inverse.1.is_finite()
            &&& inverse.2.is_finite()
        },
{
    lemma2_to64();
    let epsilon = Binary32 { bits: DET_EPSILON };
    let a = a00.product(a11);
    let b = a01.product(a01);
    lemma_product_bounded(a00, a11, 53, 53);
    lemma_product_bounded(a01, a01, 53, 53);
    lemma_pow2_unfold(149 + 107);
    lemma_difference_bounded(a, b, 107);
    let det = a.difference(b);
    lemma_signed(false, det.pattern());
    if !det.absolute().is_at_most(epsilon) {
        let low: int = 107int * 0x80_0000;
        assert(det.pattern() > low);
        lemma_units_increase(low, det.pattern());
        lemma_pow2_adds(23, 106);
        assert(units(low) == pow2(129)) by {
            assert(low / 0x80_0000 == 107);
            assert(low % 0x80_0000 == 0);
        }
        lemma_of_int_exact(1);
        assert(1 * pow2(149) == pow2(149)) by (nonlinear_arith);
        lemma_quotient_bounded(of_int(1), det, 129, 20);
        let inv_det = of_int(1).quotient(det);
        lemma_signed(!a01.negative(), a01.pattern());
        lemma_product_bounded(a11, inv_det, 53, 20);
        lemma_product_bounded(a01.negated(), inv_det, 53, 20);
        lemma_product_bounded(a00, inv_det, 53, 20);
    }
}

/// Adding zero first changes no sum with the number of an integer.
proof fn lemma_shift_from_zero(c: Binary32, shift: int)
    requires
        c.is_finite(),
        -0x1_0000_0000 < shift < 0x1_0000_0000,
    ensures
        c.sum(zero()).sum(of_int(shift)) == c.sum(of_int(shift)),
{
    reveal(Binary32::sum);
    lemma_sum_with_zero(c);
    lemma_of_int_number(shift);
    if shift < 0 {
        lemma_of_int_monotone(1, -shift);
        lemma_of_int_exact(1);
        lemma_pow2_pos(149);
        let m = (-shift) * pow2(149);
        assert(0 <= m) by (nonlinear_arith)
            requires
                m == (-shift) * pow2(149),
                shift < 0,
        ;
        lemma_nearest_in_range(m, 1);
        lemma_signed(true, nearest(m, 1));
        lemma_signed(false, nearest(m, 1));
        assert(of_int(shift).pattern() != 0);
        lemma_units_nonnegative(of_int(shift).pattern());
    }
}

/// A window that has not moved matches.
proof fn lemma_no_mismatch(g: Grid<u8>, x: Binary32, y: Binary32, radius: int, n: int)
    requires
        is_in_bounds(g, x, y, radius),
        0 <= g.width <= 0x8000_0000,
        0 <= g.height <= 0x8000_0000,
        0 <= radius < 0x8000_0000,
        0 <= n <= window_area(radius),
    ensures
        mismatch(source_of(g), g, x, y, x.sum(zero()), y.sum(zero()), radius, n) == (
            zero(),
            zero(),
        ),
    decreases n,
{
    if n > 0 {
        let prev = source_of(g);
        let side = 2 * radius + 1;
        let k = n - 1;
        lemma_no_mismatch(g, x, y, radius, n - 1);
        lemma_patch_bounded(prev, x, y, radius, k);
        assert(side * side == window_area(radius));
        lemma_place(side, side, k);
        lemma_shift_from_zero(x, k % side - radius);
        lemma_shift_from_zero(y, k / side - radius);
        let p = patch(prev, x, y, radius, k);
        lemma_difference_self(p.value);
        lemma_product_zero(p.ix, zero());
        lemma_product_zero(p.iy, zero());
        lemma_sum_zero(zero(), p.ix.product(zero()));
        lemma_sum_zero(zero(), p.iy.product(zero()));
    }
}

/// Refinement that starts from no displacement in the image itself ends there.
proof fn lemma_refined_still(
    g: Grid<u8>,
    x: Binary32,
    y: Binary32,
    radius: int,
    inverse: (Binary32, Binary32, Binary32),
    iterations: int,
)
    requires
        is_in_bounds(g, x, y, radius),
        0 <= g.width <= 0x8000_0000,
        0 <= g.height <= 0x8000_0000,
        0 <= radius < 0x8000_0000,
        inverse.0.is_finite(),
        inverse.1.is_finite(),
        inverse.2.is_finite(),
    ensures
        refined(source_of(g), g, x, y, radius, inverse, (zero(), zero()), iterations) == (
            zero(),
            zero(),
        ),
{
    assert(window_area(radius) >= 0) by (nonlinear_arith)
        requires
            radius >= 0,
            window_area(radius) == (2 * radius + 1) * (2 * radius + 1),
    ;
    lemma_no_mismatch(g, x, y, radius, window_area(radius));
    lemma_product_zero(inverse.0, zero());
    lemma_product_zero(inverse.1, zero());
    lemma_product_zero(inverse.2, zero());
    let a = inverse.0.product(zero());
    let b = inverse.1.product(zero());
    let c = inverse.2.product(zero());
    lemma_sum_zero(a, b);
    lemma_sum_zero(b, c);
    lemma_sum_zero(zero(), a.sum(b));
    lemma_sum_zero(zero(), b.sum(c));
    lemma_signed(false, 0);
}

/// No displacement is none at any scale.
pub(crate) proof fn lemma_zero_scaled(level: nat)
    requires
        level < 128,
    ensures
        zero().quotient(of_power(level)) == zero(),
        zero().product(of_power(level)) == zero(),
{
    lemma_quotient_zero(zero(), of_power(level));
    lemma_product_zero(zero(), of_power(level));
}

/// No displacement is found at a level whose two images are the same.
proof fn lemma_level_still(
    g: Grid<u8>,
    level: nat,
    radius: int,
    iterations: int,
    position: (Binary32, Binary32),
)
    requires
        level < 128,
        0 <= g.width <= 0x8000_0000,
        0 <= g.height <= 0x8000_0000,
        0 <= radius < 0x8000_0000,
    ensures
        level_flow(
            source_of(g),
            g,
            of_power(level),
            radius,
            iterations,
            position,
            (zero(), zero()),
        ) matches Some(d) ==> d == (zero(), zero()),
{
    let scale = of_power(level);
    let x = position.0.quotient(scale);
    let y = position.1.quotient(scale);
    lemma_zero_scaled(level);
    if is_in_bounds(g, x, y, radius) {
        let area = window_area(radius);
        assert(area >= 0) by (nonlinear_arith)
            requires
                radius >= 0,
                area == (2 * radius + 1) * (2 * radius + 1),
        ;
        lemma_hessian_bounded(source_of(g), x, y, radius, area);
        let h = hessian(source_of(g), x, y, radius, area);
        lemma_inverse_finite(h.0, h.1, h.2);
        if let Some(inverse) = inverse_2x2(h.0, h.1, h.2, Binary32 { bits: DET_EPSILON }) {
            lemma_refined_still(g, x, y, radius, inverse, iterations);
        }
    }
}

proof fn lemma_displacement_still(
    levels: Seq<Grid<u8>>,
    radius: int,
    iterations: int,
    position: (Binary32, Binary32),
    level: int,
)
    requires
        0 <= level <= levels.len() <= 128,
        forall|l: int|
            0 <= l < levels.len() ==> 0 <= (#[trigger] levels[l]).width <= 0x8000_0000 && 0
                <= levels[l].height <= 0x8000_0000,
        0 <= radius < 0x8000_0000,
    ensures
        displacement(levels, levels, radius, iterations, position, level) == (zero(), zero()),
    decreases levels.len() - level,
{
    if level < levels.len() {
        lemma_displacement_still(levels, radius, iterations, position, level + 1);
        lemma_level_still(levels[level], level as nat, radius, iterations, position);
    }
}

/// Between two frames that are the same no feature moves.
///
/// The interpolation counts pixels up to `2^31`, and the scale of a level is
/// finite up to the 128th.
pub proof fn lemma_still(
    levels: Seq<Grid<u8>>,
    radius: int,
    iterations: int,
    f: Feature,
)
    requires
        levels.len() <= 128,
        forall|l: int|
            0 <= l < levels.len() ==> 0 <= (#[trigger] levels[l]).width <= 0x8000_0000 && 0
                <= levels[l].height <= 0x8000_0000,
        0 <= radius < 0x8000_0000,
    ensures
        is_unmoved(f, moved(levels, levels, radius, iterations, f)),
{
    lemma_displacement_still(levels, radius, iterations, (f.x, f.y), 0);
    lemma_sum_with_zero(f.x);
    lemma_sum_with_zero(f.y);
}

/// Two coordinates with the same sum with every offset of a window.
spec fn is_same_centre(a: Binary32, b: Binary32, radius: int) -> bool {
    forall|shift: int|
        -radius <= shift <= radius ==> a.sum(#[trigger] of_int(shift)) == b.sum(of_int(shift))
}

/// The same pixels of a window give the same matrix.
proof fn lemma_hessian_alike(
    prev: Source,
    x: Binary32,
    y: Binary32,
    x2: Binary32,
    y2: Binary32,
    radius: int,
    n: int,
)
    requires
        is_same_centre(x, x2, radius),
        is_same_centre(y, y2, radius),
        0 <= radius,
        0 <= n <= window_area(radius),
    ensures
        hessian(prev, x, y, radius, n) == hessian(prev, x2, y2, radius, n),
    decreases n,
{
    if n > 0 {
        let side = 2 * radius + 1;
        let k = n - 1;
        assert(side * side == window_area(radius));
        lemma_place(side, side, k);
        lemma_hessian_alike(prev, x, y, x2, y2, radius, n - 1);
        assert(x.sum(of_int(k % side - radius)) == x2.sum(of_int(k % side - radius)));
        assert(y.sum(of_int(k / side - radius)) == y2.sum(of_int(k / side - radius)));
    }
}

/// A coordinate that was kept has the same place at a scale.
proof fn lemma_scaled_alike(a: Binary32, b: Binary32, level: nat, radius: int)
    requires
        is_same_number(a, b),
        !a.is_nan(),
        level < 128,
        0 <= radius < 0x8000_0000,
    ensures
        ({
            let scale = of_power(level);
            &&& is_same_centre(a.quotient(scale), b.quotient(scale), radius)
            &&& forall|length: int|
                is_within(a.quotient(scale), length, radius) == #[trigger] is_within(
                    b.quotient(scale),
                    length,
                    radius,
                )
        }),
{
    let scale = of_power(level);
    let p = a.quotient(scale);
    let q = b.quotient(scale);
    if a.bits == SIGN {
        lemma_quotient_zero(a, scale);
        lemma_quotient_zero(b, scale);
        lemma_sum_zero(p, zero());
        assert(p.sum(zero()) == q || p == q);
        assert forall|shift: int| -radius <= shift <= radius implies p.sum(
            #[trigger] of_int(shift),
        ) == q.sum(of_int(shift)) by {
            lemma_shift_from_zero(p, shift);
        }
    }
}

/// A feature with a flow estimate has finite coordinates.
proof fn lemma_flow_finite(
    prev: Seq<Grid<u8>>,
    curr: Seq<Grid<u8>>,
    radius: int,
    iterations: int,
    position: (Binary32, Binary32),
)
    requires
        has_flow(prev, curr, radius, iterations, position),
        0 < prev.len() <= 128,
        0 <= prev.last().width <= 0x8000_0000,
        0 <= prev.last().height <= 0x8000_0000,
        0 <= radius < 0x8000_0000,
    ensures
        position.0.is_finite(),
        position.1.is_finite(),
{
    let scale = of_power((prev.len() - 1) as nat);
    lemma_window_within(position.0.quotient(scale), prev.last().width, radius, 0);
    lemma_window_within(position.1.quotient(scale), prev.last().height, radius, 0);
    reveal(Binary32::quotient);
    lemma_signed(position.0.negative() != scale.negative(), INFINITY_PATTERN as int);
    lemma_signed(position.1.negative() != scale.negative(), INFINITY_PATTERN as int);
}

/// A feature that was kept still has a flow estimate.
proof fn lemma_flow_alike(
    prev: Seq<Grid<u8>>,
    curr: Seq<Grid<u8>>,
    radius: int,
    iterations: int,
    from: (Binary32, Binary32),
    to: (Binary32, Binary32),
)
    requires
        has_flow(prev, curr, radius, iterations, from),
        0 < prev.len() <= 128,
        is_same_number(from.0, to.0),
        is_same_number(from.1, to.1),
        !from.0.is_nan(),
        !from.1.is_nan(),
        0 <= radius < 0x8000_0000,
    ensures
        has_flow(prev, curr, radius, iterations, to),
{
    let level = (prev.len() - 1) as nat;
    let scale = of_power(level);
    let g = prev.last();
    let area = window_area(radius);
    assert(area >= 0) by (nonlinear_arith)
        requires
            radius >= 0,
            area == (2 * radius + 1) * (2 * radius + 1),
    ;
    lemma_scaled_alike(from.0, to.0, level, radius);
    lemma_scaled_alike(from.1, to.1, level, radius);
    assert(is_within(to.0.quotient(scale), g.width, radius));
    assert(is_within(to.1.quotient(scale), g.height, radius));
    lemma_hessian_alike(
        source_of(g),
        from.0.quotient(scale),
        from.1.quotient(scale),
        to.0.quotient(scale),
        to.1.quotient(scale),
        radius,
        area,
    );
}

/// What a kept number differs by is zero.
proof fn lemma_difference_kept(from: Binary32, to: Binary32)
    requires
        from.is_finite(),
        is_same_number(from, to),
    ensures
        to.difference(from) == zero(),
{
    if from.bits == SIGN {
        lemma_signed(!from.negative(), from.pattern());
        lemma_sum_zero(to, from.negated());
    } else {
        lemma_difference_self(from);
    }
}

/// Between two frames of a pipeline that are the same a feature with a flow
/// estimate has one on the way back too, and comes back to where it was.
pub proof fn lemma_frame_still_round_trip(settings: Settings, levels: Seq<Grid<u8>>, f: Feature)
    requires
        settings.is_buildable(),
        settings.width <= 0x8000_0000,
        settings.height <= 0x8000_0000,
        settings.is_frame(levels),
        has_flow(
            levels,
            levels,
            settings.radius(),
            settings.max_iterations as int,
            (f.x, f.y),
        ),
    ensures
        ({
            let radius = settings.radius();
            let iterations = settings.max_iterations as int;
            let there = moved(levels, levels, radius, iterations, f);
            let back = moved(levels, levels, radius, iterations, there);
            &&& has_flow(levels, levels, radius, iterations, (there.x, there.y))
            &&& back.x.difference(f.x) == zero()
            &&& back.y.difference(f.y) == zero()
        }),
{
    let radius = settings.radius();
    let iterations = settings.max_iterations as int;
    let there = moved(levels, levels, radius, iterations, f);
    let back = moved(levels, levels, radius, iterations, there);
    lemma_frame_limits(settings, levels);
    lemma_flow_finite(levels, levels, radius, iterations, (f.x, f.y));
    lemma_frame_still(settings, levels, f);
    lemma_frame_still(settings, levels, there);
    lemma_flow_alike(levels, levels, radius, iterations, (f.x, f.y), (there.x, there.y));
    lemma_difference_kept(f.x, back.x);
    lemma_difference_kept(f.y, back.y);
}

/// The pyramid of a frame has few levels, none larger than the frame, and the
/// window a moderate size.
proof fn lemma_frame_limits(settings: Settings, levels: Seq<Grid<u8>>)
    requires
        settings.is_buildable(),
        settings.width <= 0x8000_0000,
        settings.height <= 0x8000_0000,
        settings.is_frame(levels),
    ensures
        levels.len() <= 32,
        forall|l: int|
            0 <= l < levels.len() ==> 0 <= (#[trigger] levels[l]).width <= 0x8000_0000 && 0
                <= levels[l].height <= 0x8000_0000,
        0 <= settings.radius() < 0x8000_0000,
{
    lemma2_to64();
    let width = settings.width as int;
    let height = settings.height as int;
    let side = settings.window_size as int;
    lemma_level_count(width, height, settings.pyramid_levels as nat);
    assert(levels.len() <= 32) by {
        if levels.len() > 32 {
            assert(halved_length(width, 32int as nat) >= 2);
            lemma_div_is_ordered(width, 0xffff_ffff, 0x1_0000_0000);
        }
    }
    assert forall|l: int| 0 <= l < levels.len() implies 0 <= (#[trigger] levels[l]).width
        <= 0x8000_0000 && 0 <= levels[l].height <= 0x8000_0000 by {
        lemma_level_dimensions(levels[0], l as nat);
        lemma_level_within(settings.width, settings.height, l as nat);
        assert(levels[l] == level_of(levels[0], l as nat));
    }
    assert(side < 0x1_0000_0000) by (nonlinear_arith)
        requires
            8 * (side * side) <= isize::MAX,
            isize::MAX <= 0x7fff_ffff_ffff_ffff,
            0 <= side,
    ;
}

/// Between two frames of a pipeline that are the same no feature moves.
pub proof fn lemma_frame_still(settings: Settings, levels: Seq<Grid<u8>>, f: Feature)
    requires
        settings.is_buildable(),
        settings.width <= 0x8000_0000,
        settings.height <= 0x8000_0000,
        settings.is_frame(levels),
    ensures
        is_unmoved(
            f,
            moved(levels, levels, settings.radius(), settings.max_iterations as int, f),
        ),
{
    lemma_frame_limits(settings, levels);
    lemma_still(levels, settings.radius(), settings.max_iterations as int, f);
}

} // verus!
