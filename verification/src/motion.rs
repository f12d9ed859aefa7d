//! Which way features move, and how far.
use vstd::arithmetic::div_mod::{lemma_fundamental_div_mod, lemma_mod_bound};
use vstd::arithmetic::power2::{
    lemma2_to64, lemma_pow2_adds, lemma_pow2_pos, lemma_pow2_strictly_increases, lemma_pow2_unfold,
    pow2,
};
use vstd::prelude::*;

use crate::binary32::{
    is_same_number, lemma_difference_bounded, lemma_difference_self, lemma_of_int_exact,
    lemma_of_int_number, lemma_power_units, lemma_product_bounded, lemma_product_zero,
    lemma_rank_orders_values, lemma_signed, lemma_sum_absorbed, lemma_sum_with_zero,
    lemma_sum_zero, magnitude, nan, of_int, of_power, Binary32,
};
use crate::feature::Feature;
use crate::grid::{lemma_index, lemma_place, lemma_tap_exact, Grid};
use crate::lk::{
    bilinear, displacement, flow_point, flow_status, gradient_numbers, gray_numbers, has_flow,
    hessian, inverse_2x2, is_in_bounds, is_within, level_flow, mismatch, moved_all, patch, refined,
    source_of, whole, window_area, window_offsets, zero, Source, DET_EPSILON, STEP_EPSILON,
};
use crate::precision::{
    is_close, lemma_close_divided, lemma_close_times, lemma_close_trans, lemma_difference_error,
    lemma_finite_product, lemma_finite_sum, lemma_magnitude_times, lemma_product_error,
    lemma_quotient_error, lemma_sum_error, one,
};
use crate::rounding::{
    lemma_nearest_exact, lemma_nearest_in_range, lemma_units_increase, lemma_units_nonnegative,
    nearest, units, INFINITY_PATTERN,
};
use crate::still::{
    is_bounded, lemma_bilinear_bounded, lemma_gray_samples, lemma_hessian_bounded,
    lemma_inverse_finite, lemma_patch_bounded, lemma_weights, lemma_window_within,
    lemma_zero_scaled,
};
use crate::utils::fast_gradients::{gradient_x, gradient_y, lemma_gradients_of_ramp};

verus! {

/// Every pixel of a window has a place among its offsets.
pub proof fn lemma_window_covers(radius: int, i: int, j: int) -> (k: int)
    requires
        -radius <= i <= radius,
        -radius <= j <= radius,
    ensures
        window_offsets(radius).len() == (2 * radius + 1) * (2 * radius + 1),
        0 <= k < window_offsets(radius).len(),
        window_offsets(radius)[k] == (of_int(i), of_int(j)),
{
    let side = 2 * radius + 1;
    let k = (j + radius) * side + (i + radius);
    lemma_index(side, side, i + radius, j + radius);
    k
}

/// Every offset of a window is that of one of its pixels, and of one only.
pub proof fn lemma_window_pixel(radius: int, k: int) -> (pixel: (int, int))
    requires
        0 <= radius,
        0 <= k < window_offsets(radius).len(),
    ensures
        -radius <= pixel.0 <= radius,
        -radius <= pixel.1 <= radius,
        window_offsets(radius)[k] == (of_int(pixel.0), of_int(pixel.1)),
        k == (pixel.1 + radius) * (2 * radius + 1) + (pixel.0 + radius),
{
    let side = 2 * radius + 1;
    assert(side * side == window_area(radius));
    assert(side * side >= 0) by (nonlinear_arith);
    lemma_place(side, side, k);
    (k % side - radius, k / side - radius)
}

/// The difference of two whole numbers is whole.
proof fn lemma_whole_difference(a: int, b: int)
    requires
        0 <= a < 0x100_0000,
        0 <= b < 0x100_0000,
    ensures
        of_int(a).difference(of_int(b)).is_finite(),
        of_int(a).difference(of_int(b)).value() == (a - b) * one(),
{
    lemma_of_int_exact(a);
    lemma_of_int_exact(b);
    lemma_of_int_exact(a - b);
    lemma_signed(!of_int(b).negative(), of_int(b).pattern());
    reveal(Binary32::sum);
    let n = (a - b) * one();
    assert(a * one() - b * one() == n) by (nonlinear_arith)
        requires
            n == (a - b) * one(),
    ;
    let w = of_int(a - b);
    lemma_nearest_exact(w.pattern(), 1);
    lemma_units_nonnegative(w.pattern());
    lemma_signed(n < 0, w.pattern());
    lemma_signed(of_int(a).negative() && of_int(b).negated().negative(), 0);
}

/// A window stays inside where its centre is at least the radius from the
/// first pixel and from the end.
pub proof fn lemma_within_exactly(c: Binary32, length: int, radius: int)
    requires
        0 <= length < 0x100_0000,
        0 <= radius < 0x100_0000,
    ensures
        is_within(c, length, radius) <==> c.is_finite() && radius * one() <= c.value() && c.value()
            < (length - radius) * one(),
{
    lemma_whole_difference(length, radius);
    lemma_of_int_exact(radius);
    let top = of_int(length).difference(of_int(radius));
    if c.is_finite() {
        lemma_rank_orders_values(of_int(radius), c);
        lemma_rank_orders_values(c, top);
    }
}

/// The integer below a coordinate.
pub proof fn lemma_whole(x: Binary32)
    requires
        x.is_finite(),
        -0x8000_0000 * one() <= x.value() < 0x8000_0000 * one(),
    ensures
        whole(x) * one() <= x.value() < (whole(x) + 1) * one(),
{
    lemma_pow2_pos(149);
    let u = x.value();
    lemma_fundamental_div_mod(u, one());
    lemma_mod_bound(u, one());
    let f = u / one();
    assert(-0x8000_0000 <= f < 0x8000_0000) by (nonlinear_arith)
        requires
            u == one() * f + u % one(),
            0 <= u % one() < one(),
            -0x8000_0000 * one() <= u < 0x8000_0000 * one(),
    ;
    assert(f * one() == one() * f && (f + 1) * one() == one() * f + one()) by (nonlinear_arith);
}

/// One corner of an interpolation, with its weights.
proof fn lemma_tap(
    t: Binary32,
    w: Binary32,
    v: Binary32,
    wx: int,
    wy: int,
    most: int,
)
    requires
        t.is_finite(),
        magnitude(t.value()) <= most,
        one() <= most,
        t.product(w).product(v).is_finite(),
        0 <= w.value() <= one(),
        0 <= v.value() <= one(),
        0 <= wy <= one(),
        0x100_0000 * magnitude(w.value() - wx) <= 2 * one(),
        0x100_0000 * magnitude(v.value() - wy) <= 2 * one(),
    ensures
        0x100_0000 * magnitude(
            t.product(w).product(v).value() * (one() * one()) - t.value() * (wx * wy),
        ) <= 14 * (most * (one() * one())),
        magnitude(t.product(w).product(v).value()) <= 3 * most,
{
    lemma_pow2_pos(149);
    lemma2_to64();
    lemma_pow2_adds(24, 125);
    lemma_pow2_pos(125);
    let o = one();
    assert(0x100_0000 <= o) by (nonlinear_arith)
        requires
            o == pow2(24) * pow2(125),
            pow2(24) == 0x100_0000,
            pow2(125) >= 1,
    ;
    let p = t.product(w);
    let r = p.product(v);
    lemma_finite_product(p, v);
    lemma_product_error(t, w);
    lemma_product_error(p, v);
    let tv = t.value();
    let wv = w.value();
    let vv = v.value();
    let pv = p.value();
    let rv = r.value();
    lemma_magnitude_times(tv, wv);
    lemma_magnitude_times(pv, vv);
    let mt = magnitude(tv);
    assert(mt * wv <= most * o) by (nonlinear_arith)
        requires
            0 <= mt <= most,
            0 <= wv <= o,
    ;
    assert(0x100_0000 * o <= most * o) by (nonlinear_arith)
        requires
            0x100_0000 <= most,
            0 < o,
    ;
    // The first product.
    let a = pv * o - tv * wv;
    assert(0x100_0000 * magnitude(a) <= 3 * (most * o));
    let b = tv * (wv - wx);
    lemma_magnitude_times(tv, wv - wx);
    assert(0x100_0000 * magnitude(b) <= 2 * (most * o)) by (nonlinear_arith)
        requires
            magnitude(b) == mt * magnitude(wv - wx),
            0 <= mt <= most,
            0x100_0000 * magnitude(wv - wx) <= 2 * o,
            0 <= magnitude(wv - wx),
    ;
    let first = pv * o - tv * wx;
    assert(first == a + b) by (nonlinear_arith)
        requires
            first == pv * o - tv * wx,
            a == pv * o - tv * wv,
            b == tv * (wv - wx),
    ;
    assert(0x100_0000 * magnitude(first) <= 5 * (most * o));
    let mp = magnitude(pv);
    lemma_magnitude_times(pv, o);
    assert(mp <= 2 * most) by (nonlinear_arith)
        requires
            0x100_0000 * (mp * o) <= 0x100_0000 * (most * o) + 3 * (most * o),
            0 < o,
            0 <= most,
    ;
    // The second.
    assert(mp * vv <= 2 * (most * o)) by (nonlinear_arith)
        requires
            0 <= mp <= 2 * most,
            0 <= vv <= o,
    ;
    let c = rv * o - pv * vv;
    assert(0x100_0000 * magnitude(c) <= 5 * (most * o));
    let d = pv * (vv - wy);
    lemma_magnitude_times(pv, vv - wy);
    assert(0x100_0000 * magnitude(d) <= 4 * (most * o)) by (nonlinear_arith)
        requires
            magnitude(d) == mp * magnitude(vv - wy),
            0 <= mp <= 2 * most,
            0x100_0000 * magnitude(vv - wy) <= 2 * o,
            0 <= magnitude(vv - wy),
    ;
    let total = rv * (o * o) - tv * (wx * wy);
    assert(c * o == rv * (o * o) - (pv * vv) * o) by (nonlinear_arith)
        requires
            c == rv * o - pv * vv,
    ;
    assert(d * o == (pv * vv) * o - (pv * wy) * o) by (nonlinear_arith)
        requires
            d == pv * (vv - wy),
    ;
    assert(first * wy == (pv * wy) * o - tv * (wx * wy)) by (nonlinear_arith)
        requires
            first == pv * o - tv * wx,
    ;
    lemma_magnitude_times(c, o);
    lemma_magnitude_times(d, o);
    lemma_magnitude_times(first, wy);
    let mc = magnitude(c);
    let md = magnitude(d);
    let mf = magnitude(first);
    let k = most * (o * o);
    assert(0x100_0000 * (mc * o) <= 5 * k && 0x100_0000 * (md * o) <= 4 * k && 0x100_0000 * (mf
        * wy) <= 5 * k) by (nonlinear_arith)
        requires
            0x100_0000 * mc <= 5 * (most * o),
            0x100_0000 * md <= 4 * (most * o),
            0x100_0000 * mf <= 5 * (most * o),
            0 <= wy <= o,
            0 <= mf,
            k == most * (o * o),
    ;
    lemma_magnitude_times(rv, o);
    let mr = magnitude(rv);
    assert(mr <= 3 * most) by (nonlinear_arith)
        requires
            0x100_0000 * (mr * o) <= 0x100_0000 * (2 * (most * o)) + 5 * (most * o),
            0 < o,
            0 <= most,
    ;
}

/// The weight of a coordinate between two pixels.
proof fn lemma_weight(x: Binary32)
    requires
        x.is_finite(),
        0 <= x.value() < pow2(149 + 23),
    ensures
        ({
            let dx = x.difference(of_int(whole(x)));
            let dx1 = of_int(1).difference(dx);
            let w = x.value() - whole(x) * one();
            &&& 0 <= whole(x) < 0x80_0000
            &&& 0 <= w < one()
            &&& dx.is_finite()
            &&& dx1.is_finite()
            &&& 0 <= dx.value() <= one()
            &&& 0 <= dx1.value() <= one()
            &&& 0x100_0000 * magnitude(dx.value() - w) <= 2 * one()
            &&& 0x100_0000 * magnitude(dx1.value() - (one() - w)) <= 2 * one()
        }),
{
    lemma2_to64();
    lemma_pow2_pos(149);
    lemma_pow2_adds(149, 23);
    lemma_pow2_strictly_increases(149 + 23, 149 + 31);
    lemma_weights(x);
    let u = x.value();
    assert(u < 0x80_0000 * one()) by (nonlinear_arith)
        requires
            u < pow2(149) * pow2(23),
            pow2(23) == 0x80_0000,
            one() == pow2(149),
    ;
    lemma_whole(x);
    let f = whole(x);
    assert(0 <= f < 0x80_0000) by (nonlinear_arith)
        requires
            f * one() <= u < (f + 1) * one(),
            0 <= u < 0x80_0000 * one(),
            one() > 0,
    ;
    assert((f + 1) * one() == f * one() + one()) by (nonlinear_arith);
    lemma_of_int_exact(f);
    lemma_difference_error(x, of_int(f));
    let dx = x.difference(of_int(f));
    lemma_of_int_exact(1);
    lemma_difference_error(of_int(1), dx);
    assert(1 * one() == one()) by (nonlinear_arith);
}

/// The exact interpolation between four values, in cubic units.
pub open spec fn mean_of_four(
    t00: int,
    t01: int,
    t10: int,
    t11: int,
    wx: int,
    wy: int,
) -> int {
    t00 * ((one() - wx) * (one() - wy)) + t01 * ((one() - wx) * wy) + t10 * (wx * (one() - wy))
        + t11 * (wx * wy)
}

proof fn lemma_four_finite(t0: Binary32, t1: Binary32, t2: Binary32, t3: Binary32)
    requires
        zero().sum(t0).sum(t1).sum(t2).sum(t3).is_finite(),
    ensures
        t0.is_finite(),
        t1.is_finite(),
        t2.is_finite(),
        t3.is_finite(),
        zero().sum(t0).is_finite(),
        zero().sum(t0).sum(t1).is_finite(),
        zero().sum(t0).sum(t1).sum(t2).is_finite(),
{
    lemma_finite_sum(zero().sum(t0).sum(t1).sum(t2), t3);
    lemma_finite_sum(zero().sum(t0).sum(t1), t2);
    lemma_finite_sum(zero().sum(t0), t1);
    lemma_finite_sum(zero(), t0);
}

/// A sum of four bounded terms.
proof fn lemma_four_sum(t0: Binary32, t1: Binary32, t2: Binary32, t3: Binary32, most: int)
    requires
        zero().sum(t0).sum(t1).sum(t2).sum(t3).is_finite(),
        magnitude(t0.value()) <= 3 * most,
        magnitude(t1.value()) <= 3 * most,
        magnitude(t2.value()) <= 3 * most,
        magnitude(t3.value()) <= 3 * most,
        0 <= most,
    ensures
        0x100_0000 * magnitude(
            zero().sum(t0).sum(t1).sum(t2).sum(t3).value() - (t0.value() + t1.value() + t2.value()
                + t3.value()),
        ) <= 64 * most,
{
    lemma_four_finite(t0, t1, t2, t3);
    assert(zero().value() == 0);
    lemma_one_more(zero(), t0, 0, 0, 0, most);
    lemma_one_more(zero().sum(t0), t1, t0.value(), 1, 6 * most, most);
    lemma_one_more(zero().sum(t0).sum(t1), t2, t0.value() + t1.value(), 2, 18 * most, most);
    lemma_one_more(
        zero().sum(t0).sum(t1).sum(t2),
        t3,
        t0.value() + t1.value() + t2.value(),
        3,
        36 * most,
        most,
    );
}

/// One term more in a sum of bounded terms.
proof fn lemma_one_more(r: Binary32, t: Binary32, exact: int, n: int, error: int, most: int)
    requires
        r.sum(t).is_finite(),
        magnitude(t.value()) <= 3 * most,
        magnitude(exact) <= 3 * (n * most),
        0x100_0000 * magnitude(r.value() - exact) <= error,
        0 <= n <= 3,
        0 <= error <= 36 * most,
        0 <= most,
    ensures
        magnitude(exact + t.value()) <= 3 * ((n + 1) * most),
        0x100_0000 * magnitude(r.sum(t).value() - (exact + t.value())) <= error + 6 * ((n + 1)
            * most),
{
    lemma_sum_error(r, t);
    assert((n + 1) * most == n * most + most) by (nonlinear_arith);
    assert(0 <= n * most) by (nonlinear_arith)
        requires
            0 <= n,
            0 <= most,
    ;
}

/// Interpolation weighs the four pixels about a place by how near they are,
/// but for rounding.
#[verifier::spinoff_prover]
#[verifier::rlimit(40)]
pub proof fn lemma_interpolation(
    numbers: spec_fn(int, int) -> Binary32,
    x: Binary32,
    y: Binary32,
    most: int,
)
    requires
        x.is_finite(),
        y.is_finite(),
        0 <= x.value() < pow2(149 + 23),
        0 <= y.value() < pow2(149 + 23),
        one() <= most,
        forall|i: int, j: int|
            (#[trigger] numbers(i, j)).is_finite() && magnitude(numbers(i, j).value()) <= most,
        bilinear(numbers, x, y).is_finite(),
    ensures
        ({
            let x0 = whole(x);
            let y0 = whole(y);
            let wx = x.value() - x0 * one();
            let wy = y.value() - y0 * one();
            &&& x0 * one() <= x.value() < (x0 + 1) * one()
            &&& y0 * one() <= y.value() < (y0 + 1) * one()
            &&& 0x100_0000 * magnitude(
                bilinear(numbers, x, y).value() * (one() * one()) - mean_of_four(
                    numbers(x0, y0).value(),
                    numbers(x0, y0 + 1).value(),
                    numbers(x0 + 1, y0).value(),
                    numbers(x0 + 1, y0 + 1).value(),
                    wx,
                    wy,
                ),
            ) <= 128 * (most * (one() * one()))
        }),
{
    reveal(bilinear);
    lemma_pow2_pos(149);
    lemma_weight(x);
    lemma_weight(y);
    let x0 = whole(x);
    let y0 = whole(y);
    let wx = x.value() - x0 * one();
    let wy = y.value() - y0 * one();
    assert((x0 + 1) * one() == x0 * one() + one()) by (nonlinear_arith);
    assert((y0 + 1) * one() == y0 * one() + one()) by (nonlinear_arith);
    let dx = x.difference(of_int(x0));
    let dy = y.difference(of_int(y0));
    let dx1 = of_int(1).difference(dx);
    let dy1 = of_int(1).difference(dy);
    let n00 = numbers(x0, y0);
    let n01 = numbers(x0, y0 + 1);
    let n10 = numbers(x0 + 1, y0);
    let n11 = numbers(x0 + 1, y0 + 1);
    let t0 = n00.product(dx1).product(dy1);
    let t1 = n01.product(dx1).product(dy);
    let t2 = n10.product(dx).product(dy1);
    let t3 = n11.product(dx).product(dy);
    let r = zero().sum(t0).sum(t1).sum(t2).sum(t3);
    lemma_four_finite(t0, t1, t2, t3);
    lemma_tap(n00, dx1, dy1, one() - wx, one() - wy, most);
    lemma_tap(n01, dx1, dy, one() - wx, wy, most);
    lemma_tap(n10, dx, dy1, wx, one() - wy, most);
    lemma_tap(n11, dx, dy, wx, wy, most);
    lemma_four_sum(t0, t1, t2, t3, most);
    let total = t0.value() + t1.value() + t2.value() + t3.value();
    let oo = one() * one();
    let k = most * oo;
    assert(0 <= oo) by (nonlinear_arith)
        requires
            oo == one() * one(),
    ;
    lemma_magnitude_times(r.value() - total, oo);
    let e = magnitude(r.value() - total);
    assert(0x100_0000 * (e * oo) <= 64 * k) by (nonlinear_arith)
        requires
            0x100_0000 * e <= 64 * most,
            0 <= oo,
            k == most * oo,
    ;
    let rv = r.value();
    let v0 = t0.value();
    let v1 = t1.value();
    let v2 = t2.value();
    let v3 = t3.value();
    assert((rv - total) * oo == rv * oo - (v0 * oo + v1 * oo + v2 * oo + v3 * oo))
        by (nonlinear_arith)
        requires
            total == v0 + v1 + v2 + v3,
    ;
}

/// The reciprocal of a determinant.
proof fn lemma_reciprocal(det: Binary32)
    requires
        det.is_finite(),
        det.pattern() != 0,
        magnitude(det.value()) <= pow2(149 + 120),
        of_int(1).quotient(det).is_finite(),
    ensures
        is_close(of_int(1).quotient(det).value() * det.value(), one() * one(), 3, 0),
{
    lemma2_to64();
    lemma_of_int_exact(1);
    lemma_quotient_error(of_int(1), det);
    assert(1 * one() == one()) by (nonlinear_arith);
    lemma_pow2_adds(149, 149);
    lemma_pow2_adds(149 + 120, 24);
    lemma_pow2_strictly_increases(293, 298);
    let m = magnitude(det.value());
    assert(0x100_0000 * m <= one() * one()) by {
        assert(0x100_0000 * m <= pow2(293)) by (nonlinear_arith)
            requires
                m <= pow2(269),
                pow2(293) == pow2(269) * pow2(24),
                pow2(24) == 0x100_0000,
        ;
    }
}

/// One product of Cramer's rule.
proof fn lemma_cramer_term(a: Binary32, det: Binary32, u: Binary32)
    requires
        det.is_finite(),
        det.pattern() != 0,
        magnitude(det.value()) <= pow2(149 + 120),
        a.product(of_int(1).quotient(det)).product(u).is_finite(),
    ensures
        is_close(
            (a.product(of_int(1).quotient(det)).product(u).value() * det.value()) * one(),
            (a.value() * u.value()) * one(),
            9,
            0x100_0000 * (one() * magnitude(det.value())) + 0x200_0000 * (magnitude(det.value())
                * magnitude(u.value())),
        ),
{
    lemma_pow2_pos(149);
    let o = one();
    let inv = of_int(1).quotient(det);
    let p = a.product(inv);
    let t = p.product(u);
    lemma_finite_product(p, u);
    lemma_finite_product(a, inv);
    lemma_reciprocal(det);
    lemma_product_error(a, inv);
    lemma_product_error(p, u);
    let av = a.value();
    let iv = inv.value();
    let dv = det.value();
    let pv = p.value();
    let uv = u.value();
    let tv = t.value();
    let md = magnitude(dv);
    let mu = magnitude(uv);
    // p * o * d is close to a * o * o.
    lemma_close_times(pv * o, av * iv, 2, 0x100_0000 * o, dv);
    lemma_close_times(iv * dv, o * o, 3, 0, av);
    assert((av * iv) * dv == (iv * dv) * av) by (nonlinear_arith);
    assert(0 * magnitude(av) == 0) by (nonlinear_arith);
    assert(0 <= (0x100_0000 * o) * md) by (nonlinear_arith)
        requires
            0 <= o,
            0 <= md,
    ;
    lemma_close_trans(
        (pv * o) * dv,
        (iv * dv) * av,
        (o * o) * av,
        2,
        (0x100_0000 * o) * md,
        3,
        0,
    );
    // t * o * (o * d) is close to a * u * o * o.
    let od = o * dv;
    lemma_close_times(tv * o, pv * uv, 2, 0x100_0000 * o, od);
    lemma_close_times((pv * o) * dv, (o * o) * av, 6, (0x100_0000 * o) * md, uv);
    assert((pv * uv) * od == ((pv * o) * dv) * uv) by (nonlinear_arith)
        requires
            od == o * dv,
    ;
    lemma_magnitude_times(o, dv);
    let s1 = (0x100_0000 * o) * magnitude(od);
    let s2 = ((0x100_0000 * o) * md) * mu;
    assert(0 <= s1) by (nonlinear_arith)
        requires
            s1 == (0x100_0000 * o) * magnitude(od),
            0 <= o,
            0 <= magnitude(od),
    ;
    assert(0 <= s2) by (nonlinear_arith)
        requires
            s2 == ((0x100_0000 * o) * md) * mu,
            0 <= (0x100_0000 * o) * md,
            0 <= mu,
    ;
    lemma_close_trans(
        (tv * o) * od,
        ((pv * o) * dv) * uv,
        ((o * o) * av) * uv,
        2,
        s1,
        6,
        s2,
    );
    let x = (tv * dv) * o;
    let y = (av * uv) * o;
    let s = 0x100_0000 * (o * md) + 0x200_0000 * (md * mu);
    assert((tv * o) * od == x * o) by (nonlinear_arith)
        requires
            od == o * dv,
            x == (tv * dv) * o,
    ;
    assert(((o * o) * av) * uv == y * o) by (nonlinear_arith)
        requires
            y == (av * uv) * o,
    ;
    assert(s1 + 2 * s2 == s * o) by (nonlinear_arith)
        requires
            s1 == (0x100_0000 * o) * (o * md),
            s2 == ((0x100_0000 * o) * md) * mu,
            s == 0x100_0000 * (o * md) + 0x200_0000 * (md * mu),
    ;
    lemma_close_divided(x, y, 9, s, o);
}

/// A solution is close to what Cramer's rule gives: `found` times the
/// determinant is `a * u + c * v`, but for rounding.
pub open spec fn is_solution(
    found: Binary32,
    det: int,
    a: int,
    u: int,
    c: int,
    v: int,
) -> bool {
    0x100_0000 * magnitude((found.value() * det) * one() - (a * u + c * v) * one()) <= 12 * (
    magnitude((a * u) * one()) + magnitude((c * v) * one())) + 0x400_0000 * (one() * magnitude(det)
        + magnitude(det) * magnitude(u) + magnitude(det) * magnitude(v))
}

/// Two products of Cramer's rule, added up.
proof fn lemma_cramer(
    a: Binary32,
    u: Binary32,
    c: Binary32,
    v: Binary32,
    det: Binary32,
)
    requires
        det.is_finite(),
        det.pattern() != 0,
        magnitude(det.value()) <= pow2(149 + 120),
        ({
            let inv = of_int(1).quotient(det);
            a.product(inv).product(u).sum(c.product(inv).product(v)).is_finite()
        }),
    ensures
        ({
            let inv = of_int(1).quotient(det);
            is_solution(
                a.product(inv).product(u).sum(c.product(inv).product(v)),
                det.value(),
                a.value(),
                u.value(),
                c.value(),
                v.value(),
            )
        }),
{
    lemma_pow2_pos(149);
    let o = one();
    let inv = of_int(1).quotient(det);
    let t = a.product(inv).product(u);
    let w = c.product(inv).product(v);
    let s = t.sum(w);
    lemma_finite_sum(t, w);
    lemma_cramer_term(a, det, u);
    lemma_cramer_term(c, det, v);
    lemma_sum_error(t, w);
    let d = det.value();
    let sv = s.value();
    let tv = t.value();
    let wv = w.value();
    lemma_close_times(sv, tv + wv, 2, 0, d);
    assert(0 * magnitude(d) == 0) by (nonlinear_arith);
    lemma_close_times(sv * d, (tv + wv) * d, 2, 0, o);
    assert(0 * magnitude(o) == 0) by (nonlinear_arith);
    let sx = (sv * d) * o;
    let tx = (tv * d) * o;
    let wx = (wv * d) * o;
    assert(((tv + wv) * d) * o == tx + wx) by (nonlinear_arith)
        requires
            tx == (tv * d) * o,
            wx == (wv * d) * o,
    ;
    let au = (a.value() * u.value()) * o;
    let cv = (c.value() * v.value()) * o;
    assert((a.value() * u.value() + c.value() * v.value()) * o == au + cv) by (nonlinear_arith)
        requires
            au == (a.value() * u.value()) * o,
            cv == (c.value() * v.value()) * o,
    ;
    let md = magnitude(d);
    let p = o * md;
    let q = md * magnitude(u.value());
    let r = md * magnitude(v.value());
    assert(0 <= p && 0 <= q && 0 <= r) by (nonlinear_arith)
        requires
            p == o * md,
            q == md * magnitude(u.value()),
            r == md * magnitude(v.value()),
            0 <= o,
            0 <= md,
            0 <= magnitude(u.value()),
            0 <= magnitude(v.value()),
    ;
}

/// The determinant of a symmetric matrix, but for rounding.
pub open spec fn is_determinant(det: int, h00: int, h01: int, h11: int) -> bool {
    0x100_0000 * magnitude(det * one() - (h00 * h11 - h01 * h01)) <= 8 * (magnitude(h00 * h11)
        + magnitude(h01 * h01)) + 0x800_0000 * one()
}

proof fn lemma_determinant(h00: Binary32, h01: Binary32, h11: Binary32)
    requires
        h00.product(h11).difference(h01.product(h01)).is_finite(),
    ensures
        is_determinant(
            h00.product(h11).difference(h01.product(h01)).value(),
            h00.value(),
            h01.value(),
            h11.value(),
        ),
{
    lemma_pow2_pos(149);
    let o = one();
    let a = h00.product(h11);
    let b = h01.product(h01);
    let d = a.difference(b);
    lemma_difference_error(a, b);
    lemma_product_error(h00, h11);
    lemma_product_error(h01, h01);
    let dv = d.value();
    let av = a.value();
    let bv = b.value();
    lemma_close_times(dv, av - bv, 2, 0, o);
    assert(0 * magnitude(o) == 0) by (nonlinear_arith);
    assert((av - bv) * o == av * o - bv * o) by (nonlinear_arith);
}

/// The step that one iteration at full scale adds to a displacement solves the
/// normal equations of the window: `(gxx, gxy, gyy)` times the step is
/// `(bx, by)`. Its horizontal part goes to the horizontal displacement and its
/// vertical part to the vertical one.
///
/// The solution is stated as Cramer's rule gives it, with the determinant that
/// was computed. Further iterations go on from there, unless both parts of the
/// step are small.
#[verifier::spinoff_prover]
#[verifier::rlimit(40)]
pub proof fn lemma_step_solves(
    prev: Source,
    curr: Grid<u8>,
    radius: int,
    position: (Binary32, Binary32),
    d: (Binary32, Binary32),
    n: int,
) -> (r: (Binary32, Binary32, Binary32))
    requires
        1 <= n,
        0 <= prev.image.width <= 0x8000_0000,
        0 <= prev.image.height <= 0x8000_0000,
        0 <= radius < 0x8000_0000,
        !position.0.is_nan(),
        !position.1.is_nan(),
        !d.0.is_nan(),
        !d.1.is_nan(),
        level_flow(prev, curr, of_power(0), radius, 1, position, d) is Some,
        is_in_bounds(curr, position.0.sum(d.0), position.1.sum(d.1), radius),
    ensures
        ({
            let (det, step_x, step_y) = r;
            let g = hessian(
                prev,
                position.0,
                position.1,
                radius,
                (2 * radius + 1) * (2 * radius + 1),
            );
            let b = mismatch(
                prev,
                curr,
                position.0,
                position.1,
                position.0.sum(d.0),
                position.1.sum(d.1),
                radius,
                (2 * radius + 1) * (2 * radius + 1),
            );
            let e = level_flow(prev, curr, of_power(0), radius, 1, position, d).unwrap();
            &&& det.is_finite()
            &&& is_determinant(det.value(), g.0.value(), g.1.value(), g.2.value())
            &&& 0x10_0000 * magnitude(det.value()) >= one()
            &&& is_sum(e.0, d.0, step_x)
            &&& is_sum(e.1, d.1, step_y)
            &&& step_x.is_finite() ==> is_solution(
                step_x,
                det.value(),
                g.2.value(),
                b.0.value(),
                -g.1.value(),
                b.1.value(),
            )
            &&& step_y.is_finite() ==> is_solution(
                step_y,
                det.value(),
                -g.1.value(),
                b.0.value(),
                g.0.value(),
                b.1.value(),
            )
            &&& is_small(step_x) && is_small(step_y) ==> level_flow(
                prev,
                curr,
                of_power(0),
                radius,
                n,
                position,
                d,
            ) == Some(e)
            &&& !(is_small(step_x) && is_small(step_y)) && !e.0.is_nan() && !e.1.is_nan()
                ==> level_flow(prev, curr, of_power(0), radius, n, position, d) == level_flow(
                prev,
                curr,
                of_power(0),
                radius,
                n - 1,
                position,
                e,
            )
        }),
{
    lemma2_to64();
    let area = window_area(radius);
    assert(area >= 0) by (nonlinear_arith)
        requires
            radius >= 0,
            area == (2 * radius + 1) * (2 * radius + 1),
    ;
    lemma_at_full_scale(position.0);
    lemma_at_full_scale(position.1);
    lemma_at_full_scale(d.0);
    lemma_at_full_scale(d.1);
    let x = position.0;
    let y = position.1;
    let g = hessian(prev, x, y, radius, area);
    let b = mismatch(prev, curr, x, y, x.sum(d.0), y.sum(d.1), radius, area);
    lemma_hessian_bounded(prev, x, y, radius, area);
    lemma_inverse_finite(g.0, g.1, g.2);
    let p = g.0.product(g.2);
    let q = g.1.product(g.1);
    lemma_product_bounded(g.0, g.2, 53, 53);
    lemma_product_bounded(g.1, g.1, 53, 53);
    lemma_pow2_unfold(149 + 107);
    lemma_difference_bounded(p, q, 107);
    let det = p.difference(q);
    lemma_determinant(g.0, g.1, g.2);
    lemma_pow2_strictly_increases(149 + 107, 149 + 120);
    let epsilon = Binary32 { bits: DET_EPSILON };
    lemma_signed(false, det.pattern());
    assert(!det.absolute().is_at_most(epsilon));
    lemma_det_size(det);
    let inv = of_int(1).quotient(det);
    let inverse = inverse_2x2(g.0, g.1, g.2, epsilon).unwrap();
    let step_x = inverse.0.product(b.0).sum(inverse.1.product(b.1));
    let step_y = inverse.1.product(b.0).sum(inverse.2.product(b.1));
    lemma_signed(!g.1.negative(), g.1.pattern());
    if step_x.is_finite() {
        lemma_cramer(g.2, b.0, g.1.negated(), b.1, det);
    }
    if step_y.is_finite() {
        lemma_cramer(g.1.negated(), b.0, g.0, b.1, det);
    }
    lemma_single_step(prev, curr, radius, position, d, inverse, n);
    lemma_sum_is(d.0, step_x);
    lemma_sum_is(d.1, step_y);
    (det, step_x, step_y)
}

/// A step of less than a thousandth of a pixel.
pub open spec fn is_small(step: Binary32) -> bool {
    step.is_finite() && magnitude(step.value()) < (Binary32 { bits: STEP_EPSILON }).value()
}

proof fn lemma_small(step: Binary32)
    ensures
        is_small(step) <==> step.absolute().is_less(Binary32 { bits: STEP_EPSILON }),
{
    lemma_signed(false, step.pattern());
    if step.is_finite() {
        lemma_units_nonnegative(step.pattern());
        lemma_rank_orders_values(step.absolute(), Binary32 { bits: STEP_EPSILON });
    }
}

/// What one iteration at full scale does.
#[verifier::spinoff_prover]
#[verifier::rlimit(40)]
proof fn lemma_single_step(
    prev: Source,
    curr: Grid<u8>,
    radius: int,
    position: (Binary32, Binary32),
    d: (Binary32, Binary32),
    inverse: (Binary32, Binary32, Binary32),
    n: int,
)
    requires
        1 <= n,
        !position.0.is_nan(),
        !position.1.is_nan(),
        !d.0.is_nan(),
        !d.1.is_nan(),
        is_in_bounds(prev.image, position.0, position.1, radius),
        is_in_bounds(curr, position.0.sum(d.0), position.1.sum(d.1), radius),
        ({
            let h = hessian(prev, position.0, position.1, radius, window_area(radius));
            inverse_2x2(h.0, h.1, h.2, Binary32 { bits: DET_EPSILON }) == Some(inverse)
        }),
    ensures
        ({
            let b = mismatch(
                prev,
                curr,
                position.0,
                position.1,
                position.0.sum(d.0),
                position.1.sum(d.1),
                radius,
                window_area(radius),
            );
            let step_x = inverse.0.product(b.0).sum(inverse.1.product(b.1));
            let step_y = inverse.1.product(b.0).sum(inverse.2.product(b.1));
            let e = (
                d.0.sum(step_x).product(of_power(0)),
                d.1.sum(step_y).product(of_power(0)),
            );
            let flow = |n: int, d: (Binary32, Binary32)|
                level_flow(prev, curr, of_power(0), radius, n, position, d);
            &&& level_flow(prev, curr, of_power(0), radius, 1, position, d) == Some(e)
            &&& is_small(step_x) && is_small(step_y) ==> flow(n, d) == Some(e)
            &&& !(is_small(step_x) && is_small(step_y)) && !e.0.is_nan() && !e.1.is_nan() ==> flow(
                n,
                d,
            ) == flow(n - 1, e)
        }),
{
    let b = mismatch(
        prev,
        curr,
        position.0,
        position.1,
        position.0.sum(d.0),
        position.1.sum(d.1),
        radius,
        window_area(radius),
    );
    let step_x = inverse.0.product(b.0).sum(inverse.1.product(b.1));
    let step_y = inverse.1.product(b.0).sum(inverse.2.product(b.1));
    lemma_times_one(d.0.sum(step_x));
    lemma_times_one(d.1.sum(step_y));
    lemma_at_full_scale(d.0.sum(step_x));
    lemma_at_full_scale(d.1.sum(step_y));
    lemma_small(step_x);
    lemma_small(step_y);
    lemma_at_full_scale(position.0);
    lemma_at_full_scale(position.1);
    lemma_at_full_scale(d.0);
    lemma_at_full_scale(d.1);
    reveal_with_fuel(refined, 2);
}

/// A displacement with a step added to it: the sum of the two, rounded.
pub open spec fn is_sum(total: Binary32, a: Binary32, b: Binary32) -> bool {
    &&& total.is_finite() ==> 0x100_0000 * magnitude(total.value() - (a.value() + b.value()))
        <= magnitude(total.value())
    &&& a == (Binary32 { bits: 0 }) && b.is_finite() ==> total.equals(b)
}

proof fn lemma_sum_is(a: Binary32, b: Binary32)
    ensures
        is_sum(a.sum(b).product(of_power(0)), a, b),
{
    lemma_times_one(a.sum(b));
    lemma_times_one(nan());
    if a.sum(b).is_nan() {
        reveal(Binary32::sum);
        assert(a.sum(b).product(of_power(0)).is_nan()) by {
            reveal(Binary32::product);
        }
    }
    if a.sum(b).is_finite() {
        lemma_sum_error(a, b);
    }
    if a == (Binary32 { bits: 0 }) && b.is_finite() {
        reveal(Binary32::sum);
        let u = units(b.pattern());
        lemma_units_nonnegative(b.pattern());
        if u != 0 {
            lemma_nearest_exact(b.pattern(), 1);
            lemma_signed(b.negative(), b.pattern());
        }
    }
}

/// The pattern of one.
proof fn lemma_unit()
    ensures
        of_power(0).is_finite(),
        !of_power(0).negative(),
        units(of_power(0).pattern()) == one(),
        of_power(0).value() == one(),
{
    lemma_power_units(0);
}

/// A product with one changes no number.
pub proof fn lemma_times_one(a: Binary32)
    ensures
        !a.is_nan() ==> a.product(of_power(0)) == a,
        a.is_nan() ==> a.product(of_power(0)) == nan(),
{
    reveal(Binary32::product);
    lemma_unit();
    lemma_pow2_pos(149);
    if a.is_finite() {
        lemma_nearest_exact(a.pattern(), one());
    }
    lemma_signed(a.negative(), a.pattern());
}

/// A quotient by one changes no number.
pub proof fn lemma_at_full_scale(a: Binary32)
    ensures
        !a.is_nan() ==> a.quotient(of_power(0)) == a,
        a.is_nan() ==> a.quotient(of_power(0)) == nan(),
{
    reveal(Binary32::quotient);
    lemma_unit();
    lemma_pow2_pos(149);
    if a.is_finite() {
        lemma_nearest_exact(a.pattern(), one());
    }
    lemma_signed(a.negative(), a.pattern());
}

/// A determinant that is not too small.
proof fn lemma_det_size(det: Binary32)
    requires
        det.is_finite(),
        det.pattern() > DET_EPSILON,
    ensures
        0x10_0000 * magnitude(det.value()) >= one(),
{
    lemma2_to64();
    let low: int = 107int * 0x80_0000;
    lemma_units_increase(low, det.pattern());
    lemma_pow2_adds(23, 106);
    assert(units(low) == pow2(129)) by {
        assert(low / 0x80_0000 == 107);
        assert(low % 0x80_0000 == 0);
    }
    lemma_pow2_adds(129, 20);
    lemma_units_nonnegative(det.pattern());
}

/// The sum of `f(0)` to `f(n - 1)`.
pub open spec fn total(n: int, f: spec_fn(int) -> int) -> int
    decreases n,
{
    if n <= 0 {
        0
    } else {
        total(n - 1, f) + f(n - 1)
    }
}

/// A rounded sum of `n` products: off by four parts in `2^24` of their
/// magnitudes for each of them, and a few units.
pub open spec fn is_rounded_total(
    found: Binary32,
    n: int,
    a: spec_fn(int) -> int,
    b: spec_fn(int) -> int,
) -> bool {
    0x100_0000 * magnitude(found.value() * one() - total(n, |k: int| a(k) * b(k))) <= 4 * n * total(
        n,
        |k: int| magnitude(a(k) * b(k)),
    ) + 0x200_0000 * (n * one())
}

proof fn lemma_total_nonnegative(n: int, f: spec_fn(int) -> int)
    requires
        forall|k: int| #[trigger] f(k) >= 0,
    ensures
        total(n, f) >= 0,
    decreases n,
{
    if n > 0 {
        lemma_total_nonnegative(n - 1, f);
        assert(f(n - 1) >= 0);
    }
}

/// One product more.
proof fn lemma_accumulate(
    h: Binary32,
    p: Binary32,
    q: Binary32,
    n: int,
    a: spec_fn(int) -> int,
    b: spec_fn(int) -> int,
)
    requires
        h.sum(p.product(q)).is_finite(),
        is_rounded_total(h, n, a, b),
        0 <= n < 0x20_0000,
        p.value() == a(n),
        q.value() == b(n),
    ensures
        is_rounded_total(h.sum(p.product(q)), n + 1, a, b),
{
    lemma_pow2_pos(149);
    let o = one();
    let t = p.product(q);
    let r = h.sum(t);
    lemma_finite_sum(h, t);
    lemma_sum_error(h, t);
    lemma_product_error(p, q);
    let f = |k: int| a(k) * b(k);
    let m = |k: int| magnitude(a(k) * b(k));
    let exact = total(n, f);
    let size = total(n, m);
    lemma_total_nonnegative(n, m);
    let term = a(n) * b(n);
    assert(total(n + 1, f) == exact + term);
    assert(total(n + 1, m) == size + magnitude(term));
    lemma_total_bound(n, f, m);
    let hv = h.value() * o;
    let tv = t.value() * o;
    let rv = r.value() * o;
    let mr = magnitude(r.value());
    lemma_magnitude_times(r.value(), o);
    lemma_magnitude_times(r.value() - (h.value() + t.value()), o);
    let e = magnitude(r.value() - (h.value() + t.value()));
    assert(0x100_0000 * (e * o) <= mr * o) by (nonlinear_arith)
        requires
            0x100_0000 * e <= mr,
            0 < o,
    ;
    assert((r.value() - (h.value() + t.value())) * o == rv - (hv + tv)) by (nonlinear_arith)
        requires
            hv == h.value() * o,
            tv == t.value() * o,
            rv == r.value() * o,
    ;
    let total_size = size + magnitude(term);
    let ns = n * size;
    let no = n * o;
    assert(4 * n * size == 4 * ns) by (nonlinear_arith)
        requires
            ns == n * size,
    ;
    assert(4 * (n + 1) * total_size == 4 * ns + 4 * (n * magnitude(term)) + 4 * total_size)
        by (nonlinear_arith)
        requires
            ns == n * size,
            total_size == size + magnitude(term),
    ;
    assert((n + 1) * o == no + o) by (nonlinear_arith)
        requires
            no == n * o,
    ;
    assert(0 <= n * magnitude(term)) by (nonlinear_arith)
        requires
            0 <= n,
            0 <= magnitude(term),
    ;
    assert(0 <= ns <= 0x20_0000 * size) by (nonlinear_arith)
        requires
            ns == n * size,
            0 <= n < 0x20_0000,
            0 <= size,
    ;
    assert(0 <= no <= 0x20_0000 * o) by (nonlinear_arith)
        requires
            no == n * o,
            0 <= n < 0x20_0000,
            0 < o,
    ;
    let before = magnitude(hv - exact);
    let after = magnitude(rv - (exact + term));
    let mrv = magnitude(rv);
    assert(mrv <= total_size + after);
    assert(0x100_0000 * after <= mrv + 0x100_0000 * before + 2 * magnitude(term) + 0x100_0000 * o);
    assert(0xff_ffff * after <= total_size + 4 * ns + 0x200_0000 * no + 2 * magnitude(term)
        + 0x100_0000 * o);
}

proof fn lemma_total_bound(n: int, f: spec_fn(int) -> int, m: spec_fn(int) -> int)
    requires
        forall|k: int| magnitude(#[trigger] f(k)) == m(k),
    ensures
        magnitude(total(n, f)) <= total(n, m),
    decreases n,
{
    if n > 0 {
        lemma_total_bound(n - 1, f, m);
        assert(magnitude(f(n - 1)) == m(n - 1));
    }
}

/// The horizontal derivative at a pixel of a window, in units.
pub open spec fn slope_x(prev: Source, x: Binary32, y: Binary32, radius: int) -> spec_fn(
    int,
) -> int {
    |k: int| patch(prev, x, y, radius, k).ix.value()
}

/// The vertical derivative at a pixel of a window, in units.
pub open spec fn slope_y(prev: Source, x: Binary32, y: Binary32, radius: int) -> spec_fn(
    int,
) -> int {
    |k: int| patch(prev, x, y, radius, k).iy.value()
}

/// The matrix of a window is made of the sums of the products of its
/// derivatives over all of its pixels, but for rounding.
pub proof fn lemma_hessian_sums(prev: Source, x: Binary32, y: Binary32, radius: int, n: int)
    requires
        0 <= n <= 0x20_0000,
        hessian(prev, x, y, radius, n).0.is_finite(),
        hessian(prev, x, y, radius, n).1.is_finite(),
        hessian(prev, x, y, radius, n).2.is_finite(),
    ensures
        ({
            let h = hessian(prev, x, y, radius, n);
            let sx = slope_x(prev, x, y, radius);
            let sy = slope_y(prev, x, y, radius);
            &&& is_rounded_total(h.0, n, sx, sx)
            &&& is_rounded_total(h.1, n, sx, sy)
            &&& is_rounded_total(h.2, n, sy, sy)
        }),
    decreases n,
{
    let sx = slope_x(prev, x, y, radius);
    let sy = slope_y(prev, x, y, radius);
    if n > 0 {
        let before = hessian(prev, x, y, radius, n - 1);
        let p = patch(prev, x, y, radius, n - 1);
        lemma_finite_sum(before.0, p.ix.product(p.ix));
        lemma_finite_sum(before.1, p.ix.product(p.iy));
        lemma_finite_sum(before.2, p.iy.product(p.iy));
        lemma_hessian_sums(prev, x, y, radius, n - 1);
        lemma_accumulate(before.0, p.ix, p.ix, n - 1, sx, sx);
        lemma_accumulate(before.1, p.ix, p.iy, n - 1, sx, sy);
        lemma_accumulate(before.2, p.iy, p.iy, n - 1, sy, sy);
    } else {
        assert(0 * one() == 0) by (nonlinear_arith);
    }
}

/// How much brighter the previous image is than the current one at a pixel of a
/// window that was moved to `(cx, cy)`, in units.
pub open spec fn contrast(
    prev: Source,
    curr: Grid<u8>,
    x: Binary32,
    y: Binary32,
    cx: Binary32,
    cy: Binary32,
    radius: int,
) -> spec_fn(int) -> int {
    |k: int|
        patch(prev, x, y, radius, k).value.difference(
            bilinear(
                gray_numbers(curr),
                cx.sum(window_offsets(radius)[k].0),
                cy.sum(window_offsets(radius)[k].1),
            ),
        ).value()
}

/// The mismatch of a window is made of the sums of the products of derivative
/// and difference of the images over all of its pixels, but for rounding.
pub proof fn lemma_mismatch_sums(
    prev: Source,
    curr: Grid<u8>,
    x: Binary32,
    y: Binary32,
    cx: Binary32,
    cy: Binary32,
    radius: int,
    n: int,
)
    requires
        0 <= n <= 0x20_0000,
        mismatch(prev, curr, x, y, cx, cy, radius, n).0.is_finite(),
        mismatch(prev, curr, x, y, cx, cy, radius, n).1.is_finite(),
    ensures
        ({
            let b = mismatch(prev, curr, x, y, cx, cy, radius, n);
            let e = contrast(prev, curr, x, y, cx, cy, radius);
            &&& is_rounded_total(b.0, n, slope_x(prev, x, y, radius), e)
            &&& is_rounded_total(b.1, n, slope_y(prev, x, y, radius), e)
        }),
    decreases n,
{
    if n > 0 {
        let before = mismatch(prev, curr, x, y, cx, cy, radius, n - 1);
        let p = patch(prev, x, y, radius, n - 1);
        let offset = window_offsets(radius)[n - 1];
        let error = p.value.difference(
            bilinear(gray_numbers(curr), cx.sum(offset.0), cy.sum(offset.1)),
        );
        let e = contrast(prev, curr, x, y, cx, cy, radius);
        lemma_finite_sum(before.0, p.ix.product(error));
        lemma_finite_sum(before.1, p.iy.product(error));
        lemma_mismatch_sums(prev, curr, x, y, cx, cy, radius, n - 1);
        lemma_accumulate(before.0, p.ix, error, n - 1, slope_x(prev, x, y, radius), e);
        lemma_accumulate(before.1, p.iy, error, n - 1, slope_y(prev, x, y, radius), e);
    } else {
        assert(0 * one() == 0) by (nonlinear_arith);
    }
}

/// What is sampled at a pixel of a window: the previous image there, and a 32nd
/// part of its two planes.
pub proof fn lemma_patch_samples(
    prev: Source,
    x: Binary32,
    y: Binary32,
    radius: int,
    i: int,
    j: int,
) -> (k: int)
    requires
        -radius <= i <= radius,
        -radius <= j <= radius,
        bilinear(gradient_numbers(prev.grad_x), x.sum(of_int(i)), y.sum(of_int(j))).is_finite(),
        bilinear(gradient_numbers(prev.grad_y), x.sum(of_int(i)), y.sum(of_int(j))).is_finite(),
    ensures
        0 <= k < (2 * radius + 1) * (2 * radius + 1),
        window_offsets(radius)[k] == (of_int(i), of_int(j)),
        ({
            let p = patch(prev, x, y, radius, k);
            let sx = x.sum(of_int(i));
            let sy = y.sum(of_int(j));
            let gx = bilinear(gradient_numbers(prev.grad_x), sx, sy);
            let gy = bilinear(gradient_numbers(prev.grad_y), sx, sy);
            &&& p.value == bilinear(gray_numbers(prev.image), sx, sy)
            &&& is_close(32 * p.ix.value(), gx.value(), 2, 0x2000_0000)
            &&& is_close(32 * p.iy.value(), gy.value(), 2, 0x2000_0000)
        }),
{
    let k = lemma_window_covers(radius, i, j);
    let sx = x.sum(of_int(i));
    let sy = y.sum(of_int(j));
    lemma_thirty_second_part(bilinear(gradient_numbers(prev.grad_x), sx, sy));
    lemma_thirty_second_part(bilinear(gradient_numbers(prev.grad_y), sx, sy));
    k
}

proof fn lemma_thirty_second_part(a: Binary32)
    requires
        a.is_finite(),
    ensures
        a.quotient(of_int(32)).is_finite(),
        is_close(32 * a.quotient(of_int(32)).value(), a.value(), 2, 0x2000_0000),
{
    lemma2_to64();
    lemma_pow2_pos(149);
    lemma_of_int_exact(32);
    let b = of_int(32);
    assert(a.quotient(b).is_finite()) by {
        reveal(Binary32::quotient);
        let u = units(a.pattern());
        let v = units(b.pattern());
        lemma_units_nonnegative(a.pattern());
        lemma_units_nonnegative(b.pattern());
        assert(v == 32 * one());
        assert(0 <= u * one() <= u * v) by (nonlinear_arith)
            requires
                v == 32 * one(),
                0 <= u,
                0 < one(),
        ;
        lemma_nearest_in_range(u * one(), v);
        crate::rounding::lemma_nearest_bounded(u * one(), v, a.pattern());
        lemma_signed(a.negative() != b.negative(), nearest(u * one(), v));
    }
    lemma_quotient_error(a, b);
    let q = a.quotient(b).value();
    let o = one();
    assert(q * (32 * o) == (32 * q) * o) by (nonlinear_arith);
    assert(magnitude(b.value()) == 32 * o);
    assert(0x100_0000 * (32 * o) == 0x2000_0000 * o) by (nonlinear_arith);
    lemma_close_divided(32 * q, a.value(), 2, 0x2000_0000, o);
}

/// More iterations go on from where fewer ended, unless those had come to an
/// end.
#[verifier::spinoff_prover]
#[verifier::rlimit(40)]
pub proof fn lemma_iterations_add_up(
    prev: Source,
    curr: Grid<u8>,
    radius: int,
    n: int,
    m: int,
    position: (Binary32, Binary32),
    d: (Binary32, Binary32),
)
    requires
        0 <= n,
        0 <= m,
        level_flow(prev, curr, of_power(0), radius, n, position, d) matches Some(e)
            ==> !e.0.is_nan() && !e.1.is_nan(),
    ensures
        ({
            let both = level_flow(prev, curr, of_power(0), radius, n + m, position, d);
            match level_flow(prev, curr, of_power(0), radius, n, position, d) {
                None => both is None,
                Some(e) => both == Some(e) || both == level_flow(
                    prev,
                    curr,
                    of_power(0),
                    radius,
                    m,
                    position,
                    e,
                ),
            }
        }),
{
    let x = position.0.quotient(of_power(0));
    let y = position.1.quotient(of_power(0));
    let start = (d.0.quotient(of_power(0)), d.1.quotient(of_power(0)));
    let area = window_area(radius);
    let h = hessian(prev, x, y, radius, area);
    if is_in_bounds(prev.image, x, y, radius) {
        if let Some(inverse) = inverse_2x2(h.0, h.1, h.2, Binary32 { bits: DET_EPSILON }) {
            lemma_refined_composed(prev, curr, x, y, radius, inverse, start, n, m);
            let end = refined(prev, curr, x, y, radius, inverse, start, n);
            let both = refined(prev, curr, x, y, radius, inverse, start, n + m);
            assert(level_flow(prev, curr, of_power(0), radius, n, position, d) == Some(
                (end.0.product(of_power(0)), end.1.product(of_power(0))),
            ));
            assert(level_flow(prev, curr, of_power(0), radius, n + m, position, d) == Some(
                (both.0.product(of_power(0)), both.1.product(of_power(0))),
            ));
            lemma_times_one(end.0);
            lemma_times_one(end.1);
            lemma_at_full_scale(end.0);
            lemma_at_full_scale(end.1);
            let more = refined(prev, curr, x, y, radius, inverse, end, m);
            assert(level_flow(prev, curr, of_power(0), radius, m, position, end) == Some(
                (more.0.product(of_power(0)), more.1.product(of_power(0))),
            ));
        }
    }
}

proof fn lemma_refined_composed(
    prev: Source,
    curr: Grid<u8>,
    x: Binary32,
    y: Binary32,
    radius: int,
    inverse: (Binary32, Binary32, Binary32),
    d: (Binary32, Binary32),
    n: int,
    m: int,
)
    requires
        0 <= n,
        0 <= m,
    ensures
        ({
            let end = refined(prev, curr, x, y, radius, inverse, d, n);
            let both = refined(prev, curr, x, y, radius, inverse, d, n + m);
            both == end || both == refined(prev, curr, x, y, radius, inverse, end, m)
        }),
    decreases n,
{
    let cx = x.sum(d.0);
    let cy = y.sum(d.1);
    if n > 0 && is_in_bounds(curr, cx, cy, radius) {
        let b = mismatch(prev, curr, x, y, cx, cy, radius, window_area(radius));
        let ddx = inverse.0.product(b.0).sum(inverse.1.product(b.1));
        let ddy = inverse.1.product(b.0).sum(inverse.2.product(b.1));
        let moved = (d.0.sum(ddx), d.1.sum(ddy));
        lemma_refined_composed(prev, curr, x, y, radius, inverse, moved, n - 1, m);
    }
}

/// A level is tracked like an image of its own, at coordinates that are scaled
/// down, with a displacement that is scaled up again.
#[verifier::spinoff_prover]
#[verifier::rlimit(40)]
pub proof fn lemma_level_scaled(
    prev: Source,
    curr: Grid<u8>,
    scale: Binary32,
    radius: int,
    iterations: int,
    position: (Binary32, Binary32),
    d: (Binary32, Binary32),
)
    ensures
        level_flow(prev, curr, scale, radius, iterations, position, d) == (match level_flow(
            prev,
            curr,
            of_power(0),
            radius,
            iterations,
            (position.0.quotient(scale), position.1.quotient(scale)),
            (d.0.quotient(scale), d.1.quotient(scale)),
        ) {
            Some(e) => Some((e.0.product(scale), e.1.product(scale))),
            None => None::<(Binary32, Binary32)>,
        }),
{
    let x = position.0.quotient(scale);
    let y = position.1.quotient(scale);
    let start = (d.0.quotient(scale), d.1.quotient(scale));
    lemma_quotient_twice(position.0, scale);
    lemma_quotient_twice(position.1, scale);
    lemma_quotient_twice(d.0, scale);
    lemma_quotient_twice(d.1, scale);
    let h = hessian(prev, x, y, radius, window_area(radius));
    if let Some(inverse) = inverse_2x2(h.0, h.1, h.2, Binary32 { bits: DET_EPSILON }) {
        let end = refined(prev, curr, x, y, radius, inverse, start, iterations);
        lemma_product_twice(end.0, scale);
        lemma_product_twice(end.1, scale);
    }
}

proof fn lemma_quotient_twice(a: Binary32, scale: Binary32)
    ensures
        a.quotient(scale).quotient(of_power(0)) == a.quotient(scale),
{
    lemma_at_full_scale(a.quotient(scale));
    if a.quotient(scale).is_nan() {
        reveal(Binary32::quotient);
        lemma_units_nonnegative(a.pattern());
        lemma_units_nonnegative(scale.pattern());
        let p = units(a.pattern()) * pow2(149);
        assert(0 <= p) by (nonlinear_arith)
            requires
                p == units(a.pattern()) * pow2(149),
                0 <= units(a.pattern()),
        ;
        let sign = a.negative() != scale.negative();
        if a.is_finite() && scale.is_finite() && scale.pattern() != 0 {
            lemma_nearest_in_range(p, units(scale.pattern()));
            lemma_signed(sign, nearest(p, units(scale.pattern())));
        }
        lemma_signed(sign, INFINITY_PATTERN as int);
        lemma_signed(sign, 0);
    }
}

proof fn lemma_product_twice(a: Binary32, scale: Binary32)
    ensures
        a.product(of_power(0)).product(scale) == a.product(scale),
{
    lemma_times_one(a);
    if a.is_nan() {
        reveal(Binary32::product);
    }
}

/// The mismatch of windows inside both images is bounded.
proof fn lemma_mismatch_bounded(
    prev: Source,
    curr: Grid<u8>,
    x: Binary32,
    y: Binary32,
    cx: Binary32,
    cy: Binary32,
    radius: int,
    n: int,
)
    requires
        is_in_bounds(prev.image, x, y, radius),
        is_in_bounds(curr, cx, cy, radius),
        0 <= prev.image.width <= 0x8000_0000,
        0 <= prev.image.height <= 0x8000_0000,
        0 <= curr.width <= 0x8000_0000,
        0 <= curr.height <= 0x8000_0000,
        0 <= radius < 0x8000_0000,
        0 <= n <= window_area(radius),
    ensures
        is_bounded(mismatch(prev, curr, x, y, cx, cy, radius, n).0, 59),
        is_bounded(mismatch(prev, curr, x, y, cx, cy, radius, n).1, 59),
    decreases n,
{
    if n > 0 {
        lemma_mismatch_bounded(prev, curr, x, y, cx, cy, radius, n - 1);
        let k = n - 1;
        let side = 2 * radius + 1;
        assert(side * side == window_area(radius));
        lemma_place(side, side, k);
        lemma_patch_bounded(prev, x, y, radius, k);
        lemma_window_within(x, prev.image.width, radius, k % side - radius);
        lemma_window_within(y, prev.image.height, radius, k / side - radius);
        lemma_window_within(cx, curr.width, radius, k % side - radius);
        lemma_window_within(cy, curr.height, radius, k / side - radius);
        let offset = window_offsets(radius)[k];
        lemma_gray_samples(prev.image);
        lemma_gray_samples(curr);
        lemma_bilinear_bounded(gray_numbers(prev.image), x.sum(offset.0), y.sum(offset.1));
        lemma_bilinear_bounded(gray_numbers(curr), cx.sum(offset.0), cy.sum(offset.1));
        let p = patch(prev, x, y, radius, k);
        let sampled = bilinear(gray_numbers(curr), cx.sum(offset.0), cy.sum(offset.1));
        lemma_pow2_unfold(149 + 20);
        lemma_difference_bounded(p.value, sampled, 20);
        let error = p.value.difference(sampled);
        lemma_product_bounded(p.ix, error, 14, 20);
        lemma_product_bounded(p.iy, error, 14, 20);
        let before = mismatch(prev, curr, x, y, cx, cy, radius, n - 1);
        lemma_sum_absorbed(before.0, p.ix.product(error), 59);
        lemma_sum_absorbed(before.1, p.iy.product(error), 59);
    } else {
        lemma_pow2_pos(149 + 59);
    }
}

/// A window tells nothing about motion along an axis: its mixed sum is zero, and
/// so is its mismatch along the axis, wherever it is moved along the other.
pub open spec fn shows_no_vertical_motion(
    prev: Source,
    curr: Grid<u8>,
    x: Binary32,
    y: Binary32,
    radius: int,
) -> bool {
    let area = (2 * radius + 1) * (2 * radius + 1);
    &&& hessian(prev, x, y, radius, area).1.pattern() == 0
    &&& forall|cx: Binary32|
        #![trigger mismatch(prev, curr, x, y, cx, y.sum(zero()), radius, area)]
        mismatch(prev, curr, x, y, cx, y.sum(zero()), radius, area).1.pattern() == 0
}

/// See [`shows_no_vertical_motion`].
pub open spec fn shows_no_horizontal_motion(
    prev: Source,
    curr: Grid<u8>,
    x: Binary32,
    y: Binary32,
    radius: int,
) -> bool {
    let area = (2 * radius + 1) * (2 * radius + 1);
    &&& hessian(prev, x, y, radius, area).1.pattern() == 0
    &&& forall|cy: Binary32|
        #![trigger mismatch(prev, curr, x, y, x.sum(zero()), cy, radius, area)]
        mismatch(prev, curr, x, y, x.sum(zero()), cy, radius, area).0.pattern() == 0
}

proof fn lemma_refined_horizontally(
    prev: Source,
    curr: Grid<u8>,
    x: Binary32,
    y: Binary32,
    radius: int,
    inverse: (Binary32, Binary32, Binary32),
    d: (Binary32, Binary32),
    iterations: int,
)
    requires
        is_in_bounds(prev.image, x, y, radius),
        0 <= prev.image.width <= 0x8000_0000,
        0 <= prev.image.height <= 0x8000_0000,
        0 <= curr.width <= 0x8000_0000,
        0 <= curr.height <= 0x8000_0000,
        0 <= radius < 0x8000_0000,
        shows_no_vertical_motion(prev, curr, x, y, radius),
        inverse.1.pattern() == 0,
        inverse.2.is_finite(),
        d.1 == zero(),
    ensures
        refined(prev, curr, x, y, radius, inverse, d, iterations).1 == zero(),
    decreases iterations,
{
    let cx = x.sum(d.0);
    let cy = y.sum(d.1);
    let area = window_area(radius);
    if iterations > 0 && is_in_bounds(curr, cx, cy, radius) {
        assert(area >= 0) by (nonlinear_arith)
            requires
                radius >= 0,
                area == (2 * radius + 1) * (2 * radius + 1),
        ;
        lemma_mismatch_bounded(prev, curr, x, y, cx, cy, radius, area);
        let b = mismatch(prev, curr, x, y, cx, cy, radius, area);
        lemma_product_zero(inverse.1, b.0);
        lemma_product_zero(inverse.2, b.1);
        let ddx = inverse.0.product(b.0).sum(inverse.1.product(b.1));
        let ddy = inverse.1.product(b.0).sum(inverse.2.product(b.1));
        lemma_sum_zero(inverse.1.product(b.0), inverse.2.product(b.1));
        lemma_sum_zero(zero(), ddy);
        let moved = (d.0.sum(ddx), d.1.sum(ddy));
        assert(moved.1 == zero());
        lemma_refined_horizontally(prev, curr, x, y, radius, inverse, moved, iterations - 1);
    }
}

proof fn lemma_refined_vertically(
    prev: Source,
    curr: Grid<u8>,
    x: Binary32,
    y: Binary32,
    radius: int,
    inverse: (Binary32, Binary32, Binary32),
    d: (Binary32, Binary32),
    iterations: int,
)
    requires
        is_in_bounds(prev.image, x, y, radius),
        0 <= prev.image.width <= 0x8000_0000,
        0 <= prev.image.height <= 0x8000_0000,
        0 <= curr.width <= 0x8000_0000,
        0 <= curr.height <= 0x8000_0000,
        0 <= radius < 0x8000_0000,
        shows_no_horizontal_motion(prev, curr, x, y, radius),
        inverse.1.pattern() == 0,
        inverse.0.is_finite(),
        d.0 == zero(),
    ensures
        refined(prev, curr, x, y, radius, inverse, d, iterations).0 == zero(),
    decreases iterations,
{
    let cx = x.sum(d.0);
    let cy = y.sum(d.1);
    let area = window_area(radius);
    if iterations > 0 && is_in_bounds(curr, cx, cy, radius) {
        assert(area >= 0) by (nonlinear_arith)
            requires
                radius >= 0,
                area == (2 * radius + 1) * (2 * radius + 1),
        ;
        lemma_mismatch_bounded(prev, curr, x, y, cx, cy, radius, area);
        let b = mismatch(prev, curr, x, y, cx, cy, radius, area);
        lemma_product_zero(inverse.0, b.0);
        lemma_product_zero(inverse.1, b.1);
        let ddx = inverse.0.product(b.0).sum(inverse.1.product(b.1));
        let ddy = inverse.1.product(b.0).sum(inverse.2.product(b.1));
        lemma_sum_zero(inverse.0.product(b.0), inverse.1.product(b.1));
        lemma_sum_zero(zero(), ddx);
        let moved = (d.0.sum(ddx), d.1.sum(ddy));
        assert(moved.0 == zero());
        lemma_refined_vertically(prev, curr, x, y, radius, inverse, moved, iterations - 1);
    }
}

/// The inverse of a matrix without a mixed part has none.
proof fn lemma_diagonal_inverse(a00: Binary32, a01: Binary32, a11: Binary32)
    requires
        is_bounded(a00, 53),
        is_bounded(a01, 53),
        is_bounded(a11, 53),
        a01.pattern() == 0,
    ensures
        inverse_2x2(a00, a01, a11, Binary32 { bits: DET_EPSILON }) matches Some(inverse) ==> {
            &&& inverse.0.is_finite()
            &&& inverse.1.pattern() == 0
            &&& inverse.2.is_finite()
        },
{
    lemma_inverse_finite(a00, a01, a11);
    if let Some(inverse) = inverse_2x2(a00, a01, a11, Binary32 { bits: DET_EPSILON }) {
        let inv = of_int(1).quotient(a00.product(a11).difference(a01.product(a01)));
        lemma_signed(!a01.negative(), a01.pattern());
        lemma_finite_product(a01.negated(), inv);
        lemma_product_zero(a01.negated(), inv);
    }
}

/// A feature does not leave its row at a level where its window tells nothing
/// about vertical motion, whatever the window's size and the number of
/// iterations.
#[verifier::spinoff_prover]
#[verifier::rlimit(40)]
pub proof fn lemma_level_moves_horizontally(
    prev: Source,
    curr: Grid<u8>,
    level: nat,
    radius: int,
    iterations: int,
    position: (Binary32, Binary32),
    d: (Binary32, Binary32),
)
    requires
        level < 128,
        0 <= prev.image.width <= 0x8000_0000,
        0 <= prev.image.height <= 0x8000_0000,
        0 <= curr.width <= 0x8000_0000,
        0 <= curr.height <= 0x8000_0000,
        0 <= radius < 0x8000_0000,
        shows_no_vertical_motion(
            prev,
            curr,
            position.0.quotient(of_power(level)),
            position.1.quotient(of_power(level)),
            radius,
        ),
        d.1 == zero(),
    ensures
        level_flow(prev, curr, of_power(level), radius, iterations, position, d) matches Some(e)
            ==> e.1 == zero(),
{
    let scale = of_power(level);
    let x = position.0.quotient(scale);
    let y = position.1.quotient(scale);
    let area = window_area(radius);
    lemma_zero_scaled(level);
    if is_in_bounds(prev.image, x, y, radius) {
        assert(area >= 0) by (nonlinear_arith)
            requires
                radius >= 0,
                area == (2 * radius + 1) * (2 * radius + 1),
        ;
        lemma_hessian_bounded(prev, x, y, radius, area);
        let h = hessian(prev, x, y, radius, area);
        lemma_diagonal_inverse(h.0, h.1, h.2);
        if let Some(inverse) = inverse_2x2(h.0, h.1, h.2, Binary32 { bits: DET_EPSILON }) {
            let start = (d.0.quotient(scale), d.1.quotient(scale));
            lemma_refined_horizontally(prev, curr, x, y, radius, inverse, start, iterations);
        }
    }
}

/// A feature does not leave its column at a level where its window tells
/// nothing about horizontal motion, whatever the window's size and the number of
/// iterations.
#[verifier::spinoff_prover]
#[verifier::rlimit(40)]
pub proof fn lemma_level_moves_vertically(
    prev: Source,
    curr: Grid<u8>,
    level: nat,
    radius: int,
    iterations: int,
    position: (Binary32, Binary32),
    d: (Binary32, Binary32),
)
    requires
        level < 128,
        0 <= prev.image.width <= 0x8000_0000,
        0 <= prev.image.height <= 0x8000_0000,
        0 <= curr.width <= 0x8000_0000,
        0 <= curr.height <= 0x8000_0000,
        0 <= radius < 0x8000_0000,
        shows_no_horizontal_motion(
            prev,
            curr,
            position.0.quotient(of_power(level)),
            position.1.quotient(of_power(level)),
            radius,
        ),
        d.0 == zero(),
    ensures
        level_flow(prev, curr, of_power(level), radius, iterations, position, d) matches Some(e)
            ==> e.0 == zero(),
{
    let scale = of_power(level);
    let x = position.0.quotient(scale);
    let y = position.1.quotient(scale);
    let area = window_area(radius);
    lemma_zero_scaled(level);
    if is_in_bounds(prev.image, x, y, radius) {
        assert(area >= 0) by (nonlinear_arith)
            requires
                radius >= 0,
                area == (2 * radius + 1) * (2 * radius + 1),
        ;
        lemma_hessian_bounded(prev, x, y, radius, area);
        let h = hessian(prev, x, y, radius, area);
        lemma_diagonal_inverse(h.0, h.1, h.2);
        if let Some(inverse) = inverse_2x2(h.0, h.1, h.2, Binary32 { bits: DET_EPSILON }) {
            let start = (d.0.quotient(scale), d.1.quotient(scale));
            lemma_refined_vertically(prev, curr, x, y, radius, inverse, start, iterations);
        }
    }
}

/// Images of moderate size.
pub open spec fn are_moderate(levels: Seq<Grid<u8>>) -> bool {
    forall|l: int|
        0 <= l < levels.len() ==> 0 <= (#[trigger] levels[l]).width <= 0x8000_0000 && 0
            <= levels[l].height <= 0x8000_0000
}

/// A feature moves along its row where no level of the pyramids shows vertical
/// motion in its window.
pub proof fn lemma_moves_horizontally(
    prev: Seq<Grid<u8>>,
    curr: Seq<Grid<u8>>,
    radius: int,
    iterations: int,
    position: (Binary32, Binary32),
)
    requires
        0 < prev.len() <= 128,
        curr.len() == prev.len(),
        are_moderate(prev),
        are_moderate(curr),
        0 <= radius < 0x8000_0000,
        forall|l: int|
            0 <= l < prev.len() ==> shows_no_vertical_motion(
                source_of(#[trigger] prev[l]),
                curr[l],
                position.0.quotient(of_power(l as nat)),
                position.1.quotient(of_power(l as nat)),
                radius,
            ),
    ensures
        is_same_number(
            position.1,
            flow_point(prev, curr, radius, iterations, position).1,
        ),
{
    lemma_displaced_horizontally(prev, curr, radius, iterations, position, 0);
    lemma_sum_with_zero(position.1);
}

proof fn lemma_displaced_horizontally(
    prev: Seq<Grid<u8>>,
    curr: Seq<Grid<u8>>,
    radius: int,
    iterations: int,
    position: (Binary32, Binary32),
    level: int,
)
    requires
        0 <= level <= prev.len() <= 128,
        curr.len() == prev.len(),
        are_moderate(prev),
        are_moderate(curr),
        0 <= radius < 0x8000_0000,
        forall|l: int|
            0 <= l < prev.len() ==> shows_no_vertical_motion(
                source_of(#[trigger] prev[l]),
                curr[l],
                position.0.quotient(of_power(l as nat)),
                position.1.quotient(of_power(l as nat)),
                radius,
            ),
    ensures
        displacement(prev, curr, radius, iterations, position, level).1 == zero(),
    decreases prev.len() - level,
{
    if level < prev.len() {
        lemma_displaced_horizontally(prev, curr, radius, iterations, position, level + 1);
        let before = displacement(prev, curr, radius, iterations, position, level + 1);
        assert(0 <= curr[level].width <= 0x8000_0000);
        lemma_level_moves_horizontally(
            source_of(prev[level]),
            curr[level],
            level as nat,
            radius,
            iterations,
            position,
            before,
        );
    }
}

/// A feature moves along its column where no level of the pyramids shows
/// horizontal motion in its window.
pub proof fn lemma_moves_vertically(
    prev: Seq<Grid<u8>>,
    curr: Seq<Grid<u8>>,
    radius: int,
    iterations: int,
    position: (Binary32, Binary32),
)
    requires
        0 < prev.len() <= 128,
        curr.len() == prev.len(),
        are_moderate(prev),
        are_moderate(curr),
        0 <= radius < 0x8000_0000,
        forall|l: int|
            0 <= l < prev.len() ==> shows_no_horizontal_motion(
                source_of(#[trigger] prev[l]),
                curr[l],
                position.0.quotient(of_power(l as nat)),
                position.1.quotient(of_power(l as nat)),
                radius,
            ),
    ensures
        is_same_number(
            position.0,
            flow_point(prev, curr, radius, iterations, position).0,
        ),
{
    lemma_displaced_vertically(prev, curr, radius, iterations, position, 0);
    lemma_sum_with_zero(position.0);
}

proof fn lemma_displaced_vertically(
    prev: Seq<Grid<u8>>,
    curr: Seq<Grid<u8>>,
    radius: int,
    iterations: int,
    position: (Binary32, Binary32),
    level: int,
)
    requires
        0 <= level <= prev.len() <= 128,
        curr.len() == prev.len(),
        are_moderate(prev),
        are_moderate(curr),
        0 <= radius < 0x8000_0000,
        forall|l: int|
            0 <= l < prev.len() ==> shows_no_horizontal_motion(
                source_of(#[trigger] prev[l]),
                curr[l],
                position.0.quotient(of_power(l as nat)),
                position.1.quotient(of_power(l as nat)),
                radius,
            ),
    ensures
        displacement(prev, curr, radius, iterations, position, level).0 == zero(),
    decreases prev.len() - level,
{
    if level < prev.len() {
        lemma_displaced_vertically(prev, curr, radius, iterations, position, level + 1);
        let before = displacement(prev, curr, radius, iterations, position, level + 1);
        assert(0 <= curr[level].width <= 0x8000_0000);
        lemma_level_moves_vertically(
            source_of(prev[level]),
            curr[level],
            level as nat,
            radius,
            iterations,
            position,
            before,
        );
    }
}

/// Whether a feature has a flow estimate is a matter of the coarsest level of
/// the previous pyramid: neither the finer levels, nor the current frame, nor
/// the number of iterations has a part in it.
pub proof fn lemma_flow_estimate_depends(
    prev: Seq<Grid<u8>>,
    curr: Seq<Grid<u8>>,
    other_prev: Seq<Grid<u8>>,
    other_curr: Seq<Grid<u8>>,
    radius: int,
    iterations: int,
    other_iterations: int,
    position: (Binary32, Binary32),
)
    requires
        prev.len() > 0,
        other_prev.len() == prev.len(),
        other_prev.last() == prev.last(),
    ensures
        has_flow(prev, curr, radius, iterations, position) == has_flow(
            other_prev,
            other_curr,
            radius,
            other_iterations,
            position,
        ),
{
}

/// Without further levels a feature with a flow estimate moves by what is found
/// on the images themselves, at full scale and from no displacement.
pub proof fn lemma_single_level(
    prev: Grid<u8>,
    curr: Grid<u8>,
    radius: int,
    iterations: int,
    position: (Binary32, Binary32),
)
    ensures
        ({
            let to = flow_point(seq![prev], seq![curr], radius, iterations, position);
            match level_flow(
                source_of(prev),
                curr,
                of_power(0),
                radius,
                iterations,
                position,
                (zero(), zero()),
            ) {
                None => is_same_number(position.0, to.0) && is_same_number(position.1, to.1),
                Some(e) => to == (position.0.sum(e.0), position.1.sum(e.1)),
            }
        }),
{
    lemma_sum_with_zero(position.0);
    lemma_sum_with_zero(position.1);
    reveal_with_fuel(displacement, 3);
}

/// A level takes the displacement of the next coarser one for its start, and
/// leaves it where it is skipped; the levels that are finer have no part in it.
pub proof fn lemma_coarse_to_fine(
    prev: Seq<Grid<u8>>,
    curr: Seq<Grid<u8>>,
    radius: int,
    iterations: int,
    position: (Binary32, Binary32),
    level: int,
)
    requires
        0 <= level < prev.len(),
    ensures
        ({
            let coarser = displacement(prev, curr, radius, iterations, position, level + 1);
            let here = displacement(prev, curr, radius, iterations, position, level);
            match level_flow(
                source_of(prev[level]),
                curr[level],
                of_power(level as nat),
                radius,
                iterations,
                position,
                coarser,
            ) {
                None => here == coarser,
                Some(e) => here == e,
            }
        }),
        displacement(prev, curr, radius, iterations, position, prev.len() as int) == (
            zero(),
            zero(),
        ),
{
}

/// The scale of a level is a power of two.
pub proof fn lemma_scale(level: nat)
    requires
        level <= 120,
    ensures
        of_power(level).is_finite(),
        of_power(level).value() == pow2(149 + level),
{
    lemma_power_units(level);
}

/// A matrix has an inverse where its determinant is above the limit, and each
/// entry of it is that of Cramer's rule, but for rounding.
pub proof fn lemma_inverse(
    a00: Binary32,
    a01: Binary32,
    a11: Binary32,
    limit: Binary32,
) -> (det: Binary32)
    requires
        limit.is_finite(),
        0 <= limit.value(),
    ensures
        det.is_finite() ==> is_determinant(det.value(), a00.value(), a01.value(), a11.value()),
        det.is_finite() ==> (inverse_2x2(a00, a01, a11, limit) is Some <==> magnitude(det.value())
            > limit.value()),
        inverse_2x2(a00, a01, a11, limit) matches Some(inverse) ==> det.is_finite() && magnitude(
            det.value(),
        ) <= pow2(149 + 120) ==> {
            &&& inverse.0.is_finite() ==> is_entry(inverse.0, det.value(), a11.value())
            &&& inverse.1.is_finite() ==> is_entry(inverse.1, det.value(), -a01.value())
            &&& inverse.2.is_finite() ==> is_entry(inverse.2, det.value(), a00.value())
        },
{
    let det = a00.product(a11).difference(a01.product(a01));
    if det.is_finite() {
        lemma_determinant(a00, a01, a11);
        lemma_signed(false, det.pattern());
        lemma_units_nonnegative(det.pattern());
        lemma_rank_orders_values(det.absolute(), limit);
        if inverse_2x2(a00, a01, a11, limit) is Some && magnitude(det.value()) <= pow2(149 + 120) {
            let inverse = inverse_2x2(a00, a01, a11, limit).unwrap();
            lemma_signed(!a01.negative(), a01.pattern());
            assert(det.pattern() != 0);
            if inverse.0.is_finite() {
                lemma_entry(a11, det);
            }
            if inverse.1.is_finite() {
                lemma_entry(a01.negated(), det);
            }
            if inverse.2.is_finite() {
                lemma_entry(a00, det);
            }
        }
    }
    det
}

/// An entry of an inverse: times the determinant it is an entry of the matrix.
pub open spec fn is_entry(entry: Binary32, det: int, a: int) -> bool {
    is_close(
        (entry.value() * one()) * det,
        (one() * one()) * a,
        6,
        (0x100_0000 * one()) * magnitude(det),
    )
}

proof fn lemma_entry(a: Binary32, det: Binary32)
    requires
        det.is_finite(),
        det.pattern() != 0,
        magnitude(det.value()) <= pow2(149 + 120),
        a.product(of_int(1).quotient(det)).is_finite(),
    ensures
        is_entry(a.product(of_int(1).quotient(det)), det.value(), a.value()),
{
    lemma_pow2_pos(149);
    let o = one();
    let inv = of_int(1).quotient(det);
    let p = a.product(inv);
    lemma_finite_product(a, inv);
    lemma_reciprocal(det);
    lemma_product_error(a, inv);
    let av = a.value();
    let iv = inv.value();
    let dv = det.value();
    let pv = p.value();
    let md = magnitude(dv);
    lemma_close_times(pv * o, av * iv, 2, 0x100_0000 * o, dv);
    lemma_close_times(iv * dv, o * o, 3, 0, av);
    assert((av * iv) * dv == (iv * dv) * av) by (nonlinear_arith);
    assert(0 * magnitude(av) == 0) by (nonlinear_arith);
    assert(0 <= (0x100_0000 * o) * md) by (nonlinear_arith)
        requires
            0 <= o,
            0 <= md,
    ;
    lemma_close_trans(
        (pv * o) * dv,
        (iv * dv) * av,
        (o * o) * av,
        2,
        (0x100_0000 * o) * md,
        3,
        0,
    );
}

/// Steps below a thousandth of a pixel end the refinement, and a determinant of
/// a millionth is the least.
pub proof fn lemma_limits()
    ensures
        ({
            let step = Binary32 { bits: STEP_EPSILON };
            let least = Binary32 { bits: DET_EPSILON };
            &&& step.is_finite()
            &&& least.is_finite()
            &&& 0x100_0000 * magnitude(1000 * step.value() - one()) <= one()
            &&& 0x100_0000 * magnitude(1_000_000 * least.value() - one()) <= one()
        }),
{
    lemma2_to64();
    let k: int = 0x3a83_126f;
    assert(k / 0x80_0000 == 117 && k % 0x80_0000 == 0x03_126f);
    lemma_pow2_pos(116);
    lemma_pow2_adds(116, 33);
    vstd::arithmetic::power2::lemma2_to64_rest();
    assert(one() == 0x2_0000_0000 * pow2(116)) by (nonlinear_arith)
        requires
            one() == pow2(116) * pow2(33),
            pow2(33) == 0x2_0000_0000,
    ;
    assert(units(k) == 0x83_126f * pow2(116));
    let m: int = 0x3586_37bd;
    assert(m / 0x80_0000 == 107 && m % 0x80_0000 == 0x06_37bd);
    lemma_pow2_pos(106);
    lemma_pow2_adds(106, 43);
    assert(one() == 0x800_0000_0000 * pow2(106)) by (nonlinear_arith)
        requires
            one() == pow2(106) * pow2(43),
            pow2(43) == 0x800_0000_0000,
    ;
    assert(units(m) == 0x86_37bd * pow2(106));
}

/// Every feature of a list is tracked and reported on by itself.
pub proof fn lemma_tracked_each(
    prev: Seq<Grid<u8>>,
    curr: Seq<Grid<u8>>,
    radius: int,
    iterations: int,
    features: Seq<Feature>,
    i: int,
)
    requires
        0 <= i < features.len(),
    ensures
        ({
            let f = features[i];
            let to = flow_point(prev, curr, radius, iterations, (f.x, f.y));
            &&& moved_all(prev, curr, radius, iterations, features)[i] == (Feature {
                x: to.0,
                y: to.1,
                strength: f.strength,
            })
            &&& flow_status(prev, curr, radius, iterations, features)[i] == has_flow(
                prev,
                curr,
                radius,
                iterations,
                (f.x, f.y),
            )
        }),
{
}

/// A level gives an estimate where the window stays inside the previous image
/// and the determinant of its matrix is above the limit, and nowhere else.
pub proof fn lemma_level_estimate(
    prev: Source,
    curr: Grid<u8>,
    radius: int,
    iterations: int,
    position: (Binary32, Binary32),
    d: (Binary32, Binary32),
) -> (det: Binary32)
    requires
        !position.0.is_nan(),
        !position.1.is_nan(),
    ensures
        !is_in_bounds(prev.image, position.0, position.1, radius) ==> level_flow(
            prev,
            curr,
            of_power(0),
            radius,
            iterations,
            position,
            d,
        ) is None,
        ({
            let g = hessian(
                prev,
                position.0,
                position.1,
                radius,
                (2 * radius + 1) * (2 * radius + 1),
            );
            det.is_finite() ==> is_determinant(
                det.value(),
                g.0.value(),
                g.1.value(),
                g.2.value(),
            )
        }),
        is_in_bounds(prev.image, position.0, position.1, radius) && det.is_finite() ==> (level_flow(
            prev,
            curr,
            of_power(0),
            radius,
            iterations,
            position,
            d,
        ) is Some <==> magnitude(det.value()) > (Binary32 { bits: DET_EPSILON }).value()),
{
    lemma_at_full_scale(position.0);
    lemma_at_full_scale(position.1);
    let g = hessian(prev, position.0, position.1, radius, window_area(radius));
    lemma_units_nonnegative((Binary32 { bits: DET_EPSILON }).pattern());
    lemma_inverse(g.0, g.1, g.2, Binary32 { bits: DET_EPSILON })
}

/// A feature with a flow estimate moves by the displacement after all levels,
/// and one without by none.
pub proof fn lemma_flow_point(
    prev: Seq<Grid<u8>>,
    curr: Seq<Grid<u8>>,
    radius: int,
    iterations: int,
    position: (Binary32, Binary32),
)
    ensures
        ({
            let to = flow_point(prev, curr, radius, iterations, position);
            let d = displacement(prev, curr, radius, iterations, position, 0);
            if has_flow(prev, curr, radius, iterations, position) {
                to.0 == position.0.sum(d.0) && to.1 == position.1.sum(d.1)
            } else {
                is_same_number(position.0, to.0) && is_same_number(position.1, to.1)
            }
        }),
{
    lemma_sum_with_zero(position.0);
    lemma_sum_with_zero(position.1);
}

/// A gradient inside a plane counts with its number, and one outside as zero.
pub proof fn lemma_gradient_tap_number(g: Grid<i16>, x: int, y: int)
    requires
        g.is_exact(),
    ensures
        gradient_numbers(g)(x, y).is_finite(),
        gradient_numbers(g)(x, y).value() == if g.contains(x, y) {
            g.at(x, y) * one()
        } else {
            0
        },
{
    lemma_tap_exact(g, x, y);
    if g.contains(x, y) {
        lemma_of_int_exact(g.at(x, y) as int);
    }
}

/// A pixel inside an image counts with its number, and one outside as zero.
pub proof fn lemma_gray_tap_number(g: Grid<u8>, x: int, y: int)
    requires
        g.is_exact(),
    ensures
        gray_numbers(g)(x, y).is_finite(),
        gray_numbers(g)(x, y).value() == if g.contains(x, y) {
            g.at(x, y) * one()
        } else {
            0
        },
{
    lemma_tap_exact(g, x, y);
    if g.contains(x, y) {
        lemma_of_int_exact(g.at(x, y) as int);
    }
}

/// An image is tracked with its own derivatives: on a ramp they are 32 times its
/// slopes, the horizontal ones in the first plane and the vertical ones in the
/// second.
pub proof fn lemma_source_of_ramp(g: Grid<u8>, slope_x: int, slope_y: int, level: int)
    requires
        g.is_exact(),
        forall|x: int, y: int|
            0 <= x < g.width && 0 <= y < g.height ==> #[trigger] g.at(x, y) == slope_x * x + slope_y
                * y + level,
    ensures
        source_of(g).image == g,
        forall|x: int, y: int|
            1 <= x < g.width - 1 && 1 <= y < g.height - 1 ==> #[trigger] source_of(g).grad_x.at(
                x,
                y,
            ) == 32 * slope_x,
        forall|x: int, y: int|
            1 <= x < g.width - 1 && 1 <= y < g.height - 1 ==> #[trigger] source_of(g).grad_y.at(
                x,
                y,
            ) == 32 * slope_y,
{
    assert(g.trimmed().samples =~= g.samples);
    lemma_gradients_of_ramp(g, slope_x, slope_y, level);
}

/// An image is tracked with its own derivatives, which are its gradients.
pub proof fn lemma_source_gradients(g: Grid<u8>)
    requires
        g.is_exact(),
    ensures
        source_of(g).image == g,
        source_of(g).grad_x == gradient_x(g),
        source_of(g).grad_y == gradient_y(g),
{
    assert(g.trimmed().samples =~= g.samples);
}

/// Adding either zero changes no number.
proof fn lemma_sum_with_either_zero(a: Binary32, z: Binary32)
    requires
        z.pattern() == 0,
    ensures
        is_same_number(a, a.sum(z)),
{
    reveal(Binary32::sum);
    lemma_units_nonnegative(a.pattern());
    if a.is_finite() && units(a.pattern()) != 0 {
        lemma_nearest_exact(a.pattern(), 1);
        lemma_signed(a.negative(), a.pattern());
    }
}

/// A window that finds the same values where it was moved to has no mismatch.
proof fn lemma_matching_window(
    prev: Source,
    curr: Grid<u8>,
    x: Binary32,
    y: Binary32,
    cx: Binary32,
    cy: Binary32,
    radius: int,
    n: int,
)
    requires
        is_in_bounds(prev.image, x, y, radius),
        0 <= prev.image.width <= 0x8000_0000,
        0 <= prev.image.height <= 0x8000_0000,
        0 <= radius < 0x8000_0000,
        0 <= n <= window_area(radius),
        forall|k: int|
            0 <= k < n ==> (#[trigger] patch(prev, x, y, radius, k)).value == bilinear(
                gray_numbers(curr),
                cx.sum(window_offsets(radius)[k].0),
                cy.sum(window_offsets(radius)[k].1),
            ),
    ensures
        mismatch(prev, curr, x, y, cx, cy, radius, n) == (zero(), zero()),
    decreases n,
{
    if n > 0 {
        lemma_matching_window(prev, curr, x, y, cx, cy, radius, n - 1);
        lemma_patch_bounded(prev, x, y, radius, n - 1);
        let p = patch(prev, x, y, radius, n - 1);
        lemma_difference_self(p.value);
        lemma_product_zero(p.ix, zero());
        lemma_product_zero(p.iy, zero());
        lemma_sum_zero(zero(), p.ix.product(zero()));
        lemma_sum_zero(zero(), p.iy.product(zero()));
    }
}

proof fn lemma_refined_fitting(
    prev: Source,
    curr: Grid<u8>,
    x: Binary32,
    y: Binary32,
    radius: int,
    inverse: (Binary32, Binary32, Binary32),
    d: (Binary32, Binary32),
    iterations: int,
)
    requires
        mismatch(prev, curr, x, y, x.sum(d.0), y.sum(d.1), radius, window_area(radius)) == (
            zero(),
            zero(),
        ),
        inverse.0.is_finite(),
        inverse.1.is_finite(),
        inverse.2.is_finite(),
    ensures
        is_same_number(d.0, refined(prev, curr, x, y, radius, inverse, d, iterations).0),
        is_same_number(d.1, refined(prev, curr, x, y, radius, inverse, d, iterations).1),
{
    lemma_product_zero(inverse.0, zero());
    lemma_product_zero(inverse.1, zero());
    lemma_product_zero(inverse.2, zero());
    let a = inverse.0.product(zero());
    let b = inverse.1.product(zero());
    let c = inverse.2.product(zero());
    lemma_sum_zero(a, b);
    lemma_sum_zero(b, c);
    lemma_sum_with_either_zero(d.0, a.sum(b));
    lemma_sum_with_either_zero(d.1, b.sum(c));
    lemma_signed(false, 0);
}

/// A displacement at which the window has no mismatch is kept by a level, but
/// for what scaling it down and up again changes.
pub proof fn lemma_fitting_displacement_kept(
    prev: Source,
    curr: Grid<u8>,
    scale: Binary32,
    radius: int,
    iterations: int,
    position: (Binary32, Binary32),
    d: (Binary32, Binary32),
)
    requires
        0 <= prev.image.width <= 0x8000_0000,
        0 <= prev.image.height <= 0x8000_0000,
        0 <= radius < 0x8000_0000,
        ({
            let x = position.0.quotient(scale);
            let y = position.1.quotient(scale);
            mismatch(
                prev,
                curr,
                x,
                y,
                x.sum(d.0.quotient(scale)),
                y.sum(d.1.quotient(scale)),
                radius,
                (2 * radius + 1) * (2 * radius + 1),
            ) == (zero(), zero())
        }),
    ensures
        level_flow(prev, curr, scale, radius, iterations, position, d) matches Some(e) ==> {
            &&& exists|a: Binary32| #[trigger]
                is_same_number(d.0.quotient(scale), a) && e.0 == a.product(scale)
            &&& exists|b: Binary32| #[trigger]
                is_same_number(d.1.quotient(scale), b) && e.1 == b.product(scale)
        },
{
    let x = position.0.quotient(scale);
    let y = position.1.quotient(scale);
    let area = window_area(radius);
    assert(area >= 0) by (nonlinear_arith)
        requires
            radius >= 0,
            area == (2 * radius + 1) * (2 * radius + 1),
    ;
    if is_in_bounds(prev.image, x, y, radius) {
        lemma_hessian_bounded(prev, x, y, radius, area);
        let h = hessian(prev, x, y, radius, area);
        lemma_inverse_finite(h.0, h.1, h.2);
        if let Some(inverse) = inverse_2x2(h.0, h.1, h.2, Binary32 { bits: DET_EPSILON }) {
            let start = (d.0.quotient(scale), d.1.quotient(scale));
            lemma_refined_fitting(prev, curr, x, y, radius, inverse, start, iterations);
            let end = refined(prev, curr, x, y, radius, inverse, start, iterations);
            assert(is_same_number(start.0, end.0) && is_same_number(start.1, end.1));
        }
    }
}

/// Sums of whole numbers are whole.
proof fn lemma_whole_sum(a: int, b: int)
    requires
        -0x100_0000 < a < 0x100_0000,
        -0x100_0000 < b < 0x100_0000,
        -0x100_0000 < a + b < 0x100_0000,
    ensures
        of_int(a).sum(of_int(b)) == of_int(a + b),
{
    reveal(Binary32::sum);
    lemma_of_int_exact(a);
    lemma_of_int_exact(b);
    lemma_of_int_exact(a + b);
    lemma_of_int_number(a);
    lemma_of_int_number(b);
    lemma_pow2_pos(149);
    let n = (a + b) * one();
    assert(a * one() + b * one() == n) by (nonlinear_arith)
        requires
            n == (a + b) * one(),
    ;
    assert((-(a + b)) * one() == -n && (n < 0 <==> a + b < 0) && (n == 0 <==> a + b == 0))
        by (nonlinear_arith)
        requires
            n == (a + b) * one(),
            one() > 0,
    ;
    if n == 0 {
        lemma_nearest_exact(0, 1);
        assert(0 * one() == 0) by (nonlinear_arith);
    }
}

/// Whole coordinates have no fraction.
proof fn lemma_whole_of_int(m: int)
    requires
        0 <= m < 0x100_0000,
    ensures
        whole(of_int(m)) == m,
        of_int(m).is_finite(),
{
    lemma_of_int_exact(m);
    lemma_pow2_pos(149);
    let u = of_int(m).value();
    assert(-0x8000_0000 * one() <= u < 0x8000_0000 * one()) by (nonlinear_arith)
        requires
            u == m * one(),
            0 <= m < 0x100_0000,
            one() > 0,
    ;
    lemma_whole(of_int(m));
    let f = whole(of_int(m));
    assert(f == m) by (nonlinear_arith)
        requires
            f * one() <= m * one() < (f + 1) * one(),
            one() > 0,
    ;
}

/// Samples at whole coordinates are the same where the pixels are.
proof fn lemma_same_sample(
    a: spec_fn(int, int) -> Binary32,
    b: spec_fn(int, int) -> Binary32,
    x: int,
    y: int,
    shift_x: int,
    shift_y: int,
)
    requires
        0 <= x < 0x80_0000,
        0 <= y < 0x80_0000,
        0 <= x + shift_x < 0x80_0000,
        0 <= y + shift_y < 0x80_0000,
        forall|i: int, j: int|
            x <= i <= x + 1 && y <= j <= y + 1 ==> #[trigger] a(i, j) == b(
                i + shift_x,
                j + shift_y,
            ),
    ensures
        bilinear(a, of_int(x), of_int(y)) == bilinear(
            b,
            of_int(x + shift_x),
            of_int(y + shift_y),
        ),
{
    reveal(bilinear);
    lemma_whole_of_int(x);
    lemma_whole_of_int(y);
    lemma_whole_of_int(x + shift_x);
    lemma_whole_of_int(y + shift_y);
    lemma_difference_self(of_int(x));
    lemma_difference_self(of_int(y));
    lemma_difference_self(of_int(x + shift_x));
    lemma_difference_self(of_int(y + shift_y));
    assert(a(x, y) == b(x + shift_x, y + shift_y));
    assert(a(x, y + 1) == b(x + shift_x, y + 1 + shift_y));
    assert(a(x + 1, y) == b(x + 1 + shift_x, y + shift_y));
    assert(a(x + 1, y + 1) == b(x + 1 + shift_x, y + 1 + shift_y));
}

/// The images show the same about a pixel and about where it was shifted to.
pub open spec fn is_shifted(
    prev: Grid<u8>,
    curr: Grid<u8>,
    x: int,
    y: int,
    radius: int,
    shift_x: int,
    shift_y: int,
) -> bool {
    forall|i: int, j: int|
        x - radius <= i <= x + radius + 1 && y - radius <= j <= y + radius + 1 ==> prev.contains(
            i,
            j,
        ) && curr.contains(i + shift_x, j + shift_y) && #[trigger] prev.at(i, j) == curr.at(
            i + shift_x,
            j + shift_y,
        )
}

/// The shift that the images show is where tracking comes to rest: a feature
/// that starts from it keeps it, to the right by `shift_x` and down by `shift_y`,
/// whatever the size of the window and the number of iterations.
#[verifier::spinoff_prover]
#[verifier::rlimit(40)]
pub proof fn lemma_shift_is_kept(
    prev: Grid<u8>,
    curr: Grid<u8>,
    x: int,
    y: int,
    radius: int,
    iterations: int,
    shift_x: int,
    shift_y: int,
)
    requires
        prev.is_exact(),
        curr.is_exact(),
        prev.width < 0x40_0000,
        prev.height < 0x40_0000,
        curr.width < 0x40_0000,
        curr.height < 0x40_0000,
        0 <= radius,
        is_shifted(prev, curr, x, y, radius, shift_x, shift_y),
    ensures
        level_flow(
            source_of(prev),
            curr,
            of_power(0),
            radius,
            iterations,
            (of_int(x), of_int(y)),
            (of_int(shift_x), of_int(shift_y)),
        ) matches Some(e) ==> {
            &&& e.0.is_finite()
            &&& e.1.is_finite()
            &&& e.0.value() == shift_x * one()
            &&& e.1.value() == shift_y * one()
        },
{
    let source = source_of(prev);
    let area = window_area(radius);
    let px = of_int(x);
    let py = of_int(y);
    let dx = of_int(shift_x);
    let dy = of_int(shift_y);
    // Pixels of the corners of the window bound everything.
    assert(prev.at(x - radius, y - radius) == curr.at(x - radius + shift_x, y - radius + shift_y));
    assert(prev.at(x + radius + 1, y + radius + 1) == curr.at(
        x + radius + 1 + shift_x,
        y + radius + 1 + shift_y,
    ));
    lemma_of_int_exact(x);
    lemma_of_int_exact(y);
    lemma_of_int_exact(shift_x);
    lemma_of_int_exact(shift_y);
    lemma_at_full_scale(px);
    lemma_at_full_scale(py);
    lemma_at_full_scale(dx);
    lemma_at_full_scale(dy);
    lemma_whole_sum(x, shift_x);
    lemma_whole_sum(y, shift_y);
    assert(area >= 0) by (nonlinear_arith)
        requires
            radius >= 0,
            area == (2 * radius + 1) * (2 * radius + 1),
    ;
    if is_in_bounds(prev, px, py, radius) {
        assert forall|k: int| 0 <= k < area implies (#[trigger] patch(
            source,
            px,
            py,
            radius,
            k,
        )).value == bilinear(
            gray_numbers(curr),
            px.sum(dx).sum(window_offsets(radius)[k].0),
            py.sum(dy).sum(window_offsets(radius)[k].1),
        ) by {
            let (i, j) = lemma_window_pixel(radius, k);
            lemma_whole_sum(x, i);
            lemma_whole_sum(y, j);
            lemma_whole_sum(x + shift_x, i);
            lemma_whole_sum(y + shift_y, j);
            assert forall|u: int, v: int|
                x + i <= u <= x + i + 1 && y + j <= v <= y + j + 1 implies #[trigger] gray_numbers(
                prev,
            )(u, v) == gray_numbers(curr)(u + shift_x, v + shift_y) by {
                assert(prev.at(u, v) == curr.at(u + shift_x, v + shift_y));
                lemma_tap_exact(prev, u, v);
                lemma_tap_exact(curr, u + shift_x, v + shift_y);
            }
            lemma_same_sample(
                gray_numbers(prev),
                gray_numbers(curr),
                x + i,
                y + j,
                shift_x,
                shift_y,
            );
        }
        lemma_matching_window(source, curr, px, py, px.sum(dx), py.sum(dy), radius, area);
        lemma_hessian_bounded(source, px, py, radius, area);
        let h = hessian(source, px, py, radius, area);
        lemma_inverse_finite(h.0, h.1, h.2);
        if let Some(inverse) = inverse_2x2(h.0, h.1, h.2, Binary32 { bits: DET_EPSILON }) {
            lemma_refined_fitting(source, curr, px, py, radius, inverse, (dx, dy), iterations);
            let end = refined(source, curr, px, py, radius, inverse, (dx, dy), iterations);
            lemma_times_one(end.0);
            lemma_times_one(end.1);
            lemma_rank_orders_values(dx, end.0);
            lemma_rank_orders_values(dy, end.1);
        }
    }
}

} // verus!
