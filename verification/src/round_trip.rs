//! When a feature counts as back from a round trip.
use vstd::arithmetic::power2::lemma_pow2_pos;
use vstd::prelude::*;

use crate::binary32::{
    lemma_of_int_exact, lemma_rank_orders_values, lemma_signed, lemma_square_number, magnitude,
    of_int, Binary32,
};
use crate::corners::lemma_product_monotone;
use crate::feature::Feature;
use crate::lk::{has_flow, moved};
use crate::precision::{
    lemma_difference_error, lemma_finite_product, lemma_finite_sum, lemma_magnitude_times,
    lemma_product_error, lemma_sum_error, one,
};
use crate::rounding::{
    lemma_nearest_bounded, lemma_nearest_in_range, lemma_nearest_monotone, lemma_units_increase,
    lemma_units_nonnegative, nearest, units,
};
use crate::tracker::{survives_round_trip, TrackerState};

verus! {

/// A feature after its way to the last frame and back.
pub open spec fn returned(s: TrackerState, f: Feature) -> Feature {
    let radius = s.settings.window_size as int / 2;
    let iterations = s.settings.max_iterations as int;
    moved(
        s.current,
        s.previous,
        radius,
        iterations,
        moved(s.previous, s.current, radius, iterations, f),
    )
}

/// A feature has a flow estimate on both ways.
pub open spec fn has_flow_both_ways(s: TrackerState, f: Feature) -> bool {
    let radius = s.settings.window_size as int / 2;
    let iterations = s.settings.max_iterations as int;
    let there = moved(s.previous, s.current, radius, iterations, f);
    &&& has_flow(s.previous, s.current, radius, iterations, (f.x, f.y))
    &&& has_flow(s.current, s.previous, radius, iterations, (there.x, there.y))
}

/// The square of the distance between two features, in units.
pub open spec fn separation_sq(a: Feature, b: Feature) -> int {
    let dx = a.x.value() - b.x.value();
    let dy = a.y.value() - b.y.value();
    dx * dx + dy * dy
}

/// A valid feature has a flow estimate on both ways, and the bound is not
/// negative.
#[verifier::spinoff_prover]
proof fn lemma_verdict_flows(s: TrackerState, max_fb_error: Binary32, f: Feature)
    requires
        survives_round_trip(s, max_fb_error, f),
    ensures
        has_flow_both_ways(s, f),
        of_int(0).is_at_most(max_fb_error),
{
}

/// A valid feature comes back to a squared distance of at most the square of the
/// bound.
#[verifier::spinoff_prover]
proof fn lemma_verdict_distance(s: TrackerState, max_fb_error: Binary32, f: Feature)
    requires
        survives_round_trip(s, max_fb_error, f),
    ensures
        error_sq(f, returned(s, f)).is_at_most(max_fb_error.product(max_fb_error)),
{
}

/// A feature of which all of this holds is valid.
#[verifier::spinoff_prover]
proof fn lemma_verdict_valid(s: TrackerState, max_fb_error: Binary32, f: Feature)
    requires
        has_flow_both_ways(s, f),
        of_int(0).is_at_most(max_fb_error),
        error_sq(f, returned(s, f)).is_at_most(max_fb_error.product(max_fb_error)),
    ensures
        survives_round_trip(s, max_fb_error, f),
{
}

proof fn lemma_verdict(s: TrackerState, max_fb_error: Binary32, f: Feature)
    ensures
        survives_round_trip(s, max_fb_error, f) <==> {
            &&& has_flow_both_ways(s, f)
            &&& of_int(0).is_at_most(max_fb_error)
            &&& error_sq(f, returned(s, f)).is_at_most(max_fb_error.product(max_fb_error))
        },
{
    if survives_round_trip(s, max_fb_error, f) {
        lemma_verdict_flows(s, max_fb_error, f);
        lemma_verdict_distance(s, max_fb_error, f);
    }
    if has_flow_both_ways(s, f) && of_int(0).is_at_most(max_fb_error) && error_sq(
        f,
        returned(s, f),
    ).is_at_most(max_fb_error.product(max_fb_error)) {
        lemma_verdict_valid(s, max_fb_error, f);
    }
}

/// The rounded square of the distance between two features.
spec fn error_sq(from: Feature, to: Feature) -> Binary32 {
    let ex = to.x.difference(from.x);
    let ey = to.y.difference(from.y);
    ex.product(ex).sum(ey.product(ey))
}

proof fn lemma_square_exact(a: Binary32)
    requires
        a.product(a).is_finite(),
    ensures
        ({
            let v = a.value();
            let p = a.product(a).value();
            &&& p >= 0
            &&& 0x100_0000 * (p * one() - v * v) <= 2 * (v * v) + 0x100_0000 * one()
            &&& 0x100_0000 * (v * v - p * one()) <= 2 * (v * v) + 0x100_0000 * one()
        }),
{
    lemma_finite_product(a, a);
    lemma_product_error(a, a);
    lemma_square_number(a);
    lemma_units_nonnegative(a.product(a).pattern());
    let v = a.value();
    assert(v * v >= 0) by (nonlinear_arith);
}

/// The square of a rounded difference.
proof fn lemma_difference_square(a: Binary32, b: Binary32)
    requires
        a.difference(b).is_finite(),
    ensures
        ({
            let d = a.value() - b.value();
            let e = a.difference(b).value();
            &&& 0x40_0000 * (d * d) <= 0x40_0001 * (e * e)
            &&& 0x40_0000 * (e * e) <= 0x40_0001 * (d * d)
        }),
{
    lemma_difference_error(a, b);
    let d = a.value() - b.value();
    let e = a.difference(b).value();
    let md = magnitude(d);
    let me = magnitude(e);
    assert(0x100_0000 * md <= 0x100_0001 * me);
    assert(0xff_ffff * me <= 0x100_0000 * md);
    lemma_magnitude_times(d, d);
    lemma_magnitude_times(e, e);
    assert(0x40_0000 * (md * md) <= 0x40_0001 * (me * me)) by (nonlinear_arith)
        requires
            0x100_0000 * md <= 0x100_0001 * me,
            0 <= md,
            0 <= me,
    ;
    assert(0x40_0000 * (me * me) <= 0x40_0001 * (md * md)) by (nonlinear_arith)
        requires
            0xff_ffff * me <= 0x100_0000 * md,
            0 <= md,
            0 <= me,
    ;
    assert(d * d >= 0) by (nonlinear_arith);
    assert(e * e >= 0) by (nonlinear_arith);
}

/// A feature that is valid came back to within the bound of where it started,
/// but for rounding: less than `2^-19` of the bound's square, and a few units.
pub proof fn lemma_valid_is_back(s: TrackerState, max_fb_error: Binary32, f: Feature)
    requires
        survives_round_trip(s, max_fb_error, f),
        max_fb_error.product(max_fb_error).is_finite(),
    ensures
        has_flow_both_ways(s, f),
        of_int(0).is_at_most(max_fb_error),
        returned(s, f).x.is_finite(),
        returned(s, f).y.is_finite(),
        f.x.is_finite(),
        f.y.is_finite(),
        0x8_0000 * separation_sq(returned(s, f), f) <= 0x8_0001 * (max_fb_error.value()
            * max_fb_error.value()) + 0x40_0000 * one(),
{
    lemma_pow2_pos(149);
    let back = returned(s, f);
    let ex = back.x.difference(f.x);
    let ey = back.y.difference(f.y);
    let p = ex.product(ex);
    let q = ey.product(ey);
    let total = p.sum(q);
    let limit = max_fb_error.product(max_fb_error);
    lemma_square_number(max_fb_error);
    lemma_verdict(s, max_fb_error, f);
    assert(total.is_at_most(limit));
    // A sum that is at most a finite number is finite: squares have no sign.
    assert(!total.negative()) by {
        reveal(Binary32::sum);
        reveal(Binary32::product);
        if !ex.is_nan() {
            lemma_square_number(ex);
        }
        if !ey.is_nan() {
            lemma_square_number(ey);
        }
        lemma_units_nonnegative(p.pattern());
        lemma_units_nonnegative(q.pattern());
        let n = p.value() + q.value();
        lemma_nearest_in_range(magnitude(n), 1);
        lemma_signed(n < 0, nearest(magnitude(n), 1));
        lemma_signed(p.negative() && q.negative(), 0);
    }
    assert(total.is_finite());
    lemma_finite_sum(p, q);
    lemma_finite_product(ex, ex);
    lemma_finite_product(ey, ey);
    lemma_square_exact(ex);
    lemma_square_exact(ey);
    lemma_square_exact(max_fb_error);
    lemma_difference_square(back.x, f.x);
    lemma_difference_square(back.y, f.y);
    lemma_difference_error(back.x, f.x);
    lemma_difference_error(back.y, f.y);
    lemma_sum_error(p, q);
    lemma_rank_orders_values(total, limit);
    let x2 = ex.value() * ex.value();
    let y2 = ey.value() * ey.value();
    let b2 = max_fb_error.value() * max_fb_error.value();
    let pv = p.value();
    let qv = q.value();
    let tv = total.value();
    let gv = limit.value();
    assert(b2 >= 0) by (nonlinear_arith)
        requires
            b2 == max_fb_error.value() * max_fb_error.value(),
    ;
    assert(0xff_ffff * (pv + qv) <= 0x100_0000 * gv) by {
        assert(0x100_0000 * (pv + qv) <= 0x100_0001 * tv);
    }
    assert(0xff_ffff * (pv * one() + qv * one()) <= 0x100_0000 * (gv * one())) by (nonlinear_arith)
        requires
            0xff_ffff * (pv + qv) <= 0x100_0000 * gv,
            one() > 0,
    ;
    let sum = x2 + y2;
    assert(0xff_fffe * sum <= 0x100_0000 * (pv * one() + qv * one()) + 0x200_0000 * one());
    assert(0x100_0000 * (gv * one()) <= 0x100_0002 * b2 + 0x100_0000 * one());
}

/// A feature with a flow estimate on both ways that came back to within the
/// bound, by more than rounding can take away, is valid.
pub proof fn lemma_back_is_valid(s: TrackerState, max_fb_error: Binary32, f: Feature)
    requires
        has_flow_both_ways(s, f),
        of_int(0).is_at_most(max_fb_error),
        max_fb_error.product(max_fb_error).is_finite(),
        f.x.is_finite(),
        f.y.is_finite(),
        returned(s, f).x.is_finite(),
        returned(s, f).y.is_finite(),
        0x8_0001 * separation_sq(returned(s, f), f) + 0x40_0000 * one() <= 0x8_0000 * (
        max_fb_error.value() * max_fb_error.value()),
    ensures
        survives_round_trip(s, max_fb_error, f),
{
    lemma_pow2_pos(149);
    lemma_of_int_exact(0);
    let back = returned(s, f);
    let ex = back.x.difference(f.x);
    let ey = back.y.difference(f.y);
    let limit = max_fb_error.product(max_fb_error);
    let bound = max_fb_error;
    lemma_finite_product(bound, bound);
    lemma_square_number(bound);
    lemma_rank_orders_values(of_int(0), bound);
    let dx = back.x.value() - f.x.value();
    let dy = back.y.value() - f.y.value();
    let b = bound.value();
    assert(dx * dx >= 0 && dy * dy >= 0) by (nonlinear_arith);
    assert(dx * dx <= b * b && dy * dy <= b * b) by (nonlinear_arith)
        requires
            0x8_0001 * (dx * dx + dy * dy) + 0x40_0000 * one() <= 0x8_0000 * (b * b),
            one() > 0,
            dx * dx >= 0,
            dy * dy >= 0,
    ;
    lemma_difference_within(back.x, f.x, bound);
    lemma_difference_within(back.y, f.y, bound);
    lemma_square_within(ex, bound);
    lemma_square_within(ey, bound);
    lemma_square_exact(ex);
    lemma_square_exact(ey);
    lemma_square_exact(bound);
    lemma_difference_square(back.x, f.x);
    lemma_difference_square(back.y, f.y);
    let p = ex.product(ex);
    let q = ey.product(ey);
    let x2 = ex.value() * ex.value();
    let y2 = ey.value() * ey.value();
    let b2 = b * b;
    let pv = p.value();
    let qv = q.value();
    let gv = limit.value();
    assert(b2 >= 0) by (nonlinear_arith)
        requires
            b2 == b * b,
    ;
    assert(0x100_0000 * (pv * one() + qv * one()) <= 0x100_0002 * (x2 + y2) + 0x200_0000 * one());
    assert(0xff_fffe * b2 <= 0x100_0000 * (gv * one()) + 0x100_0000 * one());
    assert(pv * one() + qv * one() <= gv * one());
    assert(pv + qv <= gv) by (nonlinear_arith)
        requires
            pv * one() + qv * one() <= gv * one(),
            one() > 0,
    ;
    // The rounded sum is not above the squared bound.
    reveal(Binary32::sum);
    lemma_square_number(ex);
    lemma_square_number(ey);
    let n = pv + qv;
    lemma_nearest_in_range(n, 1);
    lemma_nearest_bounded(n, 1, limit.pattern());
    lemma_signed(false, nearest(n, 1));
    lemma_signed(p.negative() && q.negative(), 0);
    lemma_verdict(s, bound, f);
}

/// A difference that is not above a number is finite, and not above it.
proof fn lemma_difference_within(a: Binary32, b: Binary32, bound: Binary32)
    requires
        a.is_finite(),
        b.is_finite(),
        bound.is_finite(),
        (a.value() - b.value()) * (a.value() - b.value()) <= bound.value() * bound.value(),
    ensures
        a.difference(b).is_finite(),
        units(a.difference(b).pattern()) <= units(bound.pattern()),
{
    reveal(Binary32::sum);
    lemma_signed(!b.negative(), b.pattern());
    let d = a.value() - b.value();
    let u = units(bound.pattern());
    lemma_units_nonnegative(bound.pattern());
    let v = bound.value();
    assert(magnitude(d) <= u) by (nonlinear_arith)
        requires
            d * d <= v * v,
            v == u || v == -u,
            u >= 0,
            magnitude(d) == d || magnitude(d) == -d,
            magnitude(d) >= 0,
    ;
    lemma_nearest_in_range(magnitude(d), 1);
    lemma_nearest_bounded(magnitude(d), 1, bound.pattern());
    let k = nearest(magnitude(d), 1);
    lemma_signed(d < 0, k);
    lemma_signed(a.negative() && b.negated().negative(), 0);
    if k < bound.pattern() {
        lemma_units_increase(k, bound.pattern());
    }
}

/// The square of a number that is not above another one is finite with its
/// square.
proof fn lemma_square_within(a: Binary32, bound: Binary32)
    requires
        a.is_finite(),
        bound.is_finite(),
        bound.product(bound).is_finite(),
        units(a.pattern()) <= units(bound.pattern()),
    ensures
        a.product(a).is_finite(),
{
    reveal(Binary32::product);
    lemma_pow2_pos(149);
    let u = units(a.pattern());
    let v = units(bound.pattern());
    lemma_units_nonnegative(a.pattern());
    assert(0 <= u * u <= v * v) by (nonlinear_arith)
        requires
            0 <= u <= v,
    ;
    lemma_nearest_monotone(u * u, v * v, one());
    lemma_nearest_in_range(u * u, one());
    lemma_nearest_in_range(v * v, one());
    lemma_signed(false, nearest(u * u, one()));
    lemma_signed(false, nearest(v * v, one()));
}

/// Exchanging the coordinates of where a feature starts and of where it comes
/// back to leaves the verdict.
pub proof fn lemma_verdict_exchanged(
    s: TrackerState,
    f: Feature,
    t: TrackerState,
    h: Feature,
    max_fb_error: Binary32,
)
    requires
        has_flow_both_ways(s, f),
        has_flow_both_ways(t, h),
        h.x == f.y,
        h.y == f.x,
        returned(t, h).x == returned(s, f).y,
        returned(t, h).y == returned(s, f).x,
    ensures
        survives_round_trip(s, max_fb_error, f) == survives_round_trip(t, max_fb_error, h),
{
    let ex = returned(s, f).x.difference(f.x);
    let ey = returned(s, f).y.difference(f.y);
    lemma_sum_commutes(ex.product(ex), ey.product(ey));
    lemma_verdict(s, max_fb_error, f);
    lemma_verdict(t, max_fb_error, h);
}

proof fn lemma_sum_commutes(a: Binary32, b: Binary32)
    ensures
        a.sum(b) == b.sum(a),
{
    reveal(Binary32::sum);
}

/// A valid feature is valid for every larger bound.
pub proof fn lemma_larger_bound(
    s: TrackerState,
    bound: Binary32,
    larger: Binary32,
    f: Feature,
)
    requires
        survives_round_trip(s, bound, f),
        bound.is_finite(),
        larger.is_finite(),
        bound.is_at_most(larger),
    ensures
        survives_round_trip(s, larger, f),
{
    lemma_product_monotone(bound, bound, larger);
    lemma_of_int_exact(0);
    lemma_product_monotone(larger, bound, larger);
    lemma_product_commutes(bound, larger);
    lemma_verdict(s, bound, f);
    lemma_verdict(s, larger, f);
}

proof fn lemma_product_commutes(a: Binary32, b: Binary32)
    ensures
        a.product(b) == b.product(a),
{
    reveal(Binary32::product);
    assert(units(a.pattern()) * units(b.pattern()) == units(b.pattern()) * units(a.pattern()))
        by (nonlinear_arith);
}

} // verus!
