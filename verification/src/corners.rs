//! What the score of a corner is, and which corners are detected.
use vstd::arithmetic::power2::{
    lemma2_to64, lemma2_to64_rest, lemma_pow2_adds, lemma_pow2_pos, pow2,
};
use vstd::prelude::*;

use crate::binary32::{
    lemma_difference_bounded, lemma_of_int_bounded, lemma_of_int_exact, lemma_of_int_number,
    lemma_power_units, lemma_product_zero, lemma_quotient_bounded, lemma_rank_orders_values,
    lemma_signed, magnitude, of_int, Binary32,
};
use crate::feature::Feature;
use crate::features::{
    best_score, candidates, comes_before, is_detection, is_local_max, is_ranking, is_selection,
    lemma_best_score, lemma_candidate, lemma_candidates_distinct, lemma_candidates_in_image,
    lemma_detection, lemma_same_candidates, lemma_scored, lemma_selection, min_eigenvalue, peaks,
    products, scaled_product, score, score_at, scored, Candidate,
};
use crate::grid::{lemma_grid_of_at, lemma_index, lemma_same_grid, transposed, Grid};
use crate::precision::{
    is_close, lemma_difference_error, lemma_nearest_units_error, lemma_quotient_error,
    lemma_root_error, one,
};
use crate::rounding::{
    lemma_nearest_bounded, lemma_nearest_in_range, lemma_nearest_monotone,
    lemma_nearest_root_in_range, lemma_units_increase, lemma_units_nonnegative, nearest,
    nearest_root, units, INFINITY_PATTERN,
};
use crate::spacing::{
    accepted, distance_sq, is_represented, is_settled, lemma_all_settled, selected,
};
use crate::utils::box_filter_3x3::{
    box_filtered, is_ninth, lemma_box_filter_mean, lemma_box_filter_mean_anywhere,
    lemma_box_filter_transposed, nearest_value, nine_sum,
};
use crate::utils::fast_gradients::{
    gradient_x, gradient_y, lemma_gradient_bounds, lemma_gradients_transposed,
};

verus! {

/// `p` is a 32nd part of `a`, rounded toward zero.
pub open spec fn is_thirty_second(p: int, a: int) -> bool {
    if a >= 0 {
        32 * p <= a < 32 * p + 32
    } else {
        32 * p - 32 < a <= 32 * p
    }
}

/// A product of gradients is that of their 32nd parts.
pub proof fn lemma_scaled_product(a: i16, b: i16, p: int, q: int)
    requires
        is_thirty_second(p, a as int),
        is_thirty_second(q, b as int),
    ensures
        scaled_product(a, b) == p * q,
{
}

proof fn lemma_root_finite(a: Binary32)
    requires
        a.is_finite(),
        !a.negative(),
        a.value() <= pow2(149 + 34),
    ensures
        a.root().is_finite(),
{
    reveal(Binary32::root);
    if a.pattern() != 0 {
        let u = units(a.pattern());
        let p = u * one();
        lemma_units_nonnegative(a.pattern());
        lemma_nearest_root_in_range(p);
        let k = nearest_root(p);
        lemma_signed(false, k);
        if k == INFINITY_PATTERN {
            lemma_power_units(100);
            let low = 227int * 0x80_0000;
            lemma_units_increase(low, k - 1);
            lemma_units_increase(low, k);
            let sum = units(k - 1) + units(k);
            let b = pow2(149 + 100) as int;
            lemma_pow2_adds(149 + 100, 149 + 100);
            lemma_pow2_adds(149 + 34, 149);
            lemma_pow2_pos(149);
            vstd::arithmetic::power2::lemma_pow2_strictly_increases(332, 498);
            assert(p <= pow2(149 + 34) * pow2(149)) by (nonlinear_arith)
                requires
                    p == u * pow2(149),
                    0 <= u <= pow2(149 + 34),
            ;
            assert(sum * sum >= 4 * (b * b)) by (nonlinear_arith)
                requires
                    sum >= 2 * b,
                    b >= 0,
            ;
        }
    }
}

/// A score is the smaller eigenvalue of a matrix, but for rounding: with its
/// double the trace goes down to a root of the discriminant.
pub proof fn lemma_eigenvalue(a: int, b: int, c: int) -> (root: int)
    requires
        i16::MIN <= a <= i16::MAX,
        i16::MIN <= b <= i16::MAX,
        i16::MIN <= c <= i16::MAX,
    ensures
        min_eigenvalue(a, b, c).is_finite(),
        root >= 0,
        is_close(root * root, ((a - b) * (a - b) + 4 * (c * c)) * (one() * one()), 16, 0),
        0x100_0000 * magnitude(
            2 * min_eigenvalue(a, b, c).value() - ((a + b) * one() - root),
        ) <= 4 * (magnitude(a + b) * one() + root) + 0x400_0000,
{
    lemma2_to64();
    lemma2_to64_rest();
    lemma_pow2_pos(149);
    let trace = a + b;
    let disc = (a - b) * (a - b) + 4 * (c * c);
    assert(0 <= disc <= 0x4_0000_0000) by (nonlinear_arith)
        requires
            disc == (a - b) * (a - b) + 4 * (c * c),
            -0x1_0000 <= a - b <= 0x1_0000,
            -0x8000 <= c <= 0x8000,
    ;
    let d = of_int(disc);
    lemma_of_int_bounded(disc, 34);
    lemma_of_int_number(disc);
    let r = d.root();
    lemma_root_finite(d);
    lemma_root_error(d);
    let root = r.value();
    let t = of_int(trace);
    lemma_of_int_exact(trace);
    // The discriminant and its root.
    let p = disc * one();
    assert(0 <= p) by (nonlinear_arith)
        requires
            p == disc * one(),
            0 <= disc,
            0 < one(),
    ;
    lemma_nearest_in_range(p, 1);
    lemma_signed(false, nearest(p, 1));
    lemma_nearest_units_error(p);
    let q = d.value();
    assert(0x100_0000 * magnitude(q * one() - disc * (one() * one())) <= q * one())
        by (nonlinear_arith)
        requires
            0x100_0000 * (q - disc * one()) <= q,
            0x100_0000 * (disc * one() - q) <= q,
            magnitude(q * one() - disc * (one() * one())) == if q * one() - disc * (one() * one())
                < 0 {
                -(q * one() - disc * (one() * one()))
            } else {
                q * one() - disc * (one() * one())
            },
            0 < one(),
    ;
    let s = root * root;
    let full = disc * (one() * one());
    if disc == 0 {
        assert(p == 0) by (nonlinear_arith)
            requires
                p == disc * one(),
                disc == 0,
        ;
        lemma_nearest_bounded(0, 1, 0);
        assert(d.pattern() == 0);
        reveal(Binary32::root);
        assert(root == 0);
        assert(s == 0 && full == 0) by (nonlinear_arith)
            requires
                root == 0,
                disc == 0,
                s == root * root,
                full == disc * (one() * one()),
        ;
    } else {
        assert(full >= one() * one()) by (nonlinear_arith)
            requires
                disc >= 1,
                full == disc * (one() * one()),
                one() > 0,
        ;
        assert(0x4000_0000_0000int * 0x4000_0000_0000 <= one()) by {
            lemma_pow2_adds(46, 46);
            lemma_pow2_adds(92, 57);
            assert(pow2(46) == 0x4000_0000_0000);
            assert(pow2(92) == 0x4000_0000_0000int * 0x4000_0000_0000);
            lemma_pow2_pos(57);
            assert(pow2(92) <= pow2(92) * pow2(57)) by (nonlinear_arith)
                requires
                    pow2(57) >= 1,
            ;
        }
        assert(root >= 0x1000_0000) by (nonlinear_arith)
            requires
                s == root * root,
                root >= 0,
                0x40_0000 * (q * one() - s) <= s + 0x100_0000 * root + 0x100_0000,
                0x100_0000 * (full - q * one()) <= q * one(),
                full >= one() * one(),
                one() >= 0x4000_0000_0000int * 0x4000_0000_0000,
        ;
        assert(0x100_0000 * root + 0x100_0000 <= s) by (nonlinear_arith)
            requires
                s == root * root,
                root >= 0x1000_0000,
        ;
        assert(is_close(s, full, 16, 0));
    }
    // The difference and its half.
    lemma_pow2_adds(149, 20);
    lemma_pow2_adds(149, 19);
    assert(trace * one() <= 0x1_0000 * one() && -(0x1_0000 * one()) <= trace * one())
        by (nonlinear_arith)
        requires
            -0x1_0000 <= trace <= 0x1_0000,
            0 < one(),
    ;
    assert(full <= 0x4_0000_0000 * (one() * one())) by (nonlinear_arith)
        requires
            full == disc * (one() * one()),
            0 <= disc <= 0x4_0000_0000,
            0 < one(),
    ;
    assert(root <= 0x8_0000 * one()) by (nonlinear_arith)
        requires
            s == root * root,
            0x100_0000 * (s - full) <= 16 * full,
            full <= 0x4_0000_0000 * (one() * one()),
            0 < one(),
            0 <= root,
    ;
    lemma_difference_bounded(t, r, 20);
    let e = t.difference(r);
    lemma_difference_error(t, r);
    lemma_of_int_exact(2);
    lemma_pow2_adds(149, 1);
    assert(2 * pow2(149) == pow2(150)) by {
        vstd::arithmetic::power2::lemma_pow2_unfold(150);
    }
    lemma_quotient_bounded(e, of_int(2), 149, 20);
    lemma_quotient_error(e, of_int(2));
    let half = e.quotient(of_int(2));
    let ev = e.value();
    let l = half.value();
    assert(0x100_0000 * magnitude(2 * l - ev) <= 2 * magnitude(ev) + 0x200_0000) by {
        let m = magnitude(2 * l - ev);
        crate::precision::lemma_magnitude_times(2 * l - ev, one());
        crate::precision::lemma_magnitude_times(ev, one());
        assert(l * (2 * one()) - ev * one() == (2 * l - ev) * one()) by (nonlinear_arith);
        assert(0x100_0000 * m <= 2 * magnitude(ev) + 0x200_0000) by (nonlinear_arith)
            requires
                0x100_0000 * (m * one()) <= 2 * (magnitude(ev) * one()) + 0x100_0000 * (2 * one()),
                0 < one(),
        ;
    }
    assert(magnitude(trace * one()) == magnitude(trace) * one()) by {
        crate::precision::lemma_magnitude_times(trace, one());
    }
    root
}

/// Exchanging the sides of a matrix leaves its smaller eigenvalue.
pub proof fn lemma_eigenvalue_symmetric(a: int, b: int, c: int)
    ensures
        min_eigenvalue(a, b, c) == min_eigenvalue(b, a, c),
{
    assert((a - b) * (a - b) == (b - a) * (b - a)) by (nonlinear_arith);
}

proof fn lemma_product_fits(a: i16, b: i16)
    requires
        -4080 <= a <= 4080,
        -4080 <= b <= 4080,
    ensures
        -16384 <= scaled_product(a, b) <= 16384,
        scaled_product(a, b) == scaled_product(b, a),
{
    let p = crate::utils::box_filter_3x3::truncating_div(a as int, 32);
    let q = crate::utils::box_filter_3x3::truncating_div(b as int, 32);
    assert(-16384 <= p * q <= 16384) by (nonlinear_arith)
        requires
            -128 <= p <= 128,
            -128 <= q <= 128,
    ;
    assert(p * q == q * p) by (nonlinear_arith);
}

proof fn lemma_gradients_bounded(g: Grid<u8>, x: int, y: int)
    requires
        g.contains(x, y),
    ensures
        -4080 <= gradient_x(g).at(x, y) <= 4080,
        -4080 <= gradient_y(g).at(x, y) <= 4080,
{
    lemma_index(g.width, g.height, x, y);
    lemma_gradient_bounds(g);
    let i = y * g.width + x;
    assert(-4080 <= gradient_x(g).samples[i] <= 4080);
    assert(-4080 <= gradient_y(g).samples[i] <= 4080);
}

proof fn lemma_products_at(a: Grid<i16>, b: Grid<i16>, x: int, y: int)
    requires
        a.contains(x, y),
        -4080 <= a.at(x, y) <= 4080,
        -4080 <= b.at(x, y) <= 4080,
    ensures
        products(a, b).at(x, y) == scaled_product(a.at(x, y), b.at(x, y)),
{
    lemma_grid_of_at(
        a.width,
        a.height,
        |x: int, y: int| scaled_product(a.at(x, y), b.at(x, y)) as i16,
        x,
        y,
    );
    lemma_product_fits(a.at(x, y), b.at(x, y));
}

/// The nine products of two gradients about a pixel, added up.
pub open spec fn product_sum(a: Grid<i16>, b: Grid<i16>, x: int, y: int) -> int {
    nine_sum(|i: int, j: int| scaled_product(a.at(i, j), b.at(i, j)), x, y)
}

proof fn lemma_products_exact(a: Grid<i16>, b: Grid<i16>)
    requires
        0 <= a.width <= u32::MAX,
        0 <= a.height <= u32::MAX,
    ensures
        products(a, b).is_exact(),
{
    crate::grid::lemma_grid_of_exact(
        a.width,
        a.height,
        |x: int, y: int| scaled_product(a.at(x, y), b.at(x, y)) as i16,
    );
}

/// The averaged products about an interior pixel.
proof fn lemma_averages(g: Grid<u8>, a: Grid<i16>, b: Grid<i16>, x: int, y: int)
    requires
        g.is_exact(),
        1 <= x < g.width - 1,
        1 <= y < g.height - 1,
        a == gradient_x(g) || a == gradient_y(g),
        b == gradient_x(g) || b == gradient_y(g),
    ensures
        is_ninth(box_filtered(products(a, b)).at(x, y) as int, product_sum(a, b, x, y)),
{
    let p = products(a, b);
    lemma_products_exact(a, b);
    lemma_box_filter_mean(p, x, y);
    assert forall|i: int, j: int|
        x - 1 <= i <= x + 1 && y - 1 <= j <= y + 1 implies #[trigger] p.at(i, j) == scaled_product(
        a.at(i, j),
        b.at(i, j),
    ) by {
        lemma_gradients_bounded(g, i, j);
        lemma_products_at(a, b, i, j);
    }
}

/// The score of an interior pixel is the smaller eigenvalue of the means of the
/// products of the gradients at the nine pixels about it: `xx` of the
/// horizontal with themselves, `yy` of the vertical, `xy` of both.
pub proof fn lemma_score(g: Grid<u8>, x: int, y: int) -> (r: (int, int, int, int))
    requires
        g.is_exact(),
        1 <= x < g.width - 1,
        1 <= y < g.height - 1,
    ensures
        ({
            let (xx, yy, xy, root) = r;
            let s = score(g, x, y);
            &&& is_ninth(xx, product_sum(gradient_x(g), gradient_x(g), x, y))
            &&& is_ninth(yy, product_sum(gradient_y(g), gradient_y(g), x, y))
            &&& is_ninth(xy, product_sum(gradient_x(g), gradient_y(g), x, y))
            &&& s.is_finite()
            &&& root >= 0
            &&& is_close(
                root * root,
                ((xx - yy) * (xx - yy) + 4 * (xy * xy)) * (one() * one()),
                16,
                0,
            )
            &&& 0x100_0000 * magnitude(2 * s.value() - ((xx + yy) * one() - root)) <= 4 * (
            magnitude(xx + yy) * one() + root) + 0x400_0000
        }),
{
    let gx = gradient_x(g);
    let gy = gradient_y(g);
    lemma_averages(g, gx, gx, x, y);
    lemma_averages(g, gy, gy, x, y);
    lemma_averages(g, gx, gy, x, y);
    let xx = box_filtered(products(gx, gx)).at(x, y) as int;
    let yy = box_filtered(products(gy, gy)).at(x, y) as int;
    let xy = box_filtered(products(gx, gy)).at(x, y) as int;
    let root = lemma_eigenvalue(xx, yy, xy);
    (xx, yy, xy, root)
}

proof fn lemma_products_transposed(g: Grid<u8>, a: Grid<i16>, b: Grid<i16>)
    requires
        g.is_exact(),
        a == gradient_x(g) || a == gradient_y(g),
        b == gradient_x(g) || b == gradient_y(g),
    ensures
        products(transposed(a), transposed(b)) == transposed(products(a, b)),
        products(a, b) == products(b, a),
{
    let ta = transposed(a);
    let tb = transposed(b);
    lemma_products_exact(ta, tb);
    lemma_products_exact(a, b);
    lemma_products_exact(b, a);
    crate::grid::lemma_grid_of_exact(a.height, a.width, |x: int, y: int| products(a, b).at(y, x));
    assert forall|x: int, y: int| 0 <= x < ta.width && 0 <= y < ta.height implies products(
        ta,
        tb,
    ).at(x, y) == transposed(products(a, b)).at(x, y) by {
        lemma_grid_of_at(ta.width, ta.height, |x: int, y: int| a.at(y, x), x, y);
        lemma_grid_of_at(ta.width, ta.height, |x: int, y: int| b.at(y, x), x, y);
        lemma_gradients_bounded(g, y, x);
        lemma_products_at(ta, tb, x, y);
        lemma_products_at(a, b, y, x);
        lemma_grid_of_at(ta.width, ta.height, |x: int, y: int| products(a, b).at(y, x), x, y);
    }
    lemma_same_grid(products(ta, tb), transposed(products(a, b)));
    assert forall|x: int, y: int| 0 <= x < a.width && 0 <= y < a.height implies products(a, b).at(
        x,
        y,
    ) == products(b, a).at(x, y) by {
        lemma_gradients_bounded(g, x, y);
        lemma_products_at(a, b, x, y);
        lemma_products_at(b, a, x, y);
        lemma_product_fits(a.at(x, y), b.at(x, y));
    }
    lemma_same_grid(products(a, b), products(b, a));
}

/// Exchanging rows and columns of an image exchanges those of its scores.
pub proof fn lemma_score_transposed(g: Grid<u8>, x: int, y: int)
    requires
        g.is_exact(),
        g.contains(x, y),
    ensures
        score(transposed(g), y, x) == score(g, x, y),
{
    let gx = gradient_x(g);
    let gy = gradient_y(g);
    lemma_gradients_transposed(g);
    lemma_products_transposed(g, gx, gx);
    lemma_products_transposed(g, gy, gy);
    lemma_products_transposed(g, gx, gy);
    lemma_products_transposed(g, gy, gx);
    lemma_products_exact(gx, gx);
    lemma_products_exact(gy, gy);
    lemma_products_exact(gx, gy);
    lemma_box_filter_transposed(products(gx, gx));
    lemma_box_filter_transposed(products(gy, gy));
    lemma_box_filter_transposed(products(gx, gy));
    let bx = box_filtered(products(gx, gx));
    let by = box_filtered(products(gy, gy));
    let bxy = box_filtered(products(gx, gy));
    lemma_grid_of_at(g.height, g.width, |x: int, y: int| bx.at(y, x), y, x);
    lemma_grid_of_at(g.height, g.width, |x: int, y: int| by.at(y, x), y, x);
    lemma_grid_of_at(g.height, g.width, |x: int, y: int| bxy.at(y, x), y, x);
    lemma_eigenvalue_symmetric(bx.at(x, y) as int, by.at(x, y) as int, bxy.at(x, y) as int);
}

/// The score of an interior pixel depends on the 5 by 5 pixels about it alone.
pub proof fn lemma_score_local(g: Grid<u8>, h: Grid<u8>, x: int, y: int)
    requires
        g.is_exact(),
        h.is_exact(),
        g.width == h.width,
        g.height == h.height,
        1 <= x < g.width - 1,
        1 <= y < g.height - 1,
        forall|i: int, j: int|
            g.contains(i, j) && x - 2 <= i <= x + 2 && y - 2 <= j <= y + 2 ==> #[trigger] g.at(
                i,
                j,
            ) == h.at(i, j),
    ensures
        score(g, x, y) == score(h, x, y),
{
    let gx = gradient_x(g);
    let gy = gradient_y(g);
    let hx = gradient_x(h);
    let hy = gradient_y(h);
    assert forall|i: int, j: int| x - 1 <= i <= x + 1 && y - 1 <= j <= y + 1 implies gx.at(i, j)
        == hx.at(i, j) && #[trigger] gy.at(i, j) == hy.at(i, j) by {
        lemma_index(g.width, g.height, i, j);
        assert(forall|k: int, l: int|
            g.contains(k, l) && i - 1 <= k <= i + 1 && j - 1 <= l <= j + 1 ==> #[trigger] g.at(k, l)
                == h.at(k, l));
    }
    assert forall|i: int, j: int|
        x - 1 <= i <= x + 1 && y - 1 <= j <= y + 1 implies #[trigger] gx.at(i, j) == hx.at(
        i,
        j,
    ) by {
        assert(gy.at(i, j) == hy.at(i, j));
    }
    lemma_same_averages(g, h, gx, gx, hx, hx, x, y);
    lemma_same_averages(g, h, gy, gy, hy, hy, x, y);
    lemma_same_averages(g, h, gx, gy, hx, hy, x, y);
}

proof fn lemma_same_averages(
    g: Grid<u8>,
    h: Grid<u8>,
    a: Grid<i16>,
    b: Grid<i16>,
    c: Grid<i16>,
    d: Grid<i16>,
    x: int,
    y: int,
)
    requires
        g.is_exact(),
        h.is_exact(),
        g.width == h.width,
        g.height == h.height,
        1 <= x < g.width - 1,
        1 <= y < g.height - 1,
        a == gradient_x(g) || a == gradient_y(g),
        b == gradient_x(g) || b == gradient_y(g),
        c == gradient_x(h) || c == gradient_y(h),
        d == gradient_x(h) || d == gradient_y(h),
        forall|i: int, j: int|
            x - 1 <= i <= x + 1 && y - 1 <= j <= y + 1 ==> #[trigger] a.at(i, j) == c.at(i, j),
        forall|i: int, j: int|
            x - 1 <= i <= x + 1 && y - 1 <= j <= y + 1 ==> #[trigger] b.at(i, j) == d.at(i, j),
    ensures
        box_filtered(products(a, b)).at(x, y) == box_filtered(products(c, d)).at(x, y),
{
    lemma_averages(g, a, b, x, y);
    lemma_averages(h, c, d, x, y);
    assert(product_sum(a, b, x, y) == product_sum(c, d, x, y)) by {
        assert forall|i: int, j: int| x - 1 <= i <= x + 1 && y - 1 <= j <= y + 1 implies a.at(i, j)
            == c.at(i, j) && b.at(i, j) == d.at(i, j) by {
            assert(a.at(i, j) == c.at(i, j));
            assert(b.at(i, j) == d.at(i, j));
        }
    }
}

/// Making an image brighter by a constant leaves its scores.
pub proof fn lemma_score_of_brighter(g: Grid<u8>, h: Grid<u8>, change: int)
    requires
        g.is_exact(),
        h.is_exact(),
        g.width == h.width,
        g.height == h.height,
        forall|x: int, y: int| g.contains(x, y) ==> #[trigger] h.at(x, y) == g.at(x, y) + change,
    ensures
        gradient_x(h) == gradient_x(g),
        gradient_y(h) == gradient_y(g),
        forall|x: int, y: int| score(h, x, y) == #[trigger] score(g, x, y),
{
    assert(gradient_x(h).samples =~= gradient_x(g).samples) by {
        assert forall|i: int| 0 <= i < g.width * g.height implies gradient_x(h).samples[i]
            == gradient_x(g).samples[i] by {
            crate::grid::lemma_place(g.width, g.height, i);
        }
    }
    assert(gradient_y(h).samples =~= gradient_y(g).samples) by {
        assert forall|i: int| 0 <= i < g.width * g.height implies gradient_y(h).samples[i]
            == gradient_y(g).samples[i] by {
            crate::grid::lemma_place(g.width, g.height, i);
        }
    }
}

/// An interior pixel whose score is not below that of any of its neighbours.
pub open spec fn is_corner(g: Grid<u8>, x: int, y: int) -> bool {
    &&& 1 <= x < g.width - 1
    &&& 1 <= y < g.height - 1
    &&& forall|nx: int, ny: int|
        x - 1 <= nx <= x + 1 && y - 1 <= ny <= y + 1 ==> !score(g, x, y).is_less(
            #[trigger] score(g, nx, ny),
        )
}

/// Corners are the local maxima of the scores.
proof fn lemma_corners(g: Grid<u8>, x: int, y: int)
    requires
        g.is_exact(),
    ensures
        is_corner(g, x, y) <==> is_local_max(scored(g), g.width, g.height, x, y),
        is_corner(g, x, y) ==> scored(g)[y * g.width + x] == (x as u32, y as u32, score(g, x, y)),
{
    let s = scored(g);
    if 1 <= x < g.width - 1 && 1 <= y < g.height - 1 {
        assert forall|nx: int, ny: int|
            x - 1 <= nx <= x + 1 && y - 1 <= ny <= y + 1 implies #[trigger] score_at(
            s,
            g.width,
            nx,
            ny,
        ) == score(g, nx, ny) by {
            lemma_index(g.width, g.height, nx, ny);
        }
        lemma_index(g.width, g.height, x, y);
        assert(score_at(s, g.width, x, y) == score(g, x, y));
        if is_corner(g, x, y) {
            assert forall|nx: int, ny: int|
                x - 1 <= nx <= x + 1 && y - 1 <= ny <= y + 1 implies !score_at(
                s,
                g.width,
                x,
                y,
            ).is_less(#[trigger] score_at(s, g.width, nx, ny)) by {
                assert(!score(g, x, y).is_less(score(g, nx, ny)));
            }
        }
        if is_local_max(s, g.width, g.height, x, y) {
            assert forall|nx: int, ny: int|
                x - 1 <= nx <= x + 1 && y - 1 <= ny <= y + 1 implies !score(g, x, y).is_less(
                #[trigger] score(g, nx, ny),
            ) by {
                assert(!score_at(s, g.width, x, y).is_less(score_at(s, g.width, nx, ny)));
            }
        }
    }
}

/// Products with a number that is not negative keep the order.
pub proof fn lemma_product_monotone(q: Binary32, a: Binary32, b: Binary32)
    requires
        q.is_finite(),
        of_int(0).is_at_most(q),
        a.is_finite(),
        b.is_finite(),
        a.is_at_most(b),
    ensures
        q.product(a).is_at_most(q.product(b)),
{
    lemma_of_int_exact(0);
    if q.pattern() == 0 {
        lemma_product_zero(q, a);
        lemma_product_zero(q, b);
    } else {
        reveal(Binary32::product);
        lemma_pow2_pos(149);
        let u = units(q.pattern());
        let v = units(a.pattern());
        let w = units(b.pattern());
        lemma_units_nonnegative(q.pattern());
        lemma_units_nonnegative(a.pattern());
        lemma_units_nonnegative(b.pattern());
        lemma_rank_orders_values(a, b);
        assert(0 <= u * v && 0 <= u * w) by (nonlinear_arith)
            requires
                0 <= u,
                0 <= v,
                0 <= w,
        ;
        lemma_nearest_in_range(u * v, one());
        lemma_nearest_in_range(u * w, one());
        lemma_signed(a.negative(), nearest(u * v, one()));
        lemma_signed(b.negative(), nearest(u * w, one()));
        if v <= w {
            assert(u * v <= u * w) by (nonlinear_arith)
                requires
                    0 <= u,
                    v <= w,
            ;
            lemma_nearest_monotone(u * v, u * w, one());
        } else {
            assert(u * w <= u * v) by (nonlinear_arith)
                requires
                    0 <= u,
                    w <= v,
            ;
            lemma_nearest_monotone(u * w, u * v, one());
        }
        if v == 0 {
            assert(u * v == 0 && 0 * one() == 0) by (nonlinear_arith)
                requires
                    v == 0,
            ;
            crate::rounding::lemma_nearest_exact(0, one());
        }
        if w == 0 {
            assert(u * w == 0 && 0 * one() == 0) by (nonlinear_arith)
                requires
                    w == 0,
            ;
            crate::rounding::lemma_nearest_exact(0, one());
        }
    }
}

/// The candidates of an image are its corners whose score reaches the given
/// part of the score of every corner, and is not negative.
pub proof fn lemma_candidates_exactly(g: Grid<u8>, quality_level: Binary32, c: Candidate)
    requires
        g.is_exact(),
        quality_level.is_finite(),
        of_int(0).is_at_most(quality_level),
    ensures
        candidates(g, quality_level).contains(c) <==> {
            &&& is_corner(g, c.0 as int, c.1 as int)
            &&& c.2 == score(g, c.0 as int, c.1 as int)
            &&& of_int(0).is_at_most(c.2)
            &&& forall|x: int, y: int| #[trigger]
                is_corner(g, x, y) ==> quality_level.product(score(g, x, y)).is_at_most(c.2)
        },
{
    let s = scored(g);
    let p = peaks(s, g.width, g.height);
    let best = best_score(p);
    let local = |c: Candidate| is_local_max(s, g.width, g.height, c.0 as int, c.1 as int);
    let reaches = |c: Candidate| quality_level.product(best).is_at_most(c.2);
    lemma_scored(g);
    lemma_best_score(p);
    lemma_of_int_exact(0);
    lemma_corners(g, c.0 as int, c.1 as int);
    // A local maximum is a corner with its score.
    assert forall|k: int| 0 <= k < p.len() implies is_corner(
        g,
        (#[trigger] p[k]).0 as int,
        p[k].1 as int,
    ) && p[k].2 == score(g, p[k].0 as int, p[k].1 as int) by {
        s.lemma_filter_pred(local, k);
        lemma_corners(g, p[k].0 as int, p[k].1 as int);
        s.lemma_filter_contains_rev(local, p[k]);
        let i = choose|i: int| 0 <= i < s.len() && s[i] == p[k];
        crate::grid::lemma_place(g.width, g.height, i);
    }
    assert(best.is_finite()) by {
        if best != (Binary32 { bits: 0 }) {
            let k = choose|k: int| 0 <= k < p.len() && best == (#[trigger] p[k]).2;
            let r = lemma_score(g, p[k].0 as int, p[k].1 as int);
        }
    }
    // And every corner is one of them.
    assert forall|x: int, y: int| #[trigger] is_corner(g, x, y) implies p.contains(
        (x as u32, y as u32, score(g, x, y)),
    ) by {
        lemma_corners(g, x, y);
        lemma_index(g.width, g.height, x, y);
        s.lemma_filter_contains(local, y * g.width + x);
    }
    if candidates(g, quality_level).contains(c) {
        lemma_candidate(g, quality_level, c);
        assert forall|x: int, y: int| #[trigger] is_corner(g, x, y) implies quality_level.product(
            score(g, x, y),
        ).is_at_most(c.2) by {
            let m = (x as u32, y as u32, score(g, x, y));
            let k = choose|k: int| 0 <= k < p.len() && p[k] == m;
            assert(!best.is_less(p[k].2));
            let r = lemma_score(g, x, y);
            lemma_product_monotone(quality_level, score(g, x, y), best);
        }
        lemma_product_monotone(quality_level, Binary32 { bits: 0 }, best);
        lemma_product_zero(quality_level, Binary32 { bits: 0 });
    }
    if is_corner(g, c.0 as int, c.1 as int) && c.2 == score(g, c.0 as int, c.1 as int) && of_int(
        0,
    ).is_at_most(c.2) && forall|x: int, y: int| #[trigger]
        is_corner(g, x, y) ==> quality_level.product(score(g, x, y)).is_at_most(c.2) {
        if best == (Binary32 { bits: 0 }) {
            lemma_product_zero(quality_level, best);
        } else {
            let k = choose|k: int| 0 <= k < p.len() && best == (#[trigger] p[k]).2;
            assert(is_corner(g, p[k].0 as int, p[k].1 as int));
        }
        let k = choose|k: int| 0 <= k < p.len() && p[k] == c;
        assert(p.contains(c));
        p.lemma_filter_contains(reaches, k);
    }
}

/// Of two different pixels with scores that are numbers one comes before the
/// other.
proof fn lemma_comes_before_total(a: Candidate, b: Candidate)
    requires
        !a.2.is_nan(),
        !b.2.is_nan(),
        a.0 != b.0 || a.1 != b.1,
        !comes_before(b, a),
    ensures
        comes_before(a, b),
{
}

/// A higher score comes first, and of equal scores the upper pixel, then the
/// left one.
pub proof fn lemma_comes_before(a: Candidate, b: Candidate)
    requires
        a.2.is_finite(),
        b.2.is_finite(),
    ensures
        a.2.value() > b.2.value() ==> comes_before(a, b),
        a.2.value() < b.2.value() ==> !comes_before(a, b),
        a.2.value() == b.2.value() && a.1 < b.1 ==> comes_before(a, b),
        a.2.value() == b.2.value() && a.1 == b.1 ==> (comes_before(a, b) <==> a.0 < b.0),
        a.2.value() == b.2.value() && a.1 > b.1 ==> !comes_before(a, b),
{
    lemma_rank_orders_values(a.2, b.2);
    lemma_rank_orders_values(b.2, a.2);
}

/// Which candidates are detected: one that is left out is too near to a
/// detected one that comes before it, or there were enough before it.
pub proof fn lemma_selection_exactly(
    points: Seq<Candidate>,
    g: Grid<u8>,
    quality_level: Binary32,
    min_distance: u32,
    max_features: int,
)
    requires
        g.is_exact(),
        is_selection(points, g, quality_level, min_distance, max_features),
        0 <= max_features,
    ensures
        forall|i: int, j: int|
            0 <= i < j < points.len() ==> comes_before(#[trigger] points[i], #[trigger] points[j]),
        forall|c: Candidate| #[trigger]
            candidates(g, quality_level).contains(c) ==> {
                ||| points.contains(c)
                ||| exists|i: int|
                    0 <= i < points.len() && distance_sq(#[trigger] points[i], c) < min_distance
                        * min_distance && comes_before(points[i], c)
                ||| points.len() == max_features && forall|i: int|
                    0 <= i < points.len() ==> comes_before(#[trigger] points[i], c)
            },
{
    let all = candidates(g, quality_level);
    let order = choose|order: Seq<Candidate>|
        #[trigger] is_ranking(order, g, quality_level) && points == selected(
            order,
            min_distance,
            max_features,
        );
    lemma_selection(points, g, quality_level, min_distance, max_features);
    lemma_candidates_distinct(g, quality_level);
    lemma_candidates_in_image(g, quality_level);
    all.lemma_multiset_has_no_duplicates();
    order.lemma_multiset_has_no_duplicates_conv();
    lemma_all_settled(order, order.len() as int, min_distance, max_features);
    // Ranked candidates stand for different pixels, each before the next.
    assert forall|i: int, j: int| 0 <= i < j < order.len() implies comes_before(
        #[trigger] order[i],
        #[trigger] order[j],
    ) by {
        lemma_same_candidates(order, all, i);
        lemma_same_candidates(order, all, j);
        lemma_candidate(g, quality_level, order[i]);
        lemma_candidate(g, quality_level, order[j]);
        let a = choose|a: int| 0 <= a < all.len() && all[a] == order[i];
        let b = choose|b: int| 0 <= b < all.len() && all[b] == order[j];
        assert(!all[a].2.is_nan() && !all[b].2.is_nan());
        assert(order[i] != order[j]);
        lemma_comes_before_total(order[i], order[j]);
    }
    lemma_accepted_in_order(order, order.len() as int, min_distance, max_features);
    assert forall|i: int, j: int| 0 <= i < j < points.len() implies comes_before(
        #[trigger] points[i],
        #[trigger] points[j],
    ) by {
        assert(appears_before(order, points[i], points[j]));
        let (a, b) = choose|a: int, b: int|
            0 <= a < b < order.len() && #[trigger] order[a] == points[i] && #[trigger] order[b]
                == points[j];
        assert(comes_before(order[a], order[b]));
    }
    assert forall|c: Candidate| #[trigger] all.contains(c) implies {
        ||| points.contains(c)
        ||| exists|i: int|
            0 <= i < points.len() && distance_sq(#[trigger] points[i], c) < min_distance
                * min_distance && comes_before(points[i], c)
        ||| points.len() == max_features && forall|i: int|
            0 <= i < points.len() ==> comes_before(#[trigger] points[i], c)
    } by {
        let k = choose|k: int| 0 <= k < all.len() && all[k] == c;
        lemma_same_candidates(all, order, k);
        let m = choose|m: int| 0 <= m < order.len() && order[m] == c;
        assert(is_settled(order, points, max_features, min_distance, m));
        if points.contains(c) {
        } else if exists|j: int|
            0 <= j < m && points.contains(#[trigger] order[j]) && distance_sq(order[j], order[m])
                < min_distance * min_distance {
            let j = choose|j: int|
                0 <= j < m && points.contains(#[trigger] order[j]) && distance_sq(
                    order[j],
                    order[m],
                ) < min_distance * min_distance;
            let i = choose|i: int| 0 <= i < points.len() && points[i] == order[j];
            assert(comes_before(order[j], order[m]));
            assert(distance_sq(points[i], c) < min_distance * min_distance);
        } else {
            let earlier = order.take(m);
            assert forall|i: int| 0 <= i < points.len() implies comes_before(
                #[trigger] points[i],
                c,
            ) by {
                assert(earlier.contains(points[i]));
                let j = choose|j: int| 0 <= j < earlier.len() && earlier[j] == points[i];
                assert(order[j] == points[i]);
                assert(comes_before(order[j], order[m]));
            }
        }
    }
}

/// One stands before the other in an order.
spec fn appears_before(order: Seq<Candidate>, p: Candidate, q: Candidate) -> bool {
    exists|a: int, b: int|
        0 <= a < b < order.len() && #[trigger] order[a] == p && #[trigger] order[b] == q
}

/// Points are accepted in their order.
proof fn lemma_accepted_in_order(order: Seq<Candidate>, n: int, d: u32, most: int)
    requires
        0 <= n <= order.len(),
    ensures
        forall|i: int, j: int|
            0 <= i < j < accepted(order, n, d, most).len() ==> appears_before(
                order,
                #[trigger] accepted(order, n, d, most)[i],
                #[trigger] accepted(order, n, d, most)[j],
            ),
    decreases n,
{
    if n > 0 {
        lemma_accepted_in_order(order, n - 1, d, most);
        lemma_all_settled(order, n - 1, d, most);
        let before = accepted(order, n - 1, d, most);
        let points = accepted(order, n, d, most);
        assert forall|i: int, j: int| 0 <= i < j < points.len() implies appears_before(
            order,
            #[trigger] points[i],
            #[trigger] points[j],
        ) by {
            assert(points[i] == before[i]);
            if j < before.len() {
                assert(points[j] == before[j]);
            } else {
                let earlier = order.take(n - 1);
                assert(earlier.contains(before[i]));
                let m = choose|m: int| 0 <= m < earlier.len() && earlier[m] == before[i];
                assert(order[m] == points[i]);
                assert(order[n - 1] == points[j]);
            }
        }
    }
}

/// Detected features: no more than were asked for, in descending order of
/// strength, each on a corner of the image with its score for strength, which
/// reaches the given part of the score of every corner, and every two of them
/// apart by the minimal distance.
pub proof fn lemma_detected(
    found: Seq<Feature>,
    g: Grid<u8>,
    quality_level: Binary32,
    min_distance: u32,
    max_features: int,
)
    requires
        g.is_exact(),
        g.width <= 0x100_0000,
        g.height <= 0x100_0000,
        quality_level.is_finite(),
        of_int(0).is_at_most(quality_level),
        is_detection(found, g, quality_level, min_distance, max_features),
        0 <= max_features,
    ensures
        found.len() <= max_features,
        forall|i: int| 0 <= i < found.len() ==> is_on_corner(#[trigger] found[i], g),
        forall|i: int, x: int, y: int|
            0 <= i < found.len() && #[trigger] is_corner(g, x, y) ==> quality_level.product(
                score(g, x, y),
            ).is_at_most((#[trigger] found[i]).strength),
        forall|i: int, j: int|
            0 <= i < j < found.len() ==> (#[trigger] found[j]).strength.is_at_most(
                (#[trigger] found[i]).strength,
            ),
        forall|i: int, j: int|
            0 <= i < j < found.len() ==> are_apart(
                #[trigger] found[i],
                #[trigger] found[j],
                min_distance,
            ),
{
    let points = lemma_detection(found, g, quality_level, min_distance, max_features);
    let all = candidates(g, quality_level);
    assert forall|i: int| 0 <= i < found.len() implies is_on_corner(#[trigger] found[i], g) && (
    forall|x: int, y: int| #[trigger]
        is_corner(g, x, y) ==> quality_level.product(score(g, x, y)).is_at_most(
            found[i].strength,
        )) && !found[i].strength.is_nan() by {
        assert(all.contains(points[i]));
        lemma_candidates_exactly(g, quality_level, points[i]);
        lemma_of_int_exact(points[i].0 as int);
        lemma_of_int_exact(points[i].1 as int);
        assert(is_pixel(found[i], points[i].0 as int, points[i].1 as int));
    }
    assert forall|i: int, j: int| 0 <= i < j < found.len() implies (
    #[trigger] found[j]).strength.is_at_most((#[trigger] found[i]).strength) by {
        assert(!points[i].2.is_less(points[j].2));
        assert(is_on_corner(found[i], g) && is_on_corner(found[j], g));
    }
    assert forall|i: int, j: int| 0 <= i < j < found.len() implies are_apart(
        #[trigger] found[i],
        #[trigger] found[j],
        min_distance,
    ) by {
        assert(all.contains(points[i]) && all.contains(points[j]));
        lemma_candidates_exactly(g, quality_level, points[i]);
        lemma_candidates_exactly(g, quality_level, points[j]);
        lemma_of_int_exact(points[i].0 as int);
        lemma_of_int_exact(points[i].1 as int);
        lemma_of_int_exact(points[j].0 as int);
        lemma_of_int_exact(points[j].1 as int);
        assert(distance_sq(points[i], points[j]) >= min_distance * min_distance);
        let a = points[i].0 - points[j].0;
        let b = points[i].1 - points[j].1;
        let dx = found[i].x.value() - found[j].x.value();
        let dy = found[i].y.value() - found[j].y.value();
        assert(dx == a * one() && dy == b * one()) by (nonlinear_arith)
            requires
                dx == points[i].0 * one() - points[j].0 * one(),
                dy == points[i].1 * one() - points[j].1 * one(),
                a == points[i].0 - points[j].0,
                b == points[i].1 - points[j].1,
        ;
        let reach = min_distance * one();
        let d = min_distance as int;
        assert(dx * dx + dy * dy >= reach * reach) by (nonlinear_arith)
            requires
                dx == a * one(),
                dy == b * one(),
                reach == d * one(),
                a * a + b * b >= d * d,
        ;
    }
}

/// A feature that stands on a pixel.
pub open spec fn is_pixel(f: Feature, x: int, y: int) -> bool {
    &&& f.x.is_finite()
    &&& f.y.is_finite()
    &&& f.x.value() == x * one()
    &&& f.y.value() == y * one()
}

/// A feature that stands on a corner, and has its score.
pub open spec fn is_on_corner(f: Feature, g: Grid<u8>) -> bool {
    exists|x: int, y: int| #[trigger]
        is_pixel(f, x, y) && is_corner(g, x, y) && f.strength == score(g, x, y)
            && of_int(0).is_at_most(f.strength)
}

/// Two features that are apart by a number of pixels.
pub open spec fn are_apart(a: Feature, b: Feature, distance: u32) -> bool {
    let dx = a.x.value() - b.x.value();
    let dy = a.y.value() - b.y.value();
    dx * dx + dy * dy >= (distance * one()) * (distance * one())
}

/// A feature at the numbers of a pixel.
pub open spec fn is_feature_at(f: Feature, x: int, y: int) -> bool {
    f.x == of_int(x) && f.y == of_int(y)
}

/// Where fewer features are detected than were asked for, every corner of a
/// sufficient score is one of them or nearer than the minimal distance to one.
pub proof fn lemma_nothing_missed(
    found: Seq<Feature>,
    g: Grid<u8>,
    quality_level: Binary32,
    min_distance: u32,
    max_features: int,
    x: int,
    y: int,
)
    requires
        g.is_exact(),
        quality_level.is_finite(),
        of_int(0).is_at_most(quality_level),
        is_detection(found, g, quality_level, min_distance, max_features),
        found.len() < max_features,
        is_corner(g, x, y),
        of_int(0).is_at_most(score(g, x, y)),
        forall|i: int, j: int| #[trigger]
            is_corner(g, i, j) ==> quality_level.product(score(g, i, j)).is_at_most(
                score(g, x, y),
            ),
    ensures
        exists|i: int, px: int, py: int|
            0 <= i < found.len() && #[trigger] is_feature_at(found[i], px, py) && (px == x && py
                == y || (px - x) * (px - x) + (py - y) * (py - y) < min_distance * min_distance),
{
    let points = lemma_detection(found, g, quality_level, min_distance, max_features);
    let c = (x as u32, y as u32, score(g, x, y));
    lemma_candidates_exactly(g, quality_level, c);
    assert(is_represented(points, c, min_distance));
    let i = choose|i: int|
        0 <= i < points.len() && (#[trigger] points[i] == c || distance_sq(points[i], c)
            < min_distance * min_distance);
    assert(is_feature_at(found[i], points[i].0 as int, points[i].1 as int));
}

/// The nine products of two gradients about a pixel, added up. On the border the
/// nearest pixel stands for one that is missing.
pub open spec fn product_sum_anywhere(a: Grid<i16>, b: Grid<i16>, x: int, y: int) -> int {
    nine_sum(
        |i: int, j: int|
            nearest_value(
                |u: int, v: int| scaled_product(a.at(u, v), b.at(u, v)),
                a.width,
                a.height,
                i,
                j,
            ),
        x,
        y,
    )
}

proof fn lemma_averages_anywhere(g: Grid<u8>, a: Grid<i16>, b: Grid<i16>, x: int, y: int)
    requires
        g.is_exact(),
        g.contains(x, y),
        a == gradient_x(g) || a == gradient_y(g),
        b == gradient_x(g) || b == gradient_y(g),
    ensures
        is_ninth(box_filtered(products(a, b)).at(x, y) as int, product_sum_anywhere(a, b, x, y)),
{
    let p = products(a, b);
    lemma_products_exact(a, b);
    lemma_box_filter_mean_anywhere(p, x, y);
    let f = |u: int, v: int| p.at(u, v) as int;
    let h = |u: int, v: int| scaled_product(a.at(u, v), b.at(u, v));
    assert forall|i: int, j: int| #[trigger] nearest_value(
        f,
        p.width,
        p.height,
        i,
        j,
    ) == nearest_value(h, a.width, a.height, i, j) by {
        let u = if i < 0 {
            0
        } else if i > p.width - 1 {
            p.width - 1
        } else {
            i
        };
        let v = if j < 0 {
            0
        } else if j > p.height - 1 {
            p.height - 1
        } else {
            j
        };
        lemma_gradients_bounded(g, u, v);
        lemma_products_at(a, b, u, v);
    }
    assert(nine_sum(|i: int, j: int| nearest_value(f, p.width, p.height, i, j), x, y) == nine_sum(
        |i: int, j: int| nearest_value(h, a.width, a.height, i, j),
        x,
        y,
    )) by {
        assert(nearest_value(f, p.width, p.height, x - 1, y - 1) == nearest_value(
            h,
            a.width,
            a.height,
            x - 1,
            y - 1,
        ));
    }
}

/// The score of any pixel is the smaller eigenvalue of the means of the products
/// of the gradients at the nine pixels about it.
pub proof fn lemma_score_anywhere(g: Grid<u8>, x: int, y: int) -> (r: (int, int, int, int))
    requires
        g.is_exact(),
        g.contains(x, y),
    ensures
        ({
            let (xx, yy, xy, root) = r;
            let s = score(g, x, y);
            &&& is_ninth(xx, product_sum_anywhere(gradient_x(g), gradient_x(g), x, y))
            &&& is_ninth(yy, product_sum_anywhere(gradient_y(g), gradient_y(g), x, y))
            &&& is_ninth(xy, product_sum_anywhere(gradient_x(g), gradient_y(g), x, y))
            &&& s.is_finite()
            &&& root >= 0
            &&& is_close(
                root * root,
                ((xx - yy) * (xx - yy) + 4 * (xy * xy)) * (one() * one()),
                16,
                0,
            )
            &&& 0x100_0000 * magnitude(2 * s.value() - ((xx + yy) * one() - root)) <= 4 * (
            magnitude(xx + yy) * one() + root) + 0x400_0000
        }),
{
    let gx = gradient_x(g);
    let gy = gradient_y(g);
    lemma_averages_anywhere(g, gx, gx, x, y);
    lemma_averages_anywhere(g, gy, gy, x, y);
    lemma_averages_anywhere(g, gx, gy, x, y);
    let xx = box_filtered(products(gx, gx)).at(x, y) as int;
    let yy = box_filtered(products(gy, gy)).at(x, y) as int;
    let xy = box_filtered(products(gx, gy)).at(x, y) as int;
    let root = lemma_eigenvalue(xx, yy, xy);
    (xx, yy, xy, root)
}

/// The highest score of the corners of an image, or zero where none is higher.
pub open spec fn is_top_score(g: Grid<u8>, top: Binary32) -> bool {
    &&& top == (Binary32 { bits: 0 }) || exists|x: int, y: int| #[trigger]
        is_corner(g, x, y) && top == score(g, x, y)
    &&& !top.is_less(Binary32 { bits: 0 })
    &&& forall|x: int, y: int| #[trigger] is_corner(g, x, y) ==> !top.is_less(score(g, x, y))
}

/// The candidates of an image are its corners whose score reaches the given part
/// of the top score, whatever that part is.
pub proof fn lemma_candidates_reach_top(
    g: Grid<u8>,
    quality_level: Binary32,
    c: Candidate,
) -> (top: Binary32)
    requires
        g.is_exact(),
    ensures
        is_top_score(g, top),
        candidates(g, quality_level).contains(c) <==> {
            &&& is_corner(g, c.0 as int, c.1 as int)
            &&& c.2 == score(g, c.0 as int, c.1 as int)
            &&& quality_level.product(top).is_at_most(c.2)
        },
{
    let s = scored(g);
    let p = peaks(s, g.width, g.height);
    let best = best_score(p);
    let local = |c: Candidate| is_local_max(s, g.width, g.height, c.0 as int, c.1 as int);
    let reaches = |c: Candidate| quality_level.product(best).is_at_most(c.2);
    lemma_scored(g);
    lemma_best_score(p);
    lemma_corners(g, c.0 as int, c.1 as int);
    assert forall|k: int| 0 <= k < p.len() implies is_corner(
        g,
        (#[trigger] p[k]).0 as int,
        p[k].1 as int,
    ) && p[k].2 == score(g, p[k].0 as int, p[k].1 as int) by {
        s.lemma_filter_pred(local, k);
        lemma_corners(g, p[k].0 as int, p[k].1 as int);
        s.lemma_filter_contains_rev(local, p[k]);
        let i = choose|i: int| 0 <= i < s.len() && s[i] == p[k];
        crate::grid::lemma_place(g.width, g.height, i);
    }
    assert forall|x: int, y: int| #[trigger] is_corner(g, x, y) implies p.contains(
        (x as u32, y as u32, score(g, x, y)),
    ) && !best.is_less(score(g, x, y)) by {
        lemma_corners(g, x, y);
        lemma_index(g.width, g.height, x, y);
        s.lemma_filter_contains(local, y * g.width + x);
        let m = (x as u32, y as u32, score(g, x, y));
        let k = choose|k: int| 0 <= k < p.len() && p[k] == m;
        assert(!best.is_less(p[k].2));
    }
    if best != (Binary32 { bits: 0 }) {
        let k = choose|k: int| 0 <= k < p.len() && best == (#[trigger] p[k]).2;
        assert(is_corner(g, p[k].0 as int, p[k].1 as int));
    }
    if candidates(g, quality_level).contains(c) {
        lemma_candidate(g, quality_level, c);
    }
    if is_corner(g, c.0 as int, c.1 as int) && c.2 == score(g, c.0 as int, c.1 as int)
        && quality_level.product(best).is_at_most(c.2) {
        let k = choose|k: int| 0 <= k < p.len() && p[k] == c;
        assert(p.contains(c));
        p.lemma_filter_contains(reaches, k);
    }
    best
}

} // verus!
