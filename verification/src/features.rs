//! Shi-Tomasi feature detection.
use std::cmp::Ordering;

use vstd::prelude::*;

use crate::binary32::{
    lemma_difference_number, lemma_of_int_exact, lemma_of_int_number, lemma_product_sign,
    lemma_quotient_number, lemma_root_number, of_int, Binary32,
};
use crate::feature::Feature;
use crate::flat::{is_same_image, lemma_packed_grid, lemma_same_image, FlatSamples};
use crate::grid::{
    grid_of, lemma_index, lemma_index_distinct, lemma_next_row, lemma_overwritten_all,
    lemma_overwritten_none, lemma_overwritten_step, lemma_place, overwritten, Grid,
};
use crate::raster::{
    gray, gray_dimensions, gray_flat_samples, gray_size, plane, plane_dimensions, plane_from_raw,
    plane_get, plane_into_raw, plane_put, plane_size, GradPlane, GrayImage,
};
use crate::spacing::{
    accept_by_distance, cell_total, filter_by_distance_into, is_represented, is_spaced,
    lemma_accepted, lemma_accepted_distinct, selected, CellGrid,
};
use crate::utils::box_filter_3x3::{box_filter_3x3_in_place, box_filtered, truncating_div};
use crate::utils::fast_gradients::{
    compute_gradients_into, gradient_x, gradient_y, is_interior, lemma_gradient_bounds,
};

verus! {

/// A pixel with its score.
pub type Candidate = (u32, u32, Binary32);

/// Product of two gradients, each scaled down by 32 first.
pub open spec fn scaled_product(a: i16, b: i16) -> int {
    truncating_div(a as int, 32) * truncating_div(b as int, 32)
}

/// A plane of products of gradients.
pub open spec fn products(a: Grid<i16>, b: Grid<i16>) -> Grid<i16> {
    grid_of(a.width, a.height, |x: int, y: int| scaled_product(a.at(x, y), b.at(x, y)) as i16)
}

/// The smaller eigenvalue of the matrix with `a` and `b` on its diagonal and
/// `c` beside it.
pub open spec fn min_eigenvalue(a: int, b: int, c: int) -> Binary32 {
    of_int(a + b).difference(of_int((a - b) * (a - b) + 4 * (c * c)).root()).quotient(of_int(2))
}

/// The score of a pixel: the smaller eigenvalue of the averaged products of
/// gradients about it.
pub open spec fn score(g: Grid<u8>, x: int, y: int) -> Binary32 {
    let gx = gradient_x(g);
    let gy = gradient_y(g);
    min_eigenvalue(
        box_filtered(products(gx, gx)).at(x, y) as int,
        box_filtered(products(gy, gy)).at(x, y) as int,
        box_filtered(products(gx, gy)).at(x, y) as int,
    )
}

/// All pixels with their scores, row by row.
pub open spec fn scored(g: Grid<u8>) -> Seq<Candidate> {
    Seq::new(
        (g.width * g.height) as nat,
        |i: int|
            (
                (i % g.width) as u32,
                (i / g.width) as u32,
                score(g, i % g.width, i / g.width),
            ),
    )
}

/// Every score is a number.
pub proof fn lemma_eigenvalue_number(a: i16, b: i16, c: i16)
    ensures
        !min_eigenvalue(a as int, b as int, c as int).is_nan(),
{
    let trace = a + b;
    let discriminant = (a - b) * (a - b) + 4 * (c * c);
    lemma_of_int_exact(trace);
    lemma_of_int_number(discriminant);
    assert(discriminant >= 0) by (nonlinear_arith)
        requires
            discriminant == (a - b) * (a - b) + 4 * (c * c),
    ;
    lemma_root_number(of_int(discriminant));
    lemma_difference_number(of_int(trace), of_int(discriminant).root());
    lemma_of_int_exact(2);
    lemma_quotient_number(of_int(trace).difference(of_int(discriminant).root()), of_int(2));
}

/// Divide by 32, rounding toward zero.
fn thirty_second(v: i16) -> (r: i16)
    ensures
        r == truncating_div(v as int, 32),
{
    let n: i32 = v as i32;
    let q: i32 = if n >= 0 {
        n / 32
    } else {
        -((-n) / 32)
    };
    q as i16
}

fn scaled_product_of(a: i16, b: i16) -> (r: i16)
    requires
        -5823 <= a <= 5823,
        -5823 <= b <= 5823,
    ensures
        r == scaled_product(a, b),
{
    let p: i16 = thirty_second(a);
    let q: i16 = thirty_second(b);
    assert(-32761 <= p * q <= 32761) by (nonlinear_arith)
        requires
            -181 <= p <= 181,
            -181 <= q <= 181,
    ;
    p * q
}

/// Gradients whose scaled products fit 16 bits.
pub open spec fn is_moderate(g: Grid<i16>) -> bool {
    forall|i: int| 0 <= i < g.samples.len() ==> -5823 <= #[trigger] g.samples[i] <= 5823
}

fn compute_gradient_products_into(
    gx: &GradPlane,
    gy: &GradPlane,
    ix_sq: &mut GradPlane,
    iy_sq: &mut GradPlane,
    ix_iy: &mut GradPlane,
)
    requires
        plane(*gx).is_exact(),
        plane(*gy).is_exact(),
        plane(*old(ix_sq)).is_exact(),
        plane(*old(iy_sq)).is_exact(),
        plane(*old(ix_iy)).is_exact(),
        plane_size(*gy) == plane_size(*gx),
        plane_size(*old(ix_sq)) == plane_size(*gx),
        plane_size(*old(iy_sq)) == plane_size(*gx),
        plane_size(*old(ix_iy)) == plane_size(*gx),
        is_moderate(plane(*gx)),
        is_moderate(plane(*gy)),
    ensures
        plane(*final(ix_sq)) == products(plane(*gx), plane(*gx)),
        plane(*final(iy_sq)) == products(plane(*gy), plane(*gy)),
        plane(*final(ix_iy)) == products(plane(*gx), plane(*gy)),
        plane_size(*final(ix_sq)) == plane_size(*gx),
        plane_size(*final(iy_sq)) == plane_size(*gx),
        plane_size(*final(ix_iy)) == plane_size(*gx),
{
    let (width, height) = plane_dimensions(gx);
    let ghost a = plane(*gx);
    let ghost b = plane(*gy);
    let ghost fxx = |x: int, y: int| scaled_product(a.at(x, y), a.at(x, y)) as i16;
    let ghost fyy = |x: int, y: int| scaled_product(b.at(x, y), b.at(x, y)) as i16;
    let ghost fxy = |x: int, y: int| scaled_product(a.at(x, y), b.at(x, y)) as i16;
    let ghost sxx = plane(*ix_sq);
    let ghost syy = plane(*iy_sq);
    let ghost sxy = plane(*ix_iy);
    proof {
        lemma_overwritten_none(sxx, fxx);
        lemma_overwritten_none(syy, fyy);
        lemma_overwritten_none(sxy, fxy);
    }
    let mut y: u32 = 0;
    while y < height
        invariant
            a == plane(*gx),
            b == plane(*gy),
            a.is_exact(),
            b.is_exact(),
            is_moderate(a),
            is_moderate(b),
            plane_size(*gx) == (width, height),
            plane_size(*gy) == (width, height),
            sxx.is_exact(),
            syy.is_exact(),
            sxy.is_exact(),
            sxx.width == width,
            sxx.height == height,
            syy.width == width,
            syy.height == height,
            sxy.width == width,
            sxy.height == height,
            fxx == (|x: int, y: int| scaled_product(a.at(x, y), a.at(x, y)) as i16),
            fyy == (|x: int, y: int| scaled_product(b.at(x, y), b.at(x, y)) as i16),
            fxy == (|x: int, y: int| scaled_product(a.at(x, y), b.at(x, y)) as i16),
            y <= height,
            plane_size(*ix_sq) == (width, height),
            plane_size(*iy_sq) == (width, height),
            plane_size(*ix_iy) == (width, height),
            plane(*ix_sq) == overwritten(sxx, fxx, y * width),
            plane(*iy_sq) == overwritten(syy, fyy, y * width),
            plane(*ix_iy) == overwritten(sxy, fxy, y * width),
        decreases height - y,
    {
        let mut x: u32 = 0;
        while x < width
            invariant
                a == plane(*gx),
                b == plane(*gy),
                a.is_exact(),
                b.is_exact(),
                is_moderate(a),
                is_moderate(b),
                plane_size(*gx) == (width, height),
                plane_size(*gy) == (width, height),
                sxx.is_exact(),
                syy.is_exact(),
                sxy.is_exact(),
                sxx.width == width,
                sxx.height == height,
                syy.width == width,
                syy.height == height,
                sxy.width == width,
                sxy.height == height,
                fxx == (|x: int, y: int| scaled_product(a.at(x, y), a.at(x, y)) as i16),
                fyy == (|x: int, y: int| scaled_product(b.at(x, y), b.at(x, y)) as i16),
                fxy == (|x: int, y: int| scaled_product(a.at(x, y), b.at(x, y)) as i16),
                y < height,
                x <= width,
                plane_size(*ix_sq) == (width, height),
                plane_size(*iy_sq) == (width, height),
                plane_size(*ix_iy) == (width, height),
                plane(*ix_sq) == overwritten(sxx, fxx, y * width + x),
                plane(*iy_sq) == overwritten(syy, fyy, y * width + x),
                plane(*ix_iy) == overwritten(sxy, fxy, y * width + x),
            decreases width - x,
        {
            proof {
                lemma_index(a.width, a.height, x as int, y as int);
                lemma_overwritten_step(sxx, fxx, x as int, y as int);
                lemma_overwritten_step(syy, fyy, x as int, y as int);
                lemma_overwritten_step(sxy, fxy, x as int, y as int);
            }
            let ix: i16 = plane_get(gx, x, y);
            let iy: i16 = plane_get(gy, x, y);
            plane_put(ix_sq, x, y, scaled_product_of(ix, ix));
            plane_put(iy_sq, x, y, scaled_product_of(iy, iy));
            plane_put(ix_iy, x, y, scaled_product_of(ix, iy));
            x = x + 1;
        }
        proof {
            lemma_next_row(width as int, y as int);
        }
        y = y + 1;
    }
    proof {
        lemma_overwritten_all(sxx, fxx);
        lemma_overwritten_all(syy, fyy);
        lemma_overwritten_all(sxy, fxy);
    }
}

/// All places of a plane with the smaller eigenvalue there, row by row.
pub open spec fn eigenvalues(a: Grid<i16>, b: Grid<i16>, c: Grid<i16>) -> Seq<Candidate> {
    Seq::new(
        (a.width * a.height) as nat,
        |i: int|
            (
                (i % a.width) as u32,
                (i / a.width) as u32,
                min_eigenvalue(
                    a.at(i % a.width, i / a.width) as int,
                    b.at(i % a.width, i / a.width) as int,
                    c.at(i % a.width, i / a.width) as int,
                ),
            ),
    )
}

fn compute_min_eigenvalues_into(
    a: &GradPlane,
    b: &GradPlane,
    c: &GradPlane,
    out: &mut Vec<Candidate>,
)
    requires
        plane_size(*b) == plane_size(*a),
        plane_size(*c) == plane_size(*a),
    ensures
        final(out)@ == eigenvalues(plane(*a), plane(*b), plane(*c)),
{
    out.clear();
    let (width, height) = plane_dimensions(a);
    let ghost all = eigenvalues(plane(*a), plane(*b), plane(*c));
    let mut y: u32 = 0;
    while y < height
        invariant
            plane_size(*a) == (width, height),
            plane_size(*b) == (width, height),
            plane_size(*c) == (width, height),
            all == eigenvalues(plane(*a), plane(*b), plane(*c)),
            y <= height,
            out@.len() == y * width,
            forall|i: int| 0 <= i < out@.len() ==> #[trigger] out@[i] == all[i],
        decreases height - y,
    {
        let mut x: u32 = 0;
        while x < width
            invariant
                plane_size(*a) == (width, height),
                plane_size(*b) == (width, height),
                plane_size(*c) == (width, height),
                all == eigenvalues(plane(*a), plane(*b), plane(*c)),
                y < height,
                x <= width,
                out@.len() == y * width + x,
                forall|i: int| 0 <= i < out@.len() ==> #[trigger] out@[i] == all[i],
            decreases width - x,
        {
            let a_val: i64 = plane_get(a, x, y) as i64;
            let b_val: i64 = plane_get(b, x, y) as i64;
            let c_val: i64 = plane_get(c, x, y) as i64;
            let trace: i64 = a_val + b_val;
            assert(0 <= (a_val - b_val) * (a_val - b_val) <= 0x1_0000_0000) by (nonlinear_arith)
                requires
                    -0x1_0000 <= a_val - b_val <= 0x1_0000,
            ;
            assert(0 <= c_val * c_val <= 0x1_0000_0000) by (nonlinear_arith)
                requires
                    -0x1_0000 <= c_val <= 0x1_0000,
            ;
            let discriminant: i64 = (a_val - b_val) * (a_val - b_val) + 4 * (c_val * c_val);
            let min_eigen: Binary32 = Binary32::from_int(trace).minus(
                Binary32::from_int(discriminant).sqrt(),
            ).over(Binary32::from_int(2));
            proof {
                lemma_index(width as int, height as int, x as int, y as int);
            }
            out.push((x, y, min_eigen));
            x = x + 1;
        }
        proof {
            lemma_next_row(width as int, y as int);
        }
        y = y + 1;
    }
    proof {
        assert(width * height == height * width) by (nonlinear_arith);
        assert(out@ =~= all);
    }
}

/// The score at a place among scores that stand row by row.
pub open spec fn score_at(s: Seq<Candidate>, width: int, x: int, y: int) -> Binary32 {
    s[y * width + x].2
}

/// An interior pixel whose score no neighbour exceeds.
pub open spec fn is_local_max(
    s: Seq<Candidate>,
    width: int,
    height: int,
    x: int,
    y: int,
) -> bool {
    &&& is_interior(width, height, x, y)
    &&& forall|nx: int, ny: int|
        x - 1 <= nx <= x + 1 && y - 1 <= ny <= y + 1 ==> !score_at(s, width, x, y).is_less(
            #[trigger] score_at(s, width, nx, ny),
        )
}

/// The local maxima among scores that stand row by row, in their order.
pub open spec fn peaks(s: Seq<Candidate>, width: int, height: int) -> Seq<Candidate> {
    s.filter(|c: Candidate| is_local_max(s, width, height, c.0 as int, c.1 as int))
}

/// Every pixel of an image, row by row.
pub open spec fn is_raster(s: Seq<Candidate>, width: int, height: int) -> bool {
    &&& s.len() == width * height
    &&& forall|i: int|
        0 <= i < s.len() ==> (#[trigger] s[i]).0 == i % width && s[i].1 == i / width
}

proof fn lemma_filter_take(s: Seq<Candidate>, pred: spec_fn(Candidate) -> bool, n: int)
    requires
        0 <= n < s.len(),
    ensures
        pred(s[n]) ==> s.take(n + 1).filter(pred) == s.take(n).filter(pred).push(s[n]),
        !pred(s[n]) ==> s.take(n + 1).filter(pred) == s.take(n).filter(pred),
        s.take(n).filter(pred).len() <= n,
{
    reveal(Seq::filter);
    assert(s.take(n + 1).drop_last() =~= s.take(n));
    s.take(n).lemma_filter_len(pred);
}

/// No neighbour of an interior pixel has a higher score.
fn is_peak(features: &Vec<Candidate>, width: u32, height: u32, x: u32, y: u32) -> (r: bool)
    requires
        features@.len() == width * height,
        is_interior(width as int, height as int, x as int, y as int),
    ensures
        r == is_local_max(features@, width as int, height as int, x as int, y as int),
{
    let ghost s = features@;
    proof {
        lemma_index(width as int, height as int, x as int, y as int);
        assert(s.len() == features.len());
    }
    let current: Binary32 = features[y as usize * width as usize + x as usize].2;
    let mut ny: u32 = y - 1;
    while ny <= y + 1
        invariant
            s == features@,
            s.len() == features.len(),
            s.len() == width * height,
            is_interior(width as int, height as int, x as int, y as int),
            current == score_at(s, width as int, x as int, y as int),
            y - 1 <= ny <= y + 2,
            forall|cx: int, cy: int|
                x - 1 <= cx <= x + 1 && y - 1 <= cy < ny ==> !current.is_less(
                    #[trigger] score_at(s, width as int, cx, cy),
                ),
        decreases y + 2 - ny,
    {
        let mut nx: u32 = x - 1;
        while nx <= x + 1
            invariant
                s == features@,
                s.len() == features.len(),
                s.len() == width * height,
                is_interior(width as int, height as int, x as int, y as int),
                current == score_at(s, width as int, x as int, y as int),
                y - 1 <= ny <= y + 1,
                x - 1 <= nx <= x + 2,
                forall|cx: int, cy: int|
                    x - 1 <= cx <= x + 1 && y - 1 <= cy < ny ==> !current.is_less(
                        #[trigger] score_at(s, width as int, cx, cy),
                    ),
                forall|cx: int|
                    x - 1 <= cx < nx ==> !current.is_less(
                        #[trigger] score_at(s, width as int, cx, ny as int),
                    ),
            decreases x + 2 - nx,
        {
            proof {
                lemma_index(width as int, height as int, nx as int, ny as int);
            }
            let neighbour: Binary32 = features[ny as usize * width as usize + nx as usize].2;
            assert(neighbour == score_at(s, width as int, nx as int, ny as int));
            if current.lt(neighbour) {
                return false;
            }
            nx = nx + 1;
        }
        ny = ny + 1;
    }
    true
}

/// Keep the local maxima of scores that stand row by row.
fn non_maximum_suppression(
    features: &mut Vec<Candidate>,
    width: u32,
    height: u32,
    is_local_max_at: &mut Vec<bool>,
)
    requires
        is_raster(old(features)@, width as int, height as int),
    ensures
        final(features)@ == peaks(old(features)@, width as int, height as int),
{
    let ghost s = features@;
    let ghost w = width as int;
    let ghost h = height as int;
    assert(s.len() == features.len());
    is_local_max_at.clear();
    is_local_max_at.resize(features.len(), false);
    assert forall|cx: int, cy: int| 0 <= cx < w && 0 <= cy < h implies !(
    #[trigger] is_local_max_at@[cy * w + cx]) by {
        lemma_index(w, h, cx, cy);
    }
    if width >= 3 && height >= 3 {
        let mut y: u32 = 1;
        while y < height - 1
            invariant
                s == features@,
                s.len() == features.len(),
                is_raster(s, w, h),
                w == width,
                h == height,
                3 <= width,
                3 <= height,
                1 <= y <= height - 1,
                is_local_max_at@.len() == s.len(),
                forall|cx: int, cy: int|
                    0 <= cx < w && 0 <= cy < h ==> #[trigger] is_local_max_at@[cy * w + cx] == (cy
                        < y && is_local_max(s, w, h, cx, cy)),
            decreases height - y,
        {
            let mut x: u32 = 1;
            while x < width - 1
                invariant
                    s == features@,
                    s.len() == features.len(),
                    is_raster(s, w, h),
                    w == width,
                    h == height,
                    3 <= width,
                    3 <= height,
                    1 <= y < height - 1,
                    1 <= x <= width - 1,
                    is_local_max_at@.len() == s.len(),
                    forall|cx: int, cy: int|
                        0 <= cx < w && 0 <= cy < h ==> #[trigger] is_local_max_at@[cy * w + cx]
                            == ((cy < y || cy == y && cx < x) && is_local_max(s, w, h, cx, cy)),
                decreases width - x,
            {
                proof {
                    lemma_index(w, h, x as int, y as int);
                }
                let idx: usize = y as usize * width as usize + x as usize;
                let flag: bool = is_peak(features, width, height, x, y);
                let ghost before = is_local_max_at@;
                is_local_max_at[idx] = flag;
                assert forall|cx: int, cy: int|
                    0 <= cx < w && 0 <= cy < h implies #[trigger] is_local_max_at@[cy * w + cx]
                    == ((cy < y || cy == y && cx < x + 1) && is_local_max(s, w, h, cx, cy)) by {
                    lemma_index(w, h, cx, cy);
                    lemma_index_distinct(w, h, cx, cy, x as int, y as int);
                    assert(before[cy * w + cx] == ((cy < y || cy == y && cx < x) && is_local_max(
                        s,
                        w,
                        h,
                        cx,
                        cy,
                    )));
                }
                x = x + 1;
            }
            y = y + 1;
        }
    }
    let ghost pred = |c: Candidate| is_local_max(s, w, h, c.0 as int, c.1 as int);
    let ghost flags = is_local_max_at@;
    assert forall|i: int| 0 <= i < s.len() implies #[trigger] flags[i] == pred(s[i]) by {
        lemma_place(w, h, i);
        assert(flags[(i / w) * w + i % w] == flags[i]);
    }
    let mut write: usize = 0;
    let mut read: usize = 0;
    proof {
        reveal(Seq::filter);
    }
    while read < features.len()
        invariant
            is_raster(s, w, h),
            w == width,
            h == height,
            features@.len() == s.len(),
            s.len() == features.len(),
            write <= read <= s.len(),
            flags == is_local_max_at@,
            flags.len() == s.len(),
            forall|i: int| 0 <= i < s.len() ==> #[trigger] flags[i] == pred(s[i]),
            features@.take(write as int) == s.take(read as int).filter(pred),
            forall|j: int| read <= j < s.len() ==> #[trigger] features@[j] == s[j],
        decreases s.len() - read,
    {
        let candidate: Candidate = features[read];
        proof {
            lemma_filter_take(s, pred, read as int);
            lemma_place(w, h, read as int);
        }
        let idx: usize = candidate.1 as usize * width as usize + candidate.0 as usize;
        if is_local_max_at[idx] {
            let ghost before = features@;
            features[write] = candidate;
            assert(features@.take(write as int + 1) =~= before.take(write as int).push(candidate));
            write = write + 1;
        }
        read = read + 1;
    }
    features.truncate(write);
    proof {
        assert(s.take(s.len() as int) =~= s);
    }
}

/// The highest of the scores, and of zero.
pub open spec fn best_score(s: Seq<Candidate>) -> Binary32
    decreases s.len(),
{
    if s.len() == 0 {
        Binary32 { bits: 0 }
    } else {
        best_score(s.drop_last()).larger(s.last().2)
    }
}

/// The candidates whose score reaches the given part of the best.
pub open spec fn good(s: Seq<Candidate>, quality_level: Binary32) -> Seq<Candidate> {
    s.filter(|c: Candidate| quality_level.product(best_score(s)).is_at_most(c.2))
}

/// Keep the candidates whose score reaches the given part of the best.
fn filter_by_quality(features: &mut Vec<Candidate>, quality_level: Binary32)
    ensures
        final(features)@ == good(old(features)@, quality_level),
{
    let ghost s = features@;
    let mut max_quality: Binary32 = Binary32::from_bits(0);
    let mut i: usize = 0;
    while i < features.len()
        invariant
            s == features@,
            i <= s.len(),
            max_quality == best_score(s.take(i as int)),
        decreases s.len() - i,
    {
        max_quality = max_quality.max(features[i].2);
        i = i + 1;
        assert(s.take(i as int).drop_last() =~= s.take(i - 1));
    }
    assert(s.take(i as int) =~= s);
    let threshold: Binary32 = quality_level.times(max_quality);
    let ghost pred = |c: Candidate| quality_level.product(best_score(s)).is_at_most(c.2);
    let mut write: usize = 0;
    let mut read: usize = 0;
    proof {
        reveal(Seq::filter);
    }
    while read < features.len()
        invariant
            features@.len() == s.len(),
            write <= read <= s.len(),
            threshold == quality_level.product(best_score(s)),
            pred == (|c: Candidate| quality_level.product(best_score(s)).is_at_most(c.2)),
            features@.take(write as int) == s.take(read as int).filter(pred),
            forall|j: int| read <= j < s.len() ==> #[trigger] features@[j] == s[j],
        decreases s.len() - read,
    {
        let candidate: Candidate = features[read];
        proof {
            lemma_filter_take(s, pred, read as int);
        }
        if threshold.le(candidate.2) {
            let ghost before = features@;
            features[write] = candidate;
            assert(features@.take(write as int + 1) =~= before.take(write as int).push(candidate));
            write = write + 1;
        }
        read = read + 1;
    }
    features.truncate(write);
    proof {
        assert(s.take(s.len() as int) =~= s);
    }
}

/// No candidate has a higher score than one before it.
pub open spec fn is_descending(s: Seq<Candidate>) -> bool {
    forall|i: int, j: int|
        0 <= i < j < s.len() ==> !(#[trigger] s[i]).2.is_less((#[trigger] s[j]).2)
}

/// All scores are numbers.
pub open spec fn all_numbers(s: Seq<Candidate>) -> bool {
    forall|i: int| 0 <= i < s.len() ==> !(#[trigger] s[i]).2.is_nan()
}

/// Which of two candidates comes first: the one with the higher score, and of
/// two with one score the one further up, then further left.
pub open spec fn comes_before(a: Candidate, b: Candidate) -> bool {
    b.2.is_less(a.2) || !a.2.is_less(b.2) && (a.1 < b.1 || a.1 == b.1 && a.0 < b.0)
}

/// No candidate comes before one that stands earlier.
pub open spec fn is_ordered(s: Seq<Candidate>) -> bool {
    forall|i: int, j: int| 0 <= i < j < s.len() ==> !comes_before(#[trigger] s[j], #[trigger] s[i])
}

/// Order of two candidates.
fn higher_score_first(a: &Candidate, b: &Candidate) -> (order: Ordering)
    ensures
        order == Ordering::Less <==> comes_before(*a, *b),
        order == Ordering::Greater <==> !comes_before(*a, *b) && comes_before(*b, *a),
{
    if b.2.lt(a.2) {
        Ordering::Less
    } else if a.2.lt(b.2) {
        Ordering::Greater
    } else if a.1 < b.1 || a.1 == b.1 && a.0 < b.0 {
        Ordering::Less
    } else if b.1 < a.1 || b.1 == a.1 && b.0 < a.0 {
        Ordering::Greater
    } else {
        Ordering::Equal
    }
}

/// `slice::sort_unstable_by` with [`higher_score_first`], which is a total
/// order where all scores are numbers: the same candidates, none of which
/// comes before one that stands earlier.
#[verifier::external_body]
fn sort_candidates(features: &mut Vec<Candidate>)
    requires
        all_numbers(old(features)@),
    ensures
        final(features)@.to_multiset() == old(features)@.to_multiset(),
        is_ordered(final(features)@),
{
    features.sort_unstable_by(|a, b| higher_score_first(a, b));
}

/// A candidate as a feature.
pub open spec fn feature_of(c: Candidate) -> Feature {
    Feature { x: of_int(c.0 as int), y: of_int(c.1 as int), strength: c.2 }
}

pub open spec fn features_of(s: Seq<Candidate>) -> Seq<Feature> {
    Seq::new(s.len(), |i: int| feature_of(s[i]))
}

/// The candidates of an image: local maxima of the score that reach the given
/// part of the best, row by row.
pub open spec fn candidates(g: Grid<u8>, quality_level: Binary32) -> Seq<Candidate> {
    good(peaks(scored(g), g.width, g.height), quality_level)
}

/// The candidates of an image, those with a higher score first, and those with
/// one score row by row.
pub open spec fn is_ranking(
    order: Seq<Candidate>,
    g: Grid<u8>,
    quality_level: Binary32,
) -> bool {
    &&& order.to_multiset() == candidates(g, quality_level).to_multiset()
    &&& is_ordered(order)
}

/// The points that are detected in an image: those selected from the ranking.
pub open spec fn is_selection(
    points: Seq<Candidate>,
    g: Grid<u8>,
    quality_level: Binary32,
    min_distance: u32,
    max_features: int,
) -> bool {
    exists|order: Seq<Candidate>|
        #[trigger] is_ranking(order, g, quality_level) && points == selected(
            order,
            min_distance,
            max_features,
        )
}

/// What is detected in an image: the selected points as features.
pub open spec fn is_detection(
    found: Seq<Feature>,
    g: Grid<u8>,
    quality_level: Binary32,
    min_distance: u32,
    max_features: int,
) -> bool {
    exists|points: Seq<Candidate>|
        #[trigger] is_selection(points, g, quality_level, min_distance, max_features) && found
            == features_of(points)
}

/// Scores are those of the averaged products of gradients.
pub(crate) proof fn lemma_scored(g: Grid<u8>)
    requires
        g.is_exact(),
    ensures
        ({
            let gx = gradient_x(g);
            let gy = gradient_y(g);
            scored(g) == eigenvalues(
                box_filtered(products(gx, gx)),
                box_filtered(products(gy, gy)),
                box_filtered(products(gx, gy)),
            )
        }),
        is_raster(scored(g), g.width, g.height),
        all_numbers(scored(g)),
{
    let gx = gradient_x(g);
    let gy = gradient_y(g);
    let a = box_filtered(products(gx, gx));
    let b = box_filtered(products(gy, gy));
    let c = box_filtered(products(gx, gy));
    assert(scored(g) =~= eigenvalues(a, b, c));
    assert forall|i: int| 0 <= i < scored(g).len() implies (#[trigger] scored(g)[i]).0 == i
        % g.width && scored(g)[i].1 == i / g.width && !scored(g)[i].2.is_nan() by {
        lemma_place(g.width, g.height, i);
        lemma_eigenvalue_number(
            a.at(i % g.width, i / g.width),
            b.at(i % g.width, i / g.width),
            c.at(i % g.width, i / g.width),
        );
    }
}

/// What a filter keeps was there before.
proof fn lemma_filter_subset(
    s: Seq<Candidate>,
    pred: spec_fn(Candidate) -> bool,
    width: int,
    height: int,
)
    requires
        all_numbers(s),
        forall|i: int| 0 <= i < s.len() ==> (#[trigger] s[i]).0 < width && s[i].1 < height,
    ensures
        all_numbers(s.filter(pred)),
        forall|i: int|
            0 <= i < s.filter(pred).len() ==> (#[trigger] s.filter(pred)[i]).0 < width && s.filter(
                pred,
            )[i].1 < height,
{
    let kept = s.filter(pred);
    assert forall|i: int| 0 <= i < kept.len() implies !(#[trigger] kept[i]).2.is_nan() && kept[i].0
        < width && kept[i].1 < height by {
        assert(kept.contains(kept[i]));
        s.lemma_filter_contains_rev(pred, kept[i]);
    }
}

/// Sequences with one multiset hold the same candidates.
pub(crate) proof fn lemma_same_candidates(a: Seq<Candidate>, b: Seq<Candidate>, i: int)
    requires
        a.to_multiset() == b.to_multiset(),
        0 <= i < a.len(),
    ensures
        b.contains(a[i]),
{
    broadcast use vstd::seq_lib::group_to_multiset_ensures;

    assert(a.contains(a[i]));
    assert(a.to_multiset().count(a[i]) > 0);
    assert(b.to_multiset().count(a[i]) > 0);
}

/// Every candidate of an image is one of its pixels, and its score a number.
pub proof fn lemma_candidates_in_image(g: Grid<u8>, quality_level: Binary32)
    requires
        g.is_exact(),
    ensures
        all_numbers(candidates(g, quality_level)),
        forall|i: int|
            0 <= i < candidates(g, quality_level).len() ==> (#[trigger] candidates(
                g,
                quality_level,
            )[i]).0 < g.width && candidates(g, quality_level)[i].1 < g.height,
{
    let s = scored(g);
    lemma_scored(g);
    assert forall|i: int| 0 <= i < s.len() implies (#[trigger] s[i]).0 < g.width && s[i].1
        < g.height by {
        lemma_place(g.width, g.height, i);
    }
    let p = peaks(s, g.width, g.height);
    lemma_filter_subset(
        s,
        |c: Candidate| is_local_max(s, g.width, g.height, c.0 as int, c.1 as int),
        g.width,
        g.height,
    );
    lemma_filter_subset(
        p,
        |c: Candidate| quality_level.product(best_score(p)).is_at_most(c.2),
        g.width,
        g.height,
    );
}

/// Reusable storage for Shi-Tomasi feature detection.
/// [`detect_features`](crate::buffers::detect_features) reuses it.
pub struct FeaturesBuffer {
    gx: GradPlane,
    gy: GradPlane,
    ix_sq: GradPlane,
    iy_sq: GradPlane,
    ix_iy: GradPlane,
    scratch: Vec<i16>,
    features: Vec<Candidate>,
    is_local_max: Vec<bool>,
    grid: CellGrid,
}

/// Give a plane other dimensions, in the storage that it has.
fn resize_scratch_plane(buf: &mut GradPlane, width: u32, height: u32)
    requires
        2 * (width * height) <= isize::MAX,
    ensures
        plane_size(*final(buf)) == (width, height),
        plane(*final(buf)).is_exact(),
{
    let ghost area = width * height;
    assert(0 <= area) by (nonlinear_arith)
        requires
            area == width * height,
    ;
    let needed: usize = width as usize * height as usize;
    let mut taken: GradPlane = GradPlane::new(0, 0);
    std::mem::swap(&mut taken, buf);
    let mut raw: Vec<i16> = plane_into_raw(taken);
    raw.resize(needed, 0);
    match plane_from_raw(width, height, raw) {
        Some(resized) => {
            *buf = resized;
        },
        None => {},
    }
}

impl FeaturesBuffer {
    /// All planes have the same dimensions.
    pub closed spec fn well_formed(&self) -> bool {
        &&& plane(self.gx).is_exact()
        &&& plane(self.gy).is_exact()
        &&& plane(self.ix_sq).is_exact()
        &&& plane(self.iy_sq).is_exact()
        &&& plane(self.ix_iy).is_exact()
        &&& plane_size(self.gy) == plane_size(self.gx)
        &&& plane_size(self.ix_sq) == plane_size(self.gx)
        &&& plane_size(self.iy_sq) == plane_size(self.gx)
        &&& plane_size(self.ix_iy) == plane_size(self.gx)
    }

    /// Width and height of the planes.
    pub closed spec fn size(&self) -> (u32, u32) {
        plane_size(self.gx)
    }

    /// Number of cells in which points are looked up.
    pub closed spec fn cells(&self) -> nat {
        self.grid.cells()
    }

    /// Pre-allocate the planes for images of the given dimensions, and the
    /// cells for the given distance.
    pub fn with_capacity(
        width: u32,
        height: u32,
        min_distance: u32,
        _max_features: usize,
    ) -> (r: FeaturesBuffer)
        requires
            12 * (width * height) <= isize::MAX,
        ensures
            r.well_formed(),
            r.size() == (width, height),
            r.cells() == cell_total(width, height, min_distance),
    {
        let ghost area = width * height;
        assert(0 <= area) by (nonlinear_arith)
            requires
                area == width * height,
        ;
        let pixels: usize = width as usize * height as usize;
        FeaturesBuffer {
            gx: GradPlane::new(width, height),
            gy: GradPlane::new(width, height),
            ix_sq: GradPlane::new(width, height),
            iy_sq: GradPlane::new(width, height),
            ix_iy: GradPlane::new(width, height),
            scratch: Vec::with_capacity(pixels),
            features: Vec::with_capacity(pixels),
            is_local_max: vec![false; pixels],
            grid: CellGrid::with_capacity(width, height, min_distance),
        }
    }

    /// Give the planes the dimensions of an image.
    fn ensure_dims(&mut self, width: u32, height: u32)
        requires
            old(self).well_formed(),
            2 * (width * height) <= isize::MAX,
        ensures
            final(self).well_formed(),
            plane_size(final(self).gx) == (width, height),
    {
        let (w, h) = plane_dimensions(&self.gx);
        if w == width && h == height {
            return;
        }
        resize_scratch_plane(&mut self.gx, width, height);
        resize_scratch_plane(&mut self.gy, width, height);
        resize_scratch_plane(&mut self.ix_sq, width, height);
        resize_scratch_plane(&mut self.iy_sq, width, height);
        resize_scratch_plane(&mut self.ix_iy, width, height);
    }

    /// Detect Shi-Tomasi features on `image`, writing up to `max_features`
    /// entries into `out` (cleared first), in descending quality order.
    ///
    /// `image` may be any supported view, including a strided subrect of a
    /// larger frame. Quality threshold, minimal distance and the budget of
    /// `max_features` are all local to the view, and what the buffer was used
    /// for before makes no difference.
    pub fn detect_into(
        &mut self,
        image: &FlatSamples<'_>,
        quality_level: Binary32,
        min_distance: u32,
        max_features: usize,
        out: &mut Vec<Feature>,
    )
        requires
            old(self).well_formed(),
            image.is_valid(),
            12 * (image.layout.width * image.layout.height) <= isize::MAX,
        ensures
            final(self).well_formed(),
            final(self).size() == (image.layout.width, image.layout.height),
            final(self).cells() == cell_total(
                image.layout.width,
                image.layout.height,
                min_distance,
            ),
            is_detection(
                final(out)@,
                image.grid(),
                quality_level,
                min_distance,
                max_features as int,
            ),
    {
        self.rank_candidates(image, quality_level);
        let ghost order = self.features@;
        proof {
            lemma_ranking_in_image(order, image.grid(), quality_level);
            lemma_area_nonnegative(image.layout.width, image.layout.height);
        }
        filter_by_distance_into(
            &self.features,
            min_distance,
            image.layout.width,
            image.layout.height,
            max_features,
            &mut self.grid,
            out,
        );
        proof {
            let points = selected(order, min_distance, max_features as int);
            assert(is_ranking(order, image.grid(), quality_level));
            assert(is_selection(
                points,
                image.grid(),
                quality_level,
                min_distance,
                max_features as int,
            ));
        }
    }

    /// Detect Shi-Tomasi corners on `image` as
    /// [`detect_into`](Self::detect_into) does, and return them as pixels with
    /// their scores.
    pub fn detect_pixels(
        &mut self,
        image: &FlatSamples<'_>,
        quality_level: Binary32,
        min_distance: u32,
        max_features: usize,
    ) -> (points: &Vec<Candidate>)
        requires
            old(self).well_formed(),
            image.is_valid(),
            12 * (image.layout.width * image.layout.height) <= isize::MAX,
        ensures
            final(self).well_formed(),
            final(self).size() == (image.layout.width, image.layout.height),
            final(self).cells() == cell_total(
                image.layout.width,
                image.layout.height,
                min_distance,
            ),
            is_selection(
                points@,
                image.grid(),
                quality_level,
                min_distance,
                max_features as int,
            ),
    {
        self.rank_candidates(image, quality_level);
        let ghost order = self.features@;
        proof {
            lemma_ranking_in_image(order, image.grid(), quality_level);
            lemma_area_nonnegative(image.layout.width, image.layout.height);
        }
        accept_by_distance(
            &self.features,
            min_distance,
            image.layout.width,
            image.layout.height,
            max_features,
            &mut self.grid,
        );
        assert(is_ranking(order, image.grid(), quality_level));
        self.grid.accepted_points()
    }

    /// Score the pixels of `image`, and rank its candidates.
    fn rank_candidates(&mut self, image: &FlatSamples<'_>, quality_level: Binary32)
        requires
            old(self).well_formed(),
            image.is_valid(),
            12 * (image.layout.width * image.layout.height) <= isize::MAX,
        ensures
            final(self).well_formed(),
            final(self).size() == (image.layout.width, image.layout.height),
            is_ranking(final(self).features@, image.grid(), quality_level),
    {
        let width: u32 = image.layout.width;
        let height: u32 = image.layout.height;
        let ghost g = image.grid();
        let ghost area = width * height;
        proof {
            assert(0 <= area) by (nonlinear_arith)
                requires
                    area == width * height,
            ;
            assert(g.is_exact());
        }
        self.ensure_dims(width, height);
        compute_gradients_into(image, &mut self.gx, &mut self.gy);
        proof {
            lemma_gradient_bounds(g);
            lemma_scored(g);
        }
        compute_gradient_products_into(
            &self.gx,
            &self.gy,
            &mut self.ix_sq,
            &mut self.iy_sq,
            &mut self.ix_iy,
        );
        box_filter_3x3_in_place(&mut self.ix_sq, &mut self.scratch);
        box_filter_3x3_in_place(&mut self.iy_sq, &mut self.scratch);
        box_filter_3x3_in_place(&mut self.ix_iy, &mut self.scratch);
        compute_min_eigenvalues_into(&self.ix_sq, &self.iy_sq, &self.ix_iy, &mut self.features);
        non_maximum_suppression(&mut self.features, width, height, &mut self.is_local_max);
        filter_by_quality(&mut self.features, quality_level);
        proof {
            lemma_candidates_in_image(g, quality_level);
        }
        sort_candidates(&mut self.features);
    }
}

proof fn lemma_area_nonnegative(width: u32, height: u32)
    ensures
        0 <= width * height,
{
    assert(0 <= width * height) by (nonlinear_arith)
        requires
            0 <= width,
            0 <= height,
    ;
}

/// Ranked candidates are pixels of the image.
proof fn lemma_ranking_in_image(order: Seq<Candidate>, g: Grid<u8>, quality_level: Binary32)
    requires
        g.is_exact(),
        is_ranking(order, g, quality_level),
    ensures
        forall|i: int|
            0 <= i < order.len() ==> (#[trigger] order[i]).0 < g.width && order[i].1 < g.height,
{
    let all = candidates(g, quality_level);
    lemma_candidates_in_image(g, quality_level);
    assert forall|i: int| 0 <= i < order.len() implies (#[trigger] order[i]).0 < g.width
        && order[i].1 < g.height by {
        lemma_same_candidates(order, all, i);
        let j = choose|j: int| 0 <= j < all.len() && all[j] == order[i];
        assert(all[j].0 < g.width);
    }
}

/// Whole-pixel positions of features, with their strengths.
pub open spec fn points_of(found: Seq<Feature>) -> Seq<Candidate> {
    Seq::new(
        found.len(),
        |i: int|
            (
                found[i].x.floor_within(0, u32::MAX as int) as u32,
                found[i].y.floor_within(0, u32::MAX as int) as u32,
                found[i].strength,
            ),
    )
}

/// Finds good feature points using the Shi-Tomasi algorithm.
///
/// `quality_level` is the part of the best score that a point must reach, and
/// points are filtered by `min_distance` between them. Points are sorted in
/// descending order of quality.
pub fn good_features_to_track(
    image: &GrayImage,
    quality_level: Binary32,
    min_distance: u32,
) -> (points: Vec<Candidate>)
    requires
        12 * (gray_size(*image).0 * gray_size(*image).1) <= isize::MAX,
    ensures
        exists|found: Seq<Feature>|
            #[trigger] is_detection(
                found,
                gray(*image).trimmed(),
                quality_level,
                min_distance,
                gray(*image).width * gray(*image).height,
            ) && points@ == points_of(found),
{
    let flat: FlatSamples<'_> = gray_flat_samples(image);
    proof {
        lemma_packed_grid(flat);
        assert(flat.grid() == gray(*image).trimmed());
    }
    let (w, h) = gray_dimensions(image);
    proof {
        lemma_area_nonnegative(w, h);
    }
    let max: usize = w as usize * h as usize;
    let mut buf: FeaturesBuffer = FeaturesBuffer::with_capacity(w, h, min_distance, max);
    let mut out: Vec<Feature> = Vec::with_capacity(max);
    buf.detect_into(&flat, quality_level, min_distance, max, &mut out);
    let points: Vec<Candidate> = whole_points(&out);
    assert(is_detection(
        out@,
        gray(*image).trimmed(),
        quality_level,
        min_distance,
        gray(*image).width * gray(*image).height,
    ));
    points
}

/// Whole-pixel positions of features, with their strengths.
fn whole_points(found: &Vec<Feature>) -> (points: Vec<Candidate>)
    ensures
        points@ == points_of(found@),
{
    let mut points: Vec<Candidate> = Vec::with_capacity(found.len());
    let mut i: usize = 0;
    while i < found.len()
        invariant
            i <= found@.len(),
            points@ =~= points_of(found@).take(i as int),
        decreases found@.len() - i,
    {
        let f: Feature = found[i];
        points.push((f.x.to_u32(), f.y.to_u32(), f.strength));
        i = i + 1;
    }
    assert(points@ =~= points_of(found@));
    points
}

/// A filter repeats nothing.
proof fn lemma_filter_distinct(s: Seq<Candidate>, pred: spec_fn(Candidate) -> bool)
    requires
        s.no_duplicates(),
    ensures
        s.filter(pred).no_duplicates(),
    decreases s.len(),
{
    reveal(Seq::filter);
    if s.len() > 0 {
        let rest = s.drop_last();
        let kept = rest.filter(pred);
        lemma_filter_distinct(rest, pred);
        if pred(s.last()) {
            assert(!kept.contains(s.last())) by {
                if kept.contains(s.last()) {
                    rest.lemma_filter_contains_rev(pred, s.last());
                    let i = choose|i: int| 0 <= i < rest.len() && rest[i] == s.last();
                    assert(s[i] == s[s.len() - 1]);
                }
            }
        }
    }
}

/// No pixel is a candidate twice.
pub proof fn lemma_candidates_distinct(g: Grid<u8>, quality_level: Binary32)
    requires
        g.is_exact(),
    ensures
        candidates(g, quality_level).no_duplicates(),
{
    let s = scored(g);
    let p = peaks(s, g.width, g.height);
    lemma_scored(g);
    assert forall|i: int, j: int| 0 <= i < s.len() && 0 <= j < s.len() && i != j implies s[i]
        != s[j] by {
        lemma_place(g.width, g.height, i);
        lemma_place(g.width, g.height, j);
    }
    lemma_filter_distinct(
        s,
        |c: Candidate| is_local_max(s, g.width, g.height, c.0 as int, c.1 as int),
    );
    lemma_filter_distinct(
        p,
        |c: Candidate| quality_level.product(best_score(p)).is_at_most(c.2),
    );
}

/// Detected points are different pixels that are candidates, no more than were
/// asked for, in descending order of score, and every two of them apart by the
/// minimal distance. Where there are fewer than were asked for, every candidate
/// that is left out is too near to one of them.
pub proof fn lemma_selection(
    points: Seq<Candidate>,
    g: Grid<u8>,
    quality_level: Binary32,
    min_distance: u32,
    max_features: int,
)
    requires
        g.is_exact(),
        is_selection(points, g, quality_level, min_distance, max_features),
        0 <= max_features,
    ensures
        points.len() <= max_features,
        points.no_duplicates(),
        is_descending(points),
        is_spaced(points, min_distance),
        forall|i: int|
            0 <= i < points.len() ==> candidates(g, quality_level).contains(#[trigger] points[i]),
        points.len() < max_features ==> forall|c: Candidate| #[trigger]
            candidates(g, quality_level).contains(c) ==> is_represented(points, c, min_distance),
{
    let order = choose|order: Seq<Candidate>|
        #[trigger] is_ranking(order, g, quality_level) && points == selected(
            order,
            min_distance,
            max_features,
        );
    let all = candidates(g, quality_level);
    assert(is_descending(order)) by {
        assert forall|i: int, j: int| 0 <= i < j < order.len() implies !(
        #[trigger] order[i]).2.is_less((#[trigger] order[j]).2) by {
            assert(!comes_before(order[j], order[i]));
        }
    }
    lemma_accepted(order, order.len() as int, min_distance, max_features);
    lemma_candidates_distinct(g, quality_level);
    all.lemma_multiset_has_no_duplicates();
    order.lemma_multiset_has_no_duplicates_conv();
    lemma_accepted_distinct(order, order.len() as int, min_distance, max_features);
    assert(order.take(order.len() as int) =~= order);
    assert forall|i: int| 0 <= i < points.len() implies all.contains(#[trigger] points[i]) by {
        let m = choose|m: int| 0 <= m < order.len() && order[m] == points[i];
        lemma_same_candidates(order, all, m);
    }
    if points.len() < max_features {
        assert forall|c: Candidate| #[trigger] all.contains(c) implies is_represented(
            points,
            c,
            min_distance,
        ) by {
            let i = choose|i: int| 0 <= i < all.len() && all[i] == c;
            lemma_same_candidates(all, order, i);
            let m = choose|m: int| 0 <= m < order.len() && order[m] == c;
            assert(is_represented(points, order[m], min_distance));
        }
    }
}

/// Detected features stand for points that [`lemma_selection`] describes.
pub proof fn lemma_detection(
    found: Seq<Feature>,
    g: Grid<u8>,
    quality_level: Binary32,
    min_distance: u32,
    max_features: int,
) -> (points: Seq<Candidate>)
    requires
        g.is_exact(),
        is_detection(found, g, quality_level, min_distance, max_features),
        0 <= max_features,
    ensures
        found == features_of(points),
        points.len() <= max_features,
        points.no_duplicates(),
        is_descending(points),
        is_spaced(points, min_distance),
        forall|i: int|
            0 <= i < points.len() ==> candidates(g, quality_level).contains(#[trigger] points[i]),
        points.len() < max_features ==> forall|c: Candidate| #[trigger]
            candidates(g, quality_level).contains(c) ==> is_represented(points, c, min_distance),
{
    let points = choose|points: Seq<Candidate>|
        #[trigger] is_selection(points, g, quality_level, min_distance, max_features) && found
            == features_of(points);
    lemma_selection(points, g, quality_level, min_distance, max_features);
    points
}

/// A candidate is an interior pixel whose score no neighbour exceeds and which
/// reaches the given part of the best score. It is not negative unless the
/// quality level is.
pub proof fn lemma_candidate(g: Grid<u8>, quality_level: Binary32, c: Candidate)
    requires
        g.is_exact(),
        candidates(g, quality_level).contains(c),
    ensures
        is_local_max(scored(g), g.width, g.height, c.0 as int, c.1 as int),
        c.2 == score(g, c.0 as int, c.1 as int),
        quality_level.product(best_score(peaks(scored(g), g.width, g.height))).is_at_most(c.2),
        !quality_level.negative() ==> of_int(0).is_at_most(c.2),
{
    let s = scored(g);
    let p = peaks(s, g.width, g.height);
    let local = |c: Candidate| is_local_max(s, g.width, g.height, c.0 as int, c.1 as int);
    let reaches = |c: Candidate| quality_level.product(best_score(p)).is_at_most(c.2);
    lemma_scored(g);
    let j = choose|j: int| 0 <= j < candidates(g, quality_level).len() && candidates(
        g,
        quality_level,
    )[j] == c;
    p.lemma_filter_pred(reaches, j);
    p.lemma_filter_contains_rev(reaches, c);
    let k = choose|k: int| 0 <= k < p.len() && p[k] == c;
    s.lemma_filter_pred(local, k);
    s.lemma_filter_contains_rev(local, c);
    let i = choose|i: int| 0 <= i < s.len() && s[i] == c;
    lemma_place(g.width, g.height, i);
    lemma_best_score_sign(p);
    lemma_of_int_exact(0);
    if !quality_level.negative() {
        lemma_product_sign(quality_level, best_score(p));
    }
}

proof fn lemma_best_score_sign(s: Seq<Candidate>)
    ensures
        !best_score(s).negative(),
        !best_score(s).is_nan(),
    decreases s.len(),
{
    if s.len() > 0 {
        lemma_best_score_sign(s.drop_last());
    }
}

/// Which points are detected in an image is determined by the image and the
/// settings.
pub proof fn lemma_selection_determined(
    a: Seq<Candidate>,
    b: Seq<Candidate>,
    g: Grid<u8>,
    quality_level: Binary32,
    min_distance: u32,
    max_features: int,
)
    requires
        g.is_exact(),
        is_selection(a, g, quality_level, min_distance, max_features),
        is_selection(b, g, quality_level, min_distance, max_features),
    ensures
        a == b,
{
    let first = choose|order: Seq<Candidate>|
        #[trigger] is_ranking(order, g, quality_level) && a == selected(
            order,
            min_distance,
            max_features,
        );
    let second = choose|order: Seq<Candidate>|
        #[trigger] is_ranking(order, g, quality_level) && b == selected(
            order,
            min_distance,
            max_features,
        );
    let all = candidates(g, quality_level);
    assert forall|i: int, j: int|
        0 <= i < first.len() && 0 <= j < second.len() && is_same_pixel(
            #[trigger] first[i],
            #[trigger] second[j],
        ) implies first[i] == second[j] by {
        lemma_same_candidates(first, all, i);
        lemma_same_candidates(second, all, j);
        lemma_candidate(g, quality_level, first[i]);
        lemma_candidate(g, quality_level, second[j]);
    }
    lemma_ranking_unique(first, second);
}

/// What is detected in an image is determined by the image and the settings:
/// nothing that was detected before has a part in it.
pub proof fn lemma_detection_determined(
    a: Seq<Feature>,
    b: Seq<Feature>,
    g: Grid<u8>,
    quality_level: Binary32,
    min_distance: u32,
    max_features: int,
)
    requires
        g.is_exact(),
        is_detection(a, g, quality_level, min_distance, max_features),
        is_detection(b, g, quality_level, min_distance, max_features),
    ensures
        a == b,
{
    let first = choose|points: Seq<Candidate>|
        #[trigger] is_selection(points, g, quality_level, min_distance, max_features) && a
            == features_of(points);
    let second = choose|points: Seq<Candidate>|
        #[trigger] is_selection(points, g, quality_level, min_distance, max_features) && b
            == features_of(points);
    lemma_selection_determined(first, second, g, quality_level, min_distance, max_features);
}

/// What is detected in two views of the same pixels is the same, whatever the
/// strides of their rows, the buffers behind them and the storage that was
/// used.
pub proof fn lemma_detection_in_views(
    a: Seq<Feature>,
    b: Seq<Feature>,
    first: FlatSamples<'_>,
    second: FlatSamples<'_>,
    quality_level: Binary32,
    min_distance: u32,
    max_features: int,
)
    requires
        is_same_image(first, second),
        is_detection(a, first.grid(), quality_level, min_distance, max_features),
        is_detection(b, second.grid(), quality_level, min_distance, max_features),
    ensures
        a == b,
{
    lemma_same_image(first, second);
    lemma_area_nonnegative(first.layout.width, first.layout.height);
    lemma_detection_determined(
        a,
        b,
        first.grid(),
        quality_level,
        min_distance,
        max_features,
    );
}

pub open spec fn is_same_pixel(a: Candidate, b: Candidate) -> bool {
    a.0 == b.0 && a.1 == b.1
}

/// There is one order of candidates that stand for different pixels.
proof fn lemma_ranking_unique(a: Seq<Candidate>, b: Seq<Candidate>)
    requires
        a.to_multiset() == b.to_multiset(),
        is_ordered(a),
        is_ordered(b),
        forall|i: int, j: int|
            0 <= i < a.len() && 0 <= j < b.len() && is_same_pixel(
                #[trigger] a[i],
                #[trigger] b[j],
            ) ==> a[i] == b[j],
    ensures
        a == b,
    decreases a.len(),
{
    vstd::seq_lib::to_multiset_len(a);
    vstd::seq_lib::to_multiset_len(b);
    if a.len() == 0 {
        assert(a =~= b);
    } else {
        lemma_same_candidates(a, b, 0);
        lemma_same_candidates(b, a, 0);
        let j = choose|j: int| 0 <= j < b.len() && b[j] == a[0];
        let i = choose|i: int| 0 <= i < a.len() && a[i] == b[0];
        assert(i > 0 ==> !comes_before(a[i], a[0]));
        assert(j > 0 ==> !comes_before(b[j], b[0]));
        assert(is_same_pixel(a[0], b[0]));
        let ra = a.drop_first();
        let rb = b.drop_first();
        vstd::seq_lib::to_multiset_remove(a, 0);
        vstd::seq_lib::to_multiset_remove(b, 0);
        assert(a.remove(0) =~= ra);
        assert(b.remove(0) =~= rb);
        assert forall|i: int, j: int|
            0 <= i < ra.len() && 0 <= j < rb.len() && is_same_pixel(
                #[trigger] ra[i],
                #[trigger] rb[j],
            ) implies ra[i] == rb[j] by {
            assert(ra[i] == a[i + 1] && rb[j] == b[j + 1]);
        }
        lemma_ordered_rest(a);
        lemma_ordered_rest(b);
        lemma_ranking_unique(ra, rb);
        assert(a =~= seq![a[0]] + ra);
        assert(b =~= seq![b[0]] + rb);
    }
}

proof fn lemma_ordered_rest(s: Seq<Candidate>)
    requires
        is_ordered(s),
        0 < s.len(),
    ensures
        is_ordered(s.drop_first()),
{
    let rest = s.drop_first();
    assert forall|i: int, j: int| 0 <= i < j < rest.len() implies !comes_before(
        #[trigger] rest[j],
        #[trigger] rest[i],
    ) by {
        assert(rest[i] == s[i + 1] && rest[j] == s[j + 1]);
    }
}

/// In images of up to 24 bits of width and height the positions of features
/// are whole pixels, and give the candidates back.
pub proof fn lemma_whole_points(s: Seq<Candidate>)
    requires
        forall|i: int|
            0 <= i < s.len() ==> (#[trigger] s[i]).0 < 0x100_0000 && s[i].1 < 0x100_0000,
    ensures
        points_of(features_of(s)) == s,
{
    assert forall|i: int| 0 <= i < s.len() implies points_of(features_of(s))[i] == s[i] by {
        lemma_whole_coordinate(s[i].0);
        lemma_whole_coordinate(s[i].1);
    }
    assert(points_of(features_of(s)) =~= s);
}

proof fn lemma_whole_coordinate(c: u32)
    requires
        c < 0x100_0000,
    ensures
        of_int(c as int).floor_within(0, u32::MAX as int) == c,
{
    lemma_of_int_exact(c as int);
    vstd::arithmetic::power2::lemma_pow2_pos(149);
    vstd::arithmetic::div_mod::lemma_div_multiples_vanish(
        c as int,
        vstd::arithmetic::power2::pow2(149) as int,
    );
    assert(c * vstd::arithmetic::power2::pow2(149) == vstd::arithmetic::power2::pow2(149) * c)
        by (nonlinear_arith);
}

/// The best score is zero or one of the scores, and none of them, nor zero, is
/// higher.
pub proof fn lemma_best_score(s: Seq<Candidate>)
    ensures
        forall|i: int| 0 <= i < s.len() ==> !best_score(s).is_less((#[trigger] s[i]).2),
        !best_score(s).is_less(Binary32 { bits: 0 }),
        best_score(s) == (Binary32 { bits: 0 }) || exists|i: int|
            0 <= i < s.len() && best_score(s) == (#[trigger] s[i]).2,
    decreases s.len(),
{
    if s.len() > 0 {
        let before = s.drop_last();
        lemma_best_score(before);
        lemma_best_score_sign(before);
        assert forall|i: int| 0 <= i < s.len() implies !best_score(s).is_less(
            (#[trigger] s[i]).2,
        ) by {
            if i < s.len() - 1 {
                assert(before[i] == s[i]);
            }
        }
        if best_score(s) == best_score(before) {
            if best_score(before) != (Binary32 { bits: 0 }) {
                let i = choose|i: int|
                    0 <= i < before.len() && best_score(before) == (#[trigger] before[i]).2;
                assert(s[i] == before[i]);
            }
        } else {
            assert(best_score(s) == s[s.len() - 1].2);
        }
    }
}

} // verus!
